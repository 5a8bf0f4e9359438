//! Character-level building blocks shared by the procfs and cgroupfs parsers.
//!
//! Every kernel text format handled by this crate is line oriented and
//! delimited by ASCII characters.  The specifications below describe lines,
//! whitespace-separated fields, single-character splits and unsigned decimal
//! numbers over `Seq<char>`; the executable functions compute exactly those.

use vstd::prelude::*;
use vstd::std_specs::iter::IteratorSpec;

verus! {

// ---------------------------------------------------------------------------
// Character classes
// ---------------------------------------------------------------------------

/// ASCII whitespace as used by `split_ascii_whitespace`: space, tab, line
/// feed, form feed and carriage return.
pub open spec fn is_ascii_ws(c: char) -> bool {
    c == ' ' || c == '\t' || c == '\n' || c == '\x0C' || c == '\r'
}

/// Unicode `White_Space`, the class removed by `str::trim`.
pub open spec fn is_unicode_ws(c: char) -> bool {
    let v = c as u32;
    (0x09 <= v && v <= 0x0D) || v == 0x20 || v == 0x85 || v == 0xA0 || v == 0x1680 || (0x2000 <= v
        && v <= 0x200A) || v == 0x2028 || v == 0x2029 || v == 0x202F || v == 0x205F || v == 0x3000
}

/// A line is blank when trimming it leaves nothing.
pub open spec fn is_blank(line: Seq<char>) -> bool {
    forall|i: int| 0 <= i < line.len() ==> #[trigger] is_unicode_ws(line[i])
}

pub open spec fn is_digit(c: char) -> bool {
    0x30 <= (c as u32) && (c as u32) <= 0x39
}

pub open spec fn digit_value(c: char) -> nat {
    ((c as u32) - 0x30) as nat
}

pub open spec fn all_digits(s: Seq<char>) -> bool {
    forall|i: int| 0 <= i < s.len() ==> #[trigger] is_digit(s[i])
}

// ---------------------------------------------------------------------------
// Splitting
// ---------------------------------------------------------------------------

/// The pieces of `s` between occurrences of `sep` (there is always one more
/// piece than separator).
pub open spec fn split_on(s: Seq<char>, sep: char) -> Seq<Seq<char>>
    decreases s.len(),
{
    if s.len() == 0 {
        seq![Seq::<char>::empty()]
    } else {
        let p = split_on(s.drop_last(), sep);
        if s.last() == sep {
            p.push(Seq::<char>::empty())
        } else {
            p.update(p.len() - 1, p.last().push(s.last()))
        }
    }
}

pub open spec fn strip_cr(line: Seq<char>) -> Seq<char> {
    if line.len() > 0 && line.last() == '\r' {
        line.drop_last()
    } else {
        line
    }
}

/// `str::lines`: pieces separated by `\n`; a terminated piece loses one
/// trailing `\r`; a final empty piece (after a trailing `\n`) is not a line.
pub open spec fn lines_of(s: Seq<char>) -> Seq<Seq<char>> {
    let p = split_on(s, '\n');
    let terminated = p.drop_last().map_values(|l: Seq<char>| strip_cr(l));
    if p.last().len() == 0 {
        terminated
    } else {
        terminated.push(p.last())
    }
}

/// `str::split_ascii_whitespace`: maximal runs of non-whitespace characters.
pub open spec fn fields_of(s: Seq<char>) -> Seq<Seq<char>>
    decreases s.len(),
{
    if s.len() == 0 {
        Seq::<Seq<char>>::empty()
    } else {
        let f = fields_of(s.drop_last());
        let c = s.last();
        if is_ascii_ws(c) {
            f
        } else if s.len() >= 2 && !is_ascii_ws(s[s.len() - 2]) {
            f.update(f.len() - 1, f.last().push(c))
        } else {
            f.push(seq![c])
        }
    }
}

/// The character sequences held by a vector of character vectors.
pub open spec fn seqs_of(v: Seq<Vec<char>>) -> Seq<Seq<char>> {
    v.map_values(|x: Vec<char>| x@)
}

/// `i` is the first position of `c` in `s`.
pub open spec fn first_at(s: Seq<char>, c: char, i: int) -> bool {
    &&& 0 <= i < s.len()
    &&& s[i] == c
    &&& forall|j: int| 0 <= j < i ==> s[j] != c
}

/// `str::split_once` on a single character.
pub open spec fn split_once(s: Seq<char>, c: char) -> Option<(Seq<char>, Seq<char>)> {
    if exists|i: int| first_at(s, c, i) {
        let i = choose|i: int| first_at(s, c, i);
        Some((s.take(i), s.skip(i + 1)))
    } else {
        None
    }
}

// ---------------------------------------------------------------------------
// Unsigned decimal numbers
// ---------------------------------------------------------------------------

pub open spec fn digits_value(d: Seq<char>) -> nat
    decreases d.len(),
{
    if d.len() == 0 {
        0
    } else {
        digits_value(d.drop_last()) * 10 + digit_value(d.last())
    }
}

/// Integer `from_str` for an unsigned type: an optional `+`, then one or
/// more ASCII digits whose value does not exceed `max`.
pub open spec fn parse_unsigned(s: Seq<char>, max: nat) -> Option<nat> {
    let d = if s.len() > 0 && s[0] == '+' {
        s.drop_first()
    } else {
        s
    };
    if d.len() > 0 && all_digits(d) && digits_value(d) <= max {
        Some(digits_value(d))
    } else {
        None
    }
}

pub open spec fn parse_u64(s: Seq<char>) -> Option<u64> {
    match parse_unsigned(s, u64::MAX as nat) {
        Some(v) => Some(v as u64),
        None => None,
    }
}

pub open spec fn parse_u32(s: Seq<char>) -> Option<u32> {
    match parse_unsigned(s, u32::MAX as nat) {
        Some(v) => Some(v as u32),
        None => None,
    }
}

pub proof fn lemma_digits_prefix(d: Seq<char>, k: int)
    requires
        0 <= k <= d.len(),
    ensures
        digits_value(d.take(k)) <= digits_value(d),
    decreases d.len() - k,
{
    if k < d.len() {
        lemma_digits_prefix(d, k + 1);
        assert(d.take(k + 1).drop_last() =~= d.take(k));
    } else {
        assert(d.take(k) =~= d);
    }
}

// ---------------------------------------------------------------------------
// Executable counterparts
// ---------------------------------------------------------------------------

/// Collects the characters of a string slice, in order.
pub fn chars_of(s: &str) -> (out: Vec<char>)
    ensures
        out@ == s@,
{
    let mut out: Vec<char> = Vec::new();
    for c in it: s.chars()
        invariant
            out@ == it.seq().take(it.index() as int),
    {
        out.push(c);
    }
    out
}

/// Builds a string holding exactly the given characters.
pub fn string_of(chars: &[char]) -> (out: String)
    ensures
        out@ == chars@,
{
    let mut out = String::new();
    let mut i: usize = 0;
    while i < chars.len()
        invariant
            i <= chars.len(),
            out@ == chars@.take(i as int),
        decreases chars.len() - i,
    {
        push_char(&mut out, chars[i]);
        assert(chars@.take(i + 1) =~= chars@.take(i as int).push(chars@[i as int]));
        i += 1;
    }
    assert(chars@.take(i as int) =~= chars@);
    out
}

/// Appends one character to a string (`String::push`).
#[verifier::external_body]
pub(crate) fn push_char(s: &mut String, c: char)
    ensures
        final(s)@ == old(s)@.push(c),
{
    s.push(c);
}

/// Appends the characters of `s`.
pub fn append_str(out: &mut String, s: &str)
    ensures
        final(out)@ == old(out)@ + s@,
{
    let chars = chars_of(s);
    let mut i: usize = 0;
    while i < chars.len()
        invariant
            i <= chars@.len(),
            chars@ == s@,
            out@ == old(out)@ + chars@.take(i as int),
        decreases chars.len() - i,
    {
        push_char(out, chars[i]);
        assert(chars@.take(i + 1) =~= chars@.take(i as int).push(chars@[i as int]));
        i += 1;
    }
    assert(chars@.take(i as int) =~= chars@);
}

/// The ASCII digit for `d` (below ten).
pub open spec fn digit_char(d: nat) -> char {
    ((d + 48) as u8) as char
}

/// The decimal representation of `n`, without leading zeros.
pub open spec fn decimal(n: nat) -> Seq<char>
    decreases n,
{
    if n < 10 {
        seq![digit_char(n)]
    } else {
        decimal(n / 10).push(digit_char(n % 10))
    }
}

/// Appends the decimal representation of `n`.
pub fn push_decimal(out: &mut String, n: u64)
    ensures
        final(out)@ == old(out)@ + decimal(n as nat),
    decreases n,
{
    if n >= 10 {
        push_decimal(out, n / 10);
    }
    let d: u8 = (n % 10) as u8;
    push_char(out, (d + 48) as char);
    proof {
        if n >= 10 {
            assert(old(out)@ + decimal(n as nat) =~= old(out)@ + decimal((n / 10) as nat) + seq![
                digit_char((n % 10) as nat),
            ]);
        } else {
            assert(old(out)@ + decimal(n as nat) =~= old(out)@ + seq![digit_char(n as nat)]);
        }
    }
}

pub fn is_ascii_ws_char(c: char) -> (b: bool)
    ensures
        b == is_ascii_ws(c),
{
    c == ' ' || c == '\t' || c == '\n' || c == '\x0C' || c == '\r'
}

pub fn is_unicode_ws_char(c: char) -> (b: bool)
    ensures
        b == is_unicode_ws(c),
{
    let v = c as u32;
    (0x09 <= v && v <= 0x0D) || v == 0x20 || v == 0x85 || v == 0xA0 || v == 0x1680 || (0x2000 <= v
        && v <= 0x200A) || v == 0x2028 || v == 0x2029 || v == 0x202F || v == 0x205F || v == 0x3000
}

/// Whether trimming the line would leave it empty.
pub fn blank(line: &[char]) -> (b: bool)
    ensures
        b == is_blank(line@),
{
    let mut i: usize = 0;
    while i < line.len()
        invariant
            i <= line.len(),
            forall|j: int| 0 <= j < i ==> #[trigger] is_unicode_ws(line@[j]),
        decreases line.len() - i,
    {
        if !is_unicode_ws_char(line[i]) {
            return false;
        }
        i += 1;
    }
    true
}

/// The lines of `s` as `str::lines` yields them.
pub fn split_lines(s: &[char]) -> (out: Vec<Vec<char>>)
    ensures
        seqs_of(out@) == lines_of(s@),
{
    let mut done: Vec<Vec<char>> = Vec::new();
    let mut cur: Vec<char> = Vec::new();
    let mut i: usize = 0;
    while i < s.len()
        invariant
            i <= s.len(),
            split_on(s@.take(i as int), '\n').len() >= 1,
            seqs_of(done@) == split_on(s@.take(i as int), '\n').drop_last().map_values(
                |l: Seq<char>| strip_cr(l),
            ),
            cur@ == split_on(s@.take(i as int), '\n').last(),
        decreases s.len() - i,
    {
        let ghost before = s@.take(i as int);
        assert(s@.take(i + 1).drop_last() =~= before);
        let c = s[i];
        if c == '\n' {
            let mut line = cur;
            let n = line.len();
            if n > 0 && line[n - 1] == '\r' {
                line.pop();
            }
            assert(line@ == strip_cr(split_on(before, '\n').last()));
            let ghost old_dv = seqs_of(done@);
            let ghost line_v = line@;
            done.push(line);
            assert(seqs_of(done@) =~= old_dv.push(line_v));
            cur = Vec::new();
            proof {
                let p = split_on(before, '\n');
                assert(split_on(s@.take(i + 1), '\n') == p.push(Seq::<char>::empty()));
                assert(p.push(Seq::<char>::empty()).drop_last() =~= p);
                assert(p =~= p.drop_last().push(p.last()));
                assert(p.map_values(|l: Seq<char>| strip_cr(l)) =~= p.drop_last().map_values(
                    |l: Seq<char>| strip_cr(l),
                ).push(strip_cr(p.last())));
            }
        } else {
            cur.push(c);
            proof {
                let p = split_on(before, '\n');
                let q = split_on(s@.take(i + 1), '\n');
                assert(q == p.update(p.len() - 1, p.last().push(c)));
                assert(q.drop_last() =~= p.drop_last());
            }
        }
        i += 1;
    }
    assert(s@.take(i as int) =~= s@);
    let ghost old_dv = seqs_of(done@);
    let ghost cur_v = cur@;
    if cur.len() > 0 {
        done.push(cur);
        assert(seqs_of(done@) =~= old_dv.push(cur_v));
    }
    done
}

/// The ASCII-whitespace-separated fields of `s`.
pub fn split_fields(s: &[char]) -> (out: Vec<Vec<char>>)
    ensures
        seqs_of(out@) == fields_of(s@),
{
    let mut done: Vec<Vec<char>> = Vec::new();
    let mut cur: Vec<char> = Vec::new();
    let mut in_field = false;
    let mut i: usize = 0;
    while i < s.len()
        invariant
            i <= s.len(),
            in_field == (i > 0 && !is_ascii_ws(s@[i - 1])),
            in_field ==> fields_of(s@.take(i as int)) == seqs_of(done@).push(cur@),
            !in_field ==> fields_of(s@.take(i as int)) == seqs_of(done@),
            !in_field ==> cur@.len() == 0,
        decreases s.len() - i,
    {
        let ghost before = s@.take(i as int);
        assert(s@.take(i + 1).drop_last() =~= before);
        let c = s[i];
        assert(s@.take(i + 1).last() == c);
        if is_ascii_ws_char(c) {
            assert(fields_of(s@.take(i + 1)) == fields_of(before));
            if in_field {
                let ghost old_dv = seqs_of(done@);
                let ghost cur_v = cur@;
                done.push(cur);
                assert(seqs_of(done@) =~= old_dv.push(cur_v));
                cur = Vec::new();
            }
            in_field = false;
        } else {
            let ghost old_done = seqs_of(done@);
            let ghost old_cur = cur@;
            cur.push(c);
            proof {
                if in_field {
                    let f = old_done.push(old_cur);
                    assert(fields_of(s@.take(i + 1)) == f.update(f.len() - 1, f.last().push(c)));
                    assert(f.update(f.len() - 1, f.last().push(c)) =~= old_done.push(cur@));
                } else {
                    assert(cur@ =~= seq![c]);
                }
            }
            in_field = true;
        }
        i += 1;
    }
    assert(s@.take(i as int) =~= s@);
    let ghost old_dv = seqs_of(done@);
    let ghost cur_v = cur@;
    if in_field {
        done.push(cur);
        assert(seqs_of(done@) =~= old_dv.push(cur_v));
    }
    done
}

/// `split_once` on a single character, returning owned halves.
pub fn split_once_char(s: &[char], c: char) -> (out: Option<(Vec<char>, Vec<char>)>)
    ensures
        match out {
            Some((a, b)) => split_once(s@, c) == Some((a@, b@)),
            None => split_once(s@, c) is None,
        },
{
    let mut i: usize = 0;
    while i < s.len()
        invariant
            i <= s.len(),
            forall|j: int| 0 <= j < i ==> s@[j] != c,
        decreases s.len() - i,
    {
        if s[i] == c {
            assert(first_at(s@, c, i as int));
            let ghost k = choose|k: int| first_at(s@, c, k);
            assert(k == i as int) by {
                if k < i {
                    assert(s@[k] != c);
                }
                if k > i {
                    assert(s@[i as int] != c);
                }
            }
            let a = slice_to_vec(s, 0, i);
            let b = slice_to_vec(s, i + 1, s.len());
            return Some((a, b));
        }
        i += 1;
    }
    assert(!exists|k: int| first_at(s@, c, k)) by {
        if exists|k: int| first_at(s@, c, k) {
            let k = choose|k: int| first_at(s@, c, k);
            assert(s@[k] == c);
        }
    }
    None
}

/// A copy of `s[from..to]`.
pub fn slice_to_vec(s: &[char], from: usize, to: usize) -> (out: Vec<char>)
    requires
        from <= to <= s.len(),
    ensures
        out@ == s@.subrange(from as int, to as int),
{
    let mut out: Vec<char> = Vec::new();
    let mut i = from;
    while i < to
        invariant
            from <= i <= to <= s.len(),
            out@ == s@.subrange(from as int, i as int),
        decreases to - i,
    {
        out.push(s[i]);
        assert(s@.subrange(from as int, i + 1) =~= s@.subrange(from as int, i as int).push(
            s@[i as int],
        ));
        i += 1;
    }
    out
}

/// Parses an unsigned decimal number no larger than `max`.
fn parse_unsigned_bounded(s: &[char], max: u64) -> (out: Option<u64>)
    ensures
        match out {
            Some(v) => parse_unsigned(s@, max as nat) == Some(v as nat),
            None => parse_unsigned(s@, max as nat) is None,
        },
{
    let start: usize = if s.len() > 0 && s[0] == '+' {
        1
    } else {
        0
    };
    let ghost d = if s@.len() > 0 && s@[0] == '+' {
        s@.drop_first()
    } else {
        s@
    };
    assert(d =~= s@.subrange(start as int, s@.len() as int));
    if start >= s.len() {
        return None;
    }
    let mut value: u64 = 0;
    let mut i = start;
    while i < s.len()
        invariant
            start <= i <= s.len(),
            d == s@.subrange(start as int, s@.len() as int),
            d == (if s@.len() > 0 && s@[0] == '+' {
                s@.drop_first()
            } else {
                s@
            }),
            value as nat == digits_value(d.take(i - start)),
            value <= max,
            all_digits(d.take(i - start)),
        decreases s.len() - i,
    {
        let c = s[i];
        let k: usize = i - start;
        assert(d[k as int] == c);
        assert(d.take(k + 1).drop_last() =~= d.take(k as int));
        let v = c as u32;
        if v < 0x30 || v > 0x39 {
            assert(!all_digits(d)) by {
                assert(!is_digit(d[k as int]));
            }
            return None;
        }
        let digit: u64 = (v - 0x30) as u64;
        let next = value.checked_mul(10);
        let next = match next {
            Some(x) => x.checked_add(digit),
            None => None,
        };
        match next {
            Some(x) if x <= max => {
                value = x;
            },
            _ => {
                proof {
                    assert(digits_value(d.take(k + 1)) > max);
                    lemma_digits_prefix(d, k + 1);
                }
                return None;
            },
        }
        assert(all_digits(d.take(k + 1))) by {
            assert forall|j: int| 0 <= j < k + 1 implies #[trigger] is_digit(d.take(k + 1)[j]) by {
                if j < k {
                    assert(d.take(k + 1)[j] == d.take(k as int)[j]);
                }
            }
        }
        i += 1;
    }
    assert(d.take(i - start) =~= d);
    Some(value)
}

pub fn parse_u64_chars(s: &[char]) -> (out: Option<u64>)
    ensures
        out == parse_u64(s@),
{
    parse_unsigned_bounded(s, u64::MAX)
}

pub fn parse_u32_chars(s: &[char]) -> (out: Option<u32>)
    ensures
        out == parse_u32(s@),
{
    match parse_unsigned_bounded(s, u32::MAX as u64) {
        Some(v) => Some(v as u32),
        None => None,
    }
}

/// Whether `s` holds exactly the characters of `lit`.
pub fn eq_lit(s: &[char], lit: &str) -> (b: bool)
    ensures
        b == (s@ == lit@),
{
    let l = chars_of(lit);
    if s.len() != l.len() {
        return false;
    }
    let mut i: usize = 0;
    while i < s.len()
        invariant
            i <= s.len(),
            s@.len() == l@.len(),
            l@ == lit@,
            forall|j: int| 0 <= j < i ==> s@[j] == l@[j],
        decreases s.len() - i,
    {
        if s[i] != l[i] {
            return false;
        }
        i += 1;
    }
    assert(s@ =~= l@);
    true
}

/// Element-wise equality of two character vectors.
pub fn eq_chars(a: &[char], b: &[char]) -> (r: bool)
    ensures
        r == (a@ == b@),
{
    if a.len() != b.len() {
        return false;
    }
    let mut i: usize = 0;
    while i < a.len()
        invariant
            i <= a.len(),
            a@.len() == b@.len(),
            forall|j: int| 0 <= j < i ==> a@[j] == b@[j],
        decreases a.len() - i,
    {
        if a[i] != b[i] {
            return false;
        }
        i += 1;
    }
    assert(a@ =~= b@);
    true
}

// ---------------------------------------------------------------------------
// Trimming, UTF-8 length and ordering
// ---------------------------------------------------------------------------

/// `str::trim_start`: drops leading Unicode whitespace.
pub open spec fn trim_start(s: Seq<char>) -> Seq<char>
    decreases s.len(),
{
    if s.len() > 0 && is_unicode_ws(s[0]) {
        trim_start(s.drop_first())
    } else {
        s
    }
}

/// `str::trim_end`: drops trailing Unicode whitespace.
pub open spec fn trim_end(s: Seq<char>) -> Seq<char>
    decreases s.len(),
{
    if s.len() > 0 && is_unicode_ws(s.last()) {
        trim_end(s.drop_last())
    } else {
        s
    }
}

/// `str::trim`.
pub open spec fn trim(s: Seq<char>) -> Seq<char> {
    trim_end(trim_start(s))
}

pub fn trim_chars(s: &[char]) -> (out: Vec<char>)
    ensures
        out@ == trim(s@),
{
    let mut a: usize = 0;
    assert(s@.subrange(0, s@.len() as int) =~= s@);
    while a < s.len() && is_unicode_ws_char(s[a])
        invariant
            a <= s.len(),
            trim_start(s@) == trim_start(s@.subrange(a as int, s@.len() as int)),
        decreases s.len() - a,
    {
        assert(s@.subrange(a as int, s@.len() as int).drop_first() =~= s@.subrange(
            a + 1,
            s@.len() as int,
        ));
        a += 1;
    }
    let ghost t = s@.subrange(a as int, s@.len() as int);
    assert(trim_start(s@) == t);
    let mut b: usize = s.len();
    assert(t.subrange(0, (b - a) as int) =~= t);
    while b > a && is_unicode_ws_char(s[b - 1])
        invariant
            a <= b <= s.len(),
            t == s@.subrange(a as int, s@.len() as int),
            trim_end(t) == trim_end(s@.subrange(a as int, b as int)),
        decreases b,
    {
        assert(s@.subrange(a as int, b as int).drop_last() =~= s@.subrange(a as int, b - 1));
        b -= 1;
    }
    slice_to_vec(s, a, b)
}

/// Bytes taken by one character in UTF-8.
pub open spec fn utf8_width(c: char) -> nat {
    let v = c as u32;
    if v < 0x80 {
        1
    } else if v < 0x800 {
        2
    } else if v < 0x10000 {
        3
    } else {
        4
    }
}

/// Bytes taken by a character sequence in UTF-8 (`str::len`).
pub open spec fn utf8_len(s: Seq<char>) -> nat
    decreases s.len(),
{
    if s.len() == 0 {
        0
    } else {
        utf8_len(s.drop_last()) + utf8_width(s.last())
    }
}

/// The UTF-8 length of `s`, or `None` once it exceeds `limit`.
pub fn utf8_len_at_most(s: &[char], limit: usize) -> (out: Option<usize>)
    ensures
        match out {
            Some(n) => n as nat == utf8_len(s@) && n <= limit,
            None => utf8_len(s@) > limit,
        },
{
    let mut n: usize = 0;
    let mut i: usize = 0;
    while i < s.len()
        invariant
            i <= s.len(),
            n as nat == utf8_len(s@.take(i as int)),
            n <= limit,
        decreases s.len() - i,
    {
        assert(s@.take(i + 1).drop_last() =~= s@.take(i as int));
        let v = s[i] as u32;
        let w: usize = if v < 0x80 {
            1
        } else if v < 0x800 {
            2
        } else if v < 0x10000 {
            3
        } else {
            4
        };
        if w > limit - n {
            proof {
                lemma_utf8_len_prefix(s@, i + 1);
            }
            return None;
        }
        n = n + w;
        i += 1;
    }
    assert(s@.take(i as int) =~= s@);
    Some(n)
}

pub proof fn lemma_utf8_len_prefix(s: Seq<char>, k: int)
    requires
        0 <= k <= s.len(),
    ensures
        utf8_len(s.take(k)) <= utf8_len(s),
    decreases s.len() - k,
{
    if k < s.len() {
        lemma_utf8_len_prefix(s, k + 1);
        assert(s.take(k + 1).drop_last() =~= s.take(k));
    } else {
        assert(s.take(k) =~= s);
    }
}

/// Lexicographic order of character sequences by code point, which is the
/// byte order of their UTF-8 encodings (the order of `String` keys).
pub open spec fn seq_lt(a: Seq<char>, b: Seq<char>) -> bool
    decreases a.len(),
{
    if b.len() == 0 {
        false
    } else if a.len() == 0 {
        true
    } else if (a[0] as u32) < (b[0] as u32) {
        true
    } else if (a[0] as u32) > (b[0] as u32) {
        false
    } else {
        seq_lt(a.drop_first(), b.drop_first())
    }
}

/// Lists without repeats in increasing `seq_lt` order.
pub open spec fn strictly_sorted(s: Seq<Seq<char>>) -> bool {
    forall|i: int, j: int| 0 <= i < j < s.len() ==> seq_lt(#[trigger] s[i], #[trigger] s[j])
}

pub proof fn lemma_seq_lt_irreflexive(a: Seq<char>)
    ensures
        !seq_lt(a, a),
    decreases a.len(),
{
    if a.len() > 0 {
        lemma_seq_lt_irreflexive(a.drop_first());
    }
}

pub proof fn lemma_seq_lt_total(a: Seq<char>, b: Seq<char>)
    ensures
        seq_lt(a, b) || seq_lt(b, a) || a == b,
    decreases a.len(),
{
    if a.len() == 0 && b.len() == 0 {
        assert(a =~= b);
    } else if a.len() > 0 && b.len() > 0 && (a[0] as u32) == (b[0] as u32) {
        lemma_seq_lt_total(a.drop_first(), b.drop_first());
        if a.drop_first() == b.drop_first() {
            vstd::utf8::char_u32_cast(a[0], a[0] as u32);
            vstd::utf8::char_u32_cast(b[0], b[0] as u32);
            assert(a[0] == b[0]);
            assert(a =~= seq![a[0]] + a.drop_first());
            assert(b =~= seq![b[0]] + b.drop_first());
        }
    }
}

pub proof fn lemma_seq_lt_transitive(a: Seq<char>, b: Seq<char>, c: Seq<char>)
    requires
        seq_lt(a, b),
        seq_lt(b, c),
    ensures
        seq_lt(a, c),
    decreases a.len(),
{
    if a.len() > 0 && b.len() > 0 && c.len() > 0 && (a[0] as u32) == (b[0] as u32) && (b[0] as u32)
        == (c[0] as u32) {
        lemma_seq_lt_transitive(a.drop_first(), b.drop_first(), c.drop_first());
    }
}

/// A strictly sorted list has no repeats, so it has as many elements as its
/// set.
pub proof fn lemma_strictly_sorted_set_len(s: Seq<Seq<char>>)
    requires
        strictly_sorted(s),
    ensures
        s.no_duplicates(),
        s.to_set().len() == s.len(),
        s.to_set().finite(),
{
    assert forall|i: int, j: int| 0 <= i < s.len() && 0 <= j < s.len() && i != j implies s[i]
        != s[j] by {
        if i < j {
            assert(seq_lt(s[i], s[j]));
            lemma_seq_lt_irreflexive(s[i]);
        } else {
            assert(seq_lt(s[j], s[i]));
            lemma_seq_lt_irreflexive(s[j]);
        }
    }
    s.unique_seq_to_set();
    vstd::seq_lib::seq_to_set_is_finite(s);
}

pub fn chars_lt(a: &[char], b: &[char]) -> (r: bool)
    ensures
        r == seq_lt(a@, b@),
{
    let mut i: usize = 0;
    assert(a@.skip(0) =~= a@);
    assert(b@.skip(0) =~= b@);
    while i < a.len() && i < b.len() && (a[i] as u32) == (b[i] as u32)
        invariant
            i <= a.len(),
            i <= b.len(),
            seq_lt(a@, b@) == seq_lt(a@.skip(i as int), b@.skip(i as int)),
        decreases a.len() - i,
    {
        assert(a@.skip(i as int).drop_first() =~= a@.skip(i + 1));
        assert(b@.skip(i as int).drop_first() =~= b@.skip(i + 1));
        i += 1;
    }
    if i == b.len() {
        false
    } else if i == a.len() {
        true
    } else {
        assert(a@.skip(i as int)[0] == a@[i as int]);
        assert(b@.skip(i as int)[0] == b@[i as int]);
        (a[i] as u32) < (b[i] as u32)
    }
}

// ---------------------------------------------------------------------------
// Separator runs, last occurrences and substrings
// ---------------------------------------------------------------------------

/// `s.split(sep).filter(|p| !p.is_empty())`: maximal runs without `sep`.
pub open spec fn segments(s: Seq<char>, sep: char) -> Seq<Seq<char>>
    decreases s.len(),
{
    if s.len() == 0 {
        Seq::<Seq<char>>::empty()
    } else {
        let f = segments(s.drop_last(), sep);
        let c = s.last();
        if c == sep {
            f
        } else if s.len() >= 2 && s[s.len() - 2] != sep {
            f.update(f.len() - 1, f.last().push(c))
        } else {
            f.push(seq![c])
        }
    }
}

pub fn split_segments(s: &[char], sep: char) -> (out: Vec<Vec<char>>)
    ensures
        seqs_of(out@) == segments(s@, sep),
{
    let mut done: Vec<Vec<char>> = Vec::new();
    let mut cur: Vec<char> = Vec::new();
    let mut in_seg = false;
    let mut i: usize = 0;
    while i < s.len()
        invariant
            i <= s.len(),
            in_seg == (i > 0 && s@[i - 1] != sep),
            in_seg ==> segments(s@.take(i as int), sep) == seqs_of(done@).push(cur@),
            !in_seg ==> segments(s@.take(i as int), sep) == seqs_of(done@),
            !in_seg ==> cur@.len() == 0,
        decreases s.len() - i,
    {
        let ghost before = s@.take(i as int);
        assert(s@.take(i + 1).drop_last() =~= before);
        let c = s[i];
        assert(s@.take(i + 1).last() == c);
        if c == sep {
            assert(segments(s@.take(i + 1), sep) == segments(before, sep));
            if in_seg {
                let ghost old_dv = seqs_of(done@);
                let ghost cur_v = cur@;
                done.push(cur);
                assert(seqs_of(done@) =~= old_dv.push(cur_v));
                cur = Vec::new();
            }
            in_seg = false;
        } else {
            let ghost old_done = seqs_of(done@);
            let ghost old_cur = cur@;
            cur.push(c);
            proof {
                if in_seg {
                    let f = old_done.push(old_cur);
                    assert(segments(s@.take(i + 1), sep) == f.update(f.len() - 1, f.last().push(c)));
                    assert(f.update(f.len() - 1, f.last().push(c)) =~= old_done.push(cur@));
                } else {
                    assert(cur@ =~= seq![c]);
                }
            }
            in_seg = true;
        }
        i += 1;
    }
    assert(s@.take(i as int) =~= s@);
    let ghost old_dv = seqs_of(done@);
    let ghost cur_v = cur@;
    if in_seg {
        done.push(cur);
        assert(seqs_of(done@) =~= old_dv.push(cur_v));
    }
    done
}

/// `i` is the last position of `c` in `s`.
pub open spec fn last_at(s: Seq<char>, c: char, i: int) -> bool {
    &&& 0 <= i < s.len()
    &&& s[i] == c
    &&& forall|j: int| i < j < s.len() ==> s[j] != c
}

/// An occurrence of `c` at `i` means there is a last one, at or after `i`.
pub proof fn lemma_last_at_exists(s: Seq<char>, c: char, i: int)
    requires
        0 <= i < s.len(),
        s[i] == c,
    ensures
        exists|w: int| i <= w && last_at(s, c, w),
    decreases s.len() - i,
{
    if forall|j: int| i < j < s.len() ==> s[j] != c {
        assert(last_at(s, c, i));
    } else {
        let j = choose|j: int| i < j < s.len() && s[j] == c;
        lemma_last_at_exists(s, c, j);
        let w = choose|w: int| j <= w && last_at(s, c, w);
        assert(i <= w && last_at(s, c, w));
    }
}

/// `str::rsplit_once` on a single character.
pub open spec fn rsplit_once(s: Seq<char>, c: char) -> Option<(Seq<char>, Seq<char>)> {
    if exists|i: int| last_at(s, c, i) {
        let i = choose|i: int| last_at(s, c, i);
        Some((s.take(i), s.skip(i + 1)))
    } else {
        None
    }
}

pub fn rsplit_once_char(s: &[char], c: char) -> (out: Option<(Vec<char>, Vec<char>)>)
    ensures
        match out {
            Some((a, b)) => rsplit_once(s@, c) == Some((a@, b@)),
            None => rsplit_once(s@, c) is None,
        },
{
    let mut i: usize = s.len();
    while i > 0
        invariant
            i <= s.len(),
            forall|j: int| i <= j < s.len() ==> s@[j] != c,
        decreases i,
    {
        if s[i - 1] == c {
            let k = i - 1;
            assert(last_at(s@, c, k as int));
            let ghost w = choose|w: int| last_at(s@, c, w);
            assert(w == k as int) by {
                if w < k {
                    assert(s@[k as int] != c);
                }
                if w > k {
                    assert(s@[w] != c);
                }
            }
            let a = slice_to_vec(s, 0, k);
            let b = slice_to_vec(s, k + 1, s.len());
            return Some((a, b));
        }
        i -= 1;
    }
    assert(!exists|w: int| last_at(s@, c, w)) by {
        if exists|w: int| last_at(s@, c, w) {
            let w = choose|w: int| last_at(s@, c, w);
            assert(s@[w] == c);
        }
    }
    None
}

/// `pat` occurs in `s` at `i` and nowhere earlier.
pub open spec fn first_sub_at(s: Seq<char>, pat: Seq<char>, i: int) -> bool {
    &&& 0 <= i && i + pat.len() <= s.len()
    &&& s.subrange(i, i + pat.len()) == pat
    &&& forall|j: int| 0 <= j < i ==> #[trigger] s.subrange(j, j + pat.len()) != pat
}

/// `str::split_once` on a string pattern.
pub open spec fn split_once_sub(s: Seq<char>, pat: Seq<char>) -> Option<(Seq<char>, Seq<char>)> {
    if exists|i: int| first_sub_at(s, pat, i) {
        let i = choose|i: int| first_sub_at(s, pat, i);
        Some((s.take(i), s.skip(i + pat.len())))
    } else {
        None
    }
}

fn matches_at(s: &[char], pat: &[char], i: usize) -> (b: bool)
    requires
        i + pat.len() <= s.len(),
    ensures
        b == (s@.subrange(i as int, i + pat.len()) == pat@),
{
    let mut k: usize = 0;
    while k < pat.len()
        invariant
            k <= pat.len(),
            i + pat.len() <= s.len(),
            forall|t: int| 0 <= t < k ==> s@[i + t] == pat@[t],
        decreases pat.len() - k,
    {
        if s[i + k] != pat[k] {
            assert(s@.subrange(i as int, i + pat.len())[k as int] != pat@[k as int]);
            return false;
        }
        k += 1;
    }
    assert(s@.subrange(i as int, i + pat.len()) =~= pat@);
    true
}

pub fn split_once_pattern(s: &[char], pat: &[char]) -> (out: Option<(Vec<char>, Vec<char>)>)
    requires
        pat.len() > 0,
    ensures
        match out {
            Some((a, b)) => split_once_sub(s@, pat@) == Some((a@, b@)),
            None => split_once_sub(s@, pat@) is None,
        },
{
    if pat.len() > s.len() {
        assert(!exists|w: int| first_sub_at(s@, pat@, w));
        return None;
    }
    let mut i: usize = 0;
    let last = s.len() - pat.len();
    while i <= last
        invariant
            0 < pat.len() <= s.len(),
            last == s.len() - pat.len(),
            i <= s.len() - pat.len() + 1,
            forall|j: int| 0 <= j < i ==> #[trigger] s@.subrange(j, j + pat@.len()) != pat@,
        decreases s.len() - i,
    {
        if matches_at(s, pat, i) {
            assert(first_sub_at(s@, pat@, i as int));
            let ghost w = choose|w: int| first_sub_at(s@, pat@, w);
            assert(w == i as int) by {
                if w < i {
                    assert(s@.subrange(w, w + pat@.len()) != pat@);
                }
                if w > i {
                    assert(s@.subrange(i as int, i + pat@.len()) != pat@);
                }
            }
            let a = slice_to_vec(s, 0, i);
            let b = slice_to_vec(s, i + pat.len(), s.len());
            return Some((a, b));
        }
        i += 1;
    }
    assert(!exists|w: int| first_sub_at(s@, pat@, w)) by {
        if exists|w: int| first_sub_at(s@, pat@, w) {
            let w = choose|w: int| first_sub_at(s@, pat@, w);
            assert(s@.subrange(w, w + pat@.len()) == pat@);
        }
    }
    None
}


// ---------------------------------------------------------------------------
// `name: value` files with selected fields
// ---------------------------------------------------------------------------

/// The slot of the field a line names: none for a blank line, a line without
/// `:` or a name that is not selected.
pub open spec fn named_slot(line: Seq<char>, slot: spec_fn(Seq<char>) -> Option<int>) -> Option<int> {
    if is_blank(line) {
        None
    } else {
        match split_once(line, ':') {
            Some((name, _)) => slot(name),
            None => None,
        }
    }
}

/// The text after a line's first `:`.
pub open spec fn value_text(line: Seq<char>) -> Seq<char> {
    match split_once(line, ':') {
        Some((_, rest)) => rest,
        None => Seq::empty(),
    }
}

/// Every non-blank line has a `:`, every selected field carries a good
/// value, and no selected field occurs twice.
pub open spec fn selected_lines_valid(
    lines: Seq<Seq<char>>,
    slot: spec_fn(Seq<char>) -> Option<int>,
    value: spec_fn(Seq<char>) -> Option<u64>,
) -> bool {
    &&& forall|i: int|
        0 <= i < lines.len() && !is_blank(#[trigger] lines[i]) ==> split_once(lines[i], ':') is Some
    &&& forall|i: int|
        0 <= i < lines.len() && (#[trigger] named_slot(lines[i], slot)) is Some ==> value(
            value_text(lines[i]),
        ) is Some
    &&& forall|i: int, j: int|
        0 <= i < j < lines.len() && (#[trigger] named_slot(lines[i], slot)) is Some ==> #[trigger] named_slot(
            lines[j],
            slot,
        ) != named_slot(lines[i], slot)
}

/// Some line names the field at slot `s`.
pub open spec fn slot_named(lines: Seq<Seq<char>>, slot: spec_fn(Seq<char>) -> Option<int>, s: int) -> bool {
    exists|i: int| 0 <= i < lines.len() && #[trigger] named_slot(lines[i], slot) == Some(s)
}

/// The values of `n` selected fields after the given lines, each `None`
/// until its line; `None` as a whole once a non-blank line has no `:`, a
/// selected field repeats or carries a bad value.
pub open spec fn selected_values(
    lines: Seq<Seq<char>>,
    n: nat,
    slot: spec_fn(Seq<char>) -> Option<int>,
    value: spec_fn(Seq<char>) -> Option<u64>,
) -> Option<Seq<Option<u64>>>
    decreases lines.len(),
{
    if lines.len() == 0 {
        Some(Seq::new(n, |i: int| None::<u64>))
    } else {
        match selected_values(lines.drop_last(), n, slot, value) {
            None => None,
            Some(slots) => {
                let line = lines.last();
                if is_blank(line) {
                    Some(slots)
                } else {
                    match split_once(line, ':') {
                        None => None,
                        Some((name, rest)) => match slot(name) {
                            None => Some(slots),
                            Some(k) => if slots[k] is Some {
                                None
                            } else {
                                match value(rest) {
                                    Some(v) => Some(slots.update(k, Some(v))),
                                    None => None,
                                }
                            },
                        },
                    }
                }
            },
        }
    }
}

/// The values are found exactly when the lines follow the rules; each slot
/// then holds the value of the line that names it, or `None` when no line
/// does.
pub proof fn lemma_selected_values_exact(
    lines: Seq<Seq<char>>,
    n: nat,
    slot: spec_fn(Seq<char>) -> Option<int>,
    value: spec_fn(Seq<char>) -> Option<u64>,
)
    requires
        forall|name: Seq<char>| #[trigger] slot(name) matches Some(k) ==> 0 <= k < n,
    ensures
        selected_values(lines, n, slot, value) is Some <==> selected_lines_valid(lines, slot, value),
        selected_values(lines, n, slot, value) matches Some(v) ==> {
            &&& v.len() == n
            &&& forall|s: int| 0 <= s < n ==> (#[trigger] v[s] is Some <==> slot_named(lines, slot, s))
            &&& forall|i: int|
                0 <= i < lines.len() && (#[trigger] named_slot(lines[i], slot)) is Some ==> v[named_slot(
                    lines[i],
                    slot,
                )->0] == value(value_text(lines[i]))
        },
    decreases lines.len(),
{
    if lines.len() > 0 {
        let l = lines.drop_last();
        let x = lines.last();
        let last = lines.len() - 1;
        lemma_selected_values_exact(l, n, slot, value);
        assert(lines[last] == x);
        assert forall|i: int| 0 <= i < l.len() implies #[trigger] lines[i] == l[i] by {}
        // The rules on all lines hold on the earlier lines.
        if selected_lines_valid(lines, slot, value) {
            assert forall|i: int, j: int|
                0 <= i < j < l.len() && (#[trigger] named_slot(l[i], slot)) is Some implies #[trigger] named_slot(
                l[j],
                slot,
            ) != named_slot(l[i], slot) by {
                assert(lines[i] == l[i] && lines[j] == l[j]);
            }
            assert forall|i: int| 0 <= i < l.len() && !is_blank(#[trigger] l[i]) implies split_once(l[i], ':') is Some by {
                assert(lines[i] == l[i]);
            }
            assert forall|i: int| 0 <= i < l.len() && (#[trigger] named_slot(l[i], slot)) is Some implies value(
                value_text(l[i]),
            ) is Some by {
                assert(lines[i] == l[i]);
            }
        }
        match selected_values(l, n, slot, value) {
            None => {},
            Some(v) => {
                let xs = named_slot(x, slot);
                // Lines after the earlier ones: the last one adds its slot.
                assert forall|s: int| slot_named(lines, slot, s) <==> (slot_named(l, slot, s) || xs == Some(s)) by {
                    if slot_named(lines, slot, s) {
                        let i = choose|i: int| 0 <= i < lines.len() && #[trigger] named_slot(lines[i], slot) == Some(s);
                        if i < l.len() {
                            assert(named_slot(l[i], slot) == Some(s));
                        }
                    }
                    if slot_named(l, slot, s) {
                        let i = choose|i: int| 0 <= i < l.len() && #[trigger] named_slot(l[i], slot) == Some(s);
                        assert(named_slot(lines[i], slot) == Some(s));
                    }
                    if xs == Some(s) {
                        assert(named_slot(lines[last], slot) == Some(s));
                    }
                }
                if is_blank(x) {
                    assert(xs is None);
                    if selected_lines_valid(l, slot, value) {
                        assert forall|i: int, j: int|
                            0 <= i < j < lines.len() && (#[trigger] named_slot(lines[i], slot)) is Some implies #[trigger] named_slot(
                            lines[j],
                            slot,
                        ) != named_slot(lines[i], slot) by {
                            if j == last {
                            } else {
                                assert(lines[i] == l[i] && lines[j] == l[j]);
                            }
                        }
                    }
                } else {
                    match split_once(x, ':') {
                        None => {
                            assert(!selected_lines_valid(lines, slot, value)) by {
                                assert(!is_blank(lines[last]));
                            }
                        },
                        Some((name, rest)) => {
                            assert(value_text(x) == rest);
                            match slot(name) {
                                None => {
                                    assert(xs is None);
                                    if selected_lines_valid(l, slot, value) {
                                        assert forall|i: int, j: int|
                                            0 <= i < j < lines.len() && (#[trigger] named_slot(lines[i], slot)) is Some implies #[trigger] named_slot(
                                            lines[j],
                                            slot,
                                        ) != named_slot(lines[i], slot) by {
                                            if j == last {
                                            } else {
                                                assert(lines[i] == l[i] && lines[j] == l[j]);
                                            }
                                        }
                                    }
                                },
                                Some(k) => {
                                    assert(xs == Some(k));
                                    if v[k] is Some {
                                        let i = choose|i: int| 0 <= i < l.len() && #[trigger] named_slot(l[i], slot) == Some(k);
                                        assert(named_slot(lines[i], slot) == Some(k));
                                        assert(named_slot(lines[last], slot) == Some(k));
                                        assert(!selected_lines_valid(lines, slot, value));
                                    } else {
                                        match value(rest) {
                                            None => {
                                                assert(named_slot(lines[last], slot) is Some);
                                                assert(!selected_lines_valid(lines, slot, value));
                                            },
                                            Some(b) => {
                                                let w = v.update(k, Some(b));
                                                if selected_lines_valid(l, slot, value) {
                                                    assert forall|i: int, j: int|
                                                        0 <= i < j < lines.len() && (#[trigger] named_slot(lines[i], slot)) is Some implies #[trigger] named_slot(
                                                        lines[j],
                                                        slot,
                                                    ) != named_slot(lines[i], slot) by {
                                                        if j == last {
                                                            assert(lines[i] == l[i]);
                                                            if named_slot(l[i], slot) == Some(k) {
                                                                assert(slot_named(l, slot, k));
                                                            }
                                                        } else {
                                                            assert(lines[i] == l[i] && lines[j] == l[j]);
                                                        }
                                                    }
                                                }
                                                assert forall|i: int|
                                                    0 <= i < lines.len() && (#[trigger] named_slot(lines[i], slot)) is Some implies w[named_slot(
                                                        lines[i],
                                                        slot,
                                                    )->0] == value(value_text(lines[i])) by {
                                                    if i < l.len() {
                                                        assert(lines[i] == l[i]);
                                                        if named_slot(l[i], slot) == Some(k) {
                                                            assert(slot_named(l, slot, k));
                                                        }
                                                    }
                                                }
                                            },
                                        }
                                    }
                                },
                            }
                        },
                    }
                }
            },
        }
    }
}


/// The value of the line that names slot `s`, or `None` when no line does.
pub open spec fn slot_value(
    lines: Seq<Seq<char>>,
    slot: spec_fn(Seq<char>) -> Option<int>,
    value: spec_fn(Seq<char>) -> Option<u64>,
    s: int,
) -> Option<u64> {
    if slot_named(lines, slot, s) {
        let i = choose|i: int| 0 <= i < lines.len() && #[trigger] named_slot(lines[i], slot) == Some(s);
        value(value_text(lines[i]))
    } else {
        None
    }
}

/// When the lines follow the rules, each slot holds the value of the line
/// that names it.
pub proof fn lemma_selected_values_are_slot_values(
    lines: Seq<Seq<char>>,
    n: nat,
    slot: spec_fn(Seq<char>) -> Option<int>,
    value: spec_fn(Seq<char>) -> Option<u64>,
)
    requires
        forall|name: Seq<char>| #[trigger] slot(name) matches Some(k) ==> 0 <= k < n,
    ensures
        selected_values(lines, n, slot, value) is Some <==> selected_lines_valid(lines, slot, value),
        selected_values(lines, n, slot, value) matches Some(v) ==> v.len() == n && forall|s: int|
            0 <= s < n ==> #[trigger] v[s] == slot_value(lines, slot, value, s),
{
    lemma_selected_values_exact(lines, n, slot, value);
    if let Some(v) = selected_values(lines, n, slot, value) {
        assert forall|s: int| 0 <= s < n implies #[trigger] v[s] == slot_value(lines, slot, value, s) by {
            if slot_named(lines, slot, s) {
                let i = choose|i: int| 0 <= i < lines.len() && #[trigger] named_slot(lines[i], slot) == Some(s);
                assert(v[named_slot(lines[i], slot)->0] == value(value_text(lines[i])));
            }
        }
    }
}

} // verus!
