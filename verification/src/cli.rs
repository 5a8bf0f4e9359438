//! Command-line option values and the strict parsers for durations and
//! window counts.

use vstd::prelude::*;
use crate::record::Redaction;
use crate::text::{
    all_digits, append_str, chars_of, parse_u32, parse_u32_chars, parse_u64, parse_u64_chars,
    slice_to_vec, split_once, split_once_char, digits_value, is_digit,
};

verus! {

pub const DEFAULT_HUNT_DURATION_MS: u64 = 10000;
pub const DEFAULT_WATCH_INTERVAL_MS: u64 = 2000;
pub const MIN_HUNT_DURATION_MS: u64 = 100;
pub const MAX_HUNT_DURATION_MS: u64 = 300000;

#[derive(Debug, Clone, Copy, PartialEq, Eq, Structural)]
pub enum OutputFormat {
    Text,
    Json,
}

#[derive(Debug, Clone, Copy, PartialEq, Eq, Structural, Default)]
pub struct TextStyle {
    pub explain: bool,
    pub color: bool,
    pub unicode: bool,
}

#[derive(Debug, Clone, Copy, PartialEq, Eq, Structural)]
pub struct HuntOptions {
    pub duration_ms: u64,
    pub output: OutputFormat,
    pub style: TextStyle,
}

impl HuntOptions {
    /// Options with the plain default text style.
    pub fn new(duration_ms: u64, output: OutputFormat) -> (r: Self)
        ensures
            r.duration_ms == duration_ms,
            r.output == output,
            r.style == (TextStyle { explain: false, color: false, unicode: false }),
    {
        HuntOptions {
            duration_ms,
            output,
            style: TextStyle { explain: false, color: false, unicode: false },
        }
    }
}

#[derive(Debug, Clone, Copy, PartialEq, Eq, Structural)]
pub struct CapabilitiesOptions {
    pub output: OutputFormat,
}

#[derive(Debug, Clone, PartialEq, Eq)]
pub struct RecordOptions {
    pub duration_ms: u64,
    pub output: String,
    pub redaction: Redaction,
    pub force: bool,
}

#[derive(Debug, Clone, PartialEq, Eq)]
pub struct ReplayOptions {
    pub input: String,
    pub output: OutputFormat,
    pub style: TextStyle,
}

#[derive(Debug, Clone, PartialEq, Eq)]
pub struct RedactOptions {
    pub input: String,
    pub output: String,
    pub force: bool,
}

#[derive(Debug, Clone, Copy, PartialEq, Eq, Structural)]
pub struct WatchOptions {
    pub interval_ms: u64,
    pub count: Option<u32>,
    pub output: OutputFormat,
    pub plain: bool,
    pub style: TextStyle,
}

/// A rejected command-line value, with the message shown to the user.
#[derive(Debug, Clone, PartialEq, Eq)]
pub struct CliError {
    pub message: String,
}

impl CliError {
    pub fn message(&self) -> (s: &str)
        ensures
            s@ == self.message@,
    {
        self.message.as_str()
    }
}

pub fn output_format(json: bool) -> (f: OutputFormat)
    ensures
        f == if json {
            OutputFormat::Json
        } else {
            OutputFormat::Text
        },
{
    if json {
        OutputFormat::Json
    } else {
        OutputFormat::Text
    }
}

/// The redaction a `--redact` flag selects.
pub fn redaction_for(redact: bool) -> (r: Redaction)
    ensures
        r == if redact {
            Redaction::Identifiers
        } else {
            Redaction::Unredacted
        },
{
    if redact {
        Redaction::Identifiers
    } else {
        Redaction::Unredacted
    }
}

pub open spec fn pow10(n: nat) -> nat
    decreases n,
{
    if n == 0 {
        1
    } else {
        10 * pow10((n - 1) as nat)
    }
}

proof fn lemma_pow10_positive(n: nat)
    ensures
        pow10(n) >= 1,
    decreases n,
{
    if n > 0 {
        lemma_pow10_positive((n - 1) as nat);
    }
}

proof fn lemma_pow10_monotone(n: nat, m: nat)
    requires
        n <= m,
    ensures
        1 <= pow10(n) <= pow10(m),
    decreases m,
{
    lemma_pow10_positive(n);
    if n < m {
        lemma_pow10_monotone(n, (m - 1) as nat);
        lemma_pow10_positive((m - 1) as nat);
    }
}

proof fn lemma_pow10_bound(n: nat)
    requires
        n <= 18,
    ensures
        1 <= pow10(n) <= 1_000_000_000_000_000_000,
{
    assert(pow10(18) == 1_000_000_000_000_000_000) by {
        reveal_with_fuel(pow10, 19);
    }
    lemma_pow10_monotone(n, 18);
}

/// A non-negative decimal number of `unit_ms` units as whole milliseconds:
/// digits, optionally a point and more digits (at most eighteen), where the
/// fractional part must come to a whole number of milliseconds and nothing
/// may overflow.
pub open spec fn decimal_ms(number: Seq<char>, unit: u64) -> Option<u64> {
    let (whole, fraction) = match split_once(number, '.') {
        Some((w, f)) => (w, Some(f)),
        None => (number, None),
    };
    if whole.len() == 0 || (fraction matches Some(f) && (f.len() == 0 || f.contains('.')))
        || !all_digits(whole) {
        None
    } else {
        match parse_u64(whole) {
            None => None,
            Some(w) => if w * unit > u64::MAX {
                None
            } else {
                match fraction {
                    None => Some((w * unit) as u64),
                    Some(f) => if !all_digits(f) || f.len() > 18 {
                        None
                    } else {
                        match parse_u64(f) {
                            None => None,
                            Some(n) => if n * unit > u64::MAX {
                                None
                            } else if (n * unit) % (pow10(f.len()) as int) != 0 {
                                None
                            } else if w * unit + (n * unit) / (pow10(f.len()) as int) > u64::MAX {
                                None
                            } else {
                                Some((w * unit + (n * unit) / (pow10(f.len()) as int)) as u64)
                            },
                        }
                    },
                }
            },
        }
    }
}

fn digits_only(s: &[char]) -> (b: bool)
    ensures
        b == all_digits(s@),
{
    let mut i: usize = 0;
    while i < s.len()
        invariant
            i <= s.len(),
            forall|j: int| 0 <= j < i ==> #[trigger] crate::text::is_digit(s@[j]),
        decreases s.len() - i,
    {
        let v = s[i] as u32;
        if v < 0x30 || v > 0x39 {
            assert(!crate::text::is_digit(s@[i as int]));
            return false;
        }
        i += 1;
    }
    true
}

fn has_point(s: &[char]) -> (b: bool)
    ensures
        b == s@.contains('.'),
{
    let mut i: usize = 0;
    while i < s.len()
        invariant
            i <= s.len(),
            forall|j: int| 0 <= j < i ==> s@[j] != '.',
        decreases s.len() - i,
    {
        if s[i] == '.' {
            assert(s@[i as int] == '.');
            return true;
        }
        i += 1;
    }
    false
}

pub fn parse_decimal_milliseconds(number: &str, unit_ms: u64) -> (out: Option<u64>)
    ensures
        out == decimal_ms(number@, unit_ms),
{
    let chars = chars_of(number);
    let (whole, fraction) = match split_once_char(&chars, '.') {
        Some((w, f)) => {
            if w.len() == 0 || f.len() == 0 || has_point(&f) {
                return None;
            }
            (w, Some(f))
        },
        None => {
            if chars.len() == 0 {
                return None;
            }
            (chars, None)
        },
    };
    if !digits_only(&whole) {
        return None;
    }
    let w = match parse_u64_chars(&whole) {
        Some(v) => v,
        None => return None,
    };
    let whole_ms = match w.checked_mul(unit_ms) {
        Some(v) => v,
        None => return None,
    };
    match fraction {
        None => Some(whole_ms),
        Some(f) => {
            if !digits_only(&f) || f.len() > 18 {
                return None;
            }
            let mut scale: u64 = 1;
            let mut k: usize = 0;
            proof {
                lemma_pow10_bound(f@.len());
            }
            while k < f.len()
                invariant
                    k <= f@.len() <= 18,
                    scale == pow10(k as nat),
                    pow10(f@.len()) <= 1_000_000_000_000_000_000,
                decreases f.len() - k,
            {
                proof {
                    lemma_pow10_bound((k + 1) as nat);
                }
                scale = scale * 10;
                k += 1;
            }
            proof {
                lemma_pow10_bound(f@.len());
            }
            let n = match parse_u64_chars(&f) {
                Some(v) => v,
                None => return None,
            };
            let numerator = match n.checked_mul(unit_ms) {
                Some(v) => v,
                None => return None,
            };
            if numerator % scale != 0 {
                return None;
            }
            whole_ms.checked_add(numerator / scale)
        },
    }
}

/// The number and unit of a duration: `ms`, `s` or `m` suffixes.
pub open spec fn duration_parts(value: Seq<char>) -> Option<(Seq<char>, u64)> {
    if value.len() >= 2 && value.skip(value.len() - 2) == "ms"@ {
        Some((value.take(value.len() - 2), 1))
    } else if value.len() >= 1 && value.last() == 's' {
        Some((value.drop_last(), 1000))
    } else if value.len() >= 1 && value.last() == 'm' {
        Some((value.drop_last(), 60000))
    } else {
        None
    }
}

pub open spec fn duration_value(value: Seq<char>) -> Option<u64> {
    match duration_parts(value) {
        Some((number, unit)) => decimal_ms(number, unit),
        None => None,
    }
}

pub open spec fn invalid_duration_message(value: Seq<char>) -> Seq<char> {
    "invalid duration '"@ + value + "'; use a value such as 500ms, 2s, 1.5s, or 1m"@
}

pub open spec fn duration_range_message(value: Seq<char>) -> Seq<char> {
    "duration '"@ + value + "' is outside the supported range (100ms to 5m)"@
}

fn message3(a: &str, b: &str, c: &str) -> (e: CliError)
    ensures
        e.message@ == a@ + b@ + c@,
{
    let mut m = String::new();
    append_str(&mut m, a);
    append_str(&mut m, b);
    append_str(&mut m, c);
    CliError { message: m }
}

/// A duration such as `500ms`, `2s`, `1.5s` or `1m`, in milliseconds, within
/// 100 ms to 5 min.
pub fn parse_duration(value: &str) -> (out: Result<u64, CliError>)
    ensures
        match out {
            Ok(ms) => duration_value(value@) == Some(ms) && MIN_HUNT_DURATION_MS <= ms
                <= MAX_HUNT_DURATION_MS,
            Err(e) => match duration_value(value@) {
                None => e.message@ == invalid_duration_message(value@),
                Some(ms) => (ms < MIN_HUNT_DURATION_MS || ms > MAX_HUNT_DURATION_MS)
                    && e.message@ == duration_range_message(value@),
            },
        },
{
    let chars = chars_of(value);
    let n = chars.len();
    let (number, unit): (Vec<char>, u64) = if n >= 2 && chars[n - 2] == 'm' && chars[n - 1] == 's' {
        proof {
            reveal_strlit("ms");
            assert(chars@.skip(n - 2) =~= "ms"@);
        }
        (slice_to_vec(&chars, 0, n - 2), 1)
    } else {
        proof {
            reveal_strlit("ms");
            if n >= 2 {
                if chars@.skip(n - 2) == "ms"@ {
                    assert(chars@.skip(n - 2)[0] == chars@[n - 2]);
                    assert(chars@.skip(n - 2)[1] == chars@[n - 1]);
                }
            }
        }
        if n >= 1 && chars[n - 1] == 's' {
            (slice_to_vec(&chars, 0, n - 1), 1000)
        } else if n >= 1 && chars[n - 1] == 'm' {
            (slice_to_vec(&chars, 0, n - 1), 60000)
        } else {
            return Err(
                message3(
                    "invalid duration '",
                    value,
                    "'; use a value such as 500ms, 2s, 1.5s, or 1m",
                ),
            );
        }
    };
    proof {
        assert(chars@ == value@);
        if unit == 1 {
            assert(number@ =~= value@.take(value@.len() - 2));
        } else {
            assert(number@ =~= value@.drop_last());
        }
    }
    let text = crate::text::string_of(&number);
    let ms = match parse_decimal_milliseconds(text.as_str(), unit) {
        Some(v) => v,
        None => {
            return Err(
                message3(
                    "invalid duration '",
                    value,
                    "'; use a value such as 500ms, 2s, 1.5s, or 1m",
                ),
            );
        },
    };
    if ms < MIN_HUNT_DURATION_MS || ms > MAX_HUNT_DURATION_MS {
        return Err(message3("duration '", value, "' is outside the supported range (100ms to 5m)"));
    }
    Ok(ms)
}

pub open spec fn invalid_count_message(value: Seq<char>) -> Seq<char> {
    "invalid count '"@ + value + "'; use a positive integer such as 1 or 30"@
}

/// The count is written as a plain decimal without a leading zero and fits
/// in 32 bits.
pub open spec fn count_value(value: Seq<char>) -> Option<u32> {
    if value.len() == 0 || !all_digits(value) || (value.len() > 1 && value[0] == '0') {
        None
    } else {
        parse_u32(value)
    }
}

/// A positive number of watch windows.
pub fn parse_count(value: &str) -> (out: Result<u32, CliError>)
    ensures
        match out {
            Ok(c) => count_value(value@) == Some(c) && c > 0,
            Err(e) => match count_value(value@) {
                None => e.message@ == invalid_count_message(value@),
                Some(c) => c == 0 && e.message@ == "option '--count' must be a positive integer"@,
            },
        },
{
    let chars = chars_of(value);
    if chars.len() == 0 || !digits_only(&chars) || (chars.len() > 1 && chars[0] == '0') {
        return Err(message3("invalid count '", value, "'; use a positive integer such as 1 or 30"));
    }
    let count = match parse_u32_chars(&chars) {
        Some(c) => c,
        None => {
            return Err(
                message3("invalid count '", value, "'; use a positive integer such as 1 or 30"),
            );
        },
    };
    if count == 0 {
        let mut m = String::new();
        append_str(&mut m, "option '--count' must be a positive integer");
        return Err(CliError { message: m });
    }
    Ok(count)
}


/// The value a duration's number and unit denote, exactly: the whole digits
/// and the fraction digits (none when there is no point), scaled by the
/// unit, with `ms` times ten to the number of fraction digits equal to it.
pub open spec fn exact_ms(number: Seq<char>, unit: u64, ms: u64) -> bool {
    let (whole, fraction) = match split_once(number, '.') {
        Some((w, f)) => (w, f),
        None => (number, Seq::<char>::empty()),
    };
    ms * pow10(fraction.len()) == (digits_value(whole) * pow10(fraction.len()) + digits_value(fraction))
        * unit
}

proof fn lemma_exact_arith(w: int, n: int, u: int, p: int, ms: int)
    by (nonlinear_arith)
    requires
        p > 0,
        (n * u) % p == 0,
        ms == w * u + (n * u) / p,
    ensures
        ms * p == (w * p + n) * u,
{
    assert((n * u) / p * p == n * u);
}

/// A duration's millisecond count is exact, never rounded: it is the
/// decimal number before the unit times the unit's milliseconds.
pub proof fn lemma_duration_is_exact(value: Seq<char>)
    ensures
        duration_value(value) matches Some(ms) ==> (duration_parts(value) matches Some((number, unit))
            && exact_ms(number, unit, ms)),
{
    if let Some(ms) = duration_value(value) {
        let (number, unit) = duration_parts(value)->0;
        let (whole, fraction) = match split_once(number, '.') {
            Some((w, f)) => (w, Some(f)),
            None => (number, None),
        };
        let w = parse_u64(whole)->0;
        assert(w as nat == digits_value(whole)) by {
            assert(!(whole.len() > 0 && whole[0] == '+')) by {
                assert(is_digit(whole[0]));
            }
        }
        match fraction {
            None => {
                assert(pow10(0) == 1);
                assert(digits_value(Seq::<char>::empty()) == 0);
                assert(ms * 1 == (w * 1 + 0) * unit) by (nonlinear_arith)
                    requires
                        ms == w * unit,
                ;
            },
            Some(f) => {
                let n = parse_u64(f)->0;
                assert(n as nat == digits_value(f)) by {
                    assert(!(f.len() > 0 && f[0] == '+')) by {
                        assert(is_digit(f[0]));
                    }
                }
                lemma_pow10_positive(f.len());
                lemma_exact_arith(w as int, n as int, unit as int, pow10(f.len()) as int, ms as int);
            },
        }
    }
}

} // verus!
