//! Host CPU pressure-stall information (`/proc/pressure/cpu`).

use vstd::prelude::*;
use crate::read_error::ReadErrorKind;
use crate::text::{
    chars_of, eq_lit, fields_of, is_blank, lines_of, parse_u64, parse_u64_chars, seqs_of,
    split_fields, split_lines, split_once, split_once_char, string_of, blank,
};

verus! {

#[derive(Debug, Clone, Copy, PartialEq, Eq, Structural)]
pub enum CpuPsiCapability {
    Available,
    Unsupported,
    PermissionDenied,
    Failed,
}

pub open spec fn cpu_psi_capability_name(c: CpuPsiCapability) -> &'static str {
    match c {
        CpuPsiCapability::Available => "available",
        CpuPsiCapability::Unsupported => "unsupported",
        CpuPsiCapability::PermissionDenied => "permission_denied",
        CpuPsiCapability::Failed => "failed",
    }
}

pub open spec fn cpu_psi_capability_text(c: CpuPsiCapability) -> &'static str {
    match c {
        CpuPsiCapability::Available => "CPU PSI is readable and valid.",
        CpuPsiCapability::Unsupported => "The kernel does not expose /proc/pressure/cpu.",
        CpuPsiCapability::PermissionDenied => "Permission was denied while reading CPU PSI.",
        CpuPsiCapability::Failed => "CPU PSI could not be read or parsed.",
    }
}

impl CpuPsiCapability {
    pub fn as_str(self) -> (s: &'static str)
        ensures
            s == cpu_psi_capability_name(self),
    {
        match self {
            CpuPsiCapability::Available => "available",
            CpuPsiCapability::Unsupported => "unsupported",
            CpuPsiCapability::PermissionDenied => "permission_denied",
            CpuPsiCapability::Failed => "failed",
        }
    }

    pub fn explanation(self) -> (s: &'static str)
        ensures
            s == cpu_psi_capability_text(self),
    {
        match self {
            CpuPsiCapability::Available => "CPU PSI is readable and valid.",
            CpuPsiCapability::Unsupported => "The kernel does not expose /proc/pressure/cpu.",
            CpuPsiCapability::PermissionDenied => "Permission was denied while reading CPU PSI.",
            CpuPsiCapability::Failed => "CPU PSI could not be read or parsed.",
        }
    }
}

#[derive(Debug, Clone, Copy, PartialEq, Eq, Structural)]
pub enum CpuPsiError {
    Unsupported,
    PermissionDenied,
    Unreadable,
    Malformed,
    CounterRegressed,
    EmptyInterval,
    DeltaExceedsElapsed,
}

/// The capability an error reports: read failures describe the file, while
/// interval failures leave the telemetry itself available.
pub open spec fn cpu_psi_error_capability(e: CpuPsiError) -> CpuPsiCapability {
    match e {
        CpuPsiError::Unsupported => CpuPsiCapability::Unsupported,
        CpuPsiError::PermissionDenied => CpuPsiCapability::PermissionDenied,
        CpuPsiError::Unreadable | CpuPsiError::Malformed => CpuPsiCapability::Failed,
        _ => CpuPsiCapability::Available,
    }
}

pub open spec fn cpu_psi_error_text(e: CpuPsiError) -> &'static str {
    match e {
        CpuPsiError::Unsupported => "The kernel does not expose /proc/pressure/cpu.",
        CpuPsiError::PermissionDenied => "Permission was denied while reading CPU PSI.",
        CpuPsiError::Unreadable => "CPU PSI could not be read.",
        CpuPsiError::Malformed => "CPU PSI was readable but did not match the expected kernel format.",
        CpuPsiError::CounterRegressed => "CPU PSI cumulative total decreased during the observation.",
        CpuPsiError::EmptyInterval => "CPU PSI snapshots did not have a measurable interval.",
        CpuPsiError::DeltaExceedsElapsed => "CPU PSI cumulative delta exceeded the measured observation interval.",
    }
}

impl CpuPsiError {
    pub fn capability(self) -> (c: CpuPsiCapability)
        ensures
            c == cpu_psi_error_capability(self),
    {
        match self {
            CpuPsiError::Unsupported => CpuPsiCapability::Unsupported,
            CpuPsiError::PermissionDenied => CpuPsiCapability::PermissionDenied,
            CpuPsiError::Unreadable | CpuPsiError::Malformed => CpuPsiCapability::Failed,
            CpuPsiError::CounterRegressed
            | CpuPsiError::EmptyInterval
            | CpuPsiError::DeltaExceedsElapsed => CpuPsiCapability::Available,
        }
    }

    pub fn explanation(self) -> (s: &'static str)
        ensures
            s == cpu_psi_error_text(self),
    {
        match self {
            CpuPsiError::Unsupported => "The kernel does not expose /proc/pressure/cpu.",
            CpuPsiError::PermissionDenied => "Permission was denied while reading CPU PSI.",
            CpuPsiError::Unreadable => "CPU PSI could not be read.",
            CpuPsiError::Malformed => "CPU PSI was readable but did not match the expected kernel format.",
            CpuPsiError::CounterRegressed => "CPU PSI cumulative total decreased during the observation.",
            CpuPsiError::EmptyInterval => "CPU PSI snapshots did not have a measurable interval.",
            CpuPsiError::DeltaExceedsElapsed => "CPU PSI cumulative delta exceeded the measured observation interval.",
        }
    }
}

/// Maps a failed read of the CPU PSI file to the error it reports.
pub fn classify_read_error(kind: ReadErrorKind) -> (e: CpuPsiError)
    ensures
        e == match kind {
            ReadErrorKind::NotFound => CpuPsiError::Unsupported,
            ReadErrorKind::PermissionDenied => CpuPsiError::PermissionDenied,
            ReadErrorKind::Other => CpuPsiError::Unreadable,
        },
{
    match kind {
        ReadErrorKind::NotFound => CpuPsiError::Unsupported,
        ReadErrorKind::PermissionDenied => CpuPsiError::PermissionDenied,
        ReadErrorKind::Other => CpuPsiError::Unreadable,
    }
}

/// What a CPU pressure read says about the capability: a successful read is
/// available, a failed one reports its error's capability.
pub fn cpu_psi_probe_capability<T>(read: &Result<T, CpuPsiError>) -> (c: CpuPsiCapability)
    ensures
        c == match read {
            Ok(_) => CpuPsiCapability::Available,
            Err(e) => cpu_psi_error_capability(*e),
        },
{
    match read {
        Ok(_) => CpuPsiCapability::Available,
        Err(e) => e.capability(),
    }
}

/// The cumulative `some` stall time between two readings, checked against
/// the measured interval (in microseconds).
pub fn cpu_psi_total_delta(start_total_us: u64, end_total_us: u64, elapsed_us: u64) -> (out: Result<
    u64,
    CpuPsiError,
>)
    ensures
        out == (if elapsed_us == 0 {
            Err(CpuPsiError::EmptyInterval)
        } else if end_total_us < start_total_us {
            Err(CpuPsiError::CounterRegressed)
        } else if end_total_us - start_total_us > elapsed_us {
            Err(CpuPsiError::DeltaExceedsElapsed)
        } else {
            Ok((end_total_us - start_total_us) as u64)
        }),
{
    if elapsed_us == 0 {
        return Err(CpuPsiError::EmptyInterval);
    }
    if end_total_us < start_total_us {
        return Err(CpuPsiError::CounterRegressed);
    }
    let delta = end_total_us - start_total_us;
    if delta > elapsed_us {
        return Err(CpuPsiError::DeltaExceedsElapsed);
    }
    Ok(delta)
}


// ---------------------------------------------------------------------------
// /proc/pressure/cpu
// ---------------------------------------------------------------------------

/// The fields of the CPU PSI `some` line: the three averages as written (the
/// caller reads them as percentages) and the cumulative stall time in
/// microseconds.
#[derive(Debug, Clone, PartialEq, Eq)]
pub struct CpuPsiFields {
    pub avg10: String,
    pub avg60: String,
    pub avg300: String,
    pub total_us: u64,
}

/// The four known fields of a `some` line; `None` for a field without `=`,
/// a repeated known field or a total that is not a 64-bit number.  Other
/// names are ignored.
pub open spec fn some_fields(
    fields: Seq<Seq<char>>,
) -> Option<(Option<Seq<char>>, Option<Seq<char>>, Option<Seq<char>>, Option<u64>)>
    decreases fields.len(),
{
    if fields.len() == 0 {
        Some((None, None, None, None))
    } else {
        match some_fields(fields.drop_last()) {
            None => None,
            Some((a10, a60, a300, total)) => match split_once(fields.last(), '=') {
                None => None,
                Some((name, value)) => if name == "avg10"@ {
                    if a10 is Some {
                        None
                    } else {
                        Some((Some(value), a60, a300, total))
                    }
                } else if name == "avg60"@ {
                    if a60 is Some {
                        None
                    } else {
                        Some((a10, Some(value), a300, total))
                    }
                } else if name == "avg300"@ {
                    if a300 is Some {
                        None
                    } else {
                        Some((a10, a60, Some(value), total))
                    }
                } else if name == "total"@ {
                    match parse_u64(value) {
                        None => None,
                        Some(t) => if total is Some {
                            None
                        } else {
                            Some((a10, a60, a300, Some(t)))
                        },
                    }
                } else {
                    Some((a10, a60, a300, total))
                },
            },
        }
    }
}

proof fn lemma_some_fields_stay_none(fields: Seq<Seq<char>>, k: int)
    requires
        0 <= k <= fields.len(),
        some_fields(fields.take(k)) is None,
    ensures
        some_fields(fields) is None,
    decreases fields.len() - k,
{
    if k == fields.len() {
        assert(fields.take(k) =~= fields);
    } else {
        assert(fields.take(k + 1).drop_last() =~= fields.take(k));
        lemma_some_fields_stay_none(fields, k + 1);
    }
}

/// A complete `some` line: all four known fields present.
pub open spec fn some_line(fields: Seq<Seq<char>>) -> Option<(Seq<char>, Seq<char>, Seq<char>, u64)> {
    match some_fields(fields) {
        Some((Some(a10), Some(a60), Some(a300), Some(t))) => Some((a10, a60, a300, t)),
        _ => None,
    }
}

/// The `some` line found so far and whether a `full` line was seen; `None`
/// once a line is malformed, repeated, or of another kind.
pub open spec fn cpu_psi_state(lines: Seq<Seq<char>>) -> Option<(Option<(Seq<char>, Seq<char>, Seq<char>, u64)>, bool)>
    decreases lines.len(),
{
    if lines.len() == 0 {
        Some((None, false))
    } else {
        match cpu_psi_state(lines.drop_last()) {
            None => None,
            Some((some, full_seen)) => {
                let line = lines.last();
                let f = fields_of(line);
                if is_blank(line) {
                    Some((some, full_seen))
                } else if f.len() == 0 {
                    None
                } else if f[0] == "full"@ {
                    if full_seen {
                        None
                    } else {
                        Some((some, true))
                    }
                } else if f[0] != "some"@ || some is Some {
                    None
                } else {
                    match some_line(f.drop_first()) {
                        None => None,
                        Some(v) => Some((Some(v), full_seen)),
                    }
                }
            },
        }
    }
}

proof fn lemma_cpu_psi_stay_none(lines: Seq<Seq<char>>, k: int)
    requires
        0 <= k <= lines.len(),
        cpu_psi_state(lines.take(k)) is None,
    ensures
        cpu_psi_state(lines) is None,
    decreases lines.len() - k,
{
    if k == lines.len() {
        assert(lines.take(k) =~= lines);
    } else {
        assert(lines.take(k + 1).drop_last() =~= lines.take(k));
        lemma_cpu_psi_stay_none(lines, k + 1);
    }
}

/// `/proc/pressure/cpu` as this crate reads it: exactly one complete `some`
/// line, at most one (uninterpreted) `full` line, nothing else.
pub open spec fn cpu_psi_spec(input: Seq<char>) -> Option<(Seq<char>, Seq<char>, Seq<char>, u64)> {
    match cpu_psi_state(lines_of(input)) {
        Some((Some(v), _)) => Some(v),
        _ => None,
    }
}

fn some_line_of(fields: &Vec<Vec<char>>) -> (out: Option<CpuPsiFields>)
    requires
        fields@.len() > 0,
    ensures
        match out {
            Some(v) => some_line(seqs_of(fields@).drop_first()) == Some(
                (v.avg10@, v.avg60@, v.avg300@, v.total_us),
            ),
            None => some_line(seqs_of(fields@).drop_first()) is None,
        },
{
    let ghost rest = seqs_of(fields@).drop_first();
    let mut a10: Option<Vec<char>> = None;
    let mut a60: Option<Vec<char>> = None;
    let mut a300: Option<Vec<char>> = None;
    let mut total: Option<u64> = None;
    let mut i: usize = 1;
    while i < fields.len()
        invariant
            1 <= i <= fields@.len(),
            rest == seqs_of(fields@).drop_first(),
            some_fields(rest.take(i - 1)) == Some(
                (
                    match a10 {
                        Some(v) => Some(v@),
                        None => None::<Seq<char>>,
                    },
                    match a60 {
                        Some(v) => Some(v@),
                        None => None::<Seq<char>>,
                    },
                    match a300 {
                        Some(v) => Some(v@),
                        None => None::<Seq<char>>,
                    },
                    total,
                ),
            ),
        decreases fields.len() - i,
    {
        assert(rest.take(i as int).drop_last() =~= rest.take(i - 1));
        assert(rest.take(i as int).last() == fields@[i as int]@);
        match split_once_char(&fields[i], '=') {
            None => {
                proof {
                    lemma_some_fields_stay_none(rest, i as int);
                }
                return None;
            },
            Some((name, value)) => {
                if eq_lit(&name, "avg10") {
                    if a10.is_some() {
                        proof {
                            lemma_some_fields_stay_none(rest, i as int);
                        }
                        return None;
                    }
                    a10 = Some(value);
                } else if eq_lit(&name, "avg60") {
                    if a60.is_some() {
                        proof {
                            lemma_some_fields_stay_none(rest, i as int);
                        }
                        return None;
                    }
                    a60 = Some(value);
                } else if eq_lit(&name, "avg300") {
                    if a300.is_some() {
                        proof {
                            lemma_some_fields_stay_none(rest, i as int);
                        }
                        return None;
                    }
                    a300 = Some(value);
                } else if eq_lit(&name, "total") {
                    match parse_u64_chars(&value) {
                        None => {
                            proof {
                                lemma_some_fields_stay_none(rest, i as int);
                            }
                            return None;
                        },
                        Some(t) => {
                            if total.is_some() {
                                proof {
                                    lemma_some_fields_stay_none(rest, i as int);
                                }
                                return None;
                            }
                            total = Some(t);
                        },
                    }
                }
            },
        }
        i += 1;
    }
    assert(rest.take(i - 1) =~= rest);
    match (a10, a60, a300, total) {
        (Some(a), Some(b), Some(c), Some(t)) => Some(
            CpuPsiFields { avg10: string_of(&a), avg60: string_of(&b), avg300: string_of(&c), total_us: t },
        ),
        _ => None,
    }
}

/// Parses the structure of `/proc/pressure/cpu`: one `some` line with
/// `avg10`, `avg60`, `avg300` and `total` (extra fields are ignored), and at
/// most one `full` line, which is not interpreted.
pub fn parse_cpu_psi_fields(input: &str) -> (out: Result<CpuPsiFields, CpuPsiError>)
    ensures
        match out {
            Ok(v) => cpu_psi_spec(input@) == Some((v.avg10@, v.avg60@, v.avg300@, v.total_us)),
            Err(e) => e == CpuPsiError::Malformed && cpu_psi_spec(input@) is None,
        },
{
    let chars = chars_of(input);
    let lines = split_lines(&chars);
    let ghost ls = seqs_of(lines@);
    assert(ls == lines_of(input@));
    let mut some: Option<CpuPsiFields> = None;
    let mut full_seen = false;
    let mut i: usize = 0;
    while i < lines.len()
        invariant
            i <= lines.len(),
            ls == seqs_of(lines@),
            ls == lines_of(input@),
            cpu_psi_state(ls.take(i as int)) == Some(
                (
                    match some {
                        Some(v) => Some((v.avg10@, v.avg60@, v.avg300@, v.total_us)),
                        None => None::<(Seq<char>, Seq<char>, Seq<char>, u64)>,
                    },
                    full_seen,
                ),
            ),
        decreases lines.len() - i,
    {
        assert(ls.take(i + 1).drop_last() =~= ls.take(i as int));
        assert(ls.take(i + 1).last() == lines@[i as int]@);
        let line = &lines[i];
        if !blank(line) {
            let f = split_fields(line);
            assert(seqs_of(f@) == fields_of(line@));
            if f.len() == 0 {
                proof {
                    lemma_cpu_psi_stay_none(ls, i + 1);
                }
                return Err(CpuPsiError::Malformed);
            }
            if eq_lit(&f[0], "full") {
                if full_seen {
                    proof {
                        lemma_cpu_psi_stay_none(ls, i + 1);
                    }
                    return Err(CpuPsiError::Malformed);
                }
                full_seen = true;
            } else if !eq_lit(&f[0], "some") || some.is_some() {
                proof {
                    lemma_cpu_psi_stay_none(ls, i + 1);
                }
                return Err(CpuPsiError::Malformed);
            } else {
                assert(seqs_of(f@).drop_first() =~= fields_of(line@).drop_first());
                match some_line_of(&f) {
                    None => {
                        proof {
                            lemma_cpu_psi_stay_none(ls, i + 1);
                        }
                        return Err(CpuPsiError::Malformed);
                    },
                    Some(v) => {
                        some = Some(v);
                    },
                }
            }
        }
        i += 1;
    }
    assert(ls.take(i as int) =~= ls);
    match some {
        Some(v) => Ok(v),
        None => Err(CpuPsiError::Malformed),
    }
}

} // verus!
