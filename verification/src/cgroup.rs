//! Bounded cgroup v2 telemetry.  Only cgroups that contain selected processes,
//! and their ancestors, are collected; walking an arbitrary hierarchy can be
//! unexpectedly expensive on a busy host.

use vstd::prelude::*;
use crate::process::{key_lt, ProcessKey};
use crate::text::{
    blank, chars_of, eq_chars, eq_lit, fields_of, is_blank, lines_of, parse_u32, parse_u32_chars,
    parse_u64, parse_u64_chars, rsplit_once, rsplit_once_char, segments, seqs_of, split_fields,
    split_lines, split_once, split_once_char, split_once_pattern, split_once_sub, split_segments,
    string_of, trim, trim_chars, utf8_len, utf8_len_at_most, chars_lt, seq_lt, strictly_sorted,
    lemma_seq_lt_total, lemma_seq_lt_transitive, lemma_seq_lt_irreflexive, last_at, lemma_last_at_exists, lemma_strictly_sorted_set_len, slice_to_vec,
};

verus! {

pub const MAX_CGROUP_PROCESSES: usize = 512;
pub const MAX_CGROUPS: usize = 512;
pub const MAX_CGROUP_DEPTH: usize = 64;
pub const MAX_CGROUP_PATH_BYTES: usize = 4096;
pub const MAX_CGROUP_FILE_BYTES: u64 = 65536;
pub const MAX_CGROUP_SNAPSHOT_BYTES: u64 = 8388608;
pub const MAX_CGROUP_READ_ATTEMPTS: u32 = 4096;

/// The cgroup2 mount: the root of the hierarchy it exposes (a cgroup path,
/// not a host path) and where it is mounted.
#[derive(Debug, Clone, PartialEq, Eq)]
pub struct Cgroup2Mount {
    pub root: String,
    pub mount_point: String,
}

#[derive(Debug, Clone, Copy, PartialEq, Eq, Structural)]
pub enum CgroupError {
    Unsupported,
    PermissionDenied,
    Unreadable,
    Malformed,
    AmbiguousMount,
    EmptyInterval,
    MountChanged,
}

#[derive(Debug, Clone, Copy, PartialEq, Eq, Structural)]
pub enum CgroupFileState {
    Available,
    /// One endpoint was readable but the other was not, so no delta exists.
    Partial,
    Missing,
    PermissionDenied,
    Unreadable,
    Malformed,
}

/// One controller file: how reading it went, and its value when it parsed.
#[derive(Debug, Clone, Copy, PartialEq, Eq)]
pub struct CgroupResource<T> {
    pub state: CgroupFileState,
    pub value: Option<T>,
}

impl<T> CgroupResource<T> {
    pub fn available(value: T) -> (r: Self)
        ensures
            r.state == CgroupFileState::Available,
            r.value == Some(value),
    {
        CgroupResource { state: CgroupFileState::Available, value: Some(value) }
    }

    pub fn failed(state: CgroupFileState) -> (r: Self)
        ensures
            r.state == state,
            r.value is None,
    {
        CgroupResource { state, value: None }
    }
}

#[derive(Debug, Clone, Copy, PartialEq, Eq, Structural)]
pub struct CgroupCpuRaw {
    pub usage_usec: u64,
    pub user_usec: Option<u64>,
    pub system_usec: Option<u64>,
    pub nr_periods: Option<u64>,
    pub nr_throttled: Option<u64>,
    pub throttled_usec: Option<u64>,
}

#[derive(Debug, Clone, Copy, PartialEq, Eq, Structural)]
pub struct CgroupMemoryEventsRaw {
    pub low: Option<u64>,
    pub high: Option<u64>,
    pub max: Option<u64>,
    pub oom: Option<u64>,
    pub oom_kill: Option<u64>,
    pub oom_group_kill: Option<u64>,
}

/// Selected cgroup `memory.stat` counters; unknown kernel keys are ignored.
/// Direct scan/steal and swap-in/out are the scoped analogue of the host
/// vmstat mechanism counters.
#[derive(Debug, Clone, Copy, PartialEq, Eq, Structural, Default)]
pub struct CgroupMemoryStatRaw {
    pub pgscan_direct: Option<u64>,
    pub pgsteal_direct: Option<u64>,
    pub pswpin: Option<u64>,
    pub pswpout: Option<u64>,
}

/// A block device as `io.stat` names it.
#[derive(Debug, Clone, Copy, PartialEq, Eq, Structural, PartialOrd, Ord, Hash)]
pub struct CgroupIoDevice {
    pub major: u32,
    pub minor: u32,
}

#[derive(Debug, Clone, Copy, PartialEq, Eq, Structural)]
pub struct CgroupIoRaw {
    pub rbytes: Option<u64>,
    pub wbytes: Option<u64>,
    pub rios: Option<u64>,
    pub wios: Option<u64>,
}

#[derive(Debug, Clone, Copy, PartialEq, Eq, Structural)]
pub struct CgroupPsiRaw {
    pub some_total_usec: u64,
    pub full_total_usec: Option<u64>,
}

#[derive(Debug, Clone, Copy, PartialEq, Eq, Structural)]
pub enum CgroupPsiIntervalState {
    Available,
    Partial,
    SomeRegressed,
    SomeExceedsElapsed,
    FullExceedsSome,
}

// ---------------------------------------------------------------------------
// `key value` files: cpu.stat, memory.events, memory.stat
// ---------------------------------------------------------------------------

/// The value of the first entry named `key`.
pub open spec fn kv_lookup(entries: Seq<(Seq<char>, u64)>, key: Seq<char>) -> Option<u64>
    decreases entries.len(),
{
    if entries.len() == 0 {
        None
    } else if entries[0].0 == key {
        Some(entries[0].1)
    } else {
        kv_lookup(entries.drop_first(), key)
    }
}

/// The entries of a `key value` file after the given lines, in line order;
/// `None` once a non-blank line does not hold exactly a key and a number, or
/// repeats a key.
pub open spec fn kv_entries(lines: Seq<Seq<char>>) -> Option<Seq<(Seq<char>, u64)>>
    decreases lines.len(),
{
    if lines.len() == 0 {
        Some(Seq::empty())
    } else {
        match kv_entries(lines.drop_last()) {
            None => None,
            Some(prev) => {
                let line = lines.last();
                let f = fields_of(line);
                if is_blank(line) {
                    Some(prev)
                } else if f.len() != 2 || parse_u64(f[1]) is None || kv_lookup(prev, f[0]) is Some {
                    None
                } else {
                    Some(prev.push((f[0], parse_u64(f[1])->0)))
                }
            },
        }
    }
}

proof fn lemma_kv_entries_stay_none(lines: Seq<Seq<char>>, k: int)
    requires
        0 <= k <= lines.len(),
        kv_entries(lines.take(k)) is None,
    ensures
        kv_entries(lines) is None,
    decreases lines.len() - k,
{
    if k == lines.len() {
        assert(lines.take(k) =~= lines);
    } else {
        assert(lines.take(k + 1).drop_last() =~= lines.take(k));
        lemma_kv_entries_stay_none(lines, k + 1);
    }
}

pub open spec fn kv_view(v: Seq<(Vec<char>, u64)>) -> Seq<(Seq<char>, u64)> {
    v.map_values(|e: (Vec<char>, u64)| (e.0@, e.1))
}

fn kv_get(entries: &Vec<(Vec<char>, u64)>, key: &str) -> (out: Option<u64>)
    ensures
        out == kv_lookup(kv_view(entries@), key@),
{
    let ghost v = kv_view(entries@);
    let mut i: usize = 0;
    assert(v.skip(0) =~= v);
    while i < entries.len()
        invariant
            i <= entries.len(),
            v == kv_view(entries@),
            kv_lookup(v, key@) == kv_lookup(v.skip(i as int), key@),
        decreases entries.len() - i,
    {
        assert(v.skip(i as int).drop_first() =~= v.skip(i + 1));
        assert(v.skip(i as int)[0] == (entries@[i as int].0@, entries@[i as int].1));
        if eq_lit(&entries[i].0, key) {
            return Some(entries[i].1);
        }
        i += 1;
    }
    None
}

fn kv_get_chars(entries: &Vec<(Vec<char>, u64)>, key: &[char]) -> (out: Option<u64>)
    ensures
        out == kv_lookup(kv_view(entries@), key@),
{
    let ghost v = kv_view(entries@);
    let mut i: usize = 0;
    assert(v.skip(0) =~= v);
    while i < entries.len()
        invariant
            i <= entries.len(),
            v == kv_view(entries@),
            kv_lookup(v, key@) == kv_lookup(v.skip(i as int), key@),
        decreases entries.len() - i,
    {
        assert(v.skip(i as int).drop_first() =~= v.skip(i + 1));
        assert(v.skip(i as int)[0] == (entries@[i as int].0@, entries@[i as int].1));
        if eq_chars(&entries[i].0, key) {
            return Some(entries[i].1);
        }
        i += 1;
    }
    None
}

/// The `key value` entries of a controller file.
fn parse_key_values(input: &str) -> (out: Option<Vec<(Vec<char>, u64)>>)
    ensures
        match out {
            Some(v) => kv_entries(lines_of(input@)) == Some(kv_view(v@)),
            None => kv_entries(lines_of(input@)) is None,
        },
{
    let chars = chars_of(input);
    let lines = split_lines(&chars);
    let ghost ls = seqs_of(lines@);
    let mut result: Vec<(Vec<char>, u64)> = Vec::new();
    let mut i: usize = 0;
    assert(kv_view(result@) =~= Seq::<(Seq<char>, u64)>::empty());
    while i < lines.len()
        invariant
            i <= lines.len(),
            ls == seqs_of(lines@),
            ls == lines_of(input@),
            kv_entries(ls.take(i as int)) == Some(kv_view(result@)),
        decreases lines.len() - i,
    {
        assert(ls.take(i + 1).drop_last() =~= ls.take(i as int));
        assert(ls.take(i + 1).last() == lines@[i as int]@);
        let line = &lines[i];
        if !blank(line) {
            let f = split_fields(line);
            if f.len() != 2 {
                proof {
                    lemma_kv_entries_stay_none(ls, i + 1);
                }
                return None;
            }
            let value = match parse_u64_chars(&f[1]) {
                Some(v) => v,
                None => {
                    proof {
                        lemma_kv_entries_stay_none(ls, i + 1);
                    }
                    return None;
                },
            };
            if kv_get_chars(&result, &f[0]).is_some() {
                proof {
                    lemma_kv_entries_stay_none(ls, i + 1);
                }
                return None;
            }
            let ghost before = kv_view(result@);
            let key = f[0].clone();
            assert(key@ == f@[0]@);
            result.push((key, value));
            assert(kv_view(result@) =~= before.push((f@[0]@, value)));
        }
        i += 1;
    }
    assert(ls.take(i as int) =~= ls);
    Some(result)
}

/// `cpu.stat` as this crate reads it: `usage_usec` is required, the other
/// selected counters are optional.
pub open spec fn cpu_stat_spec(input: Seq<char>) -> Result<CgroupCpuRaw, CgroupError> {
    match kv_entries(lines_of(input)) {
        None => Err(CgroupError::Malformed),
        Some(e) => match kv_lookup(e, "usage_usec"@) {
            None => Err(CgroupError::Malformed),
            Some(usage) => Ok(
                CgroupCpuRaw {
                    usage_usec: usage,
                    user_usec: kv_lookup(e, "user_usec"@),
                    system_usec: kv_lookup(e, "system_usec"@),
                    nr_periods: kv_lookup(e, "nr_periods"@),
                    nr_throttled: kv_lookup(e, "nr_throttled"@),
                    throttled_usec: kv_lookup(e, "throttled_usec"@),
                },
            ),
        },
    }
}

pub fn parse_cpu_stat(input: &str) -> (out: Result<CgroupCpuRaw, CgroupError>)
    ensures
        out == cpu_stat_spec(input@),
{
    let values = match parse_key_values(input) {
        Some(v) => v,
        None => return Err(CgroupError::Malformed),
    };
    let usage_usec = match kv_get(&values, "usage_usec") {
        Some(v) => v,
        None => return Err(CgroupError::Malformed),
    };
    Ok(
        CgroupCpuRaw {
            usage_usec,
            user_usec: kv_get(&values, "user_usec"),
            system_usec: kv_get(&values, "system_usec"),
            nr_periods: kv_get(&values, "nr_periods"),
            nr_throttled: kv_get(&values, "nr_throttled"),
            throttled_usec: kv_get(&values, "throttled_usec"),
        },
    )
}

/// `memory.events`: every counter optional.
pub open spec fn memory_events_spec(input: Seq<char>) -> Result<CgroupMemoryEventsRaw, CgroupError> {
    match kv_entries(lines_of(input)) {
        None => Err(CgroupError::Malformed),
        Some(e) => Ok(
            CgroupMemoryEventsRaw {
                low: kv_lookup(e, "low"@),
                high: kv_lookup(e, "high"@),
                max: kv_lookup(e, "max"@),
                oom: kv_lookup(e, "oom"@),
                oom_kill: kv_lookup(e, "oom_kill"@),
                oom_group_kill: kv_lookup(e, "oom_group_kill"@),
            },
        ),
    }
}

pub fn parse_memory_events(input: &str) -> (out: Result<CgroupMemoryEventsRaw, CgroupError>)
    ensures
        out == memory_events_spec(input@),
{
    let v = match parse_key_values(input) {
        Some(v) => v,
        None => return Err(CgroupError::Malformed),
    };
    Ok(
        CgroupMemoryEventsRaw {
            low: kv_get(&v, "low"),
            high: kv_get(&v, "high"),
            max: kv_get(&v, "max"),
            oom: kv_get(&v, "oom"),
            oom_kill: kv_get(&v, "oom_kill"),
            oom_group_kill: kv_get(&v, "oom_group_kill"),
        },
    )
}

/// `memory.stat`: the selected counters, each optional.
pub open spec fn memory_stat_spec(input: Seq<char>) -> Result<CgroupMemoryStatRaw, CgroupError> {
    match kv_entries(lines_of(input)) {
        None => Err(CgroupError::Malformed),
        Some(e) => Ok(
            CgroupMemoryStatRaw {
                pgscan_direct: kv_lookup(e, "pgscan_direct"@),
                pgsteal_direct: kv_lookup(e, "pgsteal_direct"@),
                pswpin: kv_lookup(e, "pswpin"@),
                pswpout: kv_lookup(e, "pswpout"@),
            },
        ),
    }
}

pub fn parse_memory_stat(input: &str) -> (out: Result<CgroupMemoryStatRaw, CgroupError>)
    ensures
        out == memory_stat_spec(input@),
{
    let v = match parse_key_values(input) {
        Some(v) => v,
        None => return Err(CgroupError::Malformed),
    };
    Ok(
        CgroupMemoryStatRaw {
            pgscan_direct: kv_get(&v, "pgscan_direct"),
            pgsteal_direct: kv_get(&v, "pgsteal_direct"),
            pswpin: kv_get(&v, "pswpin"),
            pswpout: kv_get(&v, "pswpout"),
        },
    )
}

/// A single-number file such as `memory.current` (surrounding whitespace
/// allowed).
pub fn parse_single_counter(input: &str) -> (out: Result<u64, CgroupError>)
    ensures
        out == match parse_u64(trim(input@)) {
            Some(v) => Ok::<u64, CgroupError>(v),
            None => Err(CgroupError::Malformed),
        },
{
    let chars = chars_of(input);
    let t = trim_chars(&chars);
    match parse_u64_chars(&t) {
        Some(v) => Ok(v),
        None => Err(CgroupError::Malformed),
    }
}

// ---------------------------------------------------------------------------
// Pressure files: cpu.pressure, memory.pressure, io.pressure
// ---------------------------------------------------------------------------

/// The `total=` value among `key=value` fields: outer `None` when a field has
/// no `=`, when a total does not parse, or when a total repeats.
pub open spec fn psi_fields_total(fields: Seq<Seq<char>>) -> Option<Option<u64>>
    decreases fields.len(),
{
    if fields.len() == 0 {
        Some(None)
    } else {
        match psi_fields_total(fields.drop_last()) {
            None => None,
            Some(total) => match split_once(fields.last(), '=') {
                None => None,
                Some((key, value)) => if key == "total"@ {
                    if parse_u64(value) is None || total is Some {
                        None
                    } else {
                        Some(parse_u64(value))
                    }
                } else {
                    Some(total)
                },
            },
        }
    }
}

proof fn lemma_psi_fields_stay_none(fields: Seq<Seq<char>>, k: int)
    requires
        0 <= k <= fields.len(),
        psi_fields_total(fields.take(k)) is None,
    ensures
        psi_fields_total(fields) is None,
    decreases fields.len() - k,
{
    if k == fields.len() {
        assert(fields.take(k) =~= fields);
    } else {
        assert(fields.take(k + 1).drop_last() =~= fields.take(k));
        lemma_psi_fields_stay_none(fields, k + 1);
    }
}

/// The `some` and `full` totals after the given lines; `None` once a line is
/// neither `some` nor `full`, lacks a total, or repeats its kind.
pub open spec fn psi_totals(lines: Seq<Seq<char>>) -> Option<(Option<u64>, Option<u64>)>
    decreases lines.len(),
{
    if lines.len() == 0 {
        Some((None, None))
    } else {
        match psi_totals(lines.drop_last()) {
            None => None,
            Some((some, full)) => {
                let line = lines.last();
                let f = fields_of(line);
                if is_blank(line) {
                    Some((some, full))
                } else if f.len() == 0 {
                    None
                } else {
                    match psi_fields_total(f.drop_first()) {
                        None => None,
                        Some(None) => None,
                        Some(Some(total)) => if f[0] == "some"@ {
                            if some is Some {
                                None
                            } else {
                                Some((Some(total), full))
                            }
                        } else if f[0] == "full"@ {
                            if full is Some {
                                None
                            } else {
                                Some((some, Some(total)))
                            }
                        } else {
                            None
                        },
                    }
                }
            },
        }
    }
}

proof fn lemma_psi_totals_stay_none(lines: Seq<Seq<char>>, k: int)
    requires
        0 <= k <= lines.len(),
        psi_totals(lines.take(k)) is None,
    ensures
        psi_totals(lines) is None,
    decreases lines.len() - k,
{
    if k == lines.len() {
        assert(lines.take(k) =~= lines);
    } else {
        assert(lines.take(k + 1).drop_last() =~= lines.take(k));
        lemma_psi_totals_stay_none(lines, k + 1);
    }
}

/// A cgroup pressure file as this crate reads it: a `some` total is
/// required, `full` is optional and may not exceed `some`.
pub open spec fn cgroup_psi_spec(input: Seq<char>) -> Result<CgroupPsiRaw, CgroupError> {
    match psi_totals(lines_of(input)) {
        None => Err(CgroupError::Malformed),
        Some((None, _)) => Err(CgroupError::Malformed),
        Some((Some(some), full)) => match full {
            Some(f) => if f > some {
                Err(CgroupError::Malformed)
            } else {
                Ok(CgroupPsiRaw { some_total_usec: some, full_total_usec: full })
            },
            None => Ok(CgroupPsiRaw { some_total_usec: some, full_total_usec: None }),
        },
    }
}

fn psi_line_total(fields: &Vec<Vec<char>>) -> (out: Option<Option<u64>>)
    requires
        fields@.len() >= 1,
    ensures
        out == psi_fields_total(seqs_of(fields@).drop_first()),
{
    let ghost fs = seqs_of(fields@).drop_first();
    let mut total: Option<u64> = None;
    let mut i: usize = 1;
    assert(fs.take(0) =~= Seq::<Seq<char>>::empty());
    while i < fields.len()
        invariant
            1 <= i <= fields.len(),
            fs == seqs_of(fields@).drop_first(),
            psi_fields_total(fs.take(i - 1)) == Some(total),
        decreases fields.len() - i,
    {
        assert(fs.take(i as int).drop_last() =~= fs.take(i - 1));
        assert(fs.take(i as int).last() == fields@[i as int]@);
        match split_once_char(&fields[i], '=') {
            None => {
                proof {
                    lemma_psi_fields_stay_none(fs, i as int);
                }
                return None;
            },
            Some((key, value)) => {
                if eq_lit(&key, "total") {
                    let parsed = parse_u64_chars(&value);
                    if parsed.is_none() || total.is_some() {
                        proof {
                            lemma_psi_fields_stay_none(fs, i as int);
                        }
                        return None;
                    }
                    total = parsed;
                }
            },
        }
        i += 1;
    }
    assert(fs.take(i - 1) =~= fs);
    Some(total)
}

pub fn parse_cgroup_psi(input: &str) -> (out: Result<CgroupPsiRaw, CgroupError>)
    ensures
        out == cgroup_psi_spec(input@),
{
    let chars = chars_of(input);
    let lines = split_lines(&chars);
    let ghost ls = seqs_of(lines@);
    let mut some: Option<u64> = None;
    let mut full: Option<u64> = None;
    let mut i: usize = 0;
    while i < lines.len()
        invariant
            i <= lines.len(),
            ls == seqs_of(lines@),
            ls == lines_of(input@),
            psi_totals(ls.take(i as int)) == Some((some, full)),
        decreases lines.len() - i,
    {
        assert(ls.take(i + 1).drop_last() =~= ls.take(i as int));
        assert(ls.take(i + 1).last() == lines@[i as int]@);
        let line = &lines[i];
        if !blank(line) {
            let f = split_fields(line);
            if f.len() == 0 {
                proof {
                    lemma_psi_totals_stay_none(ls, i + 1);
                }
                return Err(CgroupError::Malformed);
            }
            assert(seqs_of(f@)[0] == f@[0]@);
            let total = match psi_line_total(&f) {
                Some(Some(t)) => t,
                _ => {
                    proof {
                        lemma_psi_totals_stay_none(ls, i + 1);
                    }
                    return Err(CgroupError::Malformed);
                },
            };
            if eq_lit(&f[0], "some") {
                if some.is_some() {
                    proof {
                        lemma_psi_totals_stay_none(ls, i + 1);
                    }
                    return Err(CgroupError::Malformed);
                }
                some = Some(total);
            } else if eq_lit(&f[0], "full") {
                if full.is_some() {
                    proof {
                        lemma_psi_totals_stay_none(ls, i + 1);
                    }
                    return Err(CgroupError::Malformed);
                }
                full = Some(total);
            } else {
                proof {
                    lemma_psi_totals_stay_none(ls, i + 1);
                }
                return Err(CgroupError::Malformed);
            }
        }
        i += 1;
    }
    assert(ls.take(i as int) =~= ls);
    let some = match some {
        Some(v) => v,
        None => return Err(CgroupError::Malformed),
    };
    match full {
        Some(f) => if f > some {
            return Err(CgroupError::Malformed);
        },
        None => {},
    }
    Ok(CgroupPsiRaw { some_total_usec: some, full_total_usec: full })
}

// ---------------------------------------------------------------------------
// io.stat
// ---------------------------------------------------------------------------

/// The order of device identities: by major, then minor number.
pub open spec fn dev_lt(a: CgroupIoDevice, b: CgroupIoDevice) -> bool {
    a.major < b.major || (a.major == b.major && a.minor < b.minor)
}

/// Entries strictly ordered by device identity (so no device repeats).
pub open spec fn sorted_devices<V>(s: Seq<(CgroupIoDevice, V)>) -> bool {
    forall|i: int, j: int| 0 <= i < j < s.len() ==> dev_lt(#[trigger] s[i].0, #[trigger] s[j].0)
}

pub open spec fn has_device<V>(s: Seq<(CgroupIoDevice, V)>, d: CgroupIoDevice) -> bool {
    exists|i: int| 0 <= i < s.len() && #[trigger] s[i].0 == d
}

/// A device field `major:minor`.
pub open spec fn io_device(field: Seq<char>) -> Option<CgroupIoDevice> {
    match split_once(field, ':') {
        None => None,
        Some((major, minor)) => match (parse_u32(major), parse_u32(minor)) {
            (Some(a), Some(b)) => Some(CgroupIoDevice { major: a, minor: b }),
            _ => None,
        },
    }
}

/// The `key=value` assignments after a device field, in order; `None` on a
/// field without `=`, an empty key, a non-numeric value or a repeated key.
pub open spec fn io_assignments(fields: Seq<Seq<char>>) -> Option<Seq<(Seq<char>, u64)>>
    decreases fields.len(),
{
    if fields.len() == 0 {
        Some(Seq::empty())
    } else {
        match io_assignments(fields.drop_last()) {
            None => None,
            Some(prev) => match split_once(fields.last(), '=') {
                None => None,
                Some((key, value)) => if key.len() == 0 || parse_u64(value) is None || kv_lookup(
                    prev,
                    key,
                ) is Some {
                    None
                } else {
                    Some(prev.push((key, parse_u64(value)->0)))
                },
            },
        }
    }
}

proof fn lemma_io_assignments_stay_none(fields: Seq<Seq<char>>, k: int)
    requires
        0 <= k <= fields.len(),
        io_assignments(fields.take(k)) is None,
    ensures
        io_assignments(fields) is None,
    decreases fields.len() - k,
{
    if k == fields.len() {
        assert(fields.take(k) =~= fields);
    } else {
        assert(fields.take(k + 1).drop_last() =~= fields.take(k));
        lemma_io_assignments_stay_none(fields, k + 1);
    }
}

pub open spec fn io_raw_of(a: Seq<(Seq<char>, u64)>) -> CgroupIoRaw {
    CgroupIoRaw {
        rbytes: kv_lookup(a, "rbytes"@),
        wbytes: kv_lookup(a, "wbytes"@),
        rios: kv_lookup(a, "rios"@),
        wios: kv_lookup(a, "wios"@),
    }
}

/// The per-device entries of `io.stat` after the given lines, in line
/// order; `None` on a malformed line or a repeated device.
pub open spec fn io_stat_entries(lines: Seq<Seq<char>>) -> Option<Seq<(CgroupIoDevice, CgroupIoRaw)>>
    decreases lines.len(),
{
    if lines.len() == 0 {
        Some(Seq::empty())
    } else {
        match io_stat_entries(lines.drop_last()) {
            None => None,
            Some(prev) => {
                let line = lines.last();
                let f = fields_of(line);
                if is_blank(line) {
                    Some(prev)
                } else if f.len() == 0 {
                    None
                } else {
                    match io_device(f[0]) {
                        None => None,
                        Some(d) => if has_device(prev, d) {
                            None
                        } else {
                            match io_assignments(f.drop_first()) {
                                None => None,
                                Some(a) => Some(prev.push((d, io_raw_of(a)))),
                            }
                        },
                    }
                }
            },
        }
    }
}

proof fn lemma_io_stat_stay_none(lines: Seq<Seq<char>>, k: int)
    requires
        0 <= k <= lines.len(),
        io_stat_entries(lines.take(k)) is None,
    ensures
        io_stat_entries(lines) is None,
    decreases lines.len() - k,
{
    if k == lines.len() {
        assert(lines.take(k) =~= lines);
    } else {
        assert(lines.take(k + 1).drop_last() =~= lines.take(k));
        lemma_io_stat_stay_none(lines, k + 1);
    }
}

fn parse_device(field: &[char]) -> (out: Option<CgroupIoDevice>)
    ensures
        out == io_device(field@),
{
    match split_once_char(field, ':') {
        None => None,
        Some((major, minor)) => match (parse_u32_chars(&major), parse_u32_chars(&minor)) {
            (Some(a), Some(b)) => Some(CgroupIoDevice { major: a, minor: b }),
            _ => None,
        },
    }
}

fn parse_assignments(fields: &Vec<Vec<char>>) -> (out: Option<Vec<(Vec<char>, u64)>>)
    requires
        fields@.len() >= 1,
    ensures
        match out {
            Some(v) => io_assignments(seqs_of(fields@).drop_first()) == Some(kv_view(v@)),
            None => io_assignments(seqs_of(fields@).drop_first()) is None,
        },
{
    let ghost fs = seqs_of(fields@).drop_first();
    let mut result: Vec<(Vec<char>, u64)> = Vec::new();
    let mut i: usize = 1;
    assert(fs.take(0) =~= Seq::<Seq<char>>::empty());
    assert(kv_view(result@) =~= Seq::<(Seq<char>, u64)>::empty());
    while i < fields.len()
        invariant
            1 <= i <= fields.len(),
            fs == seqs_of(fields@).drop_first(),
            io_assignments(fs.take(i - 1)) == Some(kv_view(result@)),
        decreases fields.len() - i,
    {
        assert(fs.take(i as int).drop_last() =~= fs.take(i - 1));
        assert(fs.take(i as int).last() == fields@[i as int]@);
        match split_once_char(&fields[i], '=') {
            None => {
                proof {
                    lemma_io_assignments_stay_none(fs, i as int);
                }
                return None;
            },
            Some((key, value)) => {
                let parsed = parse_u64_chars(&value);
                if key.len() == 0 || parsed.is_none() || kv_get_chars(&result, &key).is_some() {
                    proof {
                        lemma_io_assignments_stay_none(fs, i as int);
                    }
                    return None;
                }
                let ghost before = kv_view(result@);
                let ghost kv = key@;
                result.push((key, parsed.unwrap()));
                assert(kv_view(result@) =~= before.push((kv, parsed.unwrap())));
            },
        }
        i += 1;
    }
    assert(fs.take(i - 1) =~= fs);
    Some(result)
}

fn io_raw_from(a: &Vec<(Vec<char>, u64)>) -> (r: CgroupIoRaw)
    ensures
        r == io_raw_of(kv_view(a@)),
{
    CgroupIoRaw {
        rbytes: kv_get(a, "rbytes"),
        wbytes: kv_get(a, "wbytes"),
        rios: kv_get(a, "rios"),
        wios: kv_get(a, "wios"),
    }
}

fn dev_less(a: CgroupIoDevice, b: CgroupIoDevice) -> (r: bool)
    ensures
        r == dev_lt(a, b),
{
    a.major < b.major || (a.major == b.major && a.minor < b.minor)
}

fn find_device<V>(entries: &Vec<(CgroupIoDevice, V)>, d: CgroupIoDevice) -> (out: Option<usize>)
    ensures
        match out {
            Some(i) => i < entries@.len() && entries@[i as int].0 == d,
            None => !has_device(entries@, d),
        },
{
    let mut i: usize = 0;
    while i < entries.len()
        invariant
            i <= entries.len(),
            forall|k: int| 0 <= k < i ==> entries@[k].0 != d,
        decreases entries.len() - i,
    {
        if entries[i].0 == d {
            return Some(i);
        }
        i += 1;
    }
    None
}

/// Inserts an entry for a device not yet present, keeping device order.
fn insert_device_sorted<V>(entries: &mut Vec<(CgroupIoDevice, V)>, d: CgroupIoDevice, v: V)
    requires
        sorted_devices(old(entries)@),
        !has_device(old(entries)@, d),
    ensures
        sorted_devices(final(entries)@),
        final(entries)@.len() == old(entries)@.len() + 1,
        forall|e: (CgroupIoDevice, V)| #[trigger]
            final(entries)@.contains(e) <==> (old(entries)@.contains(e) || e == (d, v)),
{
    let ghost before = entries@;
    let mut p: usize = 0;
    while p < entries.len() && dev_less(entries[p].0, d)
        invariant
            p <= entries.len(),
            entries@ == before,
            forall|k: int| 0 <= k < p ==> dev_lt(#[trigger] entries@[k].0, d),
        decreases entries.len() - p,
    {
        p += 1;
    }
    proof {
        if p < before.len() {
            assert(before[p as int].0 != d);
            assert(!dev_lt(before[p as int].0, d));
            assert(dev_lt(d, before[p as int].0));
        }
    }
    entries.insert(p, (d, v));
    let ghost after = entries@;
    assert(after == before.insert(p as int, (d, v)));
    assert forall|i: int, j: int| 0 <= i < j < after.len() implies dev_lt(
        #[trigger] after[i].0,
        #[trigger] after[j].0,
    ) by {
        if j < p {
            assert(after[i] == before[i] && after[j] == before[j]);
        } else if j == p {
            assert(after[i] == before[i]);
        } else if i < p {
            assert(after[i] == before[i] && after[j] == before[j - 1]);
            if p < before.len() {
                assert(dev_lt(d, before[p as int].0));
                if j - 1 > p {
                    assert(dev_lt(before[p as int].0, before[j - 1].0));
                }
            }
        } else if i == p {
            assert(after[j] == before[j - 1]);
            assert(dev_lt(d, before[p as int].0));
            if j - 1 > p {
                assert(dev_lt(before[p as int].0, before[j - 1].0));
            }
        } else {
            assert(after[i] == before[i - 1] && after[j] == before[j - 1]);
        }
    }
    assert forall|e: (CgroupIoDevice, V)| #[trigger] after.contains(e) <==> (before.contains(e)
        || e == (d, v)) by {
        if after.contains(e) {
            let k = choose|k: int| 0 <= k < after.len() && after[k] == e;
            if k < p {
                assert(before[k] == e);
            } else if k > p {
                assert(before[k - 1] == e);
            }
        }
        if before.contains(e) {
            let k = choose|k: int| 0 <= k < before.len() && before[k] == e;
            if k < p {
                assert(after[k] == e);
            } else {
                assert(after[k + 1] == e);
            }
        }
        if e == (d, v) {
            assert(after[p as int] == e);
        }
    }
}

/// `io.stat` as this crate reads it: one line per device, devices unique.
pub open spec fn io_stat_spec(input: Seq<char>) -> Option<Seq<(CgroupIoDevice, CgroupIoRaw)>> {
    io_stat_entries(lines_of(input))
}

/// Parses `io.stat`.  The result lists each device once, ordered by device
/// identity; unknown counters are ignored and absent ones stay `None`.
pub fn parse_io_stat(input: &str) -> (out: Result<Vec<(CgroupIoDevice, CgroupIoRaw)>, CgroupError>)
    ensures
        match out {
            Ok(v) => {
                &&& io_stat_spec(input@) is Some
                &&& sorted_devices(v@)
                &&& v@.len() == io_stat_spec(input@)->0.len()
                &&& forall|e: (CgroupIoDevice, CgroupIoRaw)| #[trigger]
                    v@.contains(e) <==> io_stat_spec(input@)->0.contains(e)
            },
            Err(e) => e == CgroupError::Malformed && io_stat_spec(input@) is None,
        },
{
    let chars = chars_of(input);
    let lines = split_lines(&chars);
    let ghost ls = seqs_of(lines@);
    let mut output: Vec<(CgroupIoDevice, CgroupIoRaw)> = Vec::new();
    let ghost mut prev: Seq<(CgroupIoDevice, CgroupIoRaw)> = Seq::empty();
    let mut i: usize = 0;
    while i < lines.len()
        invariant
            i <= lines.len(),
            ls == seqs_of(lines@),
            ls == lines_of(input@),
            io_stat_entries(ls.take(i as int)) == Some(prev),
            sorted_devices(output@),
            output@.len() == prev.len(),
            forall|e: (CgroupIoDevice, CgroupIoRaw)| #[trigger]
                output@.contains(e) <==> prev.contains(e),
        decreases lines.len() - i,
    {
        assert(ls.take(i + 1).drop_last() =~= ls.take(i as int));
        assert(ls.take(i + 1).last() == lines@[i as int]@);
        let line = &lines[i];
        if !blank(line) {
            let f = split_fields(line);
            if f.len() == 0 {
                proof {
                    lemma_io_stat_stay_none(ls, i + 1);
                }
                return Err(CgroupError::Malformed);
            }
            assert(seqs_of(f@)[0] == f@[0]@);
            let d = match parse_device(&f[0]) {
                Some(d) => d,
                None => {
                    proof {
                        lemma_io_stat_stay_none(ls, i + 1);
                    }
                    return Err(CgroupError::Malformed);
                },
            };
            if find_device(&output, d).is_some() {
                proof {
                    let k = choose|k: int| 0 <= k < output@.len() && output@[k].0 == d;
                    assert(output@.contains(output@[k]));
                    assert(prev.contains(output@[k]));
                    let m = choose|m: int| 0 <= m < prev.len() && prev[m] == output@[k];
                    assert(prev[m].0 == d);
                    lemma_io_stat_stay_none(ls, i + 1);
                }
                return Err(CgroupError::Malformed);
            }
            proof {
                if has_device(prev, d) {
                    let m = choose|m: int| 0 <= m < prev.len() && prev[m].0 == d;
                    assert(prev.contains(prev[m]));
                    assert(output@.contains(prev[m]));
                    let k = choose|k: int| 0 <= k < output@.len() && output@[k] == prev[m];
                    assert(output@[k].0 == d);
                }
            }
            let a = match parse_assignments(&f) {
                Some(a) => a,
                None => {
                    proof {
                        lemma_io_stat_stay_none(ls, i + 1);
                    }
                    return Err(CgroupError::Malformed);
                },
            };
            let raw = io_raw_from(&a);
            let ghost old_prev = prev;
            let ghost old_out = output@;
            assert(forall|e: (CgroupIoDevice, CgroupIoRaw)| #[trigger]
                old_out.contains(e) <==> old_prev.contains(e));
            insert_device_sorted(&mut output, d, raw);
            proof {
                prev = old_prev.push((d, raw));
                assert forall|e: (CgroupIoDevice, CgroupIoRaw)| #[trigger]
                    prev.contains(e) <==> (old_prev.contains(e) || e == (d, raw)) by {
                    if prev.contains(e) {
                        let m = choose|m: int| 0 <= m < prev.len() && prev[m] == e;
                        if m < old_prev.len() {
                            assert(old_prev[m] == e);
                        }
                    }
                    if old_prev.contains(e) {
                        let m = choose|m: int| 0 <= m < old_prev.len() && old_prev[m] == e;
                        assert(prev[m] == e);
                    }
                    if e == (d, raw) {
                        assert(prev[old_prev.len() as int] == e);
                    }
                }
            }
        }
        i += 1;
    }
    assert(ls.take(i as int) =~= ls);
    Ok(output)
}

// ---------------------------------------------------------------------------
// Cgroup paths
// ---------------------------------------------------------------------------

/// `/c1/c2/...` for the given components.
pub open spec fn slash_joined(comps: Seq<Seq<char>>) -> Seq<char>
    decreases comps.len(),
{
    if comps.len() == 0 {
        Seq::empty()
    } else {
        slash_joined(comps.drop_last()) + seq!['/'] + comps.last()
    }
}

/// A cgroup path in canonical form: absolute, at most 4096 bytes, without
/// NUL, without `.` or `..` components and at most 64 components deep;
/// repeated and trailing slashes are dropped.
pub open spec fn normalized_path(value: Seq<char>) -> Option<Seq<char>> {
    let comps = segments(value, '/');
    if value.len() == 0 || value[0] != '/' || utf8_len(value) > MAX_CGROUP_PATH_BYTES
        || value.contains('\0') {
        None
    } else if exists|i: int| 0 <= i < comps.len() && (#[trigger] comps[i] == "."@ || comps[i]
        == ".."@) {
        None
    } else if comps.len() > MAX_CGROUP_DEPTH {
        None
    } else if comps.len() == 0 {
        Some(seq!['/'])
    } else {
        Some(slash_joined(comps))
    }
}

fn contains_char(s: &[char], c: char) -> (b: bool)
    ensures
        b == s@.contains(c),
{
    let mut i: usize = 0;
    while i < s.len()
        invariant
            i <= s.len(),
            forall|j: int| 0 <= j < i ==> s@[j] != c,
        decreases s.len() - i,
    {
        if s[i] == c {
            assert(s@[i as int] == c);
            return true;
        }
        i += 1;
    }
    false
}

fn normalize_chars(value: &[char]) -> (out: Option<Vec<char>>)
    ensures
        match out {
            Some(v) => normalized_path(value@) == Some(v@),
            None => normalized_path(value@) is None,
        },
{
    if value.len() == 0 || value[0] != '/' {
        return None;
    }
    if utf8_len_at_most(value, MAX_CGROUP_PATH_BYTES).is_none() || contains_char(value, '\0') {
        return None;
    }
    let comps = split_segments(value, '/');
    let ghost cs = seqs_of(comps@);
    let mut k: usize = 0;
    while k < comps.len()
        invariant
            k <= comps.len(),
            cs == seqs_of(comps@),
            cs == segments(value@, '/'),
            value@.len() > 0 && value@[0] == '/',
            utf8_len(value@) <= MAX_CGROUP_PATH_BYTES,
            !value@.contains('\0'),
            forall|i: int| 0 <= i < k ==> !(#[trigger] cs[i] == "."@ || cs[i] == ".."@),
        decreases comps.len() - k,
    {
        if eq_lit(&comps[k], ".") || eq_lit(&comps[k], "..") {
            assert(cs[k as int] == comps@[k as int]@);
            assert(0 <= k < cs.len() && (cs[k as int] == "."@ || cs[k as int] == ".."@));
            return None;
        }
        k += 1;
    }
    if comps.len() > MAX_CGROUP_DEPTH {
        return None;
    }
    if comps.len() == 0 {
        return Some(vec!['/']);
    }
    let mut out: Vec<char> = Vec::new();
    let mut j: usize = 0;
    assert(cs.take(0) =~= Seq::<Seq<char>>::empty());
    while j < comps.len()
        invariant
            j <= comps.len(),
            cs == seqs_of(comps@),
            out@ == slash_joined(cs.take(j as int)),
        decreases comps.len() - j,
    {
        assert(cs.take(j + 1).drop_last() =~= cs.take(j as int));
        let ghost before = out@;
        out.push('/');
        let part = &comps[j];
        let mut t: usize = 0;
        while t < part.len()
            invariant
                t <= part.len(),
                out@ == before + seq!['/'] + part@.take(t as int),
            decreases part.len() - t,
        {
            out.push(part[t]);
            assert(part@.take(t + 1) =~= part@.take(t as int).push(part@[t as int]));
            t += 1;
        }
        assert(part@.take(t as int) =~= part@);
        assert(out@ =~= slash_joined(cs.take(j as int)) + seq!['/'] + cs.take(j + 1).last());
        j += 1;
    }
    assert(cs.take(j as int) =~= cs);
    Some(out)
}

/// Canonicalizes a cgroup path (see `normalized_path`).
pub fn normalize_cgroup_path(value: &str) -> (out: Result<String, CgroupError>)
    ensures
        match out {
            Ok(s) => normalized_path(value@) == Some(s@),
            Err(e) => e == CgroupError::Malformed && normalized_path(value@) is None,
        },
{
    let chars = chars_of(value);
    match normalize_chars(&chars) {
        Some(v) => Ok(string_of(&v)),
        None => Err(CgroupError::Malformed),
    }
}

/// The unified (`0::`) record state after the given lines of
/// `/proc/<pid>/cgroup`: outer `None` on a record that is not
/// `hierarchy:controllers:path`, an invalid unified path or a second unified
/// record.
pub open spec fn unified_state(lines: Seq<Seq<char>>) -> Option<Option<Seq<char>>>
    decreases lines.len(),
{
    if lines.len() == 0 {
        Some(None)
    } else {
        match unified_state(lines.drop_last()) {
            None => None,
            Some(found) => {
                let line = lines.last();
                if line.len() == 0 {
                    Some(found)
                } else {
                    match split_once(line, ':') {
                        None => None,
                        Some((hierarchy, rest)) => match split_once(rest, ':') {
                            None => None,
                            Some((controllers, path)) => if hierarchy == "0"@ && controllers.len()
                                == 0 {
                                match normalized_path(path) {
                                    None => None,
                                    Some(p) => if found is Some {
                                        None
                                    } else {
                                        Some(Some(p))
                                    },
                                }
                            } else {
                                Some(found)
                            },
                        },
                    }
                }
            },
        }
    }
}

proof fn lemma_unified_stay_none(lines: Seq<Seq<char>>, k: int)
    requires
        0 <= k <= lines.len(),
        unified_state(lines.take(k)) is None,
    ensures
        unified_state(lines) is None,
    decreases lines.len() - k,
{
    if k == lines.len() {
        assert(lines.take(k) =~= lines);
    } else {
        assert(lines.take(k + 1).drop_last() =~= lines.take(k));
        lemma_unified_stay_none(lines, k + 1);
    }
}

/// The unified cgroup path of a process, from `/proc/<pid>/cgroup`.  A
/// cgroup-v1-only file, or one with several unified records, is rejected
/// rather than guessed.
pub open spec fn unified_cgroup_spec(input: Seq<char>) -> Result<Seq<char>, CgroupError> {
    match unified_state(lines_of(input)) {
        None => Err(CgroupError::Malformed),
        Some(None) => Err(CgroupError::Unsupported),
        Some(Some(p)) => Ok(p),
    }
}

pub fn parse_unified_cgroup(input: &str) -> (out: Result<String, CgroupError>)
    ensures
        match out {
            Ok(s) => unified_cgroup_spec(input@) == Ok::<Seq<char>, CgroupError>(s@),
            Err(e) => unified_cgroup_spec(input@) == Err::<Seq<char>, CgroupError>(e),
        },
{
    let chars = chars_of(input);
    let lines = split_lines(&chars);
    let ghost ls = seqs_of(lines@);
    let mut found: Option<Vec<char>> = None;
    let mut i: usize = 0;
    while i < lines.len()
        invariant
            i <= lines.len(),
            ls == seqs_of(lines@),
            ls == lines_of(input@),
            unified_state(ls.take(i as int)) == Some(
                match found {
                    Some(v) => Some(v@),
                    None => None::<Seq<char>>,
                },
            ),
        decreases lines.len() - i,
    {
        assert(ls.take(i + 1).drop_last() =~= ls.take(i as int));
        assert(ls.take(i + 1).last() == lines@[i as int]@);
        let line = &lines[i];
        if line.len() > 0 {
            let (hierarchy, rest) = match split_once_char(line, ':') {
                Some(p) => p,
                None => {
                    proof {
                        lemma_unified_stay_none(ls, i + 1);
                    }
                    return Err(CgroupError::Malformed);
                },
            };
            let (controllers, path) = match split_once_char(&rest, ':') {
                Some(p) => p,
                None => {
                    proof {
                        lemma_unified_stay_none(ls, i + 1);
                    }
                    return Err(CgroupError::Malformed);
                },
            };
            if eq_lit(&hierarchy, "0") && controllers.len() == 0 {
                match normalize_chars(&path) {
                    None => {
                        proof {
                            lemma_unified_stay_none(ls, i + 1);
                        }
                        return Err(CgroupError::Malformed);
                    },
                    Some(p) => {
                        if found.is_some() {
                            proof {
                                lemma_unified_stay_none(ls, i + 1);
                            }
                            return Err(CgroupError::Malformed);
                        }
                        found = Some(p);
                    },
                }
            }
        }
        i += 1;
    }
    assert(ls.take(i as int) =~= ls);
    match found {
        Some(p) => Ok(string_of(&p)),
        None => Err(CgroupError::Unsupported),
    }
}

/// The character an octal mountinfo escape stands for.
pub open spec fn mountinfo_escape(t: Seq<char>) -> Option<char> {
    if t == seq!['0', '4', '0'] {
        Some(' ')
    } else if t == seq!['0', '1', '1'] {
        Some('\t')
    } else if t == seq!['0', '1', '2'] {
        Some('\n')
    } else if t == seq!['1', '3', '4'] {
        Some('\\')
    } else {
        None
    }
}

/// Undoes the octal escapes `\040`, `\011`, `\012` and `\134` of a
/// mountinfo path field; any other backslash is malformed.
pub open spec fn mountinfo_unescape(s: Seq<char>) -> Option<Seq<char>>
    decreases s.len(),
{
    if s.len() == 0 {
        Some(Seq::empty())
    } else if s[0] != '\\' {
        match mountinfo_unescape(s.drop_first()) {
            Some(t) => Some(seq![s[0]] + t),
            None => None,
        }
    } else if s.len() < 4 {
        None
    } else {
        match mountinfo_escape(s.subrange(1, 4)) {
            None => None,
            Some(c) => match mountinfo_unescape(s.skip(4)) {
                Some(t) => Some(seq![c] + t),
                None => None,
            },
        }
    }
}

/// A mountinfo path field, unescaped and canonicalized.
pub open spec fn mountinfo_path(field: Seq<char>) -> Option<Seq<char>> {
    match mountinfo_unescape(field) {
        None => None,
        Some(u) => normalized_path(u),
    }
}

fn escape_of(a: char, b: char, c: char) -> (out: Option<char>)
    ensures
        out == mountinfo_escape(seq![a, b, c]),
{
    if a == '0' && b == '4' && c == '0' {
        Some(' ')
    } else if a == '0' && b == '1' && c == '1' {
        Some('\t')
    } else if a == '0' && b == '1' && c == '2' {
        Some('\n')
    } else if a == '1' && b == '3' && c == '4' {
        Some('\\')
    } else {
        proof {
            assert(seq![a, b, c] != seq!['0', '4', '0'] ==> seq![a, b, c][0] != '0' || seq![
                a,
                b,
                c,
            ][1] != '4' || seq![a, b, c][2] != '0');
        }
        None
    }
}

fn unescape_chars(s: &[char]) -> (out: Option<Vec<char>>)
    ensures
        match out {
            Some(v) => mountinfo_unescape(s@) == Some(v@),
            None => mountinfo_unescape(s@) is None,
        },
{
    let mut out: Vec<char> = Vec::new();
    let mut i: usize = 0;
    assert(s@.skip(0) =~= s@);
    while i < s.len()
        invariant
            i <= s.len(),
            mountinfo_unescape(s@) == match mountinfo_unescape(s@.skip(i as int)) {
                Some(t) => Some(out@ + t),
                None => None::<Seq<char>>,
            },
        decreases s.len() - i,
    {
        let ghost rest = s@.skip(i as int);
        assert(rest[0] == s@[i as int]);
        if s[i] != '\\' {
            assert(rest.drop_first() =~= s@.skip(i + 1));
            let ghost old_out = out@;
            out.push(s[i]);
            proof {
                match mountinfo_unescape(s@.skip(i + 1)) {
                    Some(t) => {
                        assert(old_out + (seq![s@[i as int]] + t) =~= out@ + t);
                    },
                    None => {},
                }
            }
            i += 1;
        } else {
            if s.len() - i < 4 {
                return None;
            }
            assert(rest.subrange(1, 4) =~= seq![s@[i + 1], s@[i + 2], s@[i + 3]]);
            match escape_of(s[i + 1], s[i + 2], s[i + 3]) {
                None => {
                    return None;
                },
                Some(c) => {
                    assert(rest.skip(4) =~= s@.skip(i + 4));
                    let ghost old_out = out@;
                    out.push(c);
                    proof {
                        match mountinfo_unescape(s@.skip(i + 4)) {
                            Some(t) => {
                                assert(old_out + (seq![c] + t) =~= out@ + t);
                            },
                            None => {},
                        }
                    }
                    i += 4;
                },
            }
        }
    }
    assert(s@.skip(i as int) =~= Seq::<char>::empty());
    assert(out@ + Seq::<char>::empty() =~= out@);
    Some(out)
}

fn mountinfo_path_of(field: &[char]) -> (out: Option<Vec<char>>)
    ensures
        match out {
            Some(v) => mountinfo_path(field@) == Some(v@),
            None => mountinfo_path(field@) is None,
        },
{
    match unescape_chars(field) {
        None => None,
        Some(u) => normalize_chars(&u),
    }
}

/// One mountinfo line: outer `None` when malformed, `Some(None)` when it is
/// not a cgroup2 mount, otherwise its root and mount point.
pub open spec fn mountinfo_line(line: Seq<char>) -> Option<Option<(Seq<char>, Seq<char>)>> {
    match split_once_sub(line, " - "@) {
        None => None,
        Some((left, right)) => {
            let pre = fields_of(left);
            let post = fields_of(right);
            if pre.len() < 6 {
                None
            } else {
                match (mountinfo_path(pre[3]), mountinfo_path(pre[4])) {
                    (Some(root), Some(mount_point)) => if post.len() == 0 || post[0]
                        != "cgroup2"@ {
                        Some(None)
                    } else if post.len() < 3 {
                        None
                    } else {
                        Some(Some((root, mount_point)))
                    },
                    _ => None,
                }
            }
        },
    }
}

/// The cgroup2 mounts found in the given mountinfo lines.
pub open spec fn cgroup2_mounts(lines: Seq<Seq<char>>) -> Option<Seq<(Seq<char>, Seq<char>)>>
    decreases lines.len(),
{
    if lines.len() == 0 {
        Some(Seq::empty())
    } else {
        match cgroup2_mounts(lines.drop_last()) {
            None => None,
            Some(found) => if lines.last().len() == 0 {
                Some(found)
            } else {
                match mountinfo_line(lines.last()) {
                    None => None,
                    Some(None) => Some(found),
                    Some(Some(m)) => Some(found.push(m)),
                }
            },
        }
    }
}

proof fn lemma_mounts_stay_none(lines: Seq<Seq<char>>, k: int)
    requires
        0 <= k <= lines.len(),
        cgroup2_mounts(lines.take(k)) is None,
    ensures
        cgroup2_mounts(lines) is None,
    decreases lines.len() - k,
{
    if k == lines.len() {
        assert(lines.take(k) =~= lines);
    } else {
        assert(lines.take(k + 1).drop_last() =~= lines.take(k));
        lemma_mounts_stay_none(lines, k + 1);
    }
}

/// The single cgroup2 mount of `/proc/self/mountinfo`: none is unsupported,
/// several are ambiguous.
pub open spec fn cgroup2_mount_spec(input: Seq<char>) -> Result<(Seq<char>, Seq<char>), CgroupError> {
    match cgroup2_mounts(lines_of(input)) {
        None => Err(CgroupError::Malformed),
        Some(found) => if found.len() == 0 {
            Err(CgroupError::Unsupported)
        } else if found.len() == 1 {
            Ok(found[0])
        } else {
            Err(CgroupError::AmbiguousMount)
        },
    }
}

fn parse_mount_line(line: &[char]) -> (out: Option<Option<(Vec<char>, Vec<char>)>>)
    ensures
        match out {
            None => mountinfo_line(line@) is None,
            Some(None) => mountinfo_line(line@) == Some(None::<(Seq<char>, Seq<char>)>),
            Some(Some((a, b))) => mountinfo_line(line@) == Some(Some((a@, b@))),
        },
{
    let sep = chars_of(" - ");
    proof {
        reveal_strlit(" - ");
    }
    let (left, right) = match split_once_pattern(line, &sep) {
        Some(p) => p,
        None => return None,
    };
    let pre = split_fields(&left);
    let post = split_fields(&right);
    if pre.len() < 6 {
        return None;
    }
    assert(seqs_of(pre@)[3] == pre@[3]@);
    assert(seqs_of(pre@)[4] == pre@[4]@);
    let root = match mountinfo_path_of(&pre[3]) {
        Some(r) => r,
        None => return None,
    };
    let mount_point = match mountinfo_path_of(&pre[4]) {
        Some(m) => m,
        None => return None,
    };
    if post.len() == 0 || !eq_lit(&post[0], "cgroup2") {
        return Some(None);
    }
    if post.len() < 3 {
        return None;
    }
    Some(Some((root, mount_point)))
}

pub fn parse_cgroup2_mountinfo(input: &str) -> (out: Result<Cgroup2Mount, CgroupError>)
    ensures
        match out {
            Ok(m) => cgroup2_mount_spec(input@) == Ok::<(Seq<char>, Seq<char>), CgroupError>(
                (m.root@, m.mount_point@),
            ),
            Err(e) => cgroup2_mount_spec(input@) == Err::<(Seq<char>, Seq<char>), CgroupError>(e),
        },
{
    let chars = chars_of(input);
    let lines = split_lines(&chars);
    let ghost ls = seqs_of(lines@);
    let mut found: Vec<(Vec<char>, Vec<char>)> = Vec::new();
    let mut i: usize = 0;
    while i < lines.len()
        invariant
            i <= lines.len(),
            ls == seqs_of(lines@),
            ls == lines_of(input@),
            cgroup2_mounts(ls.take(i as int)) == Some(
                found@.map_values(|m: (Vec<char>, Vec<char>)| (m.0@, m.1@)),
            ),
        decreases lines.len() - i,
    {
        assert(ls.take(i + 1).drop_last() =~= ls.take(i as int));
        assert(ls.take(i + 1).last() == lines@[i as int]@);
        let line = &lines[i];
        if line.len() > 0 {
            match parse_mount_line(line) {
                None => {
                    proof {
                        lemma_mounts_stay_none(ls, i + 1);
                    }
                    return Err(CgroupError::Malformed);
                },
                Some(None) => {},
                Some(Some((root, mount_point))) => {
                    let ghost before = found@.map_values(|m: (Vec<char>, Vec<char>)| (m.0@, m.1@));
                    let ghost m = (root@, mount_point@);
                    found.push((root, mount_point));
                    assert(found@.map_values(|m: (Vec<char>, Vec<char>)| (m.0@, m.1@)) =~= before.push(m));
                },
            }
        }
        i += 1;
    }
    assert(ls.take(i as int) =~= ls);
    if found.len() == 0 {
        return Err(CgroupError::Unsupported);
    }
    if found.len() > 1 {
        return Err(CgroupError::AmbiguousMount);
    }
    let (root, mount_point) = found.pop().unwrap();
    Ok(Cgroup2Mount { root: string_of(&root), mount_point: string_of(&mount_point) })
}

/// A systemd unit name suggested by the final path component (`.service`,
/// `.scope` or `.slice`); presentation-only, never authoritative.
pub open spec fn unit_candidate(path: Seq<char>) -> Option<Seq<char>> {
    let component = match rsplit_once(path, '/') {
        Some((_, last)) => last,
        None => path,
    };
    match rsplit_once(component, '.') {
        Some((_, suffix)) => if suffix == "service"@ || suffix == "scope"@ || suffix == "slice"@ {
            Some(component)
        } else {
            None
        },
        None => None,
    }
}

pub fn systemd_unit_candidate(path: &str) -> (out: Option<String>)
    ensures
        match out {
            Some(s) => unit_candidate(path@) == Some(s@),
            None => unit_candidate(path@) is None,
        },
{
    let chars = chars_of(path);
    let component = match rsplit_once_char(&chars, '/') {
        Some((_, last)) => last,
        None => chars,
    };
    match rsplit_once_char(&component, '.') {
        Some((_, suffix)) => if eq_lit(&suffix, "service") || eq_lit(&suffix, "scope") || eq_lit(
            &suffix,
            "slice",
        ) {
            Some(string_of(&component))
        } else {
            None
        },
        None => None,
    }
}

/// The parent of a canonical cgroup path (`/` for a top-level group).
pub open spec fn parent_path(path: Seq<char>) -> Option<Seq<char>> {
    match rsplit_once(path, '/') {
        Some((parent, _)) => if parent.len() == 0 {
            Some(seq!['/'])
        } else {
            Some(parent)
        },
        None => None,
    }
}

pub fn parent_cgroup_path(path: &str) -> (out: Option<String>)
    ensures
        match out {
            Some(s) => parent_path(path@) == Some(s@),
            None => parent_path(path@) is None,
        },
{
    let chars = chars_of(path);
    match parent_chars(&chars) {
        Some(parent) => Some(string_of(&parent)),
        None => None,
    }
}

fn parent_chars(path: &[char]) -> (out: Option<Vec<char>>)
    ensures
        match out {
            Some(p) => parent_path(path@) == Some(p@),
            None => parent_path(path@) is None,
        },
{
    match rsplit_once_char(path, '/') {
        Some((parent, _)) => if parent.len() == 0 {
            let mut root: Vec<char> = Vec::new();
            root.push('/');
            assert(root@ =~= seq!['/']);
            Some(root)
        } else {
            Some(parent)
        },
        None => None,
    }
}

/// `path` lies at or below the mount's root cgroup.
pub open spec fn below_root(path: Seq<char>, root: Seq<char>) -> bool {
    path == root || (root == seq!['/'] && path.len() > 0 && path[0] == '/') || (root.len()
        < path.len() && path.take(root.len() as int) == root && path[root.len() as int] == '/')
}

pub fn is_below_mount_root(path: &str, root: &str) -> (b: bool)
    ensures
        b == below_root(path@, root@),
{
    let p = chars_of(path);
    let r = chars_of(root);
    if eq_chars(&p, &r) {
        return true;
    }
    if r.len() == 1 && r[0] == '/' && p.len() > 0 && p[0] == '/' {
        assert(r@ =~= seq!['/']);
        return true;
    }
    proof {
        if r@ == seq!['/'] {
            assert(r@.len() == 1 && r@[0] == '/');
        }
    }
    if r.len() < p.len() && p[r.len()] == '/' {
        let prefix = crate::text::slice_to_vec(&p, 0, r.len());
        assert(p@.take(r@.len() as int) =~= prefix@);
        return eq_chars(&prefix, &r);
    }
    false
}

// ---------------------------------------------------------------------------
// Snapshots, collection issues and capability
// ---------------------------------------------------------------------------

/// One collected cgroup.  Pressure timestamps are monotonic-clock readings in
/// nanoseconds, taken when the pressure file was read.
#[derive(Debug, Clone, PartialEq, Eq)]
pub struct CgroupRaw {
    pub path: String,
    pub cpu: CgroupResource<CgroupCpuRaw>,
    pub memory_current: CgroupResource<u64>,
    pub memory_events: CgroupResource<CgroupMemoryEventsRaw>,
    pub memory_stat: CgroupResource<CgroupMemoryStatRaw>,
    pub io: CgroupResource<Vec<(CgroupIoDevice, CgroupIoRaw)>>,
    pub cpu_pressure: CgroupResource<CgroupPsiRaw>,
    pub memory_pressure: CgroupResource<CgroupPsiRaw>,
    pub io_pressure: CgroupResource<CgroupPsiRaw>,
    pub cpu_pressure_at: Option<u64>,
    pub memory_pressure_at: Option<u64>,
    pub io_pressure_at: Option<u64>,
    /// Conservative presentation-only inference from the final path component.
    pub systemd_unit_candidate: Option<String>,
}

#[derive(Debug, Clone, PartialEq, Eq)]
pub struct CgroupProcessMember {
    pub key: ProcessKey,
    pub name: String,
    pub cgroup_path: String,
}

pub fn clone_member(m: &CgroupProcessMember) -> (r: CgroupProcessMember)
    ensures
        r == *m,
{
    CgroupProcessMember { key: m.key, name: m.name.clone(), cgroup_path: m.cgroup_path.clone() }
}

#[derive(Debug, Clone, Copy, Default, PartialEq, Eq, Structural)]
pub struct CgroupCollectionIssues {
    pub process_enumeration_failed: bool,
    pub process_enumeration_errors: u32,
    pub process_disappeared: u32,
    pub process_identity_changed: u32,
    pub process_permission_denied: u32,
    pub process_malformed: u32,
    pub process_limit_reached: bool,
    pub cgroup_limit_reached: bool,
    pub path_rejected: u32,
    pub cgroup_disappeared: u32,
    pub cgroup_permission_denied: u32,
    pub cgroup_unreadable: u32,
    pub cgroup_malformed: u32,
    pub budget_exhausted: bool,
    pub read_attempts: u32,
    pub bytes_read: u64,
    pub members_appeared: u32,
    pub members_exited: u32,
    pub members_reused: u32,
    pub members_moved: u32,
}

#[derive(Debug, Clone, Copy, PartialEq, Eq, Structural)]
pub enum CgroupCapability {
    Available,
    Partial,
    Unsupported,
    PermissionDenied,
    Failed,
}

pub open spec fn cgroup_capability_name(c: CgroupCapability) -> &'static str {
    match c {
        CgroupCapability::Available => "available",
        CgroupCapability::Partial => "partial",
        CgroupCapability::Unsupported => "unsupported",
        CgroupCapability::PermissionDenied => "permission_denied",
        CgroupCapability::Failed => "failed",
    }
}

impl CgroupCapability {
    pub fn as_str(self) -> (s: &'static str)
        ensures
            s == cgroup_capability_name(self),
    {
        match self {
            CgroupCapability::Available => "available",
            CgroupCapability::Partial => "partial",
            CgroupCapability::Unsupported => "unsupported",
            CgroupCapability::PermissionDenied => "permission_denied",
            CgroupCapability::Failed => "failed",
        }
    }
}

pub open spec fn cgroup_capability_text(c: CgroupCapability) -> &'static str {
    match c {
        CgroupCapability::Available => "cgroup v2 membership and bounded active-cgroup context are readable.",
        CgroupCapability::Partial => "cgroup v2 context is only partially readable or was bounded during collection.",
        CgroupCapability::Unsupported => "no usable cgroup v2 mount was discovered.",
        CgroupCapability::PermissionDenied => "cgroup v2 discovery is denied by current permissions.",
        CgroupCapability::Failed => "cgroup v2 discovery or collection failed.",
    }
}

pub fn cgroup_capability_explanation(capability: CgroupCapability) -> (s: &'static str)
    ensures
        s == cgroup_capability_text(capability),
{
    match capability {
        CgroupCapability::Available => "cgroup v2 membership and bounded active-cgroup context are readable.",
        CgroupCapability::Partial => "cgroup v2 context is only partially readable or was bounded during collection.",
        CgroupCapability::Unsupported => "no usable cgroup v2 mount was discovered.",
        CgroupCapability::PermissionDenied => "cgroup v2 discovery is denied by current permissions.",
        CgroupCapability::Failed => "cgroup v2 discovery or collection failed.",
    }
}

/// The capability a failed discovery reports.
pub fn capability_for_error(error: CgroupError) -> (c: CgroupCapability)
    ensures
        c == match error {
            CgroupError::Unsupported => CgroupCapability::Unsupported,
            CgroupError::PermissionDenied => CgroupCapability::PermissionDenied,
            _ => CgroupCapability::Failed,
        },
{
    match error {
        CgroupError::Unsupported => CgroupCapability::Unsupported,
        CgroupError::PermissionDenied => CgroupCapability::PermissionDenied,
        _ => CgroupCapability::Failed,
    }
}

/// What a cgroup snapshot attempt says about the capability: a snapshot is
/// judged by what it collected, a failed discovery by its error.
pub fn cgroup_probe_capability(read: &Result<CgroupSnapshot, CgroupError>) -> (c: CgroupCapability)
    ensures
        c == match read {
            Ok(snapshot) => if snapshot.members@.len() == 0 || snapshot.groups@.len() == 0
                || issues_partial(snapshot.issues) || exists|i: int|
                0 <= i < snapshot.groups@.len() && !group_complete(#[trigger] snapshot.groups@[i]) {
                CgroupCapability::Partial
            } else {
                CgroupCapability::Available
            },
            Err(CgroupError::Unsupported) => CgroupCapability::Unsupported,
            Err(CgroupError::PermissionDenied) => CgroupCapability::PermissionDenied,
            Err(_) => CgroupCapability::Failed,
        },
{
    match read {
        Ok(snapshot) => cgroup_capability_from_snapshot(snapshot),
        Err(error) => capability_for_error(*error),
    }
}

/// Collection was bounded, lossy or changed membership.
pub open spec fn issues_partial(i: CgroupCollectionIssues) -> bool {
    i.process_enumeration_failed || i.process_enumeration_errors != 0 || i.process_disappeared != 0
        || i.process_identity_changed != 0 || i.process_permission_denied != 0
        || i.process_malformed != 0 || i.process_limit_reached || i.cgroup_limit_reached
        || i.path_rejected != 0 || i.cgroup_disappeared != 0 || i.cgroup_permission_denied != 0
        || i.cgroup_unreadable != 0 || i.cgroup_malformed != 0 || i.budget_exhausted
        || i.members_appeared != 0 || i.members_exited != 0 || i.members_reused != 0
        || i.members_moved != 0
}

pub fn collection_is_partial(issues: &CgroupCollectionIssues) -> (b: bool)
    ensures
        b == issues_partial(*issues),
{
    issues.process_enumeration_failed || issues.process_enumeration_errors != 0
        || issues.process_disappeared != 0 || issues.process_identity_changed != 0
        || issues.process_permission_denied != 0 || issues.process_malformed != 0
        || issues.process_limit_reached || issues.cgroup_limit_reached || issues.path_rejected != 0
        || issues.cgroup_disappeared != 0 || issues.cgroup_permission_denied != 0
        || issues.cgroup_unreadable != 0 || issues.cgroup_malformed != 0 || issues.budget_exhausted
        || issues.members_appeared != 0 || issues.members_exited != 0 || issues.members_reused != 0
        || issues.members_moved != 0
}

/// Every controller file of a collected group was read and parsed.
pub open spec fn group_complete(g: CgroupRaw) -> bool {
    g.cpu.state == CgroupFileState::Available && g.memory_current.state == CgroupFileState::Available
        && g.memory_events.state == CgroupFileState::Available && g.memory_stat.state
        == CgroupFileState::Available && g.io.state == CgroupFileState::Available
        && g.cpu_pressure.state == CgroupFileState::Available && g.memory_pressure.state
        == CgroupFileState::Available && g.io_pressure.state == CgroupFileState::Available
}

fn all_group_resources_available(g: &CgroupRaw) -> (b: bool)
    ensures
        b == group_complete(*g),
{
    g.cpu.state == CgroupFileState::Available && g.memory_current.state == CgroupFileState::Available
        && g.memory_events.state == CgroupFileState::Available && g.memory_stat.state
        == CgroupFileState::Available && g.io.state == CgroupFileState::Available
        && g.cpu_pressure.state == CgroupFileState::Available && g.memory_pressure.state
        == CgroupFileState::Available && g.io_pressure.state == CgroupFileState::Available
}

/// The cgroups and stable members collected at one instant.  `members` is
/// ordered by process key and `groups` by path, each without repeats.
#[derive(Debug, Clone, PartialEq, Eq)]
pub struct CgroupSnapshot {
    pub mount: Cgroup2Mount,
    pub members: Vec<CgroupProcessMember>,
    pub groups: Vec<CgroupRaw>,
    pub issues: CgroupCollectionIssues,
}

/// The capability summary is derived from the collected data, not merely
/// from whether a snapshot was constructed: bounded, lossy or incomplete
/// collection is partial.
pub fn cgroup_capability_from_snapshot(snapshot: &CgroupSnapshot) -> (c: CgroupCapability)
    ensures
        c == if snapshot.members@.len() == 0 || snapshot.groups@.len() == 0 || issues_partial(
            snapshot.issues,
        ) || exists|i: int|
            0 <= i < snapshot.groups@.len() && !group_complete(#[trigger] snapshot.groups@[i]) {
            CgroupCapability::Partial
        } else {
            CgroupCapability::Available
        },
{
    if snapshot.members.len() == 0 || snapshot.groups.len() == 0 || collection_is_partial(
        &snapshot.issues,
    ) {
        return CgroupCapability::Partial;
    }
    let mut i: usize = 0;
    while i < snapshot.groups.len()
        invariant
            i <= snapshot.groups@.len(),
            forall|j: int| 0 <= j < i ==> group_complete(#[trigger] snapshot.groups@[j]),
        decreases snapshot.groups.len() - i,
    {
        if !all_group_resources_available(&snapshot.groups[i]) {
            return CgroupCapability::Partial;
        }
        i += 1;
    }
    CgroupCapability::Available
}

// ---------------------------------------------------------------------------
// Intervals
// ---------------------------------------------------------------------------

#[derive(Debug, Clone, Copy, PartialEq, Eq, Structural)]
pub struct CgroupCpuInterval {
    pub usage_usec: Option<u64>,
    pub user_usec: Option<u64>,
    pub system_usec: Option<u64>,
    pub nr_periods: Option<u64>,
    pub nr_throttled: Option<u64>,
    pub throttled_usec: Option<u64>,
}

/// A pressure interval; `elapsed_ns` is the time between the two pressure
/// reads.
#[derive(Debug, Clone, Copy, PartialEq, Eq, Structural)]
pub struct CgroupPsiInterval {
    pub elapsed_ns: Option<u64>,
    pub some_total_usec: Option<u64>,
    pub full_total_usec: Option<u64>,
    pub state: CgroupPsiIntervalState,
}

#[derive(Debug, Clone, PartialEq, Eq)]
pub struct CgroupInterval {
    pub path: String,
    pub cpu: CgroupResource<CgroupCpuInterval>,
    pub memory_current_end: CgroupResource<u64>,
    pub memory_events: CgroupResource<CgroupMemoryEventsRaw>,
    pub memory_stat: CgroupResource<CgroupMemoryStatRaw>,
    pub io: CgroupResource<Vec<(CgroupIoDevice, CgroupIoRaw)>>,
    pub cpu_pressure: CgroupResource<CgroupPsiInterval>,
    pub memory_pressure: CgroupResource<CgroupPsiInterval>,
    pub io_pressure: CgroupResource<CgroupPsiInterval>,
    pub systemd_unit_candidate: Option<String>,
}

#[derive(Debug, Clone, PartialEq, Eq)]
pub struct CgroupObservation {
    pub elapsed_ns: u64,
    pub groups: Vec<CgroupInterval>,
    pub members: Vec<CgroupProcessMember>,
    pub issues: CgroupCollectionIssues,
}

/// The change of a counter present at both ends; a decrease has no delta.
pub open spec fn counter_change(start: Option<u64>, end: Option<u64>) -> Option<u64> {
    match (start, end) {
        (Some(a), Some(b)) => b.checked_sub(a),
        _ => None,
    }
}

pub fn opt_delta(start: Option<u64>, end: Option<u64>) -> (r: Option<u64>)
    ensures
        r == counter_change(start, end),
{
    match (start, end) {
        (Some(a), Some(b)) => b.checked_sub(a),
        _ => None,
    }
}

/// The state of a resource without a delta: partial when exactly one end was
/// read, otherwise the end's failure.
pub open spec fn missing_state<T>(start: CgroupResource<T>, end: CgroupResource<T>) -> CgroupFileState {
    if start.value is Some || end.value is Some {
        CgroupFileState::Partial
    } else {
        end.state
    }
}

fn interval_missing_state<T>(start: &CgroupResource<T>, end: &CgroupResource<T>) -> (s:
    CgroupFileState)
    ensures
        s == missing_state(*start, *end),
{
    if start.value.is_some() || end.value.is_some() {
        CgroupFileState::Partial
    } else {
        end.state
    }
}

pub open spec fn cpu_interval_spec(
    start: CgroupResource<CgroupCpuRaw>,
    end: CgroupResource<CgroupCpuRaw>,
) -> CgroupResource<CgroupCpuInterval> {
    match (start.value, end.value) {
        (Some(a), Some(b)) => CgroupResource {
            state: CgroupFileState::Available,
            value: Some(
                CgroupCpuInterval {
                    usage_usec: b.usage_usec.checked_sub(a.usage_usec),
                    user_usec: counter_change(a.user_usec, b.user_usec),
                    system_usec: counter_change(a.system_usec, b.system_usec),
                    nr_periods: counter_change(a.nr_periods, b.nr_periods),
                    nr_throttled: counter_change(a.nr_throttled, b.nr_throttled),
                    throttled_usec: counter_change(a.throttled_usec, b.throttled_usec),
                },
            ),
        },
        _ => CgroupResource { state: missing_state(start, end), value: None },
    }
}

pub fn interval_cpu(start: &CgroupResource<CgroupCpuRaw>, end: &CgroupResource<CgroupCpuRaw>) -> (r:
    CgroupResource<CgroupCpuInterval>)
    ensures
        r == cpu_interval_spec(*start, *end),
{
    match (&start.value, &end.value) {
        (Some(a), Some(b)) => CgroupResource::available(
            CgroupCpuInterval {
                usage_usec: b.usage_usec.checked_sub(a.usage_usec),
                user_usec: opt_delta(a.user_usec, b.user_usec),
                system_usec: opt_delta(a.system_usec, b.system_usec),
                nr_periods: opt_delta(a.nr_periods, b.nr_periods),
                nr_throttled: opt_delta(a.nr_throttled, b.nr_throttled),
                throttled_usec: opt_delta(a.throttled_usec, b.throttled_usec),
            },
        ),
        _ => CgroupResource::failed(interval_missing_state(start, end)),
    }
}

pub open spec fn events_interval_spec(
    start: CgroupResource<CgroupMemoryEventsRaw>,
    end: CgroupResource<CgroupMemoryEventsRaw>,
) -> CgroupResource<CgroupMemoryEventsRaw> {
    match (start.value, end.value) {
        (Some(a), Some(b)) => CgroupResource {
            state: CgroupFileState::Available,
            value: Some(
                CgroupMemoryEventsRaw {
                    low: counter_change(a.low, b.low),
                    high: counter_change(a.high, b.high),
                    max: counter_change(a.max, b.max),
                    oom: counter_change(a.oom, b.oom),
                    oom_kill: counter_change(a.oom_kill, b.oom_kill),
                    oom_group_kill: counter_change(a.oom_group_kill, b.oom_group_kill),
                },
            ),
        },
        _ => CgroupResource { state: missing_state(start, end), value: None },
    }
}

pub fn interval_events(
    start: &CgroupResource<CgroupMemoryEventsRaw>,
    end: &CgroupResource<CgroupMemoryEventsRaw>,
) -> (r: CgroupResource<CgroupMemoryEventsRaw>)
    ensures
        r == events_interval_spec(*start, *end),
{
    match (&start.value, &end.value) {
        (Some(a), Some(b)) => CgroupResource::available(
            CgroupMemoryEventsRaw {
                low: opt_delta(a.low, b.low),
                high: opt_delta(a.high, b.high),
                max: opt_delta(a.max, b.max),
                oom: opt_delta(a.oom, b.oom),
                oom_kill: opt_delta(a.oom_kill, b.oom_kill),
                oom_group_kill: opt_delta(a.oom_group_kill, b.oom_group_kill),
            },
        ),
        _ => CgroupResource::failed(interval_missing_state(start, end)),
    }
}

pub open spec fn memory_stat_interval_spec(
    start: CgroupResource<CgroupMemoryStatRaw>,
    end: CgroupResource<CgroupMemoryStatRaw>,
) -> CgroupResource<CgroupMemoryStatRaw> {
    match (start.value, end.value) {
        (Some(a), Some(b)) => CgroupResource {
            state: CgroupFileState::Available,
            value: Some(
                CgroupMemoryStatRaw {
                    pgscan_direct: counter_change(a.pgscan_direct, b.pgscan_direct),
                    pgsteal_direct: counter_change(a.pgsteal_direct, b.pgsteal_direct),
                    pswpin: counter_change(a.pswpin, b.pswpin),
                    pswpout: counter_change(a.pswpout, b.pswpout),
                },
            ),
        },
        _ => CgroupResource { state: missing_state(start, end), value: None },
    }
}

pub fn interval_memory_stat(
    start: &CgroupResource<CgroupMemoryStatRaw>,
    end: &CgroupResource<CgroupMemoryStatRaw>,
) -> (r: CgroupResource<CgroupMemoryStatRaw>)
    ensures
        r == memory_stat_interval_spec(*start, *end),
{
    match (&start.value, &end.value) {
        (Some(a), Some(b)) => CgroupResource::available(
            CgroupMemoryStatRaw {
                pgscan_direct: opt_delta(a.pgscan_direct, b.pgscan_direct),
                pgsteal_direct: opt_delta(a.pgsteal_direct, b.pgsteal_direct),
                pswpin: opt_delta(a.pswpin, b.pswpin),
                pswpout: opt_delta(a.pswpout, b.pswpout),
            },
        ),
        _ => CgroupResource::failed(interval_missing_state(start, end)),
    }
}

/// The value of the first entry for device `d`.
pub open spec fn device_value<V>(s: Seq<(CgroupIoDevice, V)>, d: CgroupIoDevice) -> Option<V>
    decreases s.len(),
{
    if s.len() == 0 {
        None
    } else if s[0].0 == d {
        Some(s[0].1)
    } else {
        device_value(s.drop_first(), d)
    }
}

pub open spec fn io_delta(a: CgroupIoRaw, b: CgroupIoRaw) -> CgroupIoRaw {
    CgroupIoRaw {
        rbytes: counter_change(a.rbytes, b.rbytes),
        wbytes: counter_change(a.wbytes, b.wbytes),
        rios: counter_change(a.rios, b.rios),
        wios: counter_change(a.wios, b.wios),
    }
}

/// Per-device deltas for the devices present at both ends, in the end's
/// order.
pub open spec fn io_deltas(
    start: Seq<(CgroupIoDevice, CgroupIoRaw)>,
    end: Seq<(CgroupIoDevice, CgroupIoRaw)>,
) -> Seq<(CgroupIoDevice, CgroupIoRaw)>
    decreases end.len(),
{
    if end.len() == 0 {
        Seq::empty()
    } else {
        let p = io_deltas(start, end.drop_last());
        match device_value(start, end.last().0) {
            Some(first) => p.push((end.last().0, io_delta(first, end.last().1))),
            None => p,
        }
    }
}

fn device_lookup(s: &Vec<(CgroupIoDevice, CgroupIoRaw)>, d: CgroupIoDevice) -> (out: Option<
    CgroupIoRaw,
>)
    ensures
        out == device_value(s@, d),
{
    let mut i: usize = 0;
    assert(s@.skip(0) =~= s@);
    while i < s.len()
        invariant
            i <= s.len(),
            device_value(s@, d) == device_value(s@.skip(i as int), d),
        decreases s.len() - i,
    {
        assert(s@.skip(i as int).drop_first() =~= s@.skip(i + 1));
        assert(s@.skip(i as int)[0] == s@[i as int]);
        if s[i].0 == d {
            return Some(s[i].1);
        }
        i += 1;
    }
    None
}

/// The I/O interval: per-device deltas when both ends were read, otherwise
/// the missing-endpoint state.
pub open spec fn io_interval_holds(
    r: CgroupResource<Vec<(CgroupIoDevice, CgroupIoRaw)>>,
    start: CgroupResource<Vec<(CgroupIoDevice, CgroupIoRaw)>>,
    end: CgroupResource<Vec<(CgroupIoDevice, CgroupIoRaw)>>,
) -> bool {
    match (start.value, end.value) {
        (Some(a), Some(b)) => r.state == CgroupFileState::Available && r.value is Some
            && r.value->0@ == io_deltas(a@, b@),
        _ => r.state == missing_state(start, end) && r.value is None,
    }
}

pub fn interval_io(
    start: &CgroupResource<Vec<(CgroupIoDevice, CgroupIoRaw)>>,
    end: &CgroupResource<Vec<(CgroupIoDevice, CgroupIoRaw)>>,
) -> (r: CgroupResource<Vec<(CgroupIoDevice, CgroupIoRaw)>>)
    ensures
        io_interval_holds(r, *start, *end),
{
    match (&start.value, &end.value) {
        (Some(a), Some(b)) => {
            let mut result: Vec<(CgroupIoDevice, CgroupIoRaw)> = Vec::new();
            let mut i: usize = 0;
            while i < b.len()
                invariant
                    i <= b.len(),
                    result@ == io_deltas(a@, b@.take(i as int)),
                decreases b.len() - i,
            {
                assert(b@.take(i + 1).drop_last() =~= b@.take(i as int));
                assert(b@.take(i + 1).last() == b@[i as int]);
                let (key, last) = b[i];
                match device_lookup(a, key) {
                    Some(first) => {
                        result.push(
                            (
                                key,
                                CgroupIoRaw {
                                    rbytes: opt_delta(first.rbytes, last.rbytes),
                                    wbytes: opt_delta(first.wbytes, last.wbytes),
                                    rios: opt_delta(first.rios, last.rios),
                                    wios: opt_delta(first.wios, last.wios),
                                },
                            ),
                        );
                    },
                    None => {},
                }
                i += 1;
            }
            assert(b@.take(i as int) =~= b@);
            CgroupResource::available(result)
        },
        _ => CgroupResource::failed(interval_missing_state(start, end)),
    }
}

/// A pressure interval from two pressure reads taken at `start_at` and
/// `end_at` (nanoseconds).  A decreasing `some` total is a regression; a
/// `some` delta longer than the measured time is rejected; a `full` total
/// that decreased is dropped (partial) and one exceeding `some` is dropped
/// with its own state.
pub open spec fn psi_interval_spec(
    start: CgroupResource<CgroupPsiRaw>,
    end: CgroupResource<CgroupPsiRaw>,
    start_at: Option<u64>,
    end_at: Option<u64>,
) -> CgroupResource<CgroupPsiInterval> {
    match (start.value, end.value) {
        (Some(a), Some(b)) => if b.some_total_usec < a.some_total_usec {
            CgroupResource {
                state: CgroupFileState::Available,
                value: Some(
                    CgroupPsiInterval {
                        elapsed_ns: None,
                        some_total_usec: None,
                        full_total_usec: None,
                        state: CgroupPsiIntervalState::SomeRegressed,
                    },
                ),
            }
        } else {
            let some = (b.some_total_usec - a.some_total_usec) as u64;
            match (start_at, end_at) {
                (Some(s), Some(e)) => if e < s {
                    CgroupResource { state: CgroupFileState::Partial, value: None }
                } else {
                    let elapsed = (e - s) as u64;
                    if some > elapsed / 1000 {
                        CgroupResource {
                            state: CgroupFileState::Available,
                            value: Some(
                                CgroupPsiInterval {
                                    elapsed_ns: Some(elapsed),
                                    some_total_usec: None,
                                    full_total_usec: None,
                                    state: CgroupPsiIntervalState::SomeExceedsElapsed,
                                },
                            ),
                        }
                    } else {
                        let full = counter_change(a.full_total_usec, b.full_total_usec);
                        let state = if a.full_total_usec is Some && b.full_total_usec is Some
                            && full is None {
                            CgroupPsiIntervalState::Partial
                        } else if full is Some && full->0 > some {
                            CgroupPsiIntervalState::FullExceedsSome
                        } else {
                            CgroupPsiIntervalState::Available
                        };
                        CgroupResource {
                            state: CgroupFileState::Available,
                            value: Some(
                                CgroupPsiInterval {
                                    elapsed_ns: Some(elapsed),
                                    some_total_usec: Some(some),
                                    full_total_usec: if state
                                        == CgroupPsiIntervalState::FullExceedsSome {
                                        None
                                    } else {
                                        full
                                    },
                                    state,
                                },
                            ),
                        }
                    }
                },
                _ => CgroupResource { state: CgroupFileState::Partial, value: None },
            }
        },
        _ => CgroupResource { state: missing_state(start, end), value: None },
    }
}

pub fn interval_psi(
    start: &CgroupResource<CgroupPsiRaw>,
    end: &CgroupResource<CgroupPsiRaw>,
    start_at: Option<u64>,
    end_at: Option<u64>,
) -> (r: CgroupResource<CgroupPsiInterval>)
    ensures
        r == psi_interval_spec(*start, *end, start_at, end_at),
{
    match (&start.value, &end.value) {
        (Some(a), Some(b)) => {
            let some = match b.some_total_usec.checked_sub(a.some_total_usec) {
                Some(v) => v,
                None => {
                    return CgroupResource::available(
                        CgroupPsiInterval {
                            elapsed_ns: None,
                            some_total_usec: None,
                            full_total_usec: None,
                            state: CgroupPsiIntervalState::SomeRegressed,
                        },
                    );
                },
            };
            let elapsed = match (start_at, end_at) {
                (Some(s), Some(e)) => e.checked_sub(s),
                _ => None,
            };
            let elapsed = match elapsed {
                Some(v) => v,
                None => return CgroupResource::failed(CgroupFileState::Partial),
            };
            let elapsed_usec = elapsed / 1000;
            if some > elapsed_usec {
                return CgroupResource::available(
                    CgroupPsiInterval {
                        elapsed_ns: Some(elapsed),
                        some_total_usec: None,
                        full_total_usec: None,
                        state: CgroupPsiIntervalState::SomeExceedsElapsed,
                    },
                );
            }
            let full = opt_delta(a.full_total_usec, b.full_total_usec);
            let state = if a.full_total_usec.is_some() && b.full_total_usec.is_some()
                && full.is_none() {
                CgroupPsiIntervalState::Partial
            } else if full.is_some() && full.unwrap() > some {
                CgroupPsiIntervalState::FullExceedsSome
            } else {
                CgroupPsiIntervalState::Available
            };
            CgroupResource::available(
                CgroupPsiInterval {
                    elapsed_ns: Some(elapsed),
                    some_total_usec: Some(some),
                    full_total_usec: if state == CgroupPsiIntervalState::FullExceedsSome {
                        None
                    } else {
                        full
                    },
                    state,
                },
            )
        },
        _ => CgroupResource::failed(interval_missing_state(start, end)),
    }
}

pub open spec fn sat_add_u32(a: u32, b: u32) -> u32 {
    if a + b > u32::MAX {
        u32::MAX
    } else {
        (a + b) as u32
    }
}

pub open spec fn sat_add_u64(a: u64, b: u64) -> u64 {
    if a + b > u64::MAX {
        u64::MAX
    } else {
        (a + b) as u64
    }
}

/// Issues over an interval: both endpoints' collection problems and costs,
/// counts saturating; membership-change counts are left to the caller.
pub open spec fn merged_issues(
    start: CgroupCollectionIssues,
    end: CgroupCollectionIssues,
) -> CgroupCollectionIssues {
    CgroupCollectionIssues {
        process_enumeration_failed: start.process_enumeration_failed
            || end.process_enumeration_failed,
        process_enumeration_errors: sat_add_u32(
            start.process_enumeration_errors,
            end.process_enumeration_errors,
        ),
        process_disappeared: sat_add_u32(start.process_disappeared, end.process_disappeared),
        process_identity_changed: sat_add_u32(
            start.process_identity_changed,
            end.process_identity_changed,
        ),
        process_permission_denied: sat_add_u32(
            start.process_permission_denied,
            end.process_permission_denied,
        ),
        process_malformed: sat_add_u32(start.process_malformed, end.process_malformed),
        process_limit_reached: start.process_limit_reached || end.process_limit_reached,
        cgroup_limit_reached: start.cgroup_limit_reached || end.cgroup_limit_reached,
        path_rejected: sat_add_u32(start.path_rejected, end.path_rejected),
        cgroup_disappeared: sat_add_u32(start.cgroup_disappeared, end.cgroup_disappeared),
        cgroup_permission_denied: sat_add_u32(
            start.cgroup_permission_denied,
            end.cgroup_permission_denied,
        ),
        cgroup_unreadable: sat_add_u32(start.cgroup_unreadable, end.cgroup_unreadable),
        cgroup_malformed: sat_add_u32(start.cgroup_malformed, end.cgroup_malformed),
        budget_exhausted: start.budget_exhausted || end.budget_exhausted,
        read_attempts: sat_add_u32(start.read_attempts, end.read_attempts),
        bytes_read: sat_add_u64(start.bytes_read, end.bytes_read),
        ..start
    }
}

pub fn merge_issues(start: CgroupCollectionIssues, end: CgroupCollectionIssues) -> (r:
    CgroupCollectionIssues)
    ensures
        r == merged_issues(start, end),
{
    let mut m = start;
    m.process_enumeration_failed = start.process_enumeration_failed
        || end.process_enumeration_failed;
    m.process_enumeration_errors = start.process_enumeration_errors.saturating_add(
        end.process_enumeration_errors,
    );
    m.process_disappeared = start.process_disappeared.saturating_add(end.process_disappeared);
    m.process_identity_changed = start.process_identity_changed.saturating_add(
        end.process_identity_changed,
    );
    m.process_permission_denied = start.process_permission_denied.saturating_add(
        end.process_permission_denied,
    );
    m.process_malformed = start.process_malformed.saturating_add(end.process_malformed);
    m.process_limit_reached = start.process_limit_reached || end.process_limit_reached;
    m.cgroup_limit_reached = start.cgroup_limit_reached || end.cgroup_limit_reached;
    m.path_rejected = start.path_rejected.saturating_add(end.path_rejected);
    m.cgroup_disappeared = start.cgroup_disappeared.saturating_add(end.cgroup_disappeared);
    m.cgroup_permission_denied = start.cgroup_permission_denied.saturating_add(
        end.cgroup_permission_denied,
    );
    m.cgroup_unreadable = start.cgroup_unreadable.saturating_add(end.cgroup_unreadable);
    m.cgroup_malformed = start.cgroup_malformed.saturating_add(end.cgroup_malformed);
    m.budget_exhausted = start.budget_exhausted || end.budget_exhausted;
    m.read_attempts = start.read_attempts.saturating_add(end.read_attempts);
    m.bytes_read = start.bytes_read.saturating_add(end.bytes_read);
    m
}


// ---------------------------------------------------------------------------
// Snapshot pairs
// ---------------------------------------------------------------------------

/// The segments of a path without the `.` segments.
pub open spec fn without_dots(s: Seq<Seq<char>>) -> Seq<Seq<char>>
    decreases s.len(),
{
    if s.len() == 0 {
        s
    } else if s.last() == seq!['.'] {
        without_dots(s.drop_last())
    } else {
        without_dots(s.drop_last()).push(s.last())
    }
}

/// A path begins at the root.
pub open spec fn rooted(p: Seq<char>) -> bool {
    p.len() > 0 && p[0] == '/'
}

/// The components of a file-system path after the root, as a path compares
/// them: repeated and trailing separators and `.` segments are dropped, but a
/// relative path that begins with `.` keeps that first component.
pub open spec fn path_components(p: Seq<char>) -> Seq<Seq<char>> {
    let segs = segments(p, '/');
    if !rooted(p) && segs.len() > 0 && segs[0] == seq!['.'] {
        seq![seq!['.']] + without_dots(segs.drop_first())
    } else {
        without_dots(segs)
    }
}

/// Two paths name the same place component by component.
pub open spec fn same_path(a: Seq<char>, b: Seq<char>) -> bool {
    rooted(a) == rooted(b) && path_components(a) == path_components(b)
}

/// Two mounts are the same when the hierarchy roots are equal and the mount
/// points are the same path.
pub open spec fn same_mount(a: Cgroup2Mount, b: Cgroup2Mount) -> bool {
    a.root@ == b.root@ && same_path(a.mount_point@, b.mount_point@)
}

fn path_components_of(p: &[char]) -> (out: Vec<Vec<char>>)
    ensures
        seqs_of(out@) == path_components(p@),
{
    let segs = split_segments(p, '/');
    let mut out: Vec<Vec<char>> = Vec::new();
    let mut start: usize = 0;
    let dot_first = p.len() > 0 && p[0] != '/' && segs.len() > 0 && eq_lit(segs[0].as_slice(), ".");
    proof {
        reveal_strlit(".");
        assert(".".view() =~= seq!['.']);
        if segs.len() > 0 {
            assert(seqs_of(segs@)[0] == segs@[0]@);
        }
    }
    if dot_first {
        let first = slice_to_vec(segs[0].as_slice(), 0, segs[0].len());
        assert(first@ =~= seq!['.']);
        out.push(first);
        assert(seqs_of(out@) =~= seq![seq!['.']]);
        start = 1;
    }
    let ghost segv = seqs_of(segs@);
    let ghost head = seqs_of(out@);
    assert(segv.subrange(start as int, start as int) =~= Seq::<Seq<char>>::empty());
    let mut i: usize = start;
    while i < segs.len()
        invariant
            start <= i <= segs.len(),
            segv == seqs_of(segs@),
            seqs_of(out@) == head + without_dots(segv.subrange(start as int, i as int)),
        decreases segs.len() - i,
    {
        let ghost done = seqs_of(out@);
        let ghost prev = segv.subrange(start as int, i as int);
        let ghost next = segv.subrange(start as int, i + 1);
        assert(next.drop_last() =~= prev);
        assert(next.last() == segv[i as int]);
        assert(segv[i as int] == segs@[i as int]@);
        proof {
            reveal_strlit(".");
            assert(".".view() =~= seq!['.']);
        }
        if !eq_lit(segs[i].as_slice(), ".") {
            let c = slice_to_vec(segs[i].as_slice(), 0, segs[i].len());
            assert(c@ =~= segv[i as int]);
            out.push(c);
            assert(seqs_of(out@) =~= done.push(segv[i as int]));
            assert(without_dots(next) == without_dots(prev).push(segv[i as int]));
            assert(head + without_dots(prev).push(segv[i as int]) =~= (head + without_dots(prev)).push(
                segv[i as int],
            ));
        } else {
            assert(without_dots(next) == without_dots(prev));
        }
        i += 1;
    }
    proof {
        if dot_first {
            assert(segv.subrange(1, segv.len() as int) =~= segv.drop_first());
            assert(head =~= seq![seq!['.']]);
        } else {
            assert(segv.subrange(0, segv.len() as int) =~= segv);
            assert(head =~= Seq::<Seq<char>>::empty());
            assert(head + without_dots(segv) =~= without_dots(segv));
        }
    }
    out
}

fn same_path_chars(a: &[char], b: &[char]) -> (r: bool)
    ensures
        r == same_path(a@, b@),
{
    let ra = a.len() > 0 && a[0] == '/';
    let rb = b.len() > 0 && b[0] == '/';
    if ra != rb {
        return false;
    }
    let ca = path_components_of(a);
    let cb = path_components_of(b);
    if ca.len() != cb.len() {
        assert(seqs_of(ca@).len() != seqs_of(cb@).len());
        return false;
    }
    let mut i: usize = 0;
    while i < ca.len()
        invariant
            i <= ca.len(),
            ca.len() == cb.len(),
            seqs_of(ca@) == path_components(a@),
            seqs_of(cb@) == path_components(b@),
            rooted(a@) == rooted(b@),
            forall|j: int| 0 <= j < i ==> ca@[j]@ == cb@[j]@,
        decreases ca.len() - i,
    {
        if !eq_chars(ca[i].as_slice(), cb[i].as_slice()) {
            assert(seqs_of(ca@).len() == ca@.len() && seqs_of(cb@).len() == cb@.len());
            assert(seqs_of(ca@)[i as int] == ca@[i as int]@);
            assert(seqs_of(cb@)[i as int] == cb@[i as int]@);
            assert(path_components(a@)[i as int] != path_components(b@)[i as int]);
            return false;
        }
        i += 1;
    }
    assert(seqs_of(ca@) =~= seqs_of(cb@));
    true
}

/// The first member of `s` with key `k`.
pub open spec fn member_with_key(s: Seq<CgroupProcessMember>, k: ProcessKey) -> Option<
    CgroupProcessMember,
>
    decreases s.len(),
{
    if s.len() == 0 {
        None
    } else if s[0].key == k {
        Some(s[0])
    } else {
        member_with_key(s.drop_first(), k)
    }
}

/// Some member of `s` has the PID of `k` under another start time.
pub open spec fn pid_reused(s: Seq<CgroupProcessMember>, k: ProcessKey) -> bool
    decreases s.len(),
{
    if s.len() == 0 {
        false
    } else {
        (s[0].key.pid == k.pid && s[0].key != k) || pid_reused(s.drop_first(), k)
    }
}

/// How many members of `from` have no member with the same key in `other`.
pub open spec fn count_unmatched(from: Seq<CgroupProcessMember>, other: Seq<CgroupProcessMember>) -> nat
    decreases from.len(),
{
    if from.len() == 0 {
        0
    } else {
        count_unmatched(from.drop_last(), other) + if member_with_key(other, from.last().key) is None {
            1nat
        } else {
            0nat
        }
    }
}

/// How many members of `end` reuse the PID of a different process in `start`.
pub open spec fn count_reused(start: Seq<CgroupProcessMember>, end: Seq<CgroupProcessMember>) -> nat
    decreases end.len(),
{
    if end.len() == 0 {
        0
    } else {
        count_reused(start, end.drop_last()) + if pid_reused(start, end.last().key) {
            1nat
        } else {
            0nat
        }
    }
}

/// The member kept its cgroup across the interval.
pub open spec fn stayed(start: Seq<CgroupProcessMember>, m: CgroupProcessMember) -> bool {
    match member_with_key(start, m.key) {
        Some(b) => b.cgroup_path@ == m.cgroup_path@,
        None => false,
    }
}

/// The member is present at both ends but in another cgroup.
pub open spec fn moved(start: Seq<CgroupProcessMember>, m: CgroupProcessMember) -> bool {
    match member_with_key(start, m.key) {
        Some(b) => b.cgroup_path@ != m.cgroup_path@,
        None => false,
    }
}

/// The end members present at both ends in the same cgroup, in end order.
pub open spec fn stable_members(start: Seq<CgroupProcessMember>, end: Seq<CgroupProcessMember>) -> Seq<
    CgroupProcessMember,
>
    decreases end.len(),
{
    if end.len() == 0 {
        Seq::empty()
    } else {
        let p = stable_members(start, end.drop_last());
        if stayed(start, end.last()) {
            p.push(end.last())
        } else {
            p
        }
    }
}

pub open spec fn count_moved(start: Seq<CgroupProcessMember>, end: Seq<CgroupProcessMember>) -> nat
    decreases end.len(),
{
    if end.len() == 0 {
        0
    } else {
        count_moved(start, end.drop_last()) + if moved(start, end.last()) {
            1nat
        } else {
            0nat
        }
    }
}

/// The first group of `s` at path `p`.
pub open spec fn group_at_path(s: Seq<CgroupRaw>, p: Seq<char>) -> Option<CgroupRaw>
    decreases s.len(),
{
    if s.len() == 0 {
        None
    } else if s[0].path@ == p {
        Some(s[0])
    } else {
        group_at_path(s.drop_first(), p)
    }
}

/// The (start, end) group pairs that share a path, in end order.
pub open spec fn matched_groups(start: Seq<CgroupRaw>, end: Seq<CgroupRaw>) -> Seq<
    (CgroupRaw, CgroupRaw),
>
    decreases end.len(),
{
    if end.len() == 0 {
        Seq::empty()
    } else {
        let p = matched_groups(start, end.drop_last());
        match group_at_path(start, end.last().path@) {
            Some(b) => p.push((b, end.last())),
            None => p,
        }
    }
}

/// `i` is the interval of one cgroup read as `b` and later as `f`.
pub open spec fn group_interval_holds(i: CgroupInterval, b: CgroupRaw, f: CgroupRaw) -> bool {
    &&& i.path@ == f.path@
    &&& i.cpu == cpu_interval_spec(b.cpu, f.cpu)
    &&& i.memory_current_end == f.memory_current
    &&& i.memory_events == events_interval_spec(b.memory_events, f.memory_events)
    &&& i.memory_stat == memory_stat_interval_spec(b.memory_stat, f.memory_stat)
    &&& io_interval_holds(i.io, b.io, f.io)
    &&& i.cpu_pressure == psi_interval_spec(
        b.cpu_pressure,
        f.cpu_pressure,
        b.cpu_pressure_at,
        f.cpu_pressure_at,
    )
    &&& i.memory_pressure == psi_interval_spec(
        b.memory_pressure,
        f.memory_pressure,
        b.memory_pressure_at,
        f.memory_pressure_at,
    )
    &&& i.io_pressure == psi_interval_spec(
        b.io_pressure,
        f.io_pressure,
        b.io_pressure_at,
        f.io_pressure_at,
    )
    &&& i.systemd_unit_candidate == f.systemd_unit_candidate
}

/// A count clamped to `u32`.
pub open spec fn clamp_u32(n: nat) -> u32 {
    if n > u32::MAX {
        u32::MAX
    } else {
        n as u32
    }
}

/// The issues of an interval: both endpoints' issues merged, with the
/// membership changes between them.
pub open spec fn interval_issues(start: CgroupSnapshot, end: CgroupSnapshot) -> CgroupCollectionIssues {
    let m = merged_issues(start.issues, end.issues);
    CgroupCollectionIssues {
        members_appeared: clamp_u32(count_unmatched(end.members@, start.members@)),
        members_exited: clamp_u32(count_unmatched(start.members@, end.members@)),
        members_reused: clamp_u32(count_reused(start.members@, end.members@)),
        members_moved: clamp_u32(m.members_moved as nat + count_moved(start.members@, end.members@)),
        ..m
    }
}

fn find_member(s: &Vec<CgroupProcessMember>, k: ProcessKey) -> (out: Option<usize>)
    ensures
        match out {
            Some(i) => i < s@.len() && member_with_key(s@, k) == Some(s@[i as int]),
            None => member_with_key(s@, k) is None,
        },
{
    let mut i: usize = 0;
    assert(s@.skip(0) =~= s@);
    while i < s.len()
        invariant
            i <= s.len(),
            member_with_key(s@, k) == member_with_key(s@.skip(i as int), k),
        decreases s.len() - i,
    {
        assert(s@.skip(i as int).drop_first() =~= s@.skip(i + 1));
        assert(s@.skip(i as int)[0] == s@[i as int]);
        if s[i].key == k {
            return Some(i);
        }
        i += 1;
    }
    None
}

fn pid_reused_in(s: &Vec<CgroupProcessMember>, k: ProcessKey) -> (b: bool)
    ensures
        b == pid_reused(s@, k),
{
    let mut i: usize = 0;
    assert(s@.skip(0) =~= s@);
    while i < s.len()
        invariant
            i <= s.len(),
            pid_reused(s@, k) == pid_reused(s@.skip(i as int), k),
        decreases s.len() - i,
    {
        assert(s@.skip(i as int).drop_first() =~= s@.skip(i + 1));
        assert(s@.skip(i as int)[0] == s@[i as int]);
        if s[i].key.pid == k.pid && s[i].key != k {
            return true;
        }
        i += 1;
    }
    false
}

fn count_unmatched_in(from: &Vec<CgroupProcessMember>, other: &Vec<CgroupProcessMember>) -> (n: usize)
    ensures
        n == count_unmatched(from@, other@),
{
    let mut n: usize = 0;
    let mut i: usize = 0;
    while i < from.len()
        invariant
            i <= from.len(),
            n == count_unmatched(from@.take(i as int), other@),
            n <= i,
        decreases from.len() - i,
    {
        assert(from@.take(i + 1).drop_last() =~= from@.take(i as int));
        assert(from@.take(i + 1).last() == from@[i as int]);
        if find_member(other, from[i].key).is_none() {
            n += 1;
        }
        i += 1;
    }
    assert(from@.take(i as int) =~= from@);
    n
}

fn count_reused_in(start: &Vec<CgroupProcessMember>, end: &Vec<CgroupProcessMember>) -> (n: usize)
    ensures
        n == count_reused(start@, end@),
{
    let mut n: usize = 0;
    let mut i: usize = 0;
    while i < end.len()
        invariant
            i <= end.len(),
            n == count_reused(start@, end@.take(i as int)),
            n <= i,
        decreases end.len() - i,
    {
        assert(end@.take(i + 1).drop_last() =~= end@.take(i as int));
        assert(end@.take(i + 1).last() == end@[i as int]);
        if pid_reused_in(start, end[i].key) {
            n += 1;
        }
        i += 1;
    }
    assert(end@.take(i as int) =~= end@);
    n
}

fn clamp_count(n: usize) -> (r: u32)
    ensures
        r == clamp_u32(n as nat),
{
    if n > 4294967295usize {
        u32::MAX
    } else {
        n as u32
    }
}

fn find_group(s: &Vec<CgroupRaw>, p: &String) -> (out: Option<usize>)
    ensures
        match out {
            Some(i) => i < s@.len() && group_at_path(s@, p@) == Some(s@[i as int]),
            None => group_at_path(s@, p@) is None,
        },
{
    let mut i: usize = 0;
    assert(s@.skip(0) =~= s@);
    while i < s.len()
        invariant
            i <= s.len(),
            group_at_path(s@, p@) == group_at_path(s@.skip(i as int), p@),
        decreases s.len() - i,
    {
        assert(s@.skip(i as int).drop_first() =~= s@.skip(i + 1));
        assert(s@.skip(i as int)[0] == s@[i as int]);
        if s[i].path == *p {
            return Some(i);
        }
        i += 1;
    }
    None
}

fn group_interval(b: &CgroupRaw, f: &CgroupRaw) -> (i: CgroupInterval)
    ensures
        group_interval_holds(i, *b, *f),
{
    CgroupInterval {
        path: f.path.clone(),
        cpu: interval_cpu(&b.cpu, &f.cpu),
        memory_current_end: f.memory_current,
        memory_events: interval_events(&b.memory_events, &f.memory_events),
        memory_stat: interval_memory_stat(&b.memory_stat, &f.memory_stat),
        io: interval_io(&b.io, &f.io),
        cpu_pressure: interval_psi(
            &b.cpu_pressure,
            &f.cpu_pressure,
            b.cpu_pressure_at,
            f.cpu_pressure_at,
        ),
        memory_pressure: interval_psi(
            &b.memory_pressure,
            &f.memory_pressure,
            b.memory_pressure_at,
            f.memory_pressure_at,
        ),
        io_pressure: interval_psi(
            &b.io_pressure,
            &f.io_pressure,
            b.io_pressure_at,
            f.io_pressure_at,
        ),
        systemd_unit_candidate: match &f.systemd_unit_candidate {
            Some(u) => Some(u.clone()),
            None => None,
        },
    }
}

/// `o` compares `start` with `end`: issues of both reads and the member
/// counts, the members that stayed in their cgroup, and one interval per
/// group path present in both reads, in the end read's order.
pub open spec fn cgroup_observation_holds(o: CgroupObservation, start: CgroupSnapshot, end: CgroupSnapshot) -> bool {
    &&& o.issues == interval_issues(start, end)
    &&& o.members@ == stable_members(start.members@, end.members@)
    &&& o.groups@.len() == matched_groups(start.groups@, end.groups@).len()
    &&& forall|k: int|
        0 <= k < o.groups@.len() ==> group_interval_holds(
            #[trigger] o.groups@[k],
            matched_groups(start.groups@, end.groups@)[k].0,
            matched_groups(start.groups@, end.groups@)[k].1,
        )
}

/// Normalizes only stable path identities.  A deleted and recreated path has
/// no kernel generation counter, so an equal path cannot prove it was the same
/// cgroup lifetime; callers must keep that limitation as a qualifier.
///
/// Members are matched by process key: those in the same cgroup at both ends
/// are kept, the others counted as appeared, exited, reused or moved.  Groups
/// are matched by path and reported in the end snapshot's order.
pub fn cgroup_interval_from_snapshots(
    start: CgroupSnapshot,
    end: CgroupSnapshot,
    elapsed_ns: u64,
) -> (r: Result<CgroupObservation, CgroupError>)
    ensures
        elapsed_ns == 0 ==> r == Err::<CgroupObservation, CgroupError>(CgroupError::EmptyInterval),
        elapsed_ns != 0 && !same_mount(start.mount, end.mount) ==> r == Err::<
            CgroupObservation,
            CgroupError,
        >(CgroupError::MountChanged),
        elapsed_ns != 0 && same_mount(start.mount, end.mount) ==> match r {
            Ok(o) => o.elapsed_ns == elapsed_ns && cgroup_observation_holds(o, start, end),
            Err(_) => false,
        },
{
    if elapsed_ns == 0 {
        return Err(CgroupError::EmptyInterval);
    }
    let same_root = start.mount.root == end.mount.root;
    let points_a = chars_of(start.mount.mount_point.as_str());
    let points_b = chars_of(end.mount.mount_point.as_str());
    if !(same_root && same_path_chars(points_a.as_slice(), points_b.as_slice())) {
        return Err(CgroupError::MountChanged);
    }
    let mut issues = merge_issues(start.issues, end.issues);
    issues.members_appeared = clamp_count(count_unmatched_in(&end.members, &start.members));
    issues.members_exited = clamp_count(count_unmatched_in(&start.members, &end.members));
    issues.members_reused = clamp_count(count_reused_in(&start.members, &end.members));
    let ghost base = issues.members_moved;
    let ghost before = issues;
    let mut members: Vec<CgroupProcessMember> = Vec::new();
    let mut i: usize = 0;
    while i < end.members.len()
        invariant
            i <= end.members.len(),
            members@ == stable_members(start.members@, end.members@.take(i as int)),
            issues.members_moved == clamp_u32(
                base as nat + count_moved(start.members@, end.members@.take(i as int)),
            ),
            issues == (CgroupCollectionIssues { members_moved: issues.members_moved, ..before }),
        decreases end.members.len() - i,
    {
        assert(end.members@.take(i + 1).drop_last() =~= end.members@.take(i as int));
        assert(end.members@.take(i + 1).last() == end.members@[i as int]);
        let finish = &end.members[i];
        match find_member(&start.members, finish.key) {
            Some(j) => {
                if start.members[j].cgroup_path == finish.cgroup_path {
                    members.push(clone_member(finish));
                } else {
                    issues.members_moved = issues.members_moved.saturating_add(1);
                }
            },
            None => {},
        }
        i += 1;
    }
    assert(end.members@.take(i as int) =~= end.members@);
    let mut groups: Vec<CgroupInterval> = Vec::new();
    let mut g: usize = 0;
    while g < end.groups.len()
        invariant
            g <= end.groups.len(),
            groups@.len() == matched_groups(start.groups@, end.groups@.take(g as int)).len(),
            forall|k: int|
                0 <= k < groups@.len() ==> group_interval_holds(
                    #[trigger] groups@[k],
                    matched_groups(start.groups@, end.groups@.take(g as int))[k].0,
                    matched_groups(start.groups@, end.groups@.take(g as int))[k].1,
                ),
        decreases end.groups.len() - g,
    {
        assert(end.groups@.take(g + 1).drop_last() =~= end.groups@.take(g as int));
        assert(end.groups@.take(g + 1).last() == end.groups@[g as int]);
        let finish = &end.groups[g];
        match find_group(&start.groups, &finish.path) {
            Some(j) => {
                let interval = group_interval(&start.groups[j], finish);
                groups.push(interval);
            },
            None => {},
        }
        g += 1;
    }
    assert(end.groups@.take(g as int) =~= end.groups@);
    Ok(CgroupObservation { elapsed_ns, groups, members, issues })
}

/// Every controller state of an interval group is available.
pub open spec fn interval_complete(i: CgroupInterval) -> bool {
    i.cpu.state == CgroupFileState::Available && i.memory_current_end.state
        == CgroupFileState::Available && i.memory_events.state == CgroupFileState::Available
        && i.memory_stat.state == CgroupFileState::Available && i.io.state
        == CgroupFileState::Available && i.cpu_pressure.state == CgroupFileState::Available
        && i.memory_pressure.state == CgroupFileState::Available && i.io_pressure.state
        == CgroupFileState::Available
}

pub fn cgroup_capability_from_observation(observation: &CgroupObservation) -> (c: CgroupCapability)
    ensures
        c == if observation.groups@.len() == 0 || issues_partial(observation.issues) || exists|
            i: int,
        |
            0 <= i < observation.groups@.len() && !interval_complete(
                #[trigger] observation.groups@[i],
            ) {
            CgroupCapability::Partial
        } else {
            CgroupCapability::Available
        },
{
    if observation.groups.len() == 0 || collection_is_partial(&observation.issues) {
        return CgroupCapability::Partial;
    }
    let mut i: usize = 0;
    while i < observation.groups.len()
        invariant
            i <= observation.groups@.len(),
            forall|j: int| 0 <= j < i ==> interval_complete(#[trigger] observation.groups@[j]),
        decreases observation.groups.len() - i,
    {
        let g = &observation.groups[i];
        if !(g.cpu.state == CgroupFileState::Available && g.memory_current_end.state
            == CgroupFileState::Available && g.memory_events.state == CgroupFileState::Available
            && g.memory_stat.state == CgroupFileState::Available && g.io.state
            == CgroupFileState::Available && g.cpu_pressure.state == CgroupFileState::Available
            && g.memory_pressure.state == CgroupFileState::Available && g.io_pressure.state
            == CgroupFileState::Available) {
            return CgroupCapability::Partial;
        }
        i += 1;
    }
    CgroupCapability::Available
}


// ---------------------------------------------------------------------------
// Active cgroup paths
// ---------------------------------------------------------------------------

/// The character sequences held by a vector of strings.
pub open spec fn strs_of(v: Seq<String>) -> Seq<Seq<char>> {
    v.map_values(|x: String| x@)
}

/// The given paths that lie at or below `root`.
pub open spec fn leaf_set(paths: Seq<Seq<char>>, root: Seq<char>) -> Set<Seq<char>> {
    Set::new(|p: Seq<char>| paths.contains(p) && below_root(p, root))
}

/// How many of the given paths (with repeats) lie outside `root`.
pub open spec fn count_rejected(paths: Seq<Seq<char>>, root: Seq<char>) -> nat
    decreases paths.len(),
{
    if paths.len() == 0 {
        0
    } else {
        count_rejected(paths.drop_last(), root) + if below_root(paths.last(), root) {
            0nat
        } else {
            1nat
        }
    }
}

/// Adds `cur` and then its ancestors up to `root` to `acc`, each while the
/// set has room for it or already holds it; the flag tells whether the walk
/// stopped for want of room.
pub open spec fn walk_up(acc: Set<Seq<char>>, cur: Seq<char>, root: Seq<char>) -> (
    Set<Seq<char>>,
    bool,
)
    decreases cur.len(),
{
    if acc.len() < MAX_CGROUPS || acc.contains(cur) {
        let next = acc.insert(cur);
        if cur == root {
            (next, false)
        } else {
            match parent_path(cur) {
                Some(p) => if p.len() < cur.len() {
                    walk_up(next, p, root)
                } else {
                    (next, false)
                },
                None => (next, false),
            }
        }
    } else {
        (acc, true)
    }
}

/// The walks from each leaf in turn.
pub open spec fn walk_leaves(acc: Set<Seq<char>>, leaves: Seq<Seq<char>>, root: Seq<char>) -> (
    Set<Seq<char>>,
    bool,
)
    decreases leaves.len(),
{
    if leaves.len() == 0 {
        (acc, false)
    } else {
        let (a, f) = walk_leaves(acc, leaves.drop_last(), root);
        let (b, g) = walk_up(a, leaves.last(), root);
        (b, f || g)
    }
}

/// The paths selected from the sorted leaves `ls`, and whether the cgroup
/// limit was reached: every leaf comes before any ancestor, so when the
/// leaves alone exceed the limit the first ones in order are kept.
pub open spec fn active_selection(ls: Seq<Seq<char>>, root: Seq<char>) -> (Set<Seq<char>>, bool) {
    if ls.len() > MAX_CGROUPS {
        (ls.take(MAX_CGROUPS as int).to_set(), true)
    } else {
        walk_leaves(ls.to_set(), ls, root)
    }
}

/// Walking up from a path strictly below the root yields a shorter path that
/// is still at or below the root.
proof fn lemma_parent_below_root(cur: Seq<char>, root: Seq<char>)
    requires
        root.len() > 0,
        below_root(cur, root),
        cur != root,
    ensures
        parent_path(cur) is Some,
        parent_path(cur)->0.len() < cur.len(),
        below_root(parent_path(cur)->0, root),
{
    let slash: int = if root == seq!['/'] {
        0
    } else {
        root.len() as int
    };
    if root == seq!['/'] {
        if !(cur.len() > 0 && cur[0] == '/') {
            assert(cur.take(1)[0] == cur[0]);
            assert(root[0] == '/');
            assert(false);
        }
        if cur.len() == 1 {
            assert(cur =~= seq!['/']);
        }
    }
    assert(cur[slash] == '/');
    lemma_last_at_exists(cur, '/', slash);
    let w = choose|w: int| last_at(cur, '/', w);
    if w < slash {
        assert(cur[slash] != '/');
    }
    let parent = cur.take(w);
    if w == 0 {
        assert(parent_path(cur) == Some(seq!['/']));
        if root != seq!['/'] {
            assert(false);
        }
    } else {
        assert(parent_path(cur) == Some(parent));
        if root == seq!['/'] {
            assert(parent[0] == '/');
        } else if w == root.len() {
            assert(parent =~= cur.take(root.len() as int));
        } else {
            assert(parent.take(root.len() as int) =~= cur.take(root.len() as int));
            assert(parent[root.len() as int] == cur[root.len() as int]);
        }
    }
}

fn contains_path(v: &Vec<Vec<char>>, x: &[char]) -> (b: bool)
    ensures
        b == seqs_of(v@).contains(x@),
{
    let mut i: usize = 0;
    while i < v.len()
        invariant
            i <= v.len(),
            forall|k: int| 0 <= k < i ==> seqs_of(v@)[k] != x@,
        decreases v.len() - i,
    {
        if eq_chars(&v[i], x) {
            assert(seqs_of(v@)[i as int] == x@);
            return true;
        }
        i += 1;
    }
    false
}

/// Adds a path to a strictly sorted list unless it is already there.
pub(crate) fn insert_path(v: &mut Vec<Vec<char>>, x: Vec<char>)
    requires
        strictly_sorted(seqs_of(old(v)@)),
    ensures
        strictly_sorted(seqs_of(final(v)@)),
        forall|p: Seq<char>|
            #[trigger] seqs_of(final(v)@).contains(p) <==> (seqs_of(old(v)@).contains(p) || p == x@),
{
    let ghost before = seqs_of(v@);
    let mut p: usize = 0;
    while p < v.len() && chars_lt(&v[p], &x)
        invariant
            p <= v.len(),
            seqs_of(v@) == before,
            forall|k: int| 0 <= k < p ==> seq_lt(#[trigger] before[k], x@),
        decreases v.len() - p,
    {
        assert(seqs_of(v@)[p as int] == v@[p as int]@);
        p += 1;
    }
    if p < v.len() && eq_chars(&v[p], &x) {
        assert(before[p as int] == x@);
        return;
    }
    proof {
        if p < before.len() {
            assert(before[p as int] == v@[p as int]@);
            lemma_seq_lt_total(before[p as int], x@);
        }
    }
    let ghost xv = x@;
    v.insert(p, x);
    let ghost after = seqs_of(v@);
    assert(after =~= before.insert(p as int, xv));
    assert forall|i: int, j: int| 0 <= i < j < after.len() implies seq_lt(
        #[trigger] after[i],
        #[trigger] after[j],
    ) by {
        if j < p {
            assert(after[i] == before[i] && after[j] == before[j]);
        } else if j == p {
            assert(after[i] == before[i]);
        } else if i < p {
            assert(after[i] == before[i] && after[j] == before[j - 1]);
            if j - 1 > p {
                assert(seq_lt(before[p as int], before[j - 1]));
                lemma_seq_lt_transitive(xv, before[p as int], before[j - 1]);
            }
            lemma_seq_lt_transitive(before[i], xv, before[j - 1]);
        } else if i == p {
            assert(after[j] == before[j - 1]);
            if j - 1 > p {
                assert(seq_lt(before[p as int], before[j - 1]));
                lemma_seq_lt_transitive(xv, before[p as int], before[j - 1]);
            }
        } else {
            assert(after[i] == before[i - 1] && after[j] == before[j - 1]);
        }
    }
    assert forall|e: Seq<char>| #[trigger] after.contains(e) <==> (before.contains(e) || e == xv) by {
        if after.contains(e) {
            let k = choose|k: int| 0 <= k < after.len() && after[k] == e;
            if k < p {
                assert(before[k] == e);
            } else if k > p {
                assert(before[k - 1] == e);
            }
        }
        if before.contains(e) {
            let k = choose|k: int| 0 <= k < before.len() && before[k] == e;
            if k < p {
                assert(after[k] == e);
            } else {
                assert(after[k + 1] == e);
            }
        }
        if e == xv {
            assert(after[p as int] == e);
        }
    }
}


/// The outcome of selecting active paths from the sorted leaves `ls`.
pub open spec fn selected_from(
    ls: Seq<Seq<char>>,
    paths: Seq<Seq<char>>,
    root: Seq<char>,
    chosen: Set<Seq<char>>,
    limited: bool,
) -> bool {
    &&& strictly_sorted(ls)
    &&& ls.to_set() == leaf_set(paths, root)
    &&& chosen == active_selection(ls, root).0
    &&& limited == active_selection(ls, root).1
}

/// The cgroups to collect: every given path at or below the mount root (the
/// others are counted as rejected), then their ancestors up to the root,
/// bounded by `MAX_CGROUPS`.  All leaves are kept before any ancestor; when
/// the bound is hit the limit is recorded.  The result is sorted.
pub fn active_paths(
    mount: &Cgroup2Mount,
    paths: &Vec<String>,
    issues: &mut CgroupCollectionIssues,
) -> (r: Vec<String>)
    requires
        mount.root@.len() > 0,
    ensures
        strictly_sorted(strs_of(r@)),
        exists|ls: Seq<Seq<char>>, limited: bool|
            #[trigger] selected_from(ls, strs_of(paths@), mount.root@, strs_of(r@).to_set(), limited)
                && final(issues).cgroup_limit_reached == (old(issues).cgroup_limit_reached
                || limited),
        final(issues).path_rejected == clamp_u32(
            old(issues).path_rejected as nat + count_rejected(strs_of(paths@), mount.root@),
        ),
        *final(issues) == (CgroupCollectionIssues {
            path_rejected: final(issues).path_rejected,
            cgroup_limit_reached: final(issues).cgroup_limit_reached,
            ..*old(issues)
        }),
{
    let ghost orig = *issues;
    let ghost root = mount.root@;
    let ghost all = strs_of(paths@);
    let mut leaves: Vec<Vec<char>> = Vec::new();
    let mut i: usize = 0;
    while i < paths.len()
        invariant
            i <= paths.len(),
            root == mount.root@,
            all == strs_of(paths@),
            strictly_sorted(seqs_of(leaves@)),
            forall|p: Seq<char>| #[trigger]
                seqs_of(leaves@).contains(p) <==> (all.take(i as int).contains(p) && below_root(
                    p,
                    root,
                )),
            issues.path_rejected == clamp_u32(
                orig.path_rejected as nat + count_rejected(all.take(i as int), root),
            ),
            *issues == (CgroupCollectionIssues { path_rejected: issues.path_rejected, ..orig }),
        decreases paths.len() - i,
    {
        let ghost prev = all.take(i as int);
        let ghost next = all.take(i + 1);
        assert(next.drop_last() =~= prev);
        assert(next.last() == paths@[i as int]@);
        if is_below_mount_root(&paths[i], &mount.root) {
            insert_path(&mut leaves, chars_of(&paths[i]));
        } else {
            issues.path_rejected = issues.path_rejected.saturating_add(1);
        }
        assert forall|p: Seq<char>| next.contains(p) <==> (prev.contains(p) || p == paths@[i as int]@) by {
            if next.contains(p) {
                let k = choose|k: int| 0 <= k < next.len() && next[k] == p;
                if k < i {
                    assert(prev[k] == p);
                }
            }
            if prev.contains(p) {
                let k = choose|k: int| 0 <= k < prev.len() && prev[k] == p;
                assert(next[k] == p);
            }
            if p == paths@[i as int]@ {
                assert(next[i as int] == p);
            }
        }
        i += 1;
    }
    assert(all.take(i as int) =~= all);
    let ghost ls = seqs_of(leaves@);
    assert(ls.to_set() =~= leaf_set(all, root));
    let ghost lset = ls.to_set();
    if leaves.len() > MAX_CGROUPS {
        issues.cgroup_limit_reached = true;
        let mut out: Vec<String> = Vec::new();
        let mut k: usize = 0;
        while k < MAX_CGROUPS
            invariant
                k <= MAX_CGROUPS < leaves@.len(),
                ls == seqs_of(leaves@),
                strs_of(out@) =~= ls.take(k as int),
            decreases MAX_CGROUPS - k,
        {
            let text = string_of(&leaves[k]);
            assert(text@ == ls[k as int]);
            let ghost before = out@;
            out.push(text);
            assert(strs_of(out@) =~= strs_of(before).push(ls[k as int]));
            assert(ls.take(k + 1) =~= ls.take(k as int).push(ls[k as int]));
            k += 1;
        }
        assert(selected_from(ls, all, root, strs_of(out@).to_set(), true));
        assert(issues.cgroup_limit_reached == (orig.cgroup_limit_reached || true));
        return out;
    }
    let mut result: Vec<Vec<char>> = Vec::new();
    let mut k: usize = 0;
    while k < leaves.len()
        invariant
            k <= leaves@.len(),
            ls == seqs_of(leaves@),
            strictly_sorted(ls),
            seqs_of(result@) =~= ls.take(k as int),
        decreases leaves.len() - k,
    {
        let copy = slice_to_vec(&leaves[k], 0, leaves[k].len());
        assert(copy@ =~= ls[k as int]);
        let ghost before = result@;
        result.push(copy);
        assert(seqs_of(result@) =~= seqs_of(before).push(ls[k as int]));
        assert(ls.take(k + 1) =~= ls.take(k as int).push(ls[k as int]));
        k += 1;
    }
    assert(ls.take(k as int) =~= ls);
    let root_chars = chars_of(&mount.root);
    let mut limited = false;
    let mut li: usize = 0;
    while li < leaves.len()
        invariant
            li <= leaves@.len() <= MAX_CGROUPS,
            ls == seqs_of(leaves@),
            lset == ls.to_set(),
            root == mount.root@,
            root_chars@ == root,
            root.len() > 0,
            forall|p: Seq<char>| lset.contains(p) ==> below_root(p, root),
            strictly_sorted(seqs_of(result@)),
            (seqs_of(result@).to_set(), limited) == walk_leaves(lset, ls.take(li as int), root),
        decreases leaves.len() - li,
    {
        let ghost start_set = seqs_of(result@).to_set();
        let ghost leaf = ls[li as int];
        assert(lset.contains(leaf));
        let mut cur = slice_to_vec(&leaves[li], 0, leaves[li].len());
        assert(cur@ =~= leaf);
        assert(below_root(leaf, root));
        let mut going = true;
        let mut stopped = false;
        while going
            invariant
                root_chars@ == root,
                root.len() > 0,
                strictly_sorted(seqs_of(result@)),
                going ==> below_root(cur@, root),
                going ==> !stopped,
                going ==> walk_up(start_set, leaf, root) == walk_up(
                    seqs_of(result@).to_set(),
                    cur@,
                    root,
                ),
                !going ==> walk_up(start_set, leaf, root) == (seqs_of(result@).to_set(), stopped),
            decreases cur@.len() + if going {
                1int
            } else {
                0int
            },
        {
            let ghost acc = seqs_of(result@).to_set();
            proof {
                lemma_strictly_sorted_set_len(seqs_of(result@));
            }
            if result.len() < MAX_CGROUPS || contains_path(&result, &cur) {
                let ghost cv = cur@;
                let copy = slice_to_vec(&cur, 0, cur.len());
                assert(copy@ =~= cv);
                insert_path(&mut result, copy);
                assert(seqs_of(result@).to_set() =~= acc.insert(cv));
                if eq_chars(&cur, &root_chars) {
                    going = false;
                } else {
                    proof {
                        lemma_parent_below_root(cv, root);
                    }
                    match parent_chars(&cur) {
                        Some(parent) => {
                            cur = parent;
                        },
                        None => {
                            going = false;
                        },
                    }
                }
            } else {
                stopped = true;
                going = false;
            }
        }
        proof {
            let t = ls.take(li + 1);
            assert(t.drop_last() =~= ls.take(li as int));
            assert(t.last() == leaf);
        }
        limited = limited || stopped;
        li += 1;
    }
    assert(ls.take(li as int) =~= ls);
    issues.cgroup_limit_reached = issues.cgroup_limit_reached || limited;
    let mut out: Vec<String> = Vec::new();
    let mut k: usize = 0;
    while k < result.len()
        invariant
            k <= result@.len(),
            strs_of(out@) =~= seqs_of(result@).take(k as int),
        decreases result.len() - k,
    {
        let text = string_of(&result[k]);
        assert(text@ == seqs_of(result@)[k as int]);
        let ghost before = out@;
        out.push(text);
        assert(strs_of(out@) =~= strs_of(before).push(seqs_of(result@)[k as int]));
        assert(seqs_of(result@).take(k + 1) =~= seqs_of(result@).take(k as int).push(
            seqs_of(result@)[k as int],
        ));
        k += 1;
    }
    assert(seqs_of(result@).take(k as int) =~= seqs_of(result@));
    assert(selected_from(ls, all, root, strs_of(out@).to_set(), limited));
    out
}


proof fn lemma_walk_up_bounded(acc: Set<Seq<char>>, cur: Seq<char>, root: Seq<char>)
    requires
        acc.finite(),
        acc.len() <= MAX_CGROUPS,
        root.len() > 0,
        below_root(cur, root),
        forall|p: Seq<char>| acc.contains(p) ==> below_root(p, root),
    ensures
        walk_up(acc, cur, root).0.finite(),
        walk_up(acc, cur, root).0.len() <= MAX_CGROUPS,
        acc.subset_of(walk_up(acc, cur, root).0),
        forall|p: Seq<char>| walk_up(acc, cur, root).0.contains(p) ==> below_root(p, root),
    decreases cur.len(),
{
    if acc.len() < MAX_CGROUPS || acc.contains(cur) {
        let next = acc.insert(cur);
        if cur != root {
            lemma_parent_below_root(cur, root);
            let p = parent_path(cur)->0;
            lemma_walk_up_bounded(next, p, root);
        }
    }
}

proof fn lemma_walk_leaves_bounded(acc: Set<Seq<char>>, leaves: Seq<Seq<char>>, root: Seq<char>)
    requires
        acc.finite(),
        acc.len() <= MAX_CGROUPS,
        root.len() > 0,
        forall|i: int| 0 <= i < leaves.len() ==> below_root(#[trigger] leaves[i], root),
        forall|p: Seq<char>| acc.contains(p) ==> below_root(p, root),
    ensures
        walk_leaves(acc, leaves, root).0.finite(),
        walk_leaves(acc, leaves, root).0.len() <= MAX_CGROUPS,
        acc.subset_of(walk_leaves(acc, leaves, root).0),
        forall|p: Seq<char>| walk_leaves(acc, leaves, root).0.contains(p) ==> below_root(p, root),
    decreases leaves.len(),
{
    if leaves.len() > 0 {
        lemma_walk_leaves_bounded(acc, leaves.drop_last(), root);
        let a = walk_leaves(acc, leaves.drop_last(), root).0;
        assert(below_root(leaves[leaves.len() - 1], root));
        lemma_walk_up_bounded(a, leaves.last(), root);
    }
}

/// Active-path selection never holds more than `MAX_CGROUPS` paths, every
/// path it holds lies at or below the root, and when the leaves fit within
/// the bound every leaf is selected (leaves come before ancestors).
pub proof fn lemma_active_selection_bounded(ls: Seq<Seq<char>>, root: Seq<char>)
    requires
        strictly_sorted(ls),
        root.len() > 0,
        forall|i: int| 0 <= i < ls.len() ==> below_root(#[trigger] ls[i], root),
    ensures
        active_selection(ls, root).0.finite(),
        active_selection(ls, root).0.len() <= MAX_CGROUPS,
        forall|p: Seq<char>| active_selection(ls, root).0.contains(p) ==> below_root(p, root),
        ls.len() <= MAX_CGROUPS ==> ls.to_set().subset_of(active_selection(ls, root).0),
        ls.len() > MAX_CGROUPS ==> active_selection(ls, root).1,
{
    if ls.len() > MAX_CGROUPS {
        let t = ls.take(MAX_CGROUPS as int);
        assert(strictly_sorted(t));
        lemma_strictly_sorted_set_len(t);
        assert forall|p: Seq<char>| t.to_set().contains(p) implies below_root(p, root) by {
            let k = choose|k: int| 0 <= k < t.len() && t[k] == p;
            assert(ls[k] == p);
        }
    } else {
        lemma_strictly_sorted_set_len(ls);
        assert forall|p: Seq<char>| ls.to_set().contains(p) implies below_root(p, root) by {
            let k = choose|k: int| 0 <= k < ls.len() && ls[k] == p;
        }
        lemma_walk_leaves_bounded(ls.to_set(), ls, root);
    }
}


// ---------------------------------------------------------------------------
// Laws
// ---------------------------------------------------------------------------

/// A pressure interval never reports a `some` stall longer than its measured
/// window, nor a `full` stall longer than `some`; a regressed `some` reports
/// no delta at all.
pub proof fn lemma_psi_interval_within_window(
    start: CgroupResource<CgroupPsiRaw>,
    end: CgroupResource<CgroupPsiRaw>,
    start_at: Option<u64>,
    end_at: Option<u64>,
)
    ensures
        match psi_interval_spec(start, end, start_at, end_at).value {
            Some(v) => {
                &&& (match v.some_total_usec {
                    Some(some) => match v.elapsed_ns {
                        Some(e) => some <= e / 1000,
                        None => false,
                    },
                    None => true,
                })
                &&& (match v.full_total_usec {
                    Some(full) => match v.some_total_usec {
                        Some(some) => full <= some,
                        None => false,
                    },
                    None => true,
                })
                &&& (v.state == CgroupPsiIntervalState::SomeRegressed ==> v.some_total_usec is None
                    && v.full_total_usec is None)
            },
            None => true,
        },
{
}

/// Merging endpoint issues never loses a problem: every flag raised at
/// either end stays raised, and every count is at least that of each end
/// (exactly their sum when it fits).
pub proof fn lemma_merge_keeps_both_endpoints(a: CgroupCollectionIssues, b: CgroupCollectionIssues)
    ensures
        merged_issues(a, b).budget_exhausted == (a.budget_exhausted || b.budget_exhausted),
        merged_issues(a, b).read_attempts >= a.read_attempts,
        merged_issues(a, b).read_attempts >= b.read_attempts,
        merged_issues(a, b).bytes_read >= a.bytes_read,
        merged_issues(a, b).bytes_read >= b.bytes_read,
        a.read_attempts + b.read_attempts <= u32::MAX ==> merged_issues(a, b).read_attempts
            == a.read_attempts + b.read_attempts,
        a.bytes_read + b.bytes_read <= u64::MAX ==> merged_issues(a, b).bytes_read == a.bytes_read
            + b.bytes_read,
        merged_issues(a, b).path_rejected >= a.path_rejected,
        merged_issues(a, b).path_rejected >= b.path_rejected,
        merged_issues(a, b).cgroup_limit_reached == (a.cgroup_limit_reached
            || b.cgroup_limit_reached),
        merged_issues(a, b).process_limit_reached == (a.process_limit_reached
            || b.process_limit_reached),
{
}


// ---------------------------------------------------------------------------
// Snapshots as maps keyed by process and by cgroup path
// ---------------------------------------------------------------------------

/// Members strictly ordered by process key, so no process occurs twice.
pub open spec fn members_sorted(s: Seq<CgroupProcessMember>) -> bool {
    forall|i: int, j: int| 0 <= i < j < s.len() ==> key_lt(#[trigger] s[i].key, #[trigger] s[j].key)
}

/// The paths of a list of groups.
pub open spec fn group_paths(s: Seq<CgroupRaw>) -> Seq<Seq<char>> {
    s.map_values(|g: CgroupRaw| g.path@)
}

/// The end paths of matched group pairs.
pub open spec fn matched_paths(s: Seq<(CgroupRaw, CgroupRaw)>) -> Seq<Seq<char>> {
    s.map_values(|p: (CgroupRaw, CgroupRaw)| p.1.path@)
}

/// A cgroup snapshot is well formed when its members are strictly ordered by
/// process key and its groups strictly ordered by path, so that neither a
/// process nor a path occurs twice.
pub open spec fn cgroup_snapshot_wf(s: CgroupSnapshot) -> bool {
    members_sorted(s.members@) && strictly_sorted(group_paths(s.groups@))
}

proof fn lemma_stable_members_within(start: Seq<CgroupProcessMember>, end: Seq<CgroupProcessMember>)
    ensures
        forall|i: int|
            0 <= i < stable_members(start, end).len() ==> end.contains(#[trigger] stable_members(start, end)[i]),
    decreases end.len(),
{
    if end.len() > 0 {
        let e = end.drop_last();
        lemma_stable_members_within(start, e);
        let p = stable_members(start, e);
        let r = stable_members(start, end);
        assert forall|i: int| 0 <= i < r.len() implies end.contains(#[trigger] r[i]) by {
            if i < p.len() {
                assert(r[i] == p[i]);
                assert(e.contains(p[i]));
                let q = choose|q: int| 0 <= q < e.len() && e[q] == p[i];
                assert(end[q] == p[i]);
            } else {
                assert(r[i] == end.last());
                assert(end[end.len() - 1] == end.last());
            }
        }
    }
}

proof fn lemma_matched_within(start: Seq<CgroupRaw>, end: Seq<CgroupRaw>)
    ensures
        forall|i: int|
            0 <= i < matched_groups(start, end).len() ==> end.contains(#[trigger] matched_groups(start, end)[i].1),
    decreases end.len(),
{
    if end.len() > 0 {
        let e = end.drop_last();
        lemma_matched_within(start, e);
        let p = matched_groups(start, e);
        let r = matched_groups(start, end);
        assert forall|i: int| 0 <= i < r.len() implies end.contains(#[trigger] r[i].1) by {
            if i < p.len() {
                assert(r[i] == p[i]);
                assert(e.contains(p[i].1));
                let q = choose|q: int| 0 <= q < e.len() && e[q] == p[i].1;
                assert(end[q] == p[i].1);
            } else {
                assert(r[i].1 == end.last());
                assert(end[end.len() - 1] == end.last());
            }
        }
    }
}

/// For well-formed snapshots a cgroup interval keeps both maps keyed: the
/// stable members stay strictly ordered by process key, and the matched
/// groups strictly ordered by path.
pub proof fn lemma_cgroup_interval_keyed(start: CgroupSnapshot, end: CgroupSnapshot)
    requires
        cgroup_snapshot_wf(end),
    ensures
        members_sorted(stable_members(start.members@, end.members@)),
        strictly_sorted(matched_paths(matched_groups(start.groups@, end.groups@))),
{
    lemma_stable_sorted(start.members@, end.members@);
    lemma_matched_sorted(start.groups@, end.groups@);
}

proof fn lemma_stable_sorted(start: Seq<CgroupProcessMember>, end: Seq<CgroupProcessMember>)
    requires
        members_sorted(end),
    ensures
        members_sorted(stable_members(start, end)),
    decreases end.len(),
{
    if end.len() > 0 {
        let e = end.drop_last();
        assert forall|i: int, j: int| 0 <= i < j < e.len() implies key_lt(#[trigger] e[i].key, #[trigger] e[j].key) by {
            assert(e[i] == end[i] && e[j] == end[j]);
        }
        lemma_stable_sorted(start, e);
        lemma_stable_members_within(start, e);
        let p = stable_members(start, e);
        let r = stable_members(start, end);
        if stayed(start, end.last()) {
            assert forall|i: int, j: int| 0 <= i < j < r.len() implies key_lt(#[trigger] r[i].key, #[trigger] r[j].key) by {
                if j == p.len() {
                    assert(r[i] == p[i]);
                    assert(e.contains(p[i]));
                    let q = choose|q: int| 0 <= q < e.len() && e[q] == p[i];
                    assert(end[q] == p[i]);
                    assert(end[end.len() - 1] == end.last());
                } else {
                    assert(r[i] == p[i] && r[j] == p[j]);
                }
            }
        }
    }
}

proof fn lemma_matched_sorted(start: Seq<CgroupRaw>, end: Seq<CgroupRaw>)
    requires
        strictly_sorted(group_paths(end)),
    ensures
        strictly_sorted(matched_paths(matched_groups(start, end))),
    decreases end.len(),
{
    if end.len() > 0 {
        let e = end.drop_last();
        assert forall|i: int, j: int| 0 <= i < j < group_paths(e).len() implies seq_lt(
            #[trigger] group_paths(e)[i],
            #[trigger] group_paths(e)[j],
        ) by {
            assert(group_paths(e)[i] == group_paths(end)[i] && group_paths(e)[j] == group_paths(end)[j]);
        }
        lemma_matched_sorted(start, e);
        lemma_matched_within(start, e);
        let p = matched_groups(start, e);
        let r = matched_groups(start, end);
        match group_at_path(start, end.last().path@) {
            Some(b) => {
                let mp = matched_paths(p);
                let mr = matched_paths(r);
                assert forall|i: int, j: int| 0 <= i < j < mr.len() implies seq_lt(#[trigger] mr[i], #[trigger] mr[j]) by {
                    assert(mr[i] == mp[i]);
                    assert(r[i] == p[i]);
                    if j == mp.len() {
                        assert(e.contains(p[i].1));
                        let q = choose|q: int| 0 <= q < e.len() && e[q] == p[i].1;
                        assert(group_paths(end)[q] == p[i].1.path@);
                        assert(group_paths(end)[end.len() - 1] == end.last().path@);
                        assert(mr[j] == end.last().path@);
                    } else {
                        assert(mr[j] == mp[j]);
                    }
                }
            },
            None => {},
        }
    }
}

/// A group path is matched exactly when both reads hold a group at it; the
/// pair is the first such group of each read.
proof fn lemma_matched_members(start: Seq<CgroupRaw>, end: Seq<CgroupRaw>, p: Seq<char>)
    ensures
        (exists|i: int|
            0 <= i < matched_groups(start, end).len() && (#[trigger] matched_groups(start, end)[i]).1.path@
                == p) <==> (group_at_path(start, p) is Some && group_at_path(end, p) is Some),
        forall|i: int|
            0 <= i < matched_groups(start, end).len() ==> group_at_path(
                start,
                (#[trigger] matched_groups(start, end)[i]).1.path@,
            ) == Some(matched_groups(start, end)[i].0),
    decreases end.len(),
{
    if end.len() > 0 {
        let e = end.drop_last();
        let f = end.last();
        lemma_matched_members(start, e, p);
        lemma_matched_members(start, e, f.path@);
        lemma_group_at_path_push(e, f, p);
        assert(e.push(f) =~= end);
        let m0 = matched_groups(start, e);
        let m1 = matched_groups(start, end);
        match group_at_path(start, f.path@) {
            Some(b) => {
                assert(m1 == m0.push((b, f)));
                if exists|i: int| 0 <= i < m0.len() && (#[trigger] m0[i]).1.path@ == p {
                    let i = choose|i: int| 0 <= i < m0.len() && (#[trigger] m0[i]).1.path@ == p;
                    assert(m1[i] == m0[i]);
                }
                if exists|i: int| 0 <= i < m1.len() && (#[trigger] m1[i]).1.path@ == p {
                    let i = choose|i: int| 0 <= i < m1.len() && (#[trigger] m1[i]).1.path@ == p;
                    if i < m0.len() {
                        assert(m1[i] == m0[i]);
                    }
                }
                if group_at_path(start, p) is Some && group_at_path(end, p) is Some && p == f.path@ {
                    assert(m1[m0.len() as int].1.path@ == p);
                }
                assert forall|i: int| 0 <= i < m1.len() implies group_at_path(start, (#[trigger] m1[i]).1.path@)
                    == Some(m1[i].0) by {
                    if i < m0.len() {
                        assert(m1[i] == m0[i]);
                    }
                }
            },
            None => {
                assert(m1 == m0);
            },
        }
    }
}

proof fn lemma_group_at_path_push(e: Seq<CgroupRaw>, f: CgroupRaw, p: Seq<char>)
    ensures
        group_at_path(e.push(f), p) is Some <==> (group_at_path(e, p) is Some || f.path@ == p),
    decreases e.len(),
{
    if e.len() > 0 {
        lemma_group_at_path_push(e.drop_first(), f, p);
        assert(e.push(f).drop_first() =~= e.drop_first().push(f));
        assert(e.push(f)[0] == e[0]);
    } else {
        assert(e.push(f).drop_first() =~= Seq::<CgroupRaw>::empty());
        assert(e.push(f)[0] == f);
        assert(group_at_path(e.push(f).drop_first(), p) is None);
    }
}

/// A member is kept exactly when the end read holds it and it stayed in its
/// cgroup.
proof fn lemma_stable_members_exact(start: Seq<CgroupProcessMember>, end: Seq<CgroupProcessMember>, m: CgroupProcessMember)
    ensures
        stable_members(start, end).contains(m) <==> (end.contains(m) && stayed(start, m)),
    decreases end.len(),
{
    if end.len() > 0 {
        let e = end.drop_last();
        lemma_stable_members_exact(start, e, m);
        lemma_stable_members_within(start, end);
        let p = stable_members(start, e);
        let r = stable_members(start, end);
        assert(e.push(end.last()) =~= end);
        if end.contains(m) && stayed(start, m) {
            let q = choose|q: int| 0 <= q < end.len() && end[q] == m;
            if q < e.len() {
                assert(e[q] == m);
                let t = choose|t: int| 0 <= t < p.len() && p[t] == m;
                if stayed(start, end.last()) {
                    assert(r[t] == m);
                } else {
                    assert(r == p);
                }
            } else {
                assert(r[p.len() as int] == m);
            }
        }
        if r.contains(m) {
            let t = choose|t: int| 0 <= t < r.len() && r[t] == m;
            if t < p.len() {
                if stayed(start, end.last()) {
                    assert(r[t] == p[t]);
                }
                assert(p.contains(m));
            } else {
                assert(m == end.last());
            }
        }
    }
}

/// For a well-formed end read a cgroup interval is the comparison of two
/// maps:
/// - its groups come in strictly ascending path order, one for each path that
///   both reads hold, each compared against the start read's group at that
///   path;
/// - its members come in strictly ascending process-key order, and a member is
///   kept exactly when the end read holds it in the cgroup where the start
///   read found the same process.
pub proof fn lemma_cgroup_interval_law(start: CgroupSnapshot, end: CgroupSnapshot, o: CgroupObservation)
    requires
        cgroup_snapshot_wf(end),
        cgroup_observation_holds(o, start, end),
    ensures
        forall|i: int, j: int|
            0 <= i < j < o.groups@.len() ==> seq_lt(#[trigger] o.groups@[i].path@, #[trigger] o.groups@[j].path@),
        forall|p: Seq<char>|
            #![trigger group_at_path(end.groups@, p)]
            (exists|i: int| 0 <= i < o.groups@.len() && (#[trigger] o.groups@[i]).path@ == p) <==> (
            group_at_path(start.groups@, p) is Some && group_at_path(end.groups@, p) is Some),
        forall|i: int|
            0 <= i < o.groups@.len() ==> group_interval_holds(
                #[trigger] o.groups@[i],
                group_at_path(start.groups@, o.groups@[i].path@).unwrap(),
                group_at_path(end.groups@, o.groups@[i].path@).unwrap(),
            ),
        members_sorted(o.members@),
        forall|m: CgroupProcessMember|
            #[trigger] o.members@.contains(m) <==> (end.members@.contains(m) && stayed(start.members@, m)),
{
    lemma_cgroup_interval_keyed(start, end);
    let mg = matched_groups(start.groups@, end.groups@);
    let mp = matched_paths(mg);
    lemma_matched_within(start.groups@, end.groups@);
    assert forall|i: int| 0 <= i < o.groups@.len() implies #[trigger] o.groups@[i].path@ == mg[i].1.path@ by {
        assert(group_interval_holds(o.groups@[i], mg[i].0, mg[i].1));
    }
    assert forall|i: int, j: int| 0 <= i < j < o.groups@.len() implies seq_lt(
        #[trigger] o.groups@[i].path@,
        #[trigger] o.groups@[j].path@,
    ) by {
        assert(mp[i] == mg[i].1.path@ && mp[j] == mg[j].1.path@);
    }
    assert forall|p: Seq<char>|
        #![trigger group_at_path(end.groups@, p)]
        (exists|i: int| 0 <= i < o.groups@.len() && (#[trigger] o.groups@[i]).path@ == p) <==> (
        group_at_path(start.groups@, p) is Some && group_at_path(end.groups@, p) is Some) by {
        lemma_matched_members(start.groups@, end.groups@, p);
        if exists|i: int| 0 <= i < o.groups@.len() && (#[trigger] o.groups@[i]).path@ == p {
            let i = choose|i: int| 0 <= i < o.groups@.len() && (#[trigger] o.groups@[i]).path@ == p;
            assert(mg[i].1.path@ == p);
        }
        if group_at_path(start.groups@, p) is Some && group_at_path(end.groups@, p) is Some {
            let i = choose|i: int| 0 <= i < mg.len() && (#[trigger] mg[i]).1.path@ == p;
            assert(o.groups@[i].path@ == p);
        }
    }
    lemma_matched_members(start.groups@, end.groups@, Seq::empty());
    assert forall|i: int| 0 <= i < o.groups@.len() implies group_interval_holds(
        #[trigger] o.groups@[i],
        group_at_path(start.groups@, o.groups@[i].path@).unwrap(),
        group_at_path(end.groups@, o.groups@[i].path@).unwrap(),
    ) by {
        assert(group_interval_holds(o.groups@[i], mg[i].0, mg[i].1));
        assert(end.groups@.contains(mg[i].1));
        lemma_first_group_is_unique(end.groups@, mg[i].1);
    }
    assert forall|m: CgroupProcessMember|
        #[trigger] o.members@.contains(m) <==> (end.members@.contains(m) && stayed(start.members@, m)) by {
        lemma_stable_members_exact(start.members@, end.members@, m);
    }
}

/// In a read whose paths are strictly ordered, the group found at a group's
/// own path is that group.
proof fn lemma_first_group_is_unique(s: Seq<CgroupRaw>, g: CgroupRaw)
    requires
        strictly_sorted(group_paths(s)),
        s.contains(g),
    ensures
        group_at_path(s, g.path@) == Some(g),
    decreases s.len(),
{
    if s[0] != g {
        let q = choose|q: int| 0 <= q < s.len() && s[q] == g;
        assert(q > 0);
        assert(group_paths(s)[0] == s[0].path@ && group_paths(s)[q] == g.path@);
        lemma_seq_lt_irreflexive(g.path@);
        let t = s.drop_first();
        assert(t[q - 1] == g);
        assert forall|i: int, j: int| 0 <= i < j < group_paths(t).len() implies seq_lt(
            #[trigger] group_paths(t)[i],
            #[trigger] group_paths(t)[j],
        ) by {
            assert(group_paths(t)[i] == group_paths(s)[i + 1] && group_paths(t)[j] == group_paths(s)[j + 1]);
        }
        lemma_first_group_is_unique(t, g);
    }
}


/// A `key=value` field whose key is `total`.
pub open spec fn is_total_field(f: Seq<char>) -> bool {
    (split_once(f, '=') matches Some((k, _)) && k == "total"@)
}

/// The value text of a `key=value` field.
pub open spec fn field_value(f: Seq<char>) -> Seq<char> {
    match split_once(f, '=') {
        Some((_, v)) => v,
        None => Seq::empty(),
    }
}

/// Every field is a `key=value` pair.
pub open spec fn all_pairs(fields: Seq<Seq<char>>) -> bool {
    forall|i: int| 0 <= i < fields.len() ==> split_once(#[trigger] fields[i], '=') is Some
}

/// Exactly one field is a total, and its value is the number `t`.
pub open spec fn one_total(fields: Seq<Seq<char>>, t: u64) -> bool {
    exists|i: int|
        0 <= i < fields.len() && #[trigger] is_total_field(fields[i]) && parse_u64(field_value(fields[i]))
            == Some(t) && forall|j: int| 0 <= j < fields.len() && j != i ==> !is_total_field(#[trigger] fields[j])
}

/// The fields after a pressure line's kind give a total exactly when they
/// are all `key=value` pairs with exactly one `total`, whose value is a
/// 64-bit number; they give none exactly when they are pairs without a
/// `total`.
pub proof fn lemma_psi_fields_total_exact(fields: Seq<Seq<char>>)
    ensures
        psi_fields_total(fields) == Some(None::<u64>) <==> (all_pairs(fields) && forall|j: int|
            0 <= j < fields.len() ==> !is_total_field(#[trigger] fields[j])),
        forall|t: u64| (psi_fields_total(fields) == Some(Some(t))) <==> (all_pairs(fields) && #[trigger] one_total(fields, t)),
    decreases fields.len(),
{
    if fields.len() > 0 {
        let l = fields.drop_last();
        let x = fields.last();
        let last = fields.len() - 1;
        lemma_psi_fields_total_exact(l);
        assert(fields[last] == x);
        assert forall|i: int| 0 <= i < l.len() implies #[trigger] fields[i] == l[i] by {}
        if all_pairs(fields) {
            assert forall|i: int| 0 <= i < l.len() implies split_once(#[trigger] l[i], '=') is Some by {
                assert(fields[i] == l[i]);
            }
        }
        assert((forall|j: int| 0 <= j < fields.len() ==> !is_total_field(#[trigger] fields[j])) <==> ((forall|j: int|
            0 <= j < l.len() ==> !is_total_field(#[trigger] l[j])) && !is_total_field(x))) by {
            if forall|j: int| 0 <= j < fields.len() ==> !is_total_field(#[trigger] fields[j]) {
                assert forall|j: int| 0 <= j < l.len() implies !is_total_field(#[trigger] l[j]) by {
                    assert(fields[j] == l[j]);
                }
                assert(!is_total_field(fields[last]));
            }
        }
        // A unique total among all fields is the last field or one of the earlier ones.
        assert forall|t: u64| one_total(fields, t) <==> ((one_total(l, t) && !is_total_field(x)) || (is_total_field(x)
            && parse_u64(field_value(x)) == Some(t) && forall|j: int| 0 <= j < l.len() ==> !is_total_field(#[trigger] l[j]))) by {
            if one_total(fields, t) {
                let i = choose|i: int|
                    0 <= i < fields.len() && #[trigger] is_total_field(fields[i]) && parse_u64(field_value(fields[i]))
                        == Some(t) && forall|j: int| 0 <= j < fields.len() && j != i ==> !is_total_field(#[trigger] fields[j]);
                if i < l.len() {
                    assert(!is_total_field(fields[last]));
                    assert forall|j: int| 0 <= j < l.len() && j != i implies !is_total_field(#[trigger] l[j]) by {
                        assert(fields[j] == l[j]);
                    }
                    assert(is_total_field(l[i]));
                } else {
                    assert forall|j: int| 0 <= j < l.len() implies !is_total_field(#[trigger] l[j]) by {
                        assert(fields[j] == l[j]);
                    }
                }
            }
            if one_total(l, t) && !is_total_field(x) {
                let i = choose|i: int|
                    0 <= i < l.len() && #[trigger] is_total_field(l[i]) && parse_u64(field_value(l[i])) == Some(t)
                        && forall|j: int| 0 <= j < l.len() && j != i ==> !is_total_field(#[trigger] l[j]);
                assert(is_total_field(fields[i]));
                assert forall|j: int| 0 <= j < fields.len() && j != i implies !is_total_field(#[trigger] fields[j]) by {
                    if j < l.len() {
                        assert(fields[j] == l[j]);
                    }
                }
            }
            if is_total_field(x) && parse_u64(field_value(x)) == Some(t) && forall|j: int|
                0 <= j < l.len() ==> !is_total_field(#[trigger] l[j]) {
                assert(is_total_field(fields[last]));
                assert forall|j: int| 0 <= j < fields.len() && j != last implies !is_total_field(#[trigger] fields[j]) by {
                    assert(fields[j] == l[j]);
                }
            }
        }
        assert(all_pairs(fields) <==> (all_pairs(l) && split_once(x, '=') is Some)) by {
            if all_pairs(l) && split_once(x, '=') is Some {
                assert forall|i: int| 0 <= i < fields.len() implies split_once(#[trigger] fields[i], '=') is Some by {
                    if i < l.len() {
                        assert(fields[i] == l[i]);
                    }
                }
            }
            if all_pairs(fields) {
                assert(split_once(fields[last], '=') is Some);
            }
        }
        match split_once(x, '=') {
            None => {},
            Some((key, value)) => {
                assert(field_value(x) == value);
                assert(is_total_field(x) <==> key == "total"@);
            },
        }
        // A second total leaves no single total.
        assert forall|t: u64, u: u64| #[trigger] one_total(l, u) ==> !(#[trigger] one_total(fields, t) && is_total_field(x)) by {
            if one_total(l, u) && one_total(fields, t) && is_total_field(x) {
                let i = choose|i: int|
                    0 <= i < l.len() && #[trigger] is_total_field(l[i]) && parse_u64(field_value(l[i])) == Some(u)
                        && forall|j: int| 0 <= j < l.len() && j != i ==> !is_total_field(#[trigger] l[j]);
                assert(!(forall|j: int| 0 <= j < l.len() ==> !is_total_field(#[trigger] l[j])));
            }
        }
        assert forall|t: u64| (psi_fields_total(fields) == Some(Some(t))) <==> (all_pairs(fields) && #[trigger] one_total(fields, t)) by {
            if all_pairs(l) && one_total(l, t) {
                assert(psi_fields_total(l) == Some(Some(t)));
            }
            if psi_fields_total(l) == Some(Some(t)) {
                assert(one_total(l, t));
            }
            match psi_fields_total(l) {
                None => {},
                Some(cur) => match split_once(x, '=') {
                    None => {},
                    Some((key, value)) => {
                        match cur {
                            Some(u) => {
                                assert(one_total(l, u));
                                assert(all_pairs(l));
                            },
                            None => {},
                        }
                    },
                },
            }
        }
    }
}

/// The kind of a pressure line and the total of the `key=value` fields
/// after it.
pub open spec fn psi_line(line: Seq<char>) -> Option<(Seq<char>, u64)> {
    let f = fields_of(line);
    if f.len() == 0 {
        None
    } else {
        match psi_fields_total(f.drop_first()) {
            Some(Some(t)) => Some((f[0], t)),
            _ => None,
        }
    }
}

/// The total of a pressure line with one.
pub open spec fn line_total(line: Seq<char>) -> u64 {
    match psi_line(line) {
        Some((_, t)) => t,
        None => 0,
    }
}

/// A non-blank line of kind `k` with a total.
pub open spec fn line_of_kind(line: Seq<char>, k: Seq<char>) -> bool {
    !is_blank(line) && (psi_line(line) matches Some((kind, _)) && kind == k)
}

/// Every non-blank line is a `some` or a `full` line with a total, and no
/// kind occurs on two lines.
pub open spec fn psi_lines_valid(lines: Seq<Seq<char>>) -> bool {
    &&& forall|i: int|
        0 <= i < lines.len() && !is_blank(#[trigger] lines[i]) ==> (line_of_kind(lines[i], "some"@)
            || line_of_kind(lines[i], "full"@))
    &&& forall|i: int, j: int, k: Seq<char>|
        0 <= i < j < lines.len() && #[trigger] line_of_kind(lines[i], k) ==> !#[trigger] line_of_kind(lines[j], k)
}

/// The total of the line of kind `k`, or `None` when no line has that kind.
pub open spec fn psi_kind_total(lines: Seq<Seq<char>>, k: Seq<char>) -> Option<u64> {
    if exists|i: int| 0 <= i < lines.len() && #[trigger] line_of_kind(lines[i], k) {
        let i = choose|i: int| 0 <= i < lines.len() && #[trigger] line_of_kind(lines[i], k);
        Some(line_total(lines[i]))
    } else {
        None
    }
}

proof fn lemma_psi_kind_total_unique(lines: Seq<Seq<char>>, k: Seq<char>, i: int)
    requires
        psi_lines_valid(lines),
        0 <= i < lines.len(),
        line_of_kind(lines[i], k),
    ensures
        psi_kind_total(lines, k) == Some(line_total(lines[i])),
{
    let c = choose|c: int| 0 <= c < lines.len() && #[trigger] line_of_kind(lines[c], k);
    if c < i {
        assert(!line_of_kind(lines[i], k));
    } else if i < c {
        assert(!line_of_kind(lines[c], k));
    }
}

proof fn lemma_psi_totals_exact(lines: Seq<Seq<char>>)
    ensures
        psi_totals(lines) is Some <==> psi_lines_valid(lines),
        psi_totals(lines) matches Some((s, f)) ==> s == psi_kind_total(lines, "some"@) && f == psi_kind_total(
            lines,
            "full"@,
        ),
    decreases lines.len(),
{
    let some = "some"@;
    let full = "full"@;
    reveal_strlit("some");
    reveal_strlit("full");
    assert(some[0] != full[0]);
    assert(some != full);
    if lines.len() == 0 {
        assert(!exists|i: int| 0 <= i < lines.len() && #[trigger] line_of_kind(lines[i], some));
        assert(!exists|i: int| 0 <= i < lines.len() && #[trigger] line_of_kind(lines[i], full));
    } else {
        let l = lines.drop_last();
        let x = lines.last();
        let last = lines.len() - 1;
        lemma_psi_totals_exact(l);
        assert(lines[last] == x);
        assert forall|i: int| 0 <= i < l.len() implies #[trigger] lines[i] == l[i] by {}
        if psi_lines_valid(lines) {
            assert forall|i: int| 0 <= i < l.len() && !is_blank(#[trigger] l[i]) implies (line_of_kind(l[i], some)
                || line_of_kind(l[i], full)) by {
                assert(lines[i] == l[i]);
            }
            assert forall|i: int, j: int, k: Seq<char>|
                0 <= i < j < l.len() && #[trigger] line_of_kind(l[i], k) implies !#[trigger] line_of_kind(l[j], k) by {
                assert(lines[i] == l[i] && lines[j] == l[j]);
            }
        }
        let f = fields_of(x);
        // Kinds present among all lines: those of the earlier lines and the last one's.
        assert forall|k: Seq<char>| (exists|i: int| 0 <= i < lines.len() && #[trigger] line_of_kind(lines[i], k)) <==> (
        (exists|i: int| 0 <= i < l.len() && #[trigger] line_of_kind(l[i], k)) || line_of_kind(x, k)) by {
            if exists|i: int| 0 <= i < lines.len() && #[trigger] line_of_kind(lines[i], k) {
                let i = choose|i: int| 0 <= i < lines.len() && #[trigger] line_of_kind(lines[i], k);
                if i < l.len() {
                    assert(line_of_kind(l[i], k));
                }
            }
            if exists|i: int| 0 <= i < l.len() && #[trigger] line_of_kind(l[i], k) {
                let i = choose|i: int| 0 <= i < l.len() && #[trigger] line_of_kind(l[i], k);
                assert(line_of_kind(lines[i], k));
            }
            if line_of_kind(x, k) {
                assert(line_of_kind(lines[last], k));
            }
        }
        // When valid, the totals of all lines are those of the earlier lines
        // except for the last line's kind.
        if psi_lines_valid(lines) {
            assert forall|k: Seq<char>| !line_of_kind(x, k) implies psi_kind_total(lines, k) == psi_kind_total(l, k) by {
                if exists|i: int| 0 <= i < l.len() && #[trigger] line_of_kind(l[i], k) {
                    let i = choose|i: int| 0 <= i < l.len() && #[trigger] line_of_kind(l[i], k);
                    assert(line_of_kind(lines[i], k));
                    lemma_psi_kind_total_unique(lines, k, i);
                    lemma_psi_kind_total_unique(l, k, i);
                }
            }
            assert forall|k: Seq<char>| line_of_kind(x, k) implies psi_kind_total(lines, k) == Some(line_total(x)) by {
                assert(line_of_kind(lines[last], k));
                lemma_psi_kind_total_unique(lines, k, last);
            }
        }
        match psi_totals(l) {
            None => {},
            Some((s0, f0)) => {
                if is_blank(x) {
                    assert forall|k: Seq<char>| !line_of_kind(x, k) by {}
                    if psi_lines_valid(l) {
                        assert forall|i: int| 0 <= i < lines.len() && !is_blank(#[trigger] lines[i]) implies (
                        line_of_kind(lines[i], some) || line_of_kind(lines[i], full)) by {
                            assert(lines[i] == l[i]);
                        }
                        assert forall|i: int, j: int, k: Seq<char>|
                            0 <= i < j < lines.len() && #[trigger] line_of_kind(lines[i], k) implies !#[trigger] line_of_kind(
                            lines[j],
                            k,
                        ) by {
                            if j < l.len() {
                                assert(lines[i] == l[i] && lines[j] == l[j]);
                            }
                        }
                    }
                } else if f.len() == 0 {
                    assert(psi_line(x) is None);
                    assert(!(line_of_kind(lines[last], some) || line_of_kind(lines[last], full)));
                } else {
                    match psi_fields_total(f.drop_first()) {
                        Some(Some(t)) => {
                            assert(psi_line(x) == Some((f[0], t)));
                            if f[0] == some || f[0] == full {
                                let k = f[0];
                                assert(line_of_kind(x, k));
                                let taken = if k == some { s0 is Some } else { f0 is Some };
                                if taken {
                                    // The kind occurred before: a repeat.
                                    assert(exists|i: int| 0 <= i < l.len() && #[trigger] line_of_kind(l[i], k));
                                    let i = choose|i: int| 0 <= i < l.len() && #[trigger] line_of_kind(l[i], k);
                                    assert(line_of_kind(lines[i], k) && line_of_kind(lines[last], k));
                                    assert(!psi_lines_valid(lines));
                                } else {
                                    assert(!exists|i: int| 0 <= i < l.len() && #[trigger] line_of_kind(l[i], k));
                                    if psi_lines_valid(l) {
                                        assert forall|i: int| 0 <= i < lines.len() && !is_blank(#[trigger] lines[i]) implies (
                                        line_of_kind(lines[i], some) || line_of_kind(lines[i], full)) by {
                                            if i < l.len() {
                                                assert(lines[i] == l[i]);
                                            }
                                        }
                                        assert forall|i: int, j: int, kk: Seq<char>|
                                            0 <= i < j < lines.len() && #[trigger] line_of_kind(lines[i], kk) implies !#[trigger] line_of_kind(
                                            lines[j],
                                            kk,
                                        ) by {
                                            if j < l.len() {
                                                assert(lines[i] == l[i] && lines[j] == l[j]);
                                            } else {
                                                assert(lines[i] == l[i]);
                                                if line_of_kind(lines[j], kk) {
                                                    assert(kk == k);
                                                }
                                            }
                                        }
                                    }
                                }
                            } else {
                                assert(!(line_of_kind(lines[last], some) || line_of_kind(lines[last], full)));
                            }
                        },
                        _ => {
                            assert(psi_line(x) is None);
                            assert(!(line_of_kind(lines[last], some) || line_of_kind(lines[last], full)));
                        },
                    }
                }
            },
        }
    }
}

/// A cgroup pressure file is accepted exactly when every non-blank line is
/// `some` or `full` followed by `key=value` fields with exactly one `total`
/// whose value is a 64-bit number, no kind occurs twice, a `some` line
/// occurs, and the `full` total, when there is one, does not exceed the
/// `some` total.  The reading then holds the two totals, and every refusal
/// is `Malformed`.
pub proof fn lemma_cgroup_psi_accepts(input: Seq<char>)
    ensures
        cgroup_psi_spec(input) is Ok <==> {
            &&& psi_lines_valid(lines_of(input))
            &&& psi_kind_total(lines_of(input), "some"@) is Some
            &&& psi_kind_total(lines_of(input), "full"@) matches Some(f) ==> f <= psi_kind_total(
                lines_of(input),
                "some"@,
            )->0
        },
        cgroup_psi_spec(input) is Err ==> cgroup_psi_spec(input) == Err::<CgroupPsiRaw, CgroupError>(
            CgroupError::Malformed,
        ),
        cgroup_psi_spec(input) matches Ok(r) ==> Some(r.some_total_usec) == psi_kind_total(lines_of(input), "some"@)
            && r.full_total_usec == psi_kind_total(lines_of(input), "full"@),
{
    lemma_psi_totals_exact(lines_of(input));
}


/// The process keys of a list of members.
pub open spec fn member_keys(s: Seq<CgroupProcessMember>) -> Set<ProcessKey> {
    Set::new(|k: ProcessKey| exists|i: int| 0 <= i < s.len() && (#[trigger] s[i]).key == k)
}

/// The keys of the members that satisfy `p`.
pub open spec fn keys_where(s: Seq<CgroupProcessMember>, p: spec_fn(CgroupProcessMember) -> bool) -> Set<ProcessKey> {
    Set::new(|k: ProcessKey| exists|i: int| 0 <= i < s.len() && (#[trigger] s[i]).key == k && p(s[i]))
}

/// How many members satisfy `p`.
pub open spec fn count_where(s: Seq<CgroupProcessMember>, p: spec_fn(CgroupProcessMember) -> bool) -> nat
    decreases s.len(),
{
    if s.len() == 0 {
        0
    } else {
        count_where(s.drop_last(), p) + if p(s.last()) {
            1nat
        } else {
            0nat
        }
    }
}

proof fn lemma_count_where_is_set(s: Seq<CgroupProcessMember>, p: spec_fn(CgroupProcessMember) -> bool)
    requires
        members_sorted(s),
    ensures
        keys_where(s, p).finite(),
        count_where(s, p) == keys_where(s, p).len(),
    decreases s.len(),
{
    let d = keys_where(s, p);
    if s.len() == 0 {
        assert(d =~= Set::<ProcessKey>::empty());
    } else {
        let e = s.drop_last();
        let x = s.last();
        assert forall|i: int, j: int| 0 <= i < j < e.len() implies key_lt(#[trigger] e[i].key, #[trigger] e[j].key) by {
            assert(e[i] == s[i] && e[j] == s[j]);
        }
        lemma_count_where_is_set(e, p);
        let d0 = keys_where(e, p);
        assert(s[s.len() - 1] == x);
        assert(!d0.contains(x.key)) by {
            if d0.contains(x.key) {
                let i = choose|i: int| 0 <= i < e.len() && (#[trigger] e[i]).key == x.key && p(e[i]);
                assert(key_lt(s[i].key, s[s.len() - 1].key));
            }
        }
        assert forall|k: ProcessKey| d.contains(k) <==> (d0.contains(k) || (k == x.key && p(x))) by {
            if d.contains(k) {
                let i = choose|i: int| 0 <= i < s.len() && (#[trigger] s[i]).key == k && p(s[i]);
                if i < e.len() {
                    assert(e[i] == s[i]);
                }
            }
            if d0.contains(k) {
                let i = choose|i: int| 0 <= i < e.len() && (#[trigger] e[i]).key == k && p(e[i]);
                assert(s[i] == e[i]);
            }
        }
        if p(x) {
            assert(d =~= d0.insert(x.key));
        } else {
            assert(d =~= d0);
        }
    }
}

proof fn lemma_member_with_key_none(s: Seq<CgroupProcessMember>, k: ProcessKey)
    ensures
        member_with_key(s, k) is None <==> !member_keys(s).contains(k),
    decreases s.len(),
{
    if s.len() > 0 {
        lemma_member_with_key_none(s.drop_first(), k);
        if member_keys(s).contains(k) && s[0].key != k {
            let i = choose|i: int| 0 <= i < s.len() && (#[trigger] s[i]).key == k;
            assert(s.drop_first()[i - 1].key == k);
        }
        if member_keys(s.drop_first()).contains(k) {
            let i = choose|i: int| 0 <= i < s.drop_first().len() && (#[trigger] s.drop_first()[i]).key == k;
            assert(s[i + 1].key == k);
        }
        if s[0].key == k {
            assert(member_keys(s).contains(k));
        }
    }
}

proof fn lemma_pid_reused_exists(s: Seq<CgroupProcessMember>, k: ProcessKey)
    ensures
        pid_reused(s, k) <==> exists|i: int| 0 <= i < s.len() && (#[trigger] s[i]).key.pid == k.pid && s[i].key != k,
    decreases s.len(),
{
    if s.len() > 0 {
        lemma_pid_reused_exists(s.drop_first(), k);
        if exists|i: int| 0 <= i < s.len() && (#[trigger] s[i]).key.pid == k.pid && s[i].key != k {
            let i = choose|i: int| 0 <= i < s.len() && (#[trigger] s[i]).key.pid == k.pid && s[i].key != k;
            if i > 0 {
                assert(s.drop_first()[i - 1] == s[i]);
            }
        }
        if pid_reused(s.drop_first(), k) {
            let i = choose|i: int|
                0 <= i < s.drop_first().len() && (#[trigger] s.drop_first()[i]).key.pid == k.pid && s.drop_first()[i].key != k;
            assert(s[i + 1] == s.drop_first()[i]);
        }
    }
}

/// The member is unknown to `other`.
pub open spec fn unmatched_in(other: Seq<CgroupProcessMember>) -> spec_fn(CgroupProcessMember) -> bool {
    |m: CgroupProcessMember| member_with_key(other, m.key) is None
}

/// Another process of `start` had the member's PID.
pub open spec fn reuses_pid_of(start: Seq<CgroupProcessMember>) -> spec_fn(CgroupProcessMember) -> bool {
    |m: CgroupProcessMember| pid_reused(start, m.key)
}

/// The member was in another cgroup in `start`.
pub open spec fn moved_from(start: Seq<CgroupProcessMember>) -> spec_fn(CgroupProcessMember) -> bool {
    |m: CgroupProcessMember| moved(start, m)
}

proof fn lemma_member_counts_are_counts_where(start: Seq<CgroupProcessMember>, end: Seq<CgroupProcessMember>)
    ensures
        count_unmatched(end, start) == count_where(end, unmatched_in(start)),
        count_unmatched(start, end) == count_where(start, unmatched_in(end)),
        count_reused(start, end) == count_where(end, reuses_pid_of(start)),
        count_moved(start, end) == count_where(end, moved_from(start)),
{
    lemma_count_unmatched_where(end, start);
    lemma_count_unmatched_where(start, end);
    lemma_count_reused_where(start, end);
    lemma_count_moved_where(start, end);
}

proof fn lemma_count_unmatched_where(from: Seq<CgroupProcessMember>, other: Seq<CgroupProcessMember>)
    ensures
        count_unmatched(from, other) == count_where(from, unmatched_in(other)),
    decreases from.len(),
{
    if from.len() > 0 {
        lemma_count_unmatched_where(from.drop_last(), other);
    }
}

proof fn lemma_count_reused_where(start: Seq<CgroupProcessMember>, end: Seq<CgroupProcessMember>)
    ensures
        count_reused(start, end) == count_where(end, reuses_pid_of(start)),
    decreases end.len(),
{
    if end.len() > 0 {
        lemma_count_reused_where(start, end.drop_last());
    }
}

proof fn lemma_count_moved_where(start: Seq<CgroupProcessMember>, end: Seq<CgroupProcessMember>)
    ensures
        count_moved(start, end) == count_where(end, moved_from(start)),
    decreases end.len(),
{
    if end.len() > 0 {
        lemma_count_moved_where(start, end.drop_last());
    }
}

/// For well-formed snapshots the member counts of a cgroup interval count
/// process keys, as two maps would: appeared counts the end keys the start
/// read lacks, exited the start keys the end read lacks, reused the end keys
/// whose PID another start process held, and moved (added to what the reads
/// already recorded) the keys present at both ends in different cgroups;
/// each is held to `u32`.
pub proof fn lemma_cgroup_member_counts(start: CgroupSnapshot, end: CgroupSnapshot, o: CgroupObservation)
    requires
        cgroup_snapshot_wf(start),
        cgroup_snapshot_wf(end),
        cgroup_observation_holds(o, start, end),
    ensures
        member_keys(end.members@).difference(member_keys(start.members@)).finite(),
        member_keys(start.members@).difference(member_keys(end.members@)).finite(),
        keys_where(end.members@, reuses_pid_of(start.members@)).finite(),
        keys_where(end.members@, moved_from(start.members@)).finite(),
        o.issues.members_appeared == clamp_u32(
            member_keys(end.members@).difference(member_keys(start.members@)).len(),
        ),
        o.issues.members_exited == clamp_u32(
            member_keys(start.members@).difference(member_keys(end.members@)).len(),
        ),
        o.issues.members_reused == clamp_u32(keys_where(end.members@, reuses_pid_of(start.members@)).len()),
        o.issues.members_moved == clamp_u32(
            merged_issues(start.issues, end.issues).members_moved as nat + keys_where(
                end.members@,
                moved_from(start.members@),
            ).len(),
        ),
        forall|k: ProcessKey|
            #[trigger] keys_where(end.members@, reuses_pid_of(start.members@)).contains(k) <==> (member_keys(
                end.members@,
            ).contains(k) && exists|i: int|
                0 <= i < start.members@.len() && (#[trigger] start.members@[i]).key.pid == k.pid
                    && start.members@[i].key != k),
        forall|k: ProcessKey|
            #[trigger] keys_where(end.members@, moved_from(start.members@)).contains(k) <==> (
            member_with_key(start.members@, k) matches Some(b) && member_with_key(end.members@, k) matches Some(f)
                && b.cgroup_path@ != f.cgroup_path@),
{
    let sm = start.members@;
    let em = end.members@;
    lemma_member_counts_are_counts_where(sm, em);
    lemma_count_where_is_set(em, unmatched_in(sm));
    lemma_count_where_is_set(sm, unmatched_in(em));
    lemma_count_where_is_set(em, reuses_pid_of(sm));
    lemma_count_where_is_set(em, moved_from(sm));
    assert(keys_where(em, unmatched_in(sm)) =~= member_keys(em).difference(member_keys(sm))) by {
        assert forall|k: ProcessKey| keys_where(em, unmatched_in(sm)).contains(k) <==> #[trigger] member_keys(em).difference(
            member_keys(sm),
        ).contains(k) by {
            lemma_member_with_key_none(sm, k);
            if member_keys(em).contains(k) {
                let i = choose|i: int| 0 <= i < em.len() && (#[trigger] em[i]).key == k;
            }
        }
    }
    assert(keys_where(sm, unmatched_in(em)) =~= member_keys(sm).difference(member_keys(em))) by {
        assert forall|k: ProcessKey| keys_where(sm, unmatched_in(em)).contains(k) <==> #[trigger] member_keys(sm).difference(
            member_keys(em),
        ).contains(k) by {
            lemma_member_with_key_none(em, k);
            if member_keys(sm).contains(k) {
                let i = choose|i: int| 0 <= i < sm.len() && (#[trigger] sm[i]).key == k;
            }
        }
    }
    assert forall|k: ProcessKey|
        #[trigger] keys_where(em, reuses_pid_of(sm)).contains(k) <==> (member_keys(em).contains(k) && exists|i: int|
            0 <= i < sm.len() && (#[trigger] sm[i]).key.pid == k.pid && sm[i].key != k) by {
        lemma_pid_reused_exists(sm, k);
        if member_keys(em).contains(k) {
            let i = choose|i: int| 0 <= i < em.len() && (#[trigger] em[i]).key == k;
        }
    }
    assert forall|k: ProcessKey|
        #[trigger] keys_where(em, moved_from(sm)).contains(k) <==> (member_with_key(sm, k) matches Some(b)
            && member_with_key(em, k) matches Some(f) && b.cgroup_path@ != f.cgroup_path@) by {
        lemma_member_with_key_none(em, k);
        if keys_where(em, moved_from(sm)).contains(k) {
            let i = choose|i: int| 0 <= i < em.len() && (#[trigger] em[i]).key == k && moved_from(sm)(em[i]);
            lemma_member_with_own_key(em, i);
        }
        if member_with_key(em, k) is Some {
            let i = choose|i: int| 0 <= i < em.len() && (#[trigger] em[i]).key == k;
            lemma_member_with_own_key(em, i);
        }
    }
}

/// In a strictly ordered list, a member's own key finds that member.
proof fn lemma_member_with_own_key(s: Seq<CgroupProcessMember>, i: int)
    requires
        members_sorted(s),
        0 <= i < s.len(),
    ensures
        member_with_key(s, s[i].key) == Some(s[i]),
    decreases i,
{
    if i > 0 {
        assert(key_lt(s[0].key, s[i].key));
        let t = s.drop_first();
        assert forall|a: int, b: int| 0 <= a < b < t.len() implies key_lt(#[trigger] t[a].key, #[trigger] t[b].key) by {
            assert(t[a] == s[a + 1] && t[b] == s[b + 1]);
        }
        assert(t[i - 1] == s[i]);
        lemma_member_with_own_key(t, i - 1);
    }
}


/// A non-blank line of exactly a key and a value, whose key is `key`.
pub open spec fn line_has_key(line: Seq<char>, key: Seq<char>) -> bool {
    !is_blank(line) && fields_of(line).len() == 2 && fields_of(line)[0] == key
}

/// The number on the line keyed `key`, or `None` when no line has that key.
pub open spec fn keyed_value(lines: Seq<Seq<char>>, key: Seq<char>) -> Option<u64> {
    if exists|i: int| 0 <= i < lines.len() && #[trigger] line_has_key(lines[i], key) {
        let i = choose|i: int| 0 <= i < lines.len() && #[trigger] line_has_key(lines[i], key);
        parse_u64(fields_of(lines[i])[1])
    } else {
        None
    }
}

proof fn lemma_kv_lookup_push(p: Seq<(Seq<char>, u64)>, y: (Seq<char>, u64), key: Seq<char>)
    ensures
        kv_lookup(p.push(y), key) == if kv_lookup(p, key) is Some {
            kv_lookup(p, key)
        } else if y.0 == key {
            Some(y.1)
        } else {
            None
        },
    decreases p.len(),
{
    if p.len() > 0 {
        assert(p.push(y).drop_first() =~= p.drop_first().push(y));
        assert(p.push(y)[0] == p[0]);
        lemma_kv_lookup_push(p.drop_first(), y, key);
    } else {
        assert(p.push(y).drop_first() =~= Seq::<(Seq<char>, u64)>::empty());
        assert(p.push(y)[0] == y);
        assert(kv_lookup(p.push(y).drop_first(), key) is None);
    }
}

proof fn lemma_kv_entries_lines(lines: Seq<Seq<char>>)
    ensures
        kv_entries(lines) matches Some(e) ==> {
            &&& forall|key: Seq<char>, i: int|
                0 <= i < lines.len() && #[trigger] line_has_key(lines[i], key) ==> kv_lookup(e, key)
                    == parse_u64(fields_of(lines[i])[1])
            &&& forall|key: Seq<char>|
                #[trigger] kv_lookup(e, key) is Some ==> exists|i: int|
                    0 <= i < lines.len() && #[trigger] line_has_key(lines[i], key)
            &&& forall|key: Seq<char>, i: int|
                0 <= i < lines.len() && #[trigger] line_has_key(lines[i], key) ==> parse_u64(
                    fields_of(lines[i])[1],
                ) is Some
        },
    decreases lines.len(),
{
    if lines.len() > 0 {
        let l = lines.drop_last();
        let x = lines.last();
        let last = lines.len() - 1;
        lemma_kv_entries_lines(l);
        assert(lines[last] == x);
        assert forall|i: int| 0 <= i < l.len() implies #[trigger] lines[i] == l[i] by {}
        match kv_entries(lines) {
            Some(e) => {
                let p = kv_entries(l)->0;
                let f = fields_of(x);
                if is_blank(x) {
                    assert(e == p);
                    assert forall|key: Seq<char>, i: int|
                        0 <= i < lines.len() && #[trigger] line_has_key(lines[i], key) implies kv_lookup(e, key)
                            == parse_u64(fields_of(lines[i])[1]) by {
                        if i < l.len() {
                            assert(line_has_key(l[i], key));
                        }
                    }
                    assert forall|key: Seq<char>| #[trigger] kv_lookup(e, key) is Some implies exists|i: int|
                        0 <= i < lines.len() && #[trigger] line_has_key(lines[i], key) by {
                        let i = choose|i: int| 0 <= i < l.len() && #[trigger] line_has_key(l[i], key);
                        assert(line_has_key(lines[i], key));
                    }
                    assert forall|key: Seq<char>, i: int|
                        0 <= i < lines.len() && #[trigger] line_has_key(lines[i], key) implies parse_u64(
                            fields_of(lines[i])[1],
                        ) is Some by {
                        if i < l.len() {
                            assert(line_has_key(l[i], key));
                        }
                    }
                } else {
                    assert(f.len() == 2 && parse_u64(f[1]) is Some);
                    let y = (f[0], parse_u64(f[1])->0);
                    assert(e == p.push(y));
                    assert(kv_lookup(p, f[0]) is None);
                    assert forall|key: Seq<char>, i: int|
                        0 <= i < lines.len() && #[trigger] line_has_key(lines[i], key) implies kv_lookup(e, key)
                            == parse_u64(fields_of(lines[i])[1]) by {
                        lemma_kv_lookup_push(p, y, key);
                        if i < l.len() {
                            assert(line_has_key(l[i], key));
                            assert(kv_lookup(p, key) == parse_u64(fields_of(l[i])[1]));
                            assert(kv_lookup(p, key) is Some);
                            assert(kv_lookup(e, key) == kv_lookup(p, key));
                        } else {
                            assert(i == last);
                            assert(fields_of(lines[i]) == f);
                            assert(key == f[0]);
                            assert(kv_lookup(p, key) is None);
                            assert(kv_lookup(e, key) == Some(y.1));
                        }
                    }
                    assert forall|key: Seq<char>| #[trigger] kv_lookup(e, key) is Some implies exists|i: int|
                        0 <= i < lines.len() && #[trigger] line_has_key(lines[i], key) by {
                        lemma_kv_lookup_push(p, y, key);
                        if kv_lookup(p, key) is Some {
                            let i = choose|i: int| 0 <= i < l.len() && #[trigger] line_has_key(l[i], key);
                            assert(line_has_key(lines[i], key));
                        } else {
                            assert(line_has_key(lines[last], key));
                        }
                    }
                    assert forall|key: Seq<char>, i: int|
                        0 <= i < lines.len() && #[trigger] line_has_key(lines[i], key) implies parse_u64(
                            fields_of(lines[i])[1],
                        ) is Some by {
                        if i < l.len() {
                            assert(line_has_key(l[i], key));
                        } else {
                            assert(fields_of(lines[i]) == f);
                        }
                    }
                }
            },
            None => {},
        }
    }
}

/// In a `key value` file that parses, each key's value is the number on
/// the line with that key.
proof fn lemma_kv_lookup_is_keyed_value(lines: Seq<Seq<char>>, key: Seq<char>)
    requires
        kv_entries(lines) is Some,
    ensures
        kv_lookup(kv_entries(lines)->0, key) == keyed_value(lines, key),
{
    lemma_kv_entries_lines(lines);
    let e = kv_entries(lines)->0;
    if exists|i: int| 0 <= i < lines.len() && #[trigger] line_has_key(lines[i], key) {
        let i = choose|i: int| 0 <= i < lines.len() && #[trigger] line_has_key(lines[i], key);
        assert(kv_lookup(e, key) == parse_u64(fields_of(lines[i])[1]));
    }
}

/// `cpu.stat` gives each counter from the line with its kernel name:
/// `usage_usec` (required), `user_usec`, `system_usec`, `nr_periods`,
/// `nr_throttled` and `throttled_usec`.
pub proof fn lemma_cpu_stat_fields(input: Seq<char>)
    ensures
        cpu_stat_spec(input) matches Ok(r) ==> {
            let ls = lines_of(input);
            &&& keyed_value(ls, "usage_usec"@) == Some(r.usage_usec)
            &&& r.user_usec == keyed_value(ls, "user_usec"@)
            &&& r.system_usec == keyed_value(ls, "system_usec"@)
            &&& r.nr_periods == keyed_value(ls, "nr_periods"@)
            &&& r.nr_throttled == keyed_value(ls, "nr_throttled"@)
            &&& r.throttled_usec == keyed_value(ls, "throttled_usec"@)
        },
{
    let ls = lines_of(input);
    if kv_entries(ls) is Some {
        lemma_kv_lookup_is_keyed_value(ls, "usage_usec"@);
        lemma_kv_lookup_is_keyed_value(ls, "user_usec"@);
        lemma_kv_lookup_is_keyed_value(ls, "system_usec"@);
        lemma_kv_lookup_is_keyed_value(ls, "nr_periods"@);
        lemma_kv_lookup_is_keyed_value(ls, "nr_throttled"@);
        lemma_kv_lookup_is_keyed_value(ls, "throttled_usec"@);
    }
}

/// `memory.events` gives each counter from the line with its kernel name.
pub proof fn lemma_memory_events_fields(input: Seq<char>)
    ensures
        memory_events_spec(input) matches Ok(r) ==> {
            let ls = lines_of(input);
            &&& r.low == keyed_value(ls, "low"@)
            &&& r.high == keyed_value(ls, "high"@)
            &&& r.max == keyed_value(ls, "max"@)
            &&& r.oom == keyed_value(ls, "oom"@)
            &&& r.oom_kill == keyed_value(ls, "oom_kill"@)
            &&& r.oom_group_kill == keyed_value(ls, "oom_group_kill"@)
        },
{
    let ls = lines_of(input);
    if kv_entries(ls) is Some {
        lemma_kv_lookup_is_keyed_value(ls, "low"@);
        lemma_kv_lookup_is_keyed_value(ls, "high"@);
        lemma_kv_lookup_is_keyed_value(ls, "max"@);
        lemma_kv_lookup_is_keyed_value(ls, "oom"@);
        lemma_kv_lookup_is_keyed_value(ls, "oom_kill"@);
        lemma_kv_lookup_is_keyed_value(ls, "oom_group_kill"@);
    }
}

/// `memory.stat` gives each selected counter from the line with its kernel
/// name.
pub proof fn lemma_memory_stat_fields(input: Seq<char>)
    ensures
        memory_stat_spec(input) matches Ok(r) ==> {
            let ls = lines_of(input);
            &&& r.pgscan_direct == keyed_value(ls, "pgscan_direct"@)
            &&& r.pgsteal_direct == keyed_value(ls, "pgsteal_direct"@)
            &&& r.pswpin == keyed_value(ls, "pswpin"@)
            &&& r.pswpout == keyed_value(ls, "pswpout"@)
        },
{
    let ls = lines_of(input);
    if kv_entries(ls) is Some {
        lemma_kv_lookup_is_keyed_value(ls, "pgscan_direct"@);
        lemma_kv_lookup_is_keyed_value(ls, "pgsteal_direct"@);
        lemma_kv_lookup_is_keyed_value(ls, "pswpin"@);
        lemma_kv_lookup_is_keyed_value(ls, "pswpout"@);
    }
}

} // verus!
