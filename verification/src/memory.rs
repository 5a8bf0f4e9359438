//! Bounded host-memory context from `/proc/meminfo` and `/proc/vmstat`.
//!
//! Memory gauges and VM counters are kept separate from pressure inference:
//! neither occupancy nor a counter rate is itself a memory-bottleneck verdict.

use vstd::prelude::*;
use crate::read_error::ReadErrorKind;
use crate::text::{
    blank, chars_of, eq_lit, fields_of, is_blank, lines_of, parse_u64, parse_u64_chars, seqs_of,
    split_fields, split_lines, split_once, split_once_char, selected_lines_valid, selected_values,
    slot_value, lemma_selected_values_are_slot_values,
};

verus! {

/// The meminfo file under a proc root.
pub const MEMINFO_PATH: &'static str = "meminfo";

/// The vmstat file under a proc root.
pub const VMSTAT_PATH: &'static str = "vmstat";

/// Selected `/proc/meminfo` gauges, in bytes.
#[derive(Debug, Clone, Copy, PartialEq, Eq, Structural)]
pub struct MeminfoRaw {
    pub mem_total_bytes: u64,
    pub mem_available_bytes: u64,
    pub swap_total_bytes: u64,
    pub swap_free_bytes: u64,
    /// Page-cache context only; it is not a claim of reclaimability.
    pub cached_bytes: Option<u64>,
    /// Reclaimable slab context only; it is not a claim of reclaimability.
    pub sreclaimable_bytes: Option<u64>,
    /// Anonymous-memory context only; it is not a process RSS measurement.
    pub anon_pages_bytes: Option<u64>,
}

/// The VM counters this crate selects from `/proc/vmstat`.
#[derive(Debug, Clone, Copy, PartialEq, Eq, Structural, PartialOrd, Ord, Hash)]
pub enum VmstatCounter {
    PageFaults,
    MajorPageFaults,
    SwapIn,
    SwapOut,
    ScanKswapd,
    ScanDirect,
    StealKswapd,
    StealDirect,
}

/// The position of a counter in the fixed counter order.
pub open spec fn counter_rank(c: VmstatCounter) -> int {
    match c {
        VmstatCounter::PageFaults => 0,
        VmstatCounter::MajorPageFaults => 1,
        VmstatCounter::SwapIn => 2,
        VmstatCounter::SwapOut => 3,
        VmstatCounter::ScanKswapd => 4,
        VmstatCounter::ScanDirect => 5,
        VmstatCounter::StealKswapd => 6,
        VmstatCounter::StealDirect => 7,
    }
}

/// The counter at a position of the fixed counter order.
pub open spec fn counter_at(i: int) -> VmstatCounter {
    if i == 0 {
        VmstatCounter::PageFaults
    } else if i == 1 {
        VmstatCounter::MajorPageFaults
    } else if i == 2 {
        VmstatCounter::SwapIn
    } else if i == 3 {
        VmstatCounter::SwapOut
    } else if i == 4 {
        VmstatCounter::ScanKswapd
    } else if i == 5 {
        VmstatCounter::ScanDirect
    } else if i == 6 {
        VmstatCounter::StealKswapd
    } else {
        VmstatCounter::StealDirect
    }
}

/// The kernel name of each selected counter.
pub open spec fn vmstat_counter_named(name: Seq<char>) -> Option<VmstatCounter> {
    if name == "pgfault"@ {
        Some(VmstatCounter::PageFaults)
    } else if name == "pgmajfault"@ {
        Some(VmstatCounter::MajorPageFaults)
    } else if name == "pswpin"@ {
        Some(VmstatCounter::SwapIn)
    } else if name == "pswpout"@ {
        Some(VmstatCounter::SwapOut)
    } else if name == "pgscan_kswapd"@ {
        Some(VmstatCounter::ScanKswapd)
    } else if name == "pgscan_direct"@ {
        Some(VmstatCounter::ScanDirect)
    } else if name == "pgsteal_kswapd"@ {
        Some(VmstatCounter::StealKswapd)
    } else if name == "pgsteal_direct"@ {
        Some(VmstatCounter::StealDirect)
    } else {
        None
    }
}

impl VmstatCounter {
    /// Every selected counter, in the fixed counter order.
    pub fn all() -> (out: Vec<VmstatCounter>)
        ensures
            out@.len() == 8,
            forall|i: int| 0 <= i < 8 ==> #[trigger] out@[i] == counter_at(i),
    {
        vec![
            VmstatCounter::PageFaults,
            VmstatCounter::MajorPageFaults,
            VmstatCounter::SwapIn,
            VmstatCounter::SwapOut,
            VmstatCounter::ScanKswapd,
            VmstatCounter::ScanDirect,
            VmstatCounter::StealKswapd,
            VmstatCounter::StealDirect,
        ]
    }

    fn from_proc_name(name: &[char]) -> (out: Option<VmstatCounter>)
        ensures
            out == vmstat_counter_named(name@),
    {
        if eq_lit(name, "pgfault") {
            Some(VmstatCounter::PageFaults)
        } else if eq_lit(name, "pgmajfault") {
            Some(VmstatCounter::MajorPageFaults)
        } else if eq_lit(name, "pswpin") {
            Some(VmstatCounter::SwapIn)
        } else if eq_lit(name, "pswpout") {
            Some(VmstatCounter::SwapOut)
        } else if eq_lit(name, "pgscan_kswapd") {
            Some(VmstatCounter::ScanKswapd)
        } else if eq_lit(name, "pgscan_direct") {
            Some(VmstatCounter::ScanDirect)
        } else if eq_lit(name, "pgsteal_kswapd") {
            Some(VmstatCounter::StealKswapd)
        } else if eq_lit(name, "pgsteal_direct") {
            Some(VmstatCounter::StealDirect)
        } else {
            None
        }
    }

    fn rank(self) -> (r: usize)
        ensures
            r as int == counter_rank(self),
            counter_at(r as int) == self,
    {
        match self {
            VmstatCounter::PageFaults => 0,
            VmstatCounter::MajorPageFaults => 1,
            VmstatCounter::SwapIn => 2,
            VmstatCounter::SwapOut => 3,
            VmstatCounter::ScanKswapd => 4,
            VmstatCounter::ScanDirect => 5,
            VmstatCounter::StealKswapd => 6,
            VmstatCounter::StealDirect => 7,
        }
    }
}

/// Raw kernel page/event counters.  Page counts remain pages rather than being
/// presented as bytes without a page-size contract.  `counters` holds one
/// entry per present counter in the fixed counter order; `missing` lists the
/// absent ones in the same order.
#[derive(Debug, Clone, PartialEq, Eq)]
pub struct VmstatRaw {
    pub counters: Vec<(VmstatCounter, u64)>,
    pub missing: Vec<VmstatCounter>,
}

#[derive(Debug, Clone, Copy, PartialEq, Eq, Structural)]
pub enum MemoryContextCapability {
    Available,
    Partial,
    Unsupported,
    PermissionDenied,
    Failed,
}

impl MemoryContextCapability {
    pub fn as_str(self) -> (s: &'static str)
        ensures
            s@ == memory_capability_name(self)@,
    {
        match self {
            MemoryContextCapability::Available => "available",
            MemoryContextCapability::Partial => "partial",
            MemoryContextCapability::Unsupported => "unsupported",
            MemoryContextCapability::PermissionDenied => "permission_denied",
            MemoryContextCapability::Failed => "failed",
        }
    }
}

pub open spec fn memory_capability_name(c: MemoryContextCapability) -> &'static str {
    match c {
        MemoryContextCapability::Available => "available",
        MemoryContextCapability::Partial => "partial",
        MemoryContextCapability::Unsupported => "unsupported",
        MemoryContextCapability::PermissionDenied => "permission_denied",
        MemoryContextCapability::Failed => "failed",
    }
}

#[derive(Debug, Clone, Copy, PartialEq, Eq, Structural)]
pub enum MemoryContextError {
    Unsupported,
    PermissionDenied,
    Unreadable,
    Malformed,
    EmptyInterval,
}

pub open spec fn error_capability(e: MemoryContextError) -> MemoryContextCapability {
    match e {
        MemoryContextError::Unsupported => MemoryContextCapability::Unsupported,
        MemoryContextError::PermissionDenied => MemoryContextCapability::PermissionDenied,
        _ => MemoryContextCapability::Failed,
    }
}

impl MemoryContextError {
    fn capability(self) -> (c: MemoryContextCapability)
        ensures
            c == error_capability(self),
    {
        match self {
            MemoryContextError::Unsupported => MemoryContextCapability::Unsupported,
            MemoryContextError::PermissionDenied => MemoryContextCapability::PermissionDenied,
            MemoryContextError::Unreadable
            | MemoryContextError::Malformed
            | MemoryContextError::EmptyInterval => MemoryContextCapability::Failed,
        }
    }
}


/// How a failed meminfo or vmstat read is reported.
pub fn classify_read_error(kind: ReadErrorKind) -> (e: MemoryContextError)
    ensures
        e == match kind {
            ReadErrorKind::NotFound => MemoryContextError::Unsupported,
            ReadErrorKind::PermissionDenied => MemoryContextError::PermissionDenied,
            ReadErrorKind::Other => MemoryContextError::Unreadable,
        },
{
    match kind {
        ReadErrorKind::NotFound => MemoryContextError::Unsupported,
        ReadErrorKind::PermissionDenied => MemoryContextError::PermissionDenied,
        ReadErrorKind::Other => MemoryContextError::Unreadable,
    }
}

// ---------------------------------------------------------------------------
// /proc/meminfo
// ---------------------------------------------------------------------------

/// Slot of a selected meminfo key: the four required gauges first, then the
/// three optional context values.
pub open spec fn meminfo_slot(name: Seq<char>) -> Option<int> {
    if name == "MemTotal"@ {
        Some(0)
    } else if name == "MemAvailable"@ {
        Some(1)
    } else if name == "SwapTotal"@ {
        Some(2)
    } else if name == "SwapFree"@ {
        Some(3)
    } else if name == "Cached"@ {
        Some(4)
    } else if name == "SReclaimable"@ {
        Some(5)
    } else if name == "AnonPages"@ {
        Some(6)
    } else {
        None
    }
}

/// The byte value a selected meminfo line carries: exactly a number and the
/// unit `kB`, with the byte count representable in 64 bits.
pub open spec fn meminfo_bytes(rest: Seq<char>) -> Option<u64> {
    let f = fields_of(rest);
    if f.len() == 2 && f[1] == "kB"@ {
        match parse_u64(f[0]) {
            Some(kib) => if kib * 1024 <= u64::MAX {
                Some((kib * 1024) as u64)
            } else {
                None
            },
            None => None,
        }
    } else {
        None
    }
}

/// Selected meminfo values after the given lines; `None` once a selected line
/// is duplicated or malformed, or a non-blank line has no `:`.
pub open spec fn meminfo_slots(lines: Seq<Seq<char>>) -> Option<Seq<Option<u64>>>
    decreases lines.len(),
{
    if lines.len() == 0 {
        Some(Seq::new(7, |i: int| None::<u64>))
    } else {
        match meminfo_slots(lines.drop_last()) {
            None => None,
            Some(slots) => {
                let line = lines.last();
                if is_blank(line) {
                    Some(slots)
                } else {
                    match split_once(line, ':') {
                        None => None,
                        Some((name, rest)) => match meminfo_slot(name) {
                            None => Some(slots),
                            Some(k) => if slots[k] is Some {
                                None
                            } else {
                                match meminfo_bytes(rest) {
                                    Some(b) => Some(slots.update(k, Some(b))),
                                    None => None,
                                }
                            },
                        },
                    }
                }
            },
        }
    }
}

proof fn lemma_meminfo_slots_stay_none(lines: Seq<Seq<char>>, k: int)
    requires
        0 <= k <= lines.len(),
        meminfo_slots(lines.take(k)) is None,
    ensures
        meminfo_slots(lines) is None,
    decreases lines.len() - k,
{
    if k == lines.len() {
        assert(lines.take(k) =~= lines);
    } else {
        assert(lines.take(k + 1).drop_last() =~= lines.take(k));
        lemma_meminfo_slots_stay_none(lines, k + 1);
    }
}

/// `/proc/meminfo` as this crate reads it.
pub open spec fn meminfo_spec(input: Seq<char>) -> Result<MeminfoRaw, MemoryContextError> {
    match meminfo_slots(lines_of(input)) {
        None => Err(MemoryContextError::Malformed),
        Some(v) => if v[0] is None || v[1] is None || v[2] is None || v[3] is None {
            Err(MemoryContextError::Malformed)
        } else if v[0]->0 == 0 || v[1]->0 > v[0]->0 || v[3]->0 > v[2]->0 {
            Err(MemoryContextError::Malformed)
        } else {
            Ok(
                MeminfoRaw {
                    mem_total_bytes: v[0]->0,
                    mem_available_bytes: v[1]->0,
                    swap_total_bytes: v[2]->0,
                    swap_free_bytes: v[3]->0,
                    cached_bytes: v[4],
                    sreclaimable_bytes: v[5],
                    anon_pages_bytes: v[6],
                },
            )
        },
    }
}

fn meminfo_slot_of(name: &[char]) -> (out: Option<usize>)
    ensures
        match out {
            Some(k) => meminfo_slot(name@) == Some(k as int),
            None => meminfo_slot(name@) is None,
        },
{
    if eq_lit(name, "MemTotal") {
        Some(0)
    } else if eq_lit(name, "MemAvailable") {
        Some(1)
    } else if eq_lit(name, "SwapTotal") {
        Some(2)
    } else if eq_lit(name, "SwapFree") {
        Some(3)
    } else if eq_lit(name, "Cached") {
        Some(4)
    } else if eq_lit(name, "SReclaimable") {
        Some(5)
    } else if eq_lit(name, "AnonPages") {
        Some(6)
    } else {
        None
    }
}

fn meminfo_bytes_of(rest: &[char]) -> (out: Option<u64>)
    ensures
        out == meminfo_bytes(rest@),
{
    let f = split_fields(rest);
    if f.len() != 2 || !eq_lit(&f[1], "kB") {
        return None;
    }
    match parse_u64_chars(&f[0]) {
        Some(kib) => kib.checked_mul(1024),
        None => None,
    }
}

/// Parses `/proc/meminfo`.  The four required gauges must each appear once;
/// byte values are checked for overflow and for consistency between totals
/// and free/available amounts.
pub fn parse_meminfo(input: &str) -> (out: Result<MeminfoRaw, MemoryContextError>)
    ensures
        out == meminfo_spec(input@),
{
    let chars = chars_of(input);
    let lines = split_lines(&chars);
    let ghost ls = seqs_of(lines@);
    assert(ls == lines_of(input@));
    let mut slots: Vec<Option<u64>> = vec![None, None, None, None, None, None, None];
    assert(slots@ =~= Seq::new(7, |i: int| None::<u64>));
    let mut i: usize = 0;
    while i < lines.len()
        invariant
            i <= lines.len(),
            ls == seqs_of(lines@),
            ls == lines_of(input@),
            ls.len() == lines@.len(),
            meminfo_slots(ls.take(i as int)) == Some(slots@),
            slots@.len() == 7,
        decreases lines.len() - i,
    {
        assert(ls.take(i + 1).drop_last() =~= ls.take(i as int));
        assert(ls.take(i + 1).last() == lines@[i as int]@);
        let line = &lines[i];
        if !blank(line) {
            match split_once_char(line, ':') {
                None => {
                    proof {
                        lemma_meminfo_slots_stay_none(ls, i + 1);
                    }
                    return Err(MemoryContextError::Malformed);
                },
                Some((name, rest)) => {
                    match meminfo_slot_of(&name) {
                        None => {},
                        Some(k) => {
                            if slots[k].is_some() {
                                proof {
                                    lemma_meminfo_slots_stay_none(ls, i + 1);
                                }
                                return Err(MemoryContextError::Malformed);
                            }
                            match meminfo_bytes_of(&rest) {
                                Some(b) => {
                                    slots.set(k, Some(b));
                                },
                                None => {
                                    proof {
                                        lemma_meminfo_slots_stay_none(ls, i + 1);
                                    }
                                    return Err(MemoryContextError::Malformed);
                                },
                            }
                        },
                    }
                },
            }
        }
        i += 1;
    }
    assert(ls.take(i as int) =~= ls);
    assert(ls == lines_of(input@));
    let total = match slots[0] {
        Some(v) => v,
        None => return Err(MemoryContextError::Malformed),
    };
    let available = match slots[1] {
        Some(v) => v,
        None => return Err(MemoryContextError::Malformed),
    };
    let swap_total = match slots[2] {
        Some(v) => v,
        None => return Err(MemoryContextError::Malformed),
    };
    let swap_free = match slots[3] {
        Some(v) => v,
        None => return Err(MemoryContextError::Malformed),
    };
    if total == 0 || available > total || swap_free > swap_total {
        return Err(MemoryContextError::Malformed);
    }
    Ok(
        MeminfoRaw {
            mem_total_bytes: total,
            mem_available_bytes: available,
            swap_total_bytes: swap_total,
            swap_free_bytes: swap_free,
            cached_bytes: slots[4],
            sreclaimable_bytes: slots[5],
            anon_pages_bytes: slots[6],
        },
    )
}

// ---------------------------------------------------------------------------
// /proc/vmstat
// ---------------------------------------------------------------------------

/// Selected counter values (indexed by counter rank) after the given lines;
/// `None` once a selected line is duplicated or does not hold exactly one
/// number after its name.  Unknown names are ignored.
pub open spec fn vmstat_slots(lines: Seq<Seq<char>>) -> Option<Seq<Option<u64>>>
    decreases lines.len(),
{
    if lines.len() == 0 {
        Some(Seq::new(8, |i: int| None::<u64>))
    } else {
        match vmstat_slots(lines.drop_last()) {
            None => None,
            Some(slots) => {
                let f = fields_of(lines.last());
                if is_blank(lines.last()) || f.len() == 0 {
                    Some(slots)
                } else {
                    match vmstat_counter_named(f[0]) {
                        None => Some(slots),
                        Some(c) => if f.len() != 2 || slots[counter_rank(c)] is Some {
                            None
                        } else {
                            match parse_u64(f[1]) {
                                Some(v) => Some(slots.update(counter_rank(c), Some(v))),
                                None => None,
                            }
                        },
                    }
                }
            },
        }
    }
}

proof fn lemma_vmstat_slots_stay_none(lines: Seq<Seq<char>>, k: int)
    requires
        0 <= k <= lines.len(),
        vmstat_slots(lines.take(k)) is None,
    ensures
        vmstat_slots(lines) is None,
    decreases lines.len() - k,
{
    if k == lines.len() {
        assert(lines.take(k) =~= lines);
    } else {
        assert(lines.take(k + 1).drop_last() =~= lines.take(k));
        lemma_vmstat_slots_stay_none(lines, k + 1);
    }
}

/// `(counter, value)` for each present slot among the first `n`, in order.
pub open spec fn present_counters(slots: Seq<Option<u64>>, n: int) -> Seq<(VmstatCounter, u64)>
    decreases n,
{
    if n <= 0 {
        Seq::empty()
    } else {
        let p = present_counters(slots, n - 1);
        match slots[n - 1] {
            Some(v) => p.push((counter_at(n - 1), v)),
            None => p,
        }
    }
}

/// The counters whose slot is empty among the first `n`, in order.
pub open spec fn absent_counters(slots: Seq<Option<u64>>, n: int) -> Seq<VmstatCounter>
    decreases n,
{
    if n <= 0 {
        Seq::empty()
    } else {
        let p = absent_counters(slots, n - 1);
        match slots[n - 1] {
            Some(v) => p,
            None => p.push(counter_at(n - 1)),
        }
    }
}

/// What `/proc/vmstat` holds, as the selected counter slots.
pub open spec fn vmstat_spec(input: Seq<char>) -> Option<Seq<Option<u64>>> {
    vmstat_slots(lines_of(input))
}

/// Parses `/proc/vmstat`.  Selected counters appear at most once with exactly
/// one numeric value; counters that do not appear are listed as missing and
/// are never synthesized as zero.
pub fn parse_vmstat(input: &str) -> (out: Result<VmstatRaw, MemoryContextError>)
    ensures
        match out {
            Ok(raw) => {
                &&& vmstat_spec(input@) is Some
                &&& raw.counters@ == present_counters(vmstat_spec(input@)->0, 8)
                &&& raw.missing@ == absent_counters(vmstat_spec(input@)->0, 8)
                &&& vmstat_wf(raw)
            },
            Err(e) => e == MemoryContextError::Malformed && vmstat_spec(input@) is None,
        },
{
    let chars = chars_of(input);
    let lines = split_lines(&chars);
    let ghost ls = seqs_of(lines@);
    assert(ls == lines_of(input@));
    let mut slots: Vec<Option<u64>> = vec![None, None, None, None, None, None, None, None];
    assert(slots@ =~= Seq::new(8, |i: int| None::<u64>));
    let mut i: usize = 0;
    while i < lines.len()
        invariant
            i <= lines.len(),
            ls == seqs_of(lines@),
            ls == lines_of(input@),
            ls.len() == lines@.len(),
            vmstat_slots(ls.take(i as int)) == Some(slots@),
            slots@.len() == 8,
        decreases lines.len() - i,
    {
        assert(ls.take(i + 1).drop_last() =~= ls.take(i as int));
        assert(ls.take(i + 1).last() == lines@[i as int]@);
        let line = &lines[i];
        let f = split_fields(line);
        if !blank(line) && f.len() > 0 {
            match VmstatCounter::from_proc_name(&f[0]) {
                None => {},
                Some(c) => {
                    let k = c.rank();
                    if f.len() != 2 || slots[k].is_some() {
                        proof {
                            lemma_vmstat_slots_stay_none(ls, i + 1);
                        }
                        return Err(MemoryContextError::Malformed);
                    }
                    match parse_u64_chars(&f[1]) {
                        Some(v) => {
                            slots.set(k, Some(v));
                        },
                        None => {
                            proof {
                                lemma_vmstat_slots_stay_none(ls, i + 1);
                            }
                            return Err(MemoryContextError::Malformed);
                        },
                    }
                },
            }
        }
        i += 1;
    }
    assert(ls.take(i as int) =~= ls);
    let mut counters: Vec<(VmstatCounter, u64)> = Vec::new();
    let mut missing: Vec<VmstatCounter> = Vec::new();
    let all = VmstatCounter::all();
    let mut j: usize = 0;
    while j < 8
        invariant
            j <= 8,
            slots@.len() == 8,
            all@.len() == 8,
            forall|t: int| 0 <= t < 8 ==> #[trigger] all@[t] == counter_at(t),
            counters@ == present_counters(slots@, j as int),
            missing@ == absent_counters(slots@, j as int),
        decreases 8 - j,
    {
        match slots[j] {
            Some(v) => counters.push((all[j], v)),
            None => missing.push(all[j]),
        }
        j += 1;
    }
    proof {
        lemma_vmstat_counters_ordered(slots@, 8);
    }
    Ok(VmstatRaw { counters, missing })
}

/// The value recorded for `c` in a counter list (its first entry).
pub open spec fn counter_value(pairs: Seq<(VmstatCounter, u64)>, c: VmstatCounter) -> Option<u64>
    decreases pairs.len(),
{
    if pairs.len() == 0 {
        None
    } else if pairs[0].0 == c {
        Some(pairs[0].1)
    } else {
        counter_value(pairs.drop_first(), c)
    }
}

pub(crate) fn lookup_counter(pairs: &Vec<(VmstatCounter, u64)>, c: VmstatCounter) -> (out: Option<u64>)
    ensures
        out == counter_value(pairs@, c),
{
    let mut i: usize = 0;
    assert(pairs@.skip(0) =~= pairs@);
    while i < pairs.len()
        invariant
            i <= pairs.len(),
            counter_value(pairs@, c) == counter_value(pairs@.skip(i as int), c),
        decreases pairs.len() - i,
    {
        assert(pairs@.skip(i as int).drop_first() =~= pairs@.skip(i + 1));
        assert(pairs@.skip(i as int)[0] == pairs@[i as int]);
        if pairs[i].0 == c {
            return Some(pairs[i].1);
        }
        i += 1;
    }
    None
}

#[derive(Debug, PartialEq, Eq)]
pub struct MemoryContextSnapshot {
    pub meminfo: Result<MeminfoRaw, MemoryContextError>,
    pub vmstat: Result<VmstatRaw, MemoryContextError>,
}

#[derive(Debug, Clone, Copy, PartialEq, Eq, Structural)]
pub struct MemoryContextCapabilities {
    pub meminfo: MemoryContextCapability,
    pub vmstat: MemoryContextCapability,
}

#[derive(Debug, Clone, PartialEq, Eq, Default)]
pub struct VmstatIntervalIssues {
    pub missing: Vec<VmstatCounter>,
    pub regressed: Vec<VmstatCounter>,
}

#[derive(Debug, Clone, PartialEq, Eq)]
pub struct MemoryContextObservation {
    /// The exact time between the two snapshots supplied by the caller, in
    /// nanoseconds.
    pub elapsed_ns: u64,
    /// The end gauge is retained whenever the second meminfo read succeeded.
    pub end_meminfo: Option<MeminfoRaw>,
    pub meminfo_capability: MemoryContextCapability,
    pub vmstat_capability: MemoryContextCapability,
    /// Available counter deltas only, in the fixed counter order.  Missing or
    /// regressed counters are never synthesized as zero.
    pub vmstat_deltas: Vec<(VmstatCounter, u64)>,
    pub vmstat_issues: VmstatIntervalIssues,
}

/// The capability of one snapshot read.
pub open spec fn read_capability<T>(r: Result<T, MemoryContextError>) -> MemoryContextCapability {
    match r {
        Ok(_) => MemoryContextCapability::Available,
        Err(e) => error_capability(e),
    }
}

/// The capability of an interval from its two endpoint reads.
pub open spec fn endpoints_capability(
    start_error: Option<MemoryContextError>,
    end_error: Option<MemoryContextError>,
    partial: bool,
) -> MemoryContextCapability {
    match (start_error, end_error) {
        (None, None) => if partial {
            MemoryContextCapability::Partial
        } else {
            MemoryContextCapability::Available
        },
        (None, Some(_)) | (Some(_), None) => MemoryContextCapability::Partial,
        (Some(a), Some(b)) => if a == b {
            error_capability(a)
        } else {
            MemoryContextCapability::Failed
        },
    }
}

pub open spec fn error_of<T>(r: Result<T, MemoryContextError>) -> Option<MemoryContextError> {
    match r {
        Ok(_) => None,
        Err(e) => Some(e),
    }
}

/// The capability of a meminfo (or any) snapshot read.
pub fn snapshot_capability<T>(result: &Result<T, MemoryContextError>) -> (c: MemoryContextCapability)
    ensures
        c == read_capability(*result),
{
    match result {
        Ok(_) => MemoryContextCapability::Available,
        Err(error) => error.capability(),
    }
}

/// A vmstat snapshot is partial when any selected counter was missing.
pub fn vmstat_snapshot_capability(result: &Result<VmstatRaw, MemoryContextError>) -> (c:
    MemoryContextCapability)
    ensures
        c == match result {
            Ok(raw) => if raw.missing@.len() == 0 {
                MemoryContextCapability::Available
            } else {
                MemoryContextCapability::Partial
            },
            Err(e) => error_capability(*e),
        },
{
    match result {
        Ok(raw) => if raw.missing.len() == 0 {
            MemoryContextCapability::Available
        } else {
            MemoryContextCapability::Partial
        },
        Err(error) => error.capability(),
    }
}

fn interval_capability<T>(
    start: &Result<T, MemoryContextError>,
    end: &Result<T, MemoryContextError>,
    partial: bool,
) -> (c: MemoryContextCapability)
    ensures
        c == endpoints_capability(error_of(*start), error_of(*end), partial),
{
    match (start, end) {
        (Ok(_), Ok(_)) if !partial => MemoryContextCapability::Available,
        (Ok(_), _) | (_, Ok(_)) => MemoryContextCapability::Partial,
        (Err(start_error), Err(end_error)) => if *start_error == *end_error {
            start_error.capability()
        } else {
            MemoryContextCapability::Failed
        },
    }
}

/// The change of `c` over the interval when both endpoints hold it and it did
/// not decrease.
pub open spec fn counter_delta(
    start: Seq<(VmstatCounter, u64)>,
    end: Seq<(VmstatCounter, u64)>,
    c: VmstatCounter,
) -> Option<u64> {
    match (counter_value(start, c), counter_value(end, c)) {
        (Some(a), Some(b)) => if b >= a {
            Some((b - a) as u64)
        } else {
            None
        },
        _ => None,
    }
}

pub open spec fn counter_regressed(
    start: Seq<(VmstatCounter, u64)>,
    end: Seq<(VmstatCounter, u64)>,
    c: VmstatCounter,
) -> bool {
    match (counter_value(start, c), counter_value(end, c)) {
        (Some(a), Some(b)) => b < a,
        _ => false,
    }
}

pub open spec fn counter_missing(
    start: Seq<(VmstatCounter, u64)>,
    end: Seq<(VmstatCounter, u64)>,
    c: VmstatCounter,
) -> bool {
    counter_value(start, c) is None || counter_value(end, c) is None
}

/// `(counter, delta)` over the first `n` counters of the fixed order.
pub open spec fn counter_deltas(
    start: Seq<(VmstatCounter, u64)>,
    end: Seq<(VmstatCounter, u64)>,
    n: int,
) -> Seq<(VmstatCounter, u64)>
    decreases n,
{
    if n <= 0 {
        Seq::empty()
    } else {
        let p = counter_deltas(start, end, n - 1);
        match counter_delta(start, end, counter_at(n - 1)) {
            Some(d) => p.push((counter_at(n - 1), d)),
            None => p,
        }
    }
}

/// The first `n` counters of the fixed order that satisfy `pred`.
pub open spec fn counters_where(pred: spec_fn(VmstatCounter) -> bool, n: int) -> Seq<VmstatCounter>
    decreases n,
{
    if n <= 0 {
        Seq::empty()
    } else {
        let p = counters_where(pred, n - 1);
        if pred(counter_at(n - 1)) {
            p.push(counter_at(n - 1))
        } else {
            p
        }
    }
}

/// Normalizes two memory-context snapshots into one interval.  Each counter
/// is handled independently: a regressed or missing counter is reported and
/// omitted, never synthesized as zero.  The end meminfo gauge is kept
/// whenever the second read succeeded.
pub fn interval_from_snapshots(
    start: MemoryContextSnapshot,
    end: MemoryContextSnapshot,
    elapsed_ns: u64,
) -> (out: Result<MemoryContextObservation, MemoryContextError>)
    ensures
        elapsed_ns == 0 <==> out == Err::<MemoryContextObservation, MemoryContextError>(
            MemoryContextError::EmptyInterval,
        ),
        elapsed_ns != 0 ==> out is Ok,
        out is Ok ==> ({
            let o = out->Ok_0;
            &&& o.elapsed_ns == elapsed_ns
            &&& o.end_meminfo == match end.meminfo {
                Ok(m) => Some(m),
                Err(_) => None::<MeminfoRaw>,
            }
            &&& o.meminfo_capability == endpoints_capability(
                error_of(start.meminfo),
                error_of(end.meminfo),
                false,
            )
            &&& match (start.vmstat, end.vmstat) {
                (Ok(a), Ok(b)) => {
                    &&& o.vmstat_deltas@ == counter_deltas(a.counters@, b.counters@, 8)
                    &&& o.vmstat_issues.regressed@ == counters_where(
                        |c: VmstatCounter| counter_regressed(a.counters@, b.counters@, c),
                        8,
                    )
                    &&& o.vmstat_issues.missing@ == counters_where(
                        |c: VmstatCounter| counter_missing(a.counters@, b.counters@, c),
                        8,
                    )
                },
                _ => {
                    &&& o.vmstat_deltas@.len() == 0
                    &&& o.vmstat_issues.regressed@.len() == 0
                    &&& o.vmstat_issues.missing@ == counters_where(|c: VmstatCounter| true, 8)
                },
            }
            &&& o.vmstat_capability == endpoints_capability(
                error_of(start.vmstat),
                error_of(end.vmstat),
                o.vmstat_issues.missing@.len() != 0 || o.vmstat_issues.regressed@.len() != 0,
            )
        }),
{
    if elapsed_ns == 0 {
        return Err(MemoryContextError::EmptyInterval);
    }
    let meminfo_capability = interval_capability(&start.meminfo, &end.meminfo, false);
    let end_meminfo = match end.meminfo {
        Ok(m) => Some(m),
        Err(_) => None,
    };
    let mut vmstat_deltas: Vec<(VmstatCounter, u64)> = Vec::new();
    let mut regressed: Vec<VmstatCounter> = Vec::new();
    let mut missing: Vec<VmstatCounter> = Vec::new();
    let all = VmstatCounter::all();
    match (&start.vmstat, &end.vmstat) {
        (Ok(a), Ok(b)) => {
            let ghost pr = |c: VmstatCounter| counter_regressed(a.counters@, b.counters@, c);
            let ghost pm = |c: VmstatCounter| counter_missing(a.counters@, b.counters@, c);
            let mut j: usize = 0;
            while j < 8
                invariant
                    j <= 8,
                    all@.len() == 8,
                    forall|t: int| 0 <= t < 8 ==> #[trigger] all@[t] == counter_at(t),
                    pr == (|c: VmstatCounter| counter_regressed(a.counters@, b.counters@, c)),
                    pm == (|c: VmstatCounter| counter_missing(a.counters@, b.counters@, c)),
                    vmstat_deltas@ == counter_deltas(a.counters@, b.counters@, j as int),
                    regressed@ == counters_where(pr, j as int),
                    missing@ == counters_where(pm, j as int),
                decreases 8 - j,
            {
                let c = all[j];
                match (lookup_counter(&a.counters, c), lookup_counter(&b.counters, c)) {
                    (Some(x), Some(y)) => {
                        if y >= x {
                            vmstat_deltas.push((c, y - x));
                        } else {
                            regressed.push(c);
                        }
                    },
                    _ => {
                        missing.push(c);
                    },
                }
                j += 1;
            }
        },
        _ => {
            let ghost pt = |c: VmstatCounter| true;
            let mut j: usize = 0;
            while j < 8
                invariant
                    j <= 8,
                    all@.len() == 8,
                    forall|t: int| 0 <= t < 8 ==> #[trigger] all@[t] == counter_at(t),
                    pt == (|c: VmstatCounter| true),
                    missing@ == counters_where(pt, j as int),
                decreases 8 - j,
            {
                missing.push(all[j]);
                j += 1;
            }
        },
    }
    let partial = missing.len() != 0 || regressed.len() != 0;
    let vmstat_capability = interval_capability(&start.vmstat, &end.vmstat, partial);
    Ok(
        MemoryContextObservation {
            elapsed_ns,
            end_meminfo,
            meminfo_capability,
            vmstat_capability,
            vmstat_deltas,
            vmstat_issues: VmstatIntervalIssues { missing, regressed },
        },
    )
}


/// Counters held in strictly ascending counter order, so none occurs twice.
pub open spec fn counters_ordered(c: Seq<(VmstatCounter, u64)>) -> bool {
    forall|i: int, j: int| 0 <= i < j < c.len() ==> counter_rank(#[trigger] c[i].0) < counter_rank(#[trigger] c[j].0)
}

/// Counter names in strictly ascending counter order, so none occurs twice.
pub open spec fn names_ordered(c: Seq<VmstatCounter>) -> bool {
    forall|i: int, j: int| 0 <= i < j < c.len() ==> counter_rank(#[trigger] c[i]) < counter_rank(#[trigger] c[j])
}

/// A vmstat read is well formed when its present counters and its missing
/// counters each come in the fixed counter order without repeats.
pub open spec fn vmstat_wf(raw: VmstatRaw) -> bool {
    counters_ordered(raw.counters@) && names_ordered(raw.missing@)
}

proof fn lemma_counter_at_rank(i: int)
    requires
        0 <= i < 8,
    ensures
        counter_rank(counter_at(i)) == i,
{
}

/// The present and the absent counters among the first `n` slots come in
/// the fixed counter order, each of rank below `n`.
pub proof fn lemma_vmstat_counters_ordered(slots: Seq<Option<u64>>, n: int)
    requires
        0 <= n <= 8,
        slots.len() >= n,
    ensures
        counters_ordered(present_counters(slots, n)),
        names_ordered(absent_counters(slots, n)),
        forall|i: int| 0 <= i < present_counters(slots, n).len() ==> counter_rank(#[trigger] present_counters(slots, n)[i].0) < n,
        forall|i: int| 0 <= i < absent_counters(slots, n).len() ==> counter_rank(#[trigger] absent_counters(slots, n)[i]) < n,
    decreases n,
{
    if n > 0 {
        lemma_vmstat_counters_ordered(slots, n - 1);
        lemma_counter_at_rank(n - 1);
        let p = present_counters(slots, n - 1);
        let a = absent_counters(slots, n - 1);
        match slots[n - 1] {
            Some(v) => {
                let q = p.push((counter_at(n - 1), v));
                assert forall|i: int, j: int| 0 <= i < j < q.len() implies counter_rank(#[trigger] q[i].0) < counter_rank(#[trigger] q[j].0) by {
                    assert(q[i] == p[i]);
                    if j < p.len() {
                        assert(q[j] == p[j]);
                    }
                }
                assert forall|i: int| 0 <= i < q.len() implies counter_rank(#[trigger] q[i].0) < n by {
                    if i < p.len() {
                        assert(q[i] == p[i]);
                    }
                }
            },
            None => {
                let q = a.push(counter_at(n - 1));
                assert forall|i: int, j: int| 0 <= i < j < q.len() implies counter_rank(#[trigger] q[i]) < counter_rank(#[trigger] q[j]) by {
                    assert(q[i] == a[i]);
                    if j < a.len() {
                        assert(q[j] == a[j]);
                    }
                }
                assert forall|i: int| 0 <= i < q.len() implies counter_rank(#[trigger] q[i]) < n by {
                    if i < a.len() {
                        assert(q[i] == a[i]);
                    }
                }
            },
        }
    }
}


proof fn lemma_counter_at_of_rank(c: VmstatCounter)
    ensures
        0 <= counter_rank(c) < 8,
        counter_at(counter_rank(c)) == c,
{
}

proof fn lemma_counters_where_contains(pred: spec_fn(VmstatCounter) -> bool, n: int, c: VmstatCounter)
    requires
        0 <= n <= 8,
    ensures
        counters_where(pred, n).contains(c) <==> counter_rank(c) < n && pred(c),
    decreases n,
{
    lemma_counter_at_of_rank(c);
    if n > 0 {
        lemma_counters_where_contains(pred, n - 1, c);
        lemma_counter_at_rank(n - 1);
        let p = counters_where(pred, n - 1);
        let q = counters_where(pred, n);
        if q.contains(c) && !p.contains(c) {
            let i = choose|i: int| 0 <= i < q.len() && q[i] == c;
            if i < p.len() {
                assert(p[i] == c);
            }
        }
        if p.contains(c) {
            let i = choose|i: int| 0 <= i < p.len() && p[i] == c;
            assert(q[i] == c);
        }
        if pred(c) && counter_rank(c) == n - 1 {
            assert(q[p.len() as int] == c);
        }
    }
}

proof fn lemma_counter_deltas_value(
    start: Seq<(VmstatCounter, u64)>,
    end: Seq<(VmstatCounter, u64)>,
    n: int,
    c: VmstatCounter,
)
    requires
        0 <= n <= 8,
    ensures
        counter_value(counter_deltas(start, end, n), c) == if counter_rank(c) < n {
            counter_delta(start, end, c)
        } else {
            None
        },
    decreases n,
{
    lemma_counter_at_of_rank(c);
    if n > 0 {
        lemma_counter_deltas_value(start, end, n - 1, c);
        lemma_counter_at_rank(n - 1);
        let p = counter_deltas(start, end, n - 1);
        match counter_delta(start, end, counter_at(n - 1)) {
            Some(d) => lemma_counter_value_push(p, (counter_at(n - 1), d), c),
            None => {},
        }
    }
}

proof fn lemma_counter_value_push(s: Seq<(VmstatCounter, u64)>, x: (VmstatCounter, u64), c: VmstatCounter)
    ensures
        counter_value(s.push(x), c) == if counter_value(s, c) is Some {
            counter_value(s, c)
        } else if x.0 == c {
            Some(x.1)
        } else {
            None
        },
    decreases s.len(),
{
    if s.len() > 0 {
        assert(s.push(x).drop_first() =~= s.drop_first().push(x));
        assert(s.push(x)[0] == s[0]);
        lemma_counter_value_push(s.drop_first(), x, c);
    } else {
        assert(s.push(x).drop_first() =~= Seq::<(VmstatCounter, u64)>::empty());
        assert(s.push(x)[0] == x);
        assert(counter_value(s.push(x).drop_first(), c) is None);
    }
}

/// The VM counters of an interval are partitioned: each counter either has
/// a delta (the end value less the start value), or is reported regressed
/// (exactly when both endpoints hold it and it decreased), or is reported
/// missing (exactly when an endpoint lacks it), and exactly one of these
/// holds.
pub proof fn lemma_vmstat_partition(
    start: Seq<(VmstatCounter, u64)>,
    end: Seq<(VmstatCounter, u64)>,
    c: VmstatCounter,
)
    ensures
        ({
            let d = counter_value(counter_deltas(start, end, 8), c);
            let r = counters_where(|x: VmstatCounter| counter_regressed(start, end, x), 8).contains(c);
            let m = counters_where(|x: VmstatCounter| counter_missing(start, end, x), 8).contains(c);
            &&& d is Some ==> !r && !m
            &&& r ==> !m
            &&& d is Some || r || m
            &&& d is Some ==> d->0 == (counter_value(end, c)->0 - counter_value(start, c)->0)
            &&& r <==> (counter_value(start, c) matches Some(a) && counter_value(end, c) matches Some(b)
                && b < a)
            &&& m <==> (counter_value(start, c) is None || counter_value(end, c) is None)
        }),
{
    lemma_counter_at_of_rank(c);
    lemma_counter_deltas_value(start, end, 8, c);
    lemma_counters_where_contains(|x: VmstatCounter| counter_regressed(start, end, x), 8, c);
    lemma_counters_where_contains(|x: VmstatCounter| counter_missing(start, end, x), 8, c);
}


/// The slot of a selected meminfo field name.
pub open spec fn meminfo_slot_rule() -> spec_fn(Seq<char>) -> Option<int> {
    |n: Seq<char>| meminfo_slot(n)
}

/// The byte value of a selected meminfo line.
pub open spec fn meminfo_value_rule() -> spec_fn(Seq<char>) -> Option<u64> {
    |t: Seq<char>| meminfo_bytes(t)
}

proof fn lemma_meminfo_slots_selected(lines: Seq<Seq<char>>)
    ensures
        meminfo_slots(lines) == selected_values(lines, 7, meminfo_slot_rule(), meminfo_value_rule()),
    decreases lines.len(),
{
    if lines.len() > 0 {
        lemma_meminfo_slots_selected(lines.drop_last());
    }
}

/// The bytes given for a meminfo field, by slot: `MemTotal`, `MemAvailable`,
/// `SwapTotal`, `SwapFree`, `Cached`, `SReclaimable`, `AnonPages`.
pub open spec fn meminfo_field(input: Seq<char>, s: int) -> Option<u64> {
    slot_value(lines_of(input), meminfo_slot_rule(), meminfo_value_rule(), s)
}

/// `/proc/meminfo` is accepted exactly when every non-blank line has a `:`,
/// each of the seven selected fields occurs at most once as a number and
/// `kB` whose byte count fits in 64 bits, `MemTotal`, `MemAvailable`,
/// `SwapTotal` and `SwapFree` occur, `MemTotal` is not zero, `MemAvailable`
/// does not exceed `MemTotal` and `SwapFree` does not exceed `SwapTotal`.
/// Each field then holds its byte count, an absent optional field is
/// `None`, and every refusal is `Malformed`.
pub proof fn lemma_meminfo_accepts(input: Seq<char>)
    ensures
        meminfo_spec(input) is Ok <==> {
            &&& selected_lines_valid(lines_of(input), meminfo_slot_rule(), meminfo_value_rule())
            &&& meminfo_field(input, 0) matches Some(total) && total > 0
            &&& meminfo_field(input, 1) matches Some(available) && available <= meminfo_field(input, 0)->0
            &&& meminfo_field(input, 2) is Some
            &&& meminfo_field(input, 3) matches Some(free) && free <= meminfo_field(input, 2)->0
        },
        meminfo_spec(input) is Err ==> meminfo_spec(input) == Err::<MeminfoRaw, MemoryContextError>(
            MemoryContextError::Malformed,
        ),
        meminfo_spec(input) matches Ok(r) ==> {
            &&& Some(r.mem_total_bytes) == meminfo_field(input, 0)
            &&& Some(r.mem_available_bytes) == meminfo_field(input, 1)
            &&& Some(r.swap_total_bytes) == meminfo_field(input, 2)
            &&& Some(r.swap_free_bytes) == meminfo_field(input, 3)
            &&& r.cached_bytes == meminfo_field(input, 4)
            &&& r.sreclaimable_bytes == meminfo_field(input, 5)
            &&& r.anon_pages_bytes == meminfo_field(input, 6)
        },
{
    let lines = lines_of(input);
    lemma_meminfo_slots_selected(lines);
    assert forall|name: Seq<char>| (#[trigger] meminfo_slot_rule()(name) matches Some(k) ==> 0 <= k < 7) by {}
    lemma_selected_values_are_slot_values(lines, 7, meminfo_slot_rule(), meminfo_value_rule());
    if let Some(v) = meminfo_slots(lines) {
        assert(v[0] == meminfo_field(input, 0));
        assert(v[1] == meminfo_field(input, 1));
        assert(v[2] == meminfo_field(input, 2));
        assert(v[3] == meminfo_field(input, 3));
        assert(v[4] == meminfo_field(input, 4));
        assert(v[5] == meminfo_field(input, 5));
        assert(v[6] == meminfo_field(input, 6));
    }
}

} // verus!
