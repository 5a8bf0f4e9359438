//! Conservative inference over normalized observations: the verdict
//! vocabulary, rankings and the integer-valued candidate selections.  Nothing
//! here touches procfs or rendering.

use vstd::prelude::*;
use crate::cgroup::{CgroupInterval, CgroupObservation};
use crate::io::{BlockDeviceKey, DiskstatsInterval, DiskstatsObservation, IoCapability, ProcessIoInterval, ProcessIoObservation};
use crate::process::{key_less, key_lt, ProcessKey};
use crate::ranking::{
    insert_ranked, lemma_insert_ranked_at, lemma_ranked_sorted, lemma_sorted_prefix, ranked_by,
    sorted_by, strict_order,
};

verus! {

/// VM churn below this many pages per second is not material enough to
/// support a possible-thrashing heuristic.  These counters are pages, not
/// bytes.
pub const THRASHING_MIN_PAGE_RATE_PER_SEC: u64 = 1024;

/// Same-cgroup chains are bounded independently of the displayed findings.
pub const MAX_CGROUP_EVIDENCE_CHAINS: usize = 16;

/// At most this many device candidates or process suspects are reported.
pub const MAX_IO_CANDIDATES: usize = 5;

#[derive(Debug, Clone, Copy, PartialEq, Eq, Structural)]
pub enum CgroupResourceKind {
    Cpu,
    Memory,
    Io,
}

#[derive(Debug, Clone, Copy, PartialEq, Eq, Structural)]
pub enum CgroupAssessmentKind {
    NoMeaningfulPressure,
    Pressure,
    InsufficientObservation,
}

#[derive(Debug, Clone, Copy, PartialEq, Eq, Structural)]
pub enum CgroupMechanism {
    Reclaim,
    Swap,
    PossibleThrashing,
    CpuQuotaThrottle,
}

/// How strong the stall evidence is.  `Negligible` is the absence of
/// meaningful pressure (serialized as "none").
#[derive(Debug, Clone, Copy, PartialEq, Eq, Structural)]
pub enum Severity {
    Negligible,
    Low,
    Moderate,
    High,
    Severe,
}

#[derive(Debug, Clone, Copy, PartialEq, Eq, Structural, PartialOrd, Ord)]
pub enum Confidence {
    Low,
    Medium,
    High,
}

/// Scope-owned, bounded process attribution.  These are candidates, never a
/// proof that one process caused another to stall.
#[derive(Debug, Clone, PartialEq, Eq)]
pub enum ProcessScopeKind {
    Host,
    Cgroup { path: String },
}

#[derive(Debug, Clone, Copy, PartialEq, Eq, Structural)]
pub enum ProcessRole {
    CpuVictim,
    CpuSuspect,
    MemoryVictim,
    MemorySuspect,
    IoVictim,
    IoSuspect,
}

#[derive(Debug, Clone, Copy, PartialEq, Eq, Structural)]
pub enum ProcessCandidateAvailability {
    Available,
    UnavailableOrIncomplete,
    NotAssessed,
}

#[derive(Debug, Clone, Copy, PartialEq, Eq, Structural)]
pub enum ProcessRoleCompleteness {
    Complete,
    Partial,
    Unavailable,
}

#[derive(Debug, Clone, Copy, PartialEq, Eq, Structural)]
pub enum AssessmentKind {
    CpuContention,
    CpuNoMeaningfulContention,
    InsufficientObservation,
}

#[derive(Debug, Clone, Copy, PartialEq, Eq, Structural)]
pub enum Resource {
    Cpu,
    Memory,
    Io,
}

#[derive(Debug, Clone, Copy, PartialEq, Eq, Structural)]
pub enum MemoryAssessmentKind {
    NoHarmfulPressure,
    Pressure,
    ReclaimPressure,
    SwapPressure,
    PossibleThrashing,
    InsufficientObservation,
}

#[derive(Debug, Clone, Copy, PartialEq, Eq, Structural)]
pub enum MemoryFullEvidenceState {
    Available,
    Missing,
    CounterRegressed,
    DeltaExceedsElapsed,
    ExceedsSome,
}

#[derive(Debug, Clone, Copy, PartialEq, Eq, Structural)]
pub enum IoAssessmentKind {
    NoMeaningfulContention,
    Pressure,
    InsufficientObservation,
}

#[derive(Debug, Clone, Copy, PartialEq, Eq, Structural)]
pub enum IoFullEvidenceState {
    Available,
    Missing,
    CounterRegressed,
    DeltaExceedsElapsed,
    ExceedsSome,
}

#[derive(Debug, Clone, Copy, PartialEq, Eq, Structural)]
pub enum ChainKind {
    MemoryMechanismConsistentWithIo,
    CgroupMemoryConsistentWithIo,
}

#[derive(Debug, Clone, Copy, PartialEq, Eq, Structural)]
pub enum ChainRelation {
    ConsistentWith,
}

#[derive(Debug, Clone, PartialEq, Eq)]
#[allow(inconsistent_fields)]
pub enum ChainEndpoint {
    Memory { kind: MemoryAssessmentKind },
    Io { kind: IoAssessmentKind },
    CgroupMemory { path: String, kind: CgroupAssessmentKind },
    CgroupIo { path: String, kind: CgroupAssessmentKind },
}

/// A caveat attached to a finding: a stable kind and a human message.
#[derive(Debug, Clone, Copy, PartialEq, Eq)]
pub struct Qualifier {
    pub kind: &'static str,
    pub message: &'static str,
}

#[derive(Debug, Clone, PartialEq, Eq)]
pub struct CgroupMember {
    pub key: ProcessKey,
    pub name: String,
    pub label: &'static str,
}


pub open spec fn severity_level(s: Severity) -> u8 {
    match s {
        Severity::Negligible => 0,
        Severity::Low => 1,
        Severity::Moderate => 2,
        Severity::High => 3,
        Severity::Severe => 4,
    }
}

pub open spec fn confidence_level(c: Confidence) -> u8 {
    match c {
        Confidence::Low => 0,
        Confidence::Medium => 1,
        Confidence::High => 2,
    }
}

/// The ordering rank of a severity, weakest first.
pub fn severity_rank(severity: Severity) -> (r: u8)
    ensures
        r == severity_level(severity),
{
    match severity {
        Severity::Negligible => 0,
        Severity::Low => 1,
        Severity::Moderate => 2,
        Severity::High => 3,
        Severity::Severe => 4,
    }
}

/// The ordering rank of a confidence, weakest first.
pub fn confidence_rank(confidence: Confidence) -> (r: u8)
    ensures
        r == confidence_level(confidence),
{
    match confidence {
        Confidence::Low => 0,
        Confidence::Medium => 1,
        Confidence::High => 2,
    }
}

pub open spec fn resource_level(r: CgroupResourceKind) -> u8 {
    match r {
        CgroupResourceKind::Cpu => 0,
        CgroupResourceKind::Memory => 1,
        CgroupResourceKind::Io => 2,
    }
}

pub fn cgroup_resource_rank(resource: CgroupResourceKind) -> (r: u8)
    ensures
        r == resource_level(resource),
{
    match resource {
        CgroupResourceKind::Cpu => 0,
        CgroupResourceKind::Memory => 1,
        CgroupResourceKind::Io => 2,
    }
}

/// Whether `pages` over `elapsed_ns` nanoseconds is at least
/// `minimum_per_second` pages per second, compared exactly.
pub fn page_rate_at_least(pages: Option<u64>, elapsed_ns: u64, minimum_per_second: u64) -> (b: bool)
    ensures
        b == (elapsed_ns != 0 && match pages {
            Some(p) => p * 1_000_000_000 >= minimum_per_second * elapsed_ns,
            None => false,
        }),
{
    if elapsed_ns == 0 {
        return false;
    }
    match pages {
        Some(p) => {
            assert((p as u128) * 1_000_000_000u128 <= u64::MAX as u128 * 1_000_000_000u128) by (
            nonlinear_arith);
            assert((minimum_per_second as u128) * (elapsed_ns as u128) <= u64::MAX as u128
                * u64::MAX as u128) by (nonlinear_arith);
            let lhs: u128 = (p as u128) * 1_000_000_000u128;
            let rhs: u128 = (minimum_per_second as u128) * (elapsed_ns as u128);
            lhs >= rhs
        },
        None => false,
    }
}

/// The member's cgroup lies in the scope: the scope is the root, the same
/// path, or an ancestor.
pub open spec fn contains_path(scope: Seq<char>, member: Seq<char>) -> bool {
    scope == "/"@ || member == scope || (scope.len() < member.len() && member.take(scope.len() as int)
        == scope && member[scope.len() as int] == '/')
}

pub fn cgroup_contains_path(scope: &str, member: &str) -> (b: bool)
    ensures
        b == contains_path(scope@, member@),
{
    let s = crate::text::chars_of(scope);
    let m = crate::text::chars_of(member);
    if crate::text::eq_lit(&s, "/") || crate::text::eq_chars(&m, &s) {
        return true;
    }
    if s.len() < m.len() && m[s.len()] == '/' {
        let prefix = crate::text::slice_to_vec(&m, 0, s.len());
        assert(m@.take(s@.len() as int) =~= prefix@);
        return crate::text::eq_chars(&prefix, &s);
    }
    false
}

/// Stable membership was fully enumerated over the interval.
pub open spec fn membership_complete(o: CgroupObservation) -> bool {
    let i = o.issues;
    !i.process_enumeration_failed && i.process_enumeration_errors == 0 && i.process_disappeared == 0
        && i.process_identity_changed == 0 && i.process_permission_denied == 0
        && i.process_malformed == 0 && !i.process_limit_reached && !i.budget_exhausted
        && i.members_appeared == 0 && i.members_exited == 0 && i.members_reused == 0
        && i.members_moved == 0
}

pub fn cgroup_membership_complete(observation: &CgroupObservation) -> (b: bool)
    ensures
        b == membership_complete(*observation),
{
    let i = &observation.issues;
    !i.process_enumeration_failed && i.process_enumeration_errors == 0 && i.process_disappeared == 0
        && i.process_identity_changed == 0 && i.process_permission_denied == 0
        && i.process_malformed == 0 && !i.process_limit_reached && !i.budget_exhausted
        && i.members_appeared == 0 && i.members_exited == 0 && i.members_reused == 0
        && i.members_moved == 0
}

/// A candidate's confidence: a fallback is low, direct evidence keeps the
/// resource confidence, indirect evidence is at most medium.
pub open spec fn candidate_confidence_of(resource: Confidence, direct: bool, fallback: bool) -> Confidence {
    if fallback {
        Confidence::Low
    } else if direct {
        resource
    } else if resource == Confidence::Low {
        Confidence::Low
    } else {
        Confidence::Medium
    }
}

pub fn candidate_confidence(resource: Confidence, direct: bool, fallback: bool) -> (c: Confidence)
    ensures
        c == candidate_confidence_of(resource, direct, fallback),
{
    if fallback {
        Confidence::Low
    } else if direct {
        resource
    } else {
        match resource {
            Confidence::Low => Confidence::Low,
            _ => Confidence::Medium,
        }
    }
}

/// Processes are in scope when no scope set is given or the set holds them.
pub fn in_scope(key: ProcessKey, allowed: Option<&Vec<ProcessKey>>) -> (b: bool)
    ensures
        b == match allowed {
            None => true,
            Some(keys) => keys@.contains(key),
        },
{
    match allowed {
        None => true,
        Some(keys) => {
            let mut i: usize = 0;
            while i < keys.len()
                invariant
                    i <= keys@.len(),
                    allowed == Some(keys),
                    forall|j: int| 0 <= j < i ==> keys@[j] != key,
                decreases keys.len() - i,
            {
                if keys[i] == key {
                    assert(keys@[i as int] == key);
                    return true;
                }
                i += 1;
            }
            false
        },
    }
}

pub fn no_memory_attribution_qualifier() -> (q: Qualifier)
    ensures
        q.kind@ == "no_process_attribution"@,
        q.message@
            == "Memory evidence is host-wide; this slice does not identify affected or contributing processes."@,
{
    Qualifier {
        kind: "no_process_attribution",
        message: "Memory evidence is host-wide; this slice does not identify affected or contributing processes.",
    }
}

pub fn no_io_victim_attribution_qualifier() -> (q: Qualifier)
    ensures
        q.kind@ == "no_affected_workload_attribution"@,
        q.message@
            == "This host-wide I/O slice does not identify affected workloads or claim that any process is a victim."@,
{
    Qualifier {
        kind: "no_affected_workload_attribution",
        message: "This host-wide I/O slice does not identify affected workloads or claim that any process is a victim.",
    }
}

/// The mechanism a cgroup pressure finding may name, with its confidence:
/// memory pressure with swap-in is swap, with direct scan and steal it is
/// reclaim; CPU pressure with throttled time is a quota throttle.  Only
/// pressure findings get a mechanism, and it is never better than low.
pub open spec fn mechanism_of(
    resource: CgroupResourceKind,
    kind: CgroupAssessmentKind,
    group: CgroupInterval,
) -> (Option<CgroupMechanism>, Option<Confidence>) {
    if kind != CgroupAssessmentKind::Pressure {
        (None, None)
    } else {
        match resource {
            CgroupResourceKind::Memory => match group.memory_stat.value {
                None => (None, None),
                Some(stat) => if stat.pswpin matches Some(v) && v > 0 {
                    (Some(CgroupMechanism::Swap), Some(Confidence::Low))
                } else if (stat.pgscan_direct matches Some(v) && v > 0) && (
                stat.pgsteal_direct matches Some(w) && w > 0) {
                    (Some(CgroupMechanism::Reclaim), Some(Confidence::Low))
                } else {
                    (None, None)
                },
            },
            CgroupResourceKind::Cpu => if group.cpu.value matches Some(cpu) && (
            cpu.throttled_usec matches Some(t) && t > 0) {
                (Some(CgroupMechanism::CpuQuotaThrottle), Some(Confidence::Low))
            } else {
                (None, None)
            },
            CgroupResourceKind::Io => (None, None),
        }
    }
}

pub fn cgroup_mechanism_label(
    resource: CgroupResourceKind,
    kind: CgroupAssessmentKind,
    group: &CgroupInterval,
) -> (r: (Option<CgroupMechanism>, Option<Confidence>))
    ensures
        r == mechanism_of(resource, kind, *group),
{
    if kind != CgroupAssessmentKind::Pressure {
        return (None, None);
    }
    match resource {
        CgroupResourceKind::Memory => {
            match &group.memory_stat.value {
                None => (None, None),
                Some(stat) => {
                    let swapped = match stat.pswpin {
                        Some(v) => v > 0,
                        None => false,
                    };
                    if swapped {
                        return (Some(CgroupMechanism::Swap), Some(Confidence::Low));
                    }
                    let scanned = match stat.pgscan_direct {
                        Some(v) => v > 0,
                        None => false,
                    };
                    let stolen = match stat.pgsteal_direct {
                        Some(v) => v > 0,
                        None => false,
                    };
                    if scanned && stolen {
                        (Some(CgroupMechanism::Reclaim), Some(Confidence::Low))
                    } else {
                        (None, None)
                    }
                },
            }
        },
        CgroupResourceKind::Cpu => {
            let throttled = match &group.cpu.value {
                Some(cpu) => match cpu.throttled_usec {
                    Some(t) => t > 0,
                    None => false,
                },
                None => false,
            };
            if throttled {
                (Some(CgroupMechanism::CpuQuotaThrottle), Some(Confidence::Low))
            } else {
                (None, None)
            }
        },
        CgroupResourceKind::Io => (None, None),
    }
}


// ---------------------------------------------------------------------------
// Ranked, bounded candidate lists
// ---------------------------------------------------------------------------

/// The first `MAX_IO_CANDIDATES` elements.
pub open spec fn bounded<T>(s: Seq<T>) -> Seq<T> {
    if s.len() > MAX_IO_CANDIDATES {
        s.take(MAX_IO_CANDIDATES as int)
    } else {
        s
    }
}

#[derive(Debug, Clone, PartialEq, Eq)]
pub struct IoDeviceCandidate {
    pub key: BlockDeviceKey,
    pub name: String,
    pub read_sectors_512: Option<u64>,
    pub write_sectors_512: Option<u64>,
    pub reads_completed: Option<u64>,
    pub writes_completed: Option<u64>,
    pub io_ticks_ms: Option<u64>,
    pub weighted_io_ticks_ms: Option<u64>,
    pub end_in_flight: u64,
    pub confidence: Confidence,
    pub label: &'static str,
}

#[derive(Debug, Clone, PartialEq, Eq)]
pub struct IoProcessSuspect {
    pub key: ProcessKey,
    pub name: String,
    pub read_bytes: Option<u64>,
    /// Write bytes charged when pages were dirtied, not confirmed writeout.
    pub write_bytes: Option<u64>,
    pub cancelled_write_bytes: Option<u64>,
    /// Sum of independently valid read and charged-write deltas.  Cancellation
    /// remains separate because it can apply to another task's dirty pages.
    pub known_accounted_bytes: u128,
    pub confidence: Confidence,
    pub label: &'static str,
}

pub open spec fn or_zero(v: Option<u64>) -> u64 {
    match v {
        Some(x) => x,
        None => 0,
    }
}

pub open spec fn positive(v: Option<u64>) -> bool {
    v matches Some(x) && x > 0
}

/// The device showed some activity over the interval.
pub open spec fn device_active(d: DiskstatsInterval) -> bool {
    positive(d.sectors_read_512) || positive(d.sectors_written_512) || positive(d.reads_completed)
        || positive(d.writes_completed) || positive(d.io_ticks_ms) || positive(
        d.weighted_io_ticks_ms,
    ) || d.end_in_flight > 0
}

pub open spec fn device_candidate(d: DiskstatsInterval, c: Confidence) -> IoDeviceCandidate {
    IoDeviceCandidate {
        key: d.key,
        name: d.name,
        read_sectors_512: d.sectors_read_512,
        write_sectors_512: d.sectors_written_512,
        reads_completed: d.reads_completed,
        writes_completed: d.writes_completed,
        io_ticks_ms: d.io_ticks_ms,
        weighted_io_ticks_ms: d.weighted_io_ticks_ms,
        end_in_flight: d.end_in_flight,
        confidence: c,
        label: "same_window_block_device_activity",
    }
}

/// The active devices as candidates, in device order.
pub open spec fn active_device_candidates(s: Seq<DiskstatsInterval>, c: Confidence) -> Seq<
    IoDeviceCandidate,
>
    decreases s.len(),
{
    if s.len() == 0 {
        Seq::empty()
    } else {
        let p = active_device_candidates(s.drop_last(), c);
        if device_active(s.last()) {
            p.push(device_candidate(s.last(), c))
        } else {
            p
        }
    }
}

/// Busier devices first: busy time, then weighted busy time, requests in
/// flight, sectors moved and requests completed, all descending; ties by
/// device identity.
pub open spec fn device_ranks_before(a: IoDeviceCandidate, b: IoDeviceCandidate) -> bool {
    let (ab, bb) = (or_zero(a.io_ticks_ms), or_zero(b.io_ticks_ms));
    let (aw, bw) = (or_zero(a.weighted_io_ticks_ms), or_zero(b.weighted_io_ticks_ms));
    let (asec, bsec) = (
        or_zero(a.read_sectors_512) + or_zero(a.write_sectors_512),
        or_zero(b.read_sectors_512) + or_zero(b.write_sectors_512),
    );
    let (ac, bc) = (
        or_zero(a.reads_completed) + or_zero(a.writes_completed),
        or_zero(b.reads_completed) + or_zero(b.writes_completed),
    );
    if ab != bb {
        ab > bb
    } else if aw != bw {
        aw > bw
    } else if a.end_in_flight != b.end_in_flight {
        a.end_in_flight > b.end_in_flight
    } else if asec != bsec {
        asec > bsec
    } else if ac != bc {
        ac > bc
    } else {
        crate::io::dkey_lt(a.key, b.key)
    }
}

pub open spec fn device_order() -> spec_fn(IoDeviceCandidate, IoDeviceCandidate) -> bool {
    |a: IoDeviceCandidate, b: IoDeviceCandidate| device_ranks_before(a, b)
}

pub open spec fn device_activity_qualifier() -> Qualifier {
    Qualifier {
        kind: "device_activity_same_window_correlation",
        message: "Diskstats activity occurred in the same window as I/O PSI pressure; it does not establish a constrained device or a causal device path.",
    }
}

fn opt_or_zero(v: Option<u64>) -> (r: u64)
    ensures
        r == or_zero(v),
{
    match v {
        Some(x) => x,
        None => 0,
    }
}

fn opt_positive(v: Option<u64>) -> (b: bool)
    ensures
        b == positive(v),
{
    match v {
        Some(x) => x > 0,
        None => false,
    }
}

fn device_before(a: &IoDeviceCandidate, b: &IoDeviceCandidate) -> (r: bool)
    ensures
        r == device_ranks_before(*a, *b),
{
    let ab = opt_or_zero(a.io_ticks_ms);
    let bb = opt_or_zero(b.io_ticks_ms);
    let aw = opt_or_zero(a.weighted_io_ticks_ms);
    let bw = opt_or_zero(b.weighted_io_ticks_ms);
    let asec: u128 = opt_or_zero(a.read_sectors_512) as u128 + opt_or_zero(a.write_sectors_512) as u128;
    let bsec: u128 = opt_or_zero(b.read_sectors_512) as u128 + opt_or_zero(b.write_sectors_512) as u128;
    let ac: u128 = opt_or_zero(a.reads_completed) as u128 + opt_or_zero(a.writes_completed) as u128;
    let bc: u128 = opt_or_zero(b.reads_completed) as u128 + opt_or_zero(b.writes_completed) as u128;
    if ab != bb {
        ab > bb
    } else if aw != bw {
        aw > bw
    } else if a.end_in_flight != b.end_in_flight {
        a.end_in_flight > b.end_in_flight
    } else if asec != bsec {
        asec > bsec
    } else if ac != bc {
        ac > bc
    } else {
        a.key.major < b.key.major || (a.key.major == b.key.major && a.key.minor < b.key.minor)
    }
}

fn insert_device_candidate(out: &mut Vec<IoDeviceCandidate>, x: IoDeviceCandidate)
    ensures
        final(out)@ == insert_ranked(old(out)@, x, device_order()),
{
    let ghost before = out@;
    let mut p: usize = 0;
    while p < out.len() && !device_before(&x, &out[p])
        invariant
            p <= out.len(),
            out@ == before,
            forall|k: int| 0 <= k < p ==> !(device_order())(x, #[trigger] before[k]),
        decreases out.len() - p,
    {
        p += 1;
    }
    proof {
        lemma_insert_ranked_at(before, x, device_order(), p as int);
    }
    out.insert(p, x);
}

/// Devices active in the same window as I/O pressure, busiest first, at
/// most `MAX_IO_CANDIDATES`.  Confidence is medium only when diskstats was
/// fully available.  When any device is reported, a qualifier saying this
/// is same-window correlation, not a causal device path, is added.
pub fn io_device_candidates(
    diskstats: Option<&DiskstatsObservation>,
    qualifiers: &mut Vec<Qualifier>,
) -> (r: Vec<IoDeviceCandidate>)
    ensures
        match diskstats {
            None => r@.len() == 0,
            Some(d) => r@ == bounded(
                ranked_by(
                    active_device_candidates(
                        d.devices@,
                        if d.capability == IoCapability::Available {
                            Confidence::Medium
                        } else {
                            Confidence::Low
                        },
                    ),
                    device_order(),
                ),
            ),
        },
        final(qualifiers)@ == if r@.len() > 0 {
            old(qualifiers)@.push(device_activity_qualifier())
        } else {
            old(qualifiers)@
        },
{
    let d = match diskstats {
        None => return Vec::new(),
        Some(d) => d,
    };
    let confidence = if d.capability == IoCapability::Available {
        Confidence::Medium
    } else {
        Confidence::Low
    };
    let mut out: Vec<IoDeviceCandidate> = Vec::new();
    let mut i: usize = 0;
    while i < d.devices.len()
        invariant
            i <= d.devices@.len(),
            out@ == ranked_by(active_device_candidates(d.devices@.take(i as int), confidence), device_order()),
        decreases d.devices.len() - i,
    {
        let ghost pre = d.devices@.take(i as int);
        let ghost post = d.devices@.take(i + 1);
        assert(post.drop_last() =~= pre);
        assert(post.last() == d.devices@[i as int]);
        let dev = &d.devices[i];
        if opt_positive(dev.sectors_read_512) || opt_positive(dev.sectors_written_512)
            || opt_positive(dev.reads_completed) || opt_positive(dev.writes_completed)
            || opt_positive(dev.io_ticks_ms) || opt_positive(dev.weighted_io_ticks_ms)
            || dev.end_in_flight > 0 {
            let candidate = IoDeviceCandidate {
                key: dev.key,
                name: dev.name.clone(),
                read_sectors_512: dev.sectors_read_512,
                write_sectors_512: dev.sectors_written_512,
                reads_completed: dev.reads_completed,
                writes_completed: dev.writes_completed,
                io_ticks_ms: dev.io_ticks_ms,
                weighted_io_ticks_ms: dev.weighted_io_ticks_ms,
                end_in_flight: dev.end_in_flight,
                confidence,
                label: "same_window_block_device_activity",
            };
            assert(candidate == device_candidate(*dev, confidence));
            let ghost before_active = active_device_candidates(pre, confidence);
            assert(active_device_candidates(post, confidence) == before_active.push(candidate));
            assert(before_active.push(candidate).drop_last() =~= before_active);
            insert_device_candidate(&mut out, candidate);
        }
        i += 1;
    }
    assert(d.devices@.take(i as int) =~= d.devices@);
    out.truncate(MAX_IO_CANDIDATES);
    if out.len() > 0 {
        qualifiers.push(
            Qualifier {
                kind: "device_activity_same_window_correlation",
                message: "Diskstats activity occurred in the same window as I/O PSI pressure; it does not establish a constrained device or a causal device path.",
            },
        );
    }
    out
}

pub open spec fn accounted_bytes(p: ProcessIoInterval) -> u128 {
    (or_zero(p.read_bytes) + or_zero(p.write_bytes)) as u128
}

pub open spec fn process_suspect(p: ProcessIoInterval, c: Confidence) -> IoProcessSuspect {
    IoProcessSuspect {
        key: p.key,
        name: p.name,
        read_bytes: p.read_bytes,
        write_bytes: p.write_bytes,
        cancelled_write_bytes: p.cancelled_write_bytes,
        known_accounted_bytes: accounted_bytes(p),
        confidence: c,
        label: "same_window_process_io_activity",
    }
}

/// The processes with some read or charged-write bytes, as suspects.
pub open spec fn active_suspects(s: Seq<ProcessIoInterval>, c: Confidence) -> Seq<IoProcessSuspect>
    decreases s.len(),
{
    if s.len() == 0 {
        Seq::empty()
    } else {
        let p = active_suspects(s.drop_last(), c);
        if accounted_bytes(s.last()) > 0 {
            p.push(process_suspect(s.last(), c))
        } else {
            p
        }
    }
}

/// More accounted bytes first; ties by process key.
pub open spec fn suspect_ranks_before(a: IoProcessSuspect, b: IoProcessSuspect) -> bool {
    a.known_accounted_bytes > b.known_accounted_bytes || (a.known_accounted_bytes
        == b.known_accounted_bytes && key_lt(a.key, b.key))
}

pub open spec fn suspect_order() -> spec_fn(IoProcessSuspect, IoProcessSuspect) -> bool {
    |a: IoProcessSuspect, b: IoProcessSuspect| suspect_ranks_before(a, b)
}

pub open spec fn process_activity_qualifier() -> Qualifier {
    Qualifier {
        kind: "process_io_same_window_correlation",
        message: "Process read_bytes or charged write_bytes changed in the same window as I/O PSI pressure; cancelled writes remain separate, and this does not map the process to a device or prove causality.",
    }
}

fn insert_suspect(out: &mut Vec<IoProcessSuspect>, x: IoProcessSuspect)
    ensures
        final(out)@ == insert_ranked(old(out)@, x, suspect_order()),
{
    let ghost before = out@;
    let mut p: usize = 0;
    while p < out.len() && !(x.known_accounted_bytes > out[p].known_accounted_bytes || (
    x.known_accounted_bytes == out[p].known_accounted_bytes && key_less(x.key, out[p].key)))
        invariant
            p <= out.len(),
            out@ == before,
            forall|k: int| 0 <= k < p ==> !(suspect_order())(x, #[trigger] before[k]),
        decreases out.len() - p,
    {
        p += 1;
    }
    proof {
        lemma_insert_ranked_at(before, x, suspect_order(), p as int);
    }
    out.insert(p, x);
}

/// Processes with read or charged-write bytes in the same window as I/O
/// pressure, most bytes first, at most `MAX_IO_CANDIDATES`.  Confidence is
/// medium only when process I/O was fully available.  When any is reported,
/// a qualifier saying this is same-window correlation is added.
pub fn io_process_suspects(
    process_io: Option<&ProcessIoObservation>,
    qualifiers: &mut Vec<Qualifier>,
) -> (r: Vec<IoProcessSuspect>)
    ensures
        match process_io {
            None => r@.len() == 0,
            Some(o) => r@ == bounded(
                ranked_by(
                    active_suspects(
                        o.processes@,
                        if o.capability == IoCapability::Available {
                            Confidence::Medium
                        } else {
                            Confidence::Low
                        },
                    ),
                    suspect_order(),
                ),
            ),
        },
        final(qualifiers)@ == if r@.len() > 0 {
            old(qualifiers)@.push(process_activity_qualifier())
        } else {
            old(qualifiers)@
        },
{
    let o = match process_io {
        None => return Vec::new(),
        Some(o) => o,
    };
    let confidence = if o.capability == IoCapability::Available {
        Confidence::Medium
    } else {
        Confidence::Low
    };
    let mut out: Vec<IoProcessSuspect> = Vec::new();
    let mut i: usize = 0;
    while i < o.processes.len()
        invariant
            i <= o.processes@.len(),
            out@ == ranked_by(active_suspects(o.processes@.take(i as int), confidence), suspect_order()),
        decreases o.processes.len() - i,
    {
        let ghost pre = o.processes@.take(i as int);
        let ghost post = o.processes@.take(i + 1);
        assert(post.drop_last() =~= pre);
        assert(post.last() == o.processes@[i as int]);
        let p = &o.processes[i];
        let known: u128 = opt_or_zero(p.read_bytes) as u128 + opt_or_zero(p.write_bytes) as u128;
        if known > 0 {
            let suspect = IoProcessSuspect {
                key: p.key,
                name: p.name.clone(),
                read_bytes: p.read_bytes,
                write_bytes: p.write_bytes,
                cancelled_write_bytes: p.cancelled_write_bytes,
                known_accounted_bytes: known,
                confidence,
                label: "same_window_process_io_activity",
            };
            assert(suspect == process_suspect(*p, confidence));
            let ghost before_active = active_suspects(pre, confidence);
            assert(active_suspects(post, confidence) == before_active.push(suspect));
            assert(before_active.push(suspect).drop_last() =~= before_active);
            insert_suspect(&mut out, suspect);
        }
        i += 1;
    }
    assert(o.processes@.take(i as int) =~= o.processes@);
    out.truncate(MAX_IO_CANDIDATES);
    if out.len() > 0 {
        qualifiers.push(
            Qualifier {
                kind: "process_io_same_window_correlation",
                message: "Process read_bytes or charged write_bytes changed in the same window as I/O PSI pressure; cancelled writes remain separate, and this does not map the process to a device or prove causality.",
            },
        );
    }
    out
}


// ---------------------------------------------------------------------------
// Laws
// ---------------------------------------------------------------------------

proof fn lemma_device_order_strict()
    ensures
        strict_order(device_order()),
{
    assert forall|a: IoDeviceCandidate| !#[trigger] (device_order())(a, a) by {}
    assert forall|a: IoDeviceCandidate, b: IoDeviceCandidate, c: IoDeviceCandidate|
        #[trigger] (device_order())(a, b) && #[trigger] (device_order())(b, c) implies (
    device_order())(a, c) by {
        assert(device_ranks_before(a, b) && device_ranks_before(b, c));
    }
}

proof fn lemma_suspect_order_strict()
    ensures
        strict_order(suspect_order()),
{
    assert forall|a: IoProcessSuspect| !#[trigger] (suspect_order())(a, a) by {}
    assert forall|a: IoProcessSuspect, b: IoProcessSuspect, c: IoProcessSuspect|
        #[trigger] (suspect_order())(a, b) && #[trigger] (suspect_order())(b, c) implies (
    suspect_order())(a, c) by {
        assert(suspect_ranks_before(a, b) && suspect_ranks_before(b, c));
    }
}

/// Device candidates come busiest first: no reported device ranks before
/// one listed ahead of it, at most `MAX_IO_CANDIDATES` are reported, and
/// each is an active device of the observation.
pub proof fn lemma_device_candidates_ranked(devices: Seq<DiskstatsInterval>, c: Confidence)
    ensures
        sorted_by(bounded(ranked_by(active_device_candidates(devices, c), device_order())), device_order()),
        bounded(ranked_by(active_device_candidates(devices, c), device_order())).len()
            <= MAX_IO_CANDIDATES,
        ranked_by(active_device_candidates(devices, c), device_order()).to_multiset()
            == active_device_candidates(devices, c).to_multiset(),
{
    let all = active_device_candidates(devices, c);
    lemma_device_order_strict();
    lemma_ranked_sorted(all, device_order());
    let r = ranked_by(all, device_order());
    if r.len() > MAX_IO_CANDIDATES {
        lemma_sorted_prefix(r, device_order(), MAX_IO_CANDIDATES as int);
    }
}

/// Process suspects come with the most accounted bytes first, at most
/// `MAX_IO_CANDIDATES` of them, drawn exactly from the active processes.
pub proof fn lemma_process_suspects_ranked(processes: Seq<ProcessIoInterval>, c: Confidence)
    ensures
        sorted_by(bounded(ranked_by(active_suspects(processes, c), suspect_order())), suspect_order()),
        bounded(ranked_by(active_suspects(processes, c), suspect_order())).len()
            <= MAX_IO_CANDIDATES,
        ranked_by(active_suspects(processes, c), suspect_order()).to_multiset()
            == active_suspects(processes, c).to_multiset(),
{
    let all = active_suspects(processes, c);
    lemma_suspect_order_strict();
    lemma_ranked_sorted(all, suspect_order());
    let r = ranked_by(all, suspect_order());
    if r.len() > MAX_IO_CANDIDATES {
        lemma_sorted_prefix(r, suspect_order(), MAX_IO_CANDIDATES as int);
    }
}


/// A bounded ranked list never lists an element after one that the ranking
/// puts it before.
proof fn lemma_bounded_in_rank_order<T>(all: Seq<T>, order: spec_fn(T, T) -> bool)
    requires
        strict_order(order),
    ensures
        sorted_by(bounded(ranked_by(all, order)), order),
        forall|x: T| #[trigger] bounded(ranked_by(all, order)).contains(x) ==> all.contains(x),
{
    broadcast use vstd::seq_lib::group_to_multiset_ensures;
    lemma_ranked_sorted(all, order);
    let r = ranked_by(all, order);
    if r.len() > MAX_IO_CANDIDATES {
        lemma_sorted_prefix(r, order, MAX_IO_CANDIDATES as int);
    }
    assert forall|x: T| #[trigger] bounded(r).contains(x) implies all.contains(x) by {
        let k = choose|k: int| 0 <= k < bounded(r).len() && bounded(r)[k] == x;
        assert(r[k] == x);
        assert(r.contains(x));
        assert(r.to_multiset().count(x) > 0);
        assert(all.to_multiset().count(x) > 0);
    }
}

/// Device activity as the ranking compares it, most significant first:
/// busy time, weighted busy time, requests in flight, sectors moved and
/// requests completed.
pub open spec fn device_busier(a: IoDeviceCandidate, b: IoDeviceCandidate) -> bool {
    let busy = |d: IoDeviceCandidate| if d.io_ticks_ms is Some { d.io_ticks_ms->0 as int } else { 0 };
    let weighted = |d: IoDeviceCandidate| if d.weighted_io_ticks_ms is Some { d.weighted_io_ticks_ms->0 as int } else { 0 };
    let sectors = |d: IoDeviceCandidate| (if d.read_sectors_512 is Some { d.read_sectors_512->0 as int } else { 0 })
        + (if d.write_sectors_512 is Some { d.write_sectors_512->0 as int } else { 0 });
    let completed = |d: IoDeviceCandidate| (if d.reads_completed is Some { d.reads_completed->0 as int } else { 0 })
        + (if d.writes_completed is Some { d.writes_completed->0 as int } else { 0 });
    ||| busy(a) > busy(b)
    ||| busy(a) == busy(b) && weighted(a) > weighted(b)
    ||| busy(a) == busy(b) && weighted(a) == weighted(b) && a.end_in_flight > b.end_in_flight
    ||| busy(a) == busy(b) && weighted(a) == weighted(b) && a.end_in_flight == b.end_in_flight
        && sectors(a) > sectors(b)
    ||| busy(a) == busy(b) && weighted(a) == weighted(b) && a.end_in_flight == b.end_in_flight
        && sectors(a) == sectors(b) && completed(a) > completed(b)
}

/// The device candidates of an I/O finding are at most five, busiest first:
/// a device is never listed after a busier one.
pub proof fn lemma_device_candidates_busiest_first(
    diskstats: Option<&DiskstatsObservation>,
    r: Seq<IoDeviceCandidate>,
)
    requires
        match diskstats {
            None => r.len() == 0,
            Some(d) => r == bounded(
                ranked_by(
                    active_device_candidates(
                        d.devices@,
                        if d.capability == IoCapability::Available {
                            Confidence::Medium
                        } else {
                            Confidence::Low
                        },
                    ),
                    device_order(),
                ),
            ),
        },
    ensures
        r.len() <= 5,
        forall|i: int, j: int| 0 <= i < j < r.len() ==> !device_busier(#[trigger] r[j], #[trigger] r[i]),
{
    match diskstats {
        Some(d) => {
            let order = device_order();
            assert forall|a: IoDeviceCandidate| !#[trigger] order(a, a) by {}
            assert forall|a: IoDeviceCandidate, b: IoDeviceCandidate, c: IoDeviceCandidate|
                #[trigger] order(a, b) && #[trigger] order(b, c) implies order(a, c) by {
                if !(or_zero(a.io_ticks_ms) != or_zero(b.io_ticks_ms) || or_zero(b.io_ticks_ms) != or_zero(c.io_ticks_ms)
                    || or_zero(a.weighted_io_ticks_ms) != or_zero(b.weighted_io_ticks_ms)
                    || or_zero(b.weighted_io_ticks_ms) != or_zero(c.weighted_io_ticks_ms)
                    || a.end_in_flight != b.end_in_flight || b.end_in_flight != c.end_in_flight) {
                    let sa = or_zero(a.read_sectors_512) + or_zero(a.write_sectors_512);
                    let sb = or_zero(b.read_sectors_512) + or_zero(b.write_sectors_512);
                    let sc = or_zero(c.read_sectors_512) + or_zero(c.write_sectors_512);
                    if sa == sb && sb == sc {
                        let ca = or_zero(a.reads_completed) + or_zero(a.writes_completed);
                        let cb = or_zero(b.reads_completed) + or_zero(b.writes_completed);
                        let cc = or_zero(c.reads_completed) + or_zero(c.writes_completed);
                        if ca == cb && cb == cc {
                            assert(crate::io::dkey_lt(a.key, c.key));
                        }
                    }
                }
            }
            assert(strict_order(order));
            let all = active_device_candidates(
                d.devices@,
                if d.capability == IoCapability::Available { Confidence::Medium } else { Confidence::Low },
            );
            lemma_bounded_in_rank_order(all, order);
            assert forall|i: int, j: int| 0 <= i < j < r.len() implies !device_busier(#[trigger] r[j], #[trigger] r[i]) by {
                assert(!order(r[j], r[i]));
            }
        },
        None => {},
    }
}

/// The process suspects of an I/O finding are at most five, each with a
/// positive known byte count that is its read plus charged-write bytes
/// (cancelled writes are not subtracted), most known bytes first.
pub proof fn lemma_process_suspects_most_bytes_first(
    process_io: Option<&ProcessIoObservation>,
    r: Seq<IoProcessSuspect>,
)
    requires
        match process_io {
            None => r.len() == 0,
            Some(o) => r == bounded(
                ranked_by(
                    active_suspects(
                        o.processes@,
                        if o.capability == IoCapability::Available {
                            Confidence::Medium
                        } else {
                            Confidence::Low
                        },
                    ),
                    suspect_order(),
                ),
            ),
        },
    ensures
        r.len() <= 5,
        forall|i: int, j: int|
            0 <= i < j < r.len() ==> (#[trigger] r[i]).known_accounted_bytes >= (#[trigger] r[j]).known_accounted_bytes,
        forall|k: int|
            0 <= k < r.len() ==> (#[trigger] r[k]).known_accounted_bytes > 0 && r[k].known_accounted_bytes == (
            if r[k].read_bytes is Some { r[k].read_bytes->0 as int } else { 0 }) + (if r[k].write_bytes is Some {
                r[k].write_bytes->0 as int
            } else {
                0
            }),
{
    match process_io {
        Some(o) => {
            let order = suspect_order();
            assert forall|a: IoProcessSuspect, b: IoProcessSuspect, c: IoProcessSuspect|
                #[trigger] order(a, b) && #[trigger] order(b, c) implies order(a, c) by {}
            assert(strict_order(order));
            let c = if o.capability == IoCapability::Available { Confidence::Medium } else { Confidence::Low };
            let all = active_suspects(o.processes@, c);
            lemma_bounded_in_rank_order(all, order);
            lemma_active_suspects_bytes(o.processes@, c);
            assert forall|i: int, j: int| 0 <= i < j < r.len() implies (#[trigger] r[i]).known_accounted_bytes
                >= (#[trigger] r[j]).known_accounted_bytes by {
                assert(!order(r[j], r[i]));
            }
            assert forall|k: int| 0 <= k < r.len() implies (#[trigger] r[k]).known_accounted_bytes > 0
                && r[k].known_accounted_bytes == (if r[k].read_bytes is Some { r[k].read_bytes->0 as int } else { 0 })
                + (if r[k].write_bytes is Some { r[k].write_bytes->0 as int } else { 0 }) by {
                assert(r.contains(r[k]));
                assert(all.contains(r[k]));
            }
        },
        None => {},
    }
}

proof fn lemma_active_suspects_bytes(s: Seq<ProcessIoInterval>, c: Confidence)
    ensures
        forall|x: IoProcessSuspect| #[trigger] active_suspects(s, c).contains(x) ==> x.known_accounted_bytes > 0
            && x.known_accounted_bytes == (if x.read_bytes is Some { x.read_bytes->0 as int } else { 0 }) + (
            if x.write_bytes is Some { x.write_bytes->0 as int } else { 0 }),
    decreases s.len(),
{
    if s.len() > 0 {
        lemma_active_suspects_bytes(s.drop_last(), c);
        let p = active_suspects(s.drop_last(), c);
        assert forall|x: IoProcessSuspect| #[trigger] active_suspects(s, c).contains(x) implies x.known_accounted_bytes > 0
            && x.known_accounted_bytes == (if x.read_bytes is Some { x.read_bytes->0 as int } else { 0 }) + (
            if x.write_bytes is Some { x.write_bytes->0 as int } else { 0 }) by {
            let q = active_suspects(s, c);
            let k = choose|k: int| 0 <= k < q.len() && q[k] == x;
            if k < p.len() {
                assert(q[k] == p[k]);
                assert(p.contains(x));
            }
        }
    }
}

} // verus!
