//! Process attribution under pressure: the processes that waited to run, on
//! memory or on block I/O (victims), and those whose resident memory grew or
//! that did I/O in the same window (suspects).  Candidates are bounded and
//! ranked; they never prove that one process caused another to stall.

use vstd::prelude::*;
use crate::analysis::{
    confidence_level, confidence_rank, Confidence, ProcessCandidateAvailability, ProcessRole,
    ProcessRoleCompleteness,
};
use crate::io::{or_zero, IoCapability, ProcessIoInterval, ProcessIoObservation};
use crate::process::{key_less, key_lt, ProcessKey};
use crate::ranking::{
    insert_ranked, lemma_insert_ranked_at, lemma_ranked_sorted, lemma_sorted_prefix, ranked_by,
    sorted_by, strict_order,
};
use crate::text::{append_str, decimal, push_decimal};

verus! {

/// At most this many candidates are listed for one role.
pub const MAX_ROLE_CANDIDATES: usize = 5;

// ---------------------------------------------------------------------------
// Process telemetry of one window
// ---------------------------------------------------------------------------

/// Whether per-task delay statistics could be read for the window.
#[derive(Debug, Clone, Copy, PartialEq, Eq, Structural)]
pub enum TaskstatsCapability {
    Available,
    Partial,
    Unavailable,
}

/// The kernel's delay-accounting switch as observed.
#[derive(Debug, Clone, Copy, PartialEq, Eq, Structural)]
pub enum DelayAccountingState {
    Enabled,
    Disabled,
    Unknown,
}

/// Which memory-delay fields the kernel's taskstats version reports.
#[derive(Debug, Clone, Copy, PartialEq, Eq, Structural, Default)]
pub struct TaskstatsFieldSupport {
    pub cpu_delay: bool,
    pub block_io_delay: bool,
    pub swapin_delay: bool,
    pub reclaim_delay: bool,
    pub thrashing_delay: bool,
    pub compaction_delay: bool,
    pub write_protect_copy_delay: bool,
}

/// The memory-delay deltas of one process over the window, in nanoseconds.
#[derive(Debug, Clone, Copy, PartialEq, Eq, Structural)]
pub struct TaskstatsInterval {
    pub key: ProcessKey,
    pub cpu_delay_ns: Option<u64>,
    pub block_io_delay_ns: Option<u64>,
    pub swapin_delay_ns: Option<u64>,
    pub reclaim_delay_ns: Option<u64>,
    pub thrashing_delay_ns: Option<u64>,
    pub compaction_delay_ns: Option<u64>,
    pub write_protect_copy_delay_ns: Option<u64>,
    pub field_support: TaskstatsFieldSupport,
}

/// The resource deltas of one process over the window, from procfs.
#[derive(Debug, Clone, PartialEq, Eq)]
pub struct ProcessResourceInterval {
    pub key: ProcessKey,
    pub name: String,
    pub major_faults: Option<u64>,
    pub rss_growth_bytes: Option<u64>,
    /// Aggregated block-I/O delay from `/proc/<pid>/stat`, in clock ticks.
    pub block_io_delay_ticks: Option<u64>,
}

/// How long the tasks of one process waited to run in the window, from
/// schedstat, in nanoseconds.
#[derive(Debug, Clone, PartialEq, Eq)]
pub struct ProcessSchedulerDelayInterval {
    pub key: ProcessKey,
    pub name: String,
    pub runnable_wait_ns: u64,
    pub task_count: u32,
}

/// A process and its command name.
#[derive(Debug, Clone, PartialEq, Eq)]
pub struct ProcessName {
    pub key: ProcessKey,
    pub name: String,
}

/// What went wrong while walking the processes of the window.
#[derive(Debug, Clone, Copy, PartialEq, Eq, Structural, Default)]
pub struct ProcessCollectionIssues {
    pub enumeration_failed: bool,
    pub enumeration_errors: u32,
    pub disappeared: u32,
    pub permission_denied: u32,
    pub unreadable: u32,
    pub malformed: u32,
    pub appeared: u32,
    pub exited: u32,
    pub limit_reached: bool,
    pub resource_value_overflow: u32,
}

/// Whether per-process resource deltas could be collected for the window.
#[derive(Debug, Clone, Copy, PartialEq, Eq, Structural)]
pub enum ProcessResourceCapability {
    Available,
    Partial,
    Unavailable,
    NotRecorded,
}

/// The per-process telemetry of one window that attribution reads.
#[derive(Debug, Clone, PartialEq, Eq)]
pub struct ProcessTelemetry {
    pub resource_capability: ProcessResourceCapability,
    /// Whether `/proc/<pid>/stat` delay fields could be read.
    pub task_stat_capability: TaskstatsCapability,
    pub taskstats_capability: TaskstatsCapability,
    pub delay_accounting: DelayAccountingState,
    pub taskstats: Vec<TaskstatsInterval>,
    pub process_resource_evidence: Vec<ProcessResourceInterval>,
    pub collection_issues: ProcessCollectionIssues,
    pub processes: Vec<ProcessName>,
    pub scheduler_delay_candidates: Vec<ProcessSchedulerDelayInterval>,
    /// Whether scheduler statistics covered every process of the window.
    pub schedstat_capability: TaskstatsCapability,
}

// ---------------------------------------------------------------------------
// Candidates and role lists
// ---------------------------------------------------------------------------

/// Why a process is listed.
#[derive(Debug, Clone, Copy, PartialEq, Eq)]
pub enum ProcessCandidateEvidence {
    RunnableDelay { runnable_wait_ns: u64, stable_task_count: u32, taskstats_cpu_delay_ns: Option<u64> },
    TaskstatsCpuDelay { cpu_delay_ns: u64 },
    MemoryDelay {
        largest_component: &'static str,
        largest_delay_ns: u64,
        swapin_delay_ns: Option<u64>,
        reclaim_delay_ns: Option<u64>,
        thrashing_delay_ns: Option<u64>,
        compaction_delay_ns: Option<u64>,
        write_protect_copy_delay_ns: Option<u64>,
    },
    MajorFaults { major_faults: u64 },
    RssGrowth { rss_growth_bytes: u64 },
    BlockIoDelay { block_io_delay_ns: Option<u64>, procfs_block_io_delay_ticks: Option<u64> },
    IoActivity {
        read_bytes: Option<u64>,
        write_bytes: Option<u64>,
        cancelled_write_bytes: Option<u64>,
        known_accounted_bytes: u128,
    },
}

#[derive(Debug, Clone, PartialEq, Eq)]
pub struct ProcessCandidate {
    pub role: ProcessRole,
    pub key: ProcessKey,
    pub name: String,
    pub confidence: Confidence,
    pub label: &'static str,
    pub evidence: ProcessCandidateEvidence,
}

/// The candidates of one role, with how far the telemetry could support it.
#[derive(Debug, Clone, PartialEq, Eq)]
pub struct ProcessRoleList {
    pub role: ProcessRole,
    pub availability: ProcessCandidateAvailability,
    pub completeness: ProcessRoleCompleteness,
    /// Set when a retained copy outlives the window it was computed for.
    pub stale: bool,
    pub candidates: Vec<ProcessCandidate>,
}

/// A candidate as plain values: key, name, confidence, label and evidence.
pub type CandidateView = (ProcessKey, Seq<char>, Confidence, &'static str, ProcessCandidateEvidence);

pub open spec fn candidate_view(c: ProcessCandidate) -> CandidateView {
    (c.key, c.name@, c.confidence, c.label, c.evidence)
}

pub open spec fn views(s: Seq<ProcessCandidate>) -> Seq<CandidateView> {
    s.map_values(|c: ProcessCandidate| candidate_view(c))
}

/// The first `MAX_ROLE_CANDIDATES` of a ranked list.
pub open spec fn first_candidates(s: Seq<CandidateView>) -> Seq<CandidateView> {
    if s.len() > MAX_ROLE_CANDIDATES {
        s.take(MAX_ROLE_CANDIDATES as int)
    } else {
        s
    }
}

/// A role list of a role that was not assessed: no pressure asked for it.
pub open spec fn is_unassessed(r: ProcessRoleList, role: ProcessRole) -> bool {
    &&& r.role == role
    &&& r.availability == ProcessCandidateAvailability::NotAssessed
    &&& r.completeness == ProcessRoleCompleteness::Unavailable
    &&& !r.stale
    &&& r.candidates@.len() == 0
}

/// A role list of a role whose telemetry is missing.
pub open spec fn is_unavailable(r: ProcessRoleList, role: ProcessRole) -> bool {
    &&& r.role == role
    &&& r.availability == ProcessCandidateAvailability::UnavailableOrIncomplete
    &&& r.completeness == ProcessRoleCompleteness::Unavailable
    &&& !r.stale
    &&& r.candidates@.len() == 0
}

/// A role list with candidates: unassessed without pressure; otherwise
/// complete or partial as the telemetry allows, holding `candidates`.
pub open spec fn role_list_holds(
    r: ProcessRoleList,
    role: ProcessRole,
    pressure: Option<Confidence>,
    complete: bool,
    candidates: Seq<CandidateView>,
) -> bool {
    match pressure {
        None => is_unassessed(r, role),
        Some(_) => {
            &&& r.role == role
            &&& r.availability == if complete {
                ProcessCandidateAvailability::Available
            } else {
                ProcessCandidateAvailability::UnavailableOrIncomplete
            }
            &&& r.completeness == if complete {
                ProcessRoleCompleteness::Complete
            } else {
                ProcessRoleCompleteness::Partial
            }
            &&& !r.stale
            &&& views(r.candidates@) == candidates
            &&& forall|k: int| 0 <= k < r.candidates@.len() ==> #[trigger] r.candidates@[k].role == role
        },
    }
}

/// A process is in scope when no scope restricts the keys, or the scope
/// holds its key.
pub open spec fn in_scope(k: ProcessKey, allowed: Option<&Vec<ProcessKey>>) -> bool {
    match allowed {
        None => true,
        Some(a) => a@.contains(k),
    }
}

// ---------------------------------------------------------------------------
// Names
// ---------------------------------------------------------------------------

pub open spec fn first_name(s: Seq<ProcessName>, k: ProcessKey) -> Option<Seq<char>>
    decreases s.len(),
{
    if s.len() == 0 {
        None
    } else if s[0].key == k {
        Some(s[0].name@)
    } else {
        first_name(s.drop_first(), k)
    }
}

pub open spec fn first_delay_name(s: Seq<ProcessSchedulerDelayInterval>, k: ProcessKey) -> Option<
    Seq<char>,
>
    decreases s.len(),
{
    if s.len() == 0 {
        None
    } else if s[0].key == k {
        Some(s[0].name@)
    } else {
        first_delay_name(s.drop_first(), k)
    }
}

pub open spec fn first_resource_name(s: Seq<ProcessResourceInterval>, k: ProcessKey) -> Option<
    Seq<char>,
>
    decreases s.len(),
{
    if s.len() == 0 {
        None
    } else if s[0].key == k {
        Some(s[0].name@)
    } else {
        first_resource_name(s.drop_first(), k)
    }
}

/// The name of a process: from the process list, else the resource
/// evidence, else the scheduler-delay candidates, else `pid-<pid>`.
pub open spec fn name_for_key(t: ProcessTelemetry, k: ProcessKey) -> Seq<char> {
    match first_name(t.processes@, k) {
        Some(n) => n,
        None => match first_resource_name(t.process_resource_evidence@, k) {
            Some(n) => n,
            None => match first_delay_name(t.scheduler_delay_candidates@, k) {
                Some(n) => n,
                None => "pid-"@ + decimal(k.pid as nat),
            },
        },
    }
}

fn find_name(s: &Vec<ProcessName>, k: ProcessKey) -> (r: Option<String>)
    ensures
        match r {
            Some(n) => first_name(s@, k) == Some(n@),
            None => first_name(s@, k) is None,
        },
{
    let mut i: usize = 0;
    assert(s@.skip(0) =~= s@);
    while i < s.len()
        invariant
            i <= s.len(),
            first_name(s@, k) == first_name(s@.skip(i as int), k),
        decreases s.len() - i,
    {
        assert(s@.skip(i as int).drop_first() =~= s@.skip(i + 1));
        if s[i].key == k {
            return Some(s[i].name.clone());
        }
        i += 1;
    }
    None
}

fn find_delay_name(s: &Vec<ProcessSchedulerDelayInterval>, k: ProcessKey) -> (r: Option<String>)
    ensures
        match r {
            Some(n) => first_delay_name(s@, k) == Some(n@),
            None => first_delay_name(s@, k) is None,
        },
{
    let mut i: usize = 0;
    assert(s@.skip(0) =~= s@);
    while i < s.len()
        invariant
            i <= s.len(),
            first_delay_name(s@, k) == first_delay_name(s@.skip(i as int), k),
        decreases s.len() - i,
    {
        assert(s@.skip(i as int).drop_first() =~= s@.skip(i + 1));
        if s[i].key == k {
            return Some(s[i].name.clone());
        }
        i += 1;
    }
    None
}

fn find_resource_name(s: &Vec<ProcessResourceInterval>, k: ProcessKey) -> (r: Option<String>)
    ensures
        match r {
            Some(n) => first_resource_name(s@, k) == Some(n@),
            None => first_resource_name(s@, k) is None,
        },
{
    let mut i: usize = 0;
    assert(s@.skip(0) =~= s@);
    while i < s.len()
        invariant
            i <= s.len(),
            first_resource_name(s@, k) == first_resource_name(s@.skip(i as int), k),
        decreases s.len() - i,
    {
        assert(s@.skip(i as int).drop_first() =~= s@.skip(i + 1));
        if s[i].key == k {
            return Some(s[i].name.clone());
        }
        i += 1;
    }
    None
}

fn name_of(t: &ProcessTelemetry, k: ProcessKey) -> (r: String)
    ensures
        r@ == name_for_key(*t, k),
{
    if let Some(n) = find_name(&t.processes, k) {
        return n;
    }
    if let Some(n) = find_resource_name(&t.process_resource_evidence, k) {
        return n;
    }
    if let Some(n) = find_delay_name(&t.scheduler_delay_candidates, k) {
        return n;
    }
    let mut s = String::new();
    append_str(&mut s, "pid-");
    push_decimal(&mut s, k.pid as u64);
    proof {
        reveal_strlit("pid-");
    }
    s
}

// ---------------------------------------------------------------------------
// Memory victims
// ---------------------------------------------------------------------------

/// Keeps the later of equally large positive delays, as a maximum by key
/// over the components in order does.
pub open spec fn pick(best: Option<(&'static str, u64)>, name: &'static str, v: Option<u64>) -> Option<
    (&'static str, u64),
> {
    match v {
        Some(x) => if x > 0 && (best matches Some(b) ==> x >= b.1) {
            Some((name, x))
        } else {
            best
        },
        None => best,
    }
}

/// The largest positive memory-delay component of a process, by name.
pub open spec fn largest_memory_delay(t: TaskstatsInterval) -> Option<(&'static str, u64)> {
    pick(
        pick(
            pick(
                pick(pick(None, "swapin", t.swapin_delay_ns), "reclaim", t.reclaim_delay_ns),
                "thrashing",
                t.thrashing_delay_ns,
            ),
            "compaction",
            t.compaction_delay_ns,
        ),
        "write_protect_copy",
        t.write_protect_copy_delay_ns,
    )
}

fn pick_exec(best: Option<(&'static str, u64)>, name: &'static str, v: Option<u64>) -> (r: Option<
    (&'static str, u64),
>)
    ensures
        r == pick(best, name, v),
{
    match v {
        Some(x) => {
            let beats = match best {
                Some(b) => x >= b.1,
                None => true,
            };
            if x > 0 && beats {
                Some((name, x))
            } else {
                best
            }
        },
        None => best,
    }
}

fn largest_memory_delay_exec(t: &TaskstatsInterval) -> (r: Option<(&'static str, u64)>)
    ensures
        r == largest_memory_delay(*t),
{
    let b = pick_exec(None, "swapin", t.swapin_delay_ns);
    let b = pick_exec(b, "reclaim", t.reclaim_delay_ns);
    let b = pick_exec(b, "thrashing", t.thrashing_delay_ns);
    let b = pick_exec(b, "compaction", t.compaction_delay_ns);
    pick_exec(b, "write_protect_copy", t.write_protect_copy_delay_ns)
}

pub open spec fn delay_evidence(t: TaskstatsInterval, name: &'static str, d: u64) -> ProcessCandidateEvidence {
    ProcessCandidateEvidence::MemoryDelay {
        largest_component: name,
        largest_delay_ns: d,
        swapin_delay_ns: t.swapin_delay_ns,
        reclaim_delay_ns: t.reclaim_delay_ns,
        thrashing_delay_ns: t.thrashing_delay_ns,
        compaction_delay_ns: t.compaction_delay_ns,
        write_protect_copy_delay_ns: t.write_protect_copy_delay_ns,
    }
}

/// The processes in scope with a positive taskstats memory delay, in
/// taskstats order; each is graded with the pressure's confidence.
pub open spec fn delay_victims(
    ts: Seq<TaskstatsInterval>,
    t: ProcessTelemetry,
    allowed: Option<&Vec<ProcessKey>>,
    confidence: Confidence,
) -> Seq<CandidateView>
    decreases ts.len(),
{
    if ts.len() == 0 {
        Seq::empty()
    } else {
        let prev = delay_victims(ts.drop_last(), t, allowed, confidence);
        let item = ts.last();
        if in_scope(item.key, allowed) && largest_memory_delay(item) is Some {
            let (name, d) = largest_memory_delay(item)->0;
            prev.push(
                (
                    item.key,
                    name_for_key(t, item.key),
                    confidence,
                    "observed_taskstats_memory_delay_victim_candidate",
                    delay_evidence(item, name, d),
                ),
            )
        } else {
            prev
        }
    }
}

pub open spec fn has_key(s: Seq<CandidateView>, k: ProcessKey) -> bool {
    exists|i: int| 0 <= i < s.len() && (#[trigger] s[i]).0 == k
}

/// The processes in scope with major faults and no delay candidate, in
/// resource-evidence order; a fault count is only a hint, so low confidence.
pub open spec fn fault_victims(
    rs: Seq<ProcessResourceInterval>,
    direct: Seq<CandidateView>,
    allowed: Option<&Vec<ProcessKey>>,
) -> Seq<CandidateView>
    decreases rs.len(),
{
    if rs.len() == 0 {
        Seq::empty()
    } else {
        let prev = fault_victims(rs.drop_last(), direct, allowed);
        let item = rs.last();
        if in_scope(item.key, allowed) && !has_key(direct, item.key) && item.major_faults is Some
            && item.major_faults->0 > 0 {
            prev.push(
                (
                    item.key,
                    item.name@,
                    Confidence::Low,
                    "major_fault_memory_victim_candidate",
                    ProcessCandidateEvidence::MajorFaults { major_faults: item.major_faults->0 },
                ),
            )
        } else {
            prev
        }
    }
}

/// Every memory-victim candidate before ranking.
pub open spec fn memory_victim_candidates(
    t: ProcessTelemetry,
    pressure: Option<Confidence>,
    allowed: Option<&Vec<ProcessKey>>,
) -> Seq<CandidateView> {
    let confidence = match pressure {
        Some(c) => c,
        None => Confidence::Low,
    };
    let direct = delay_victims(t.taskstats@, t, allowed, confidence);
    direct + fault_victims(t.process_resource_evidence@, direct, allowed)
}

pub open spec fn memory_score(e: ProcessCandidateEvidence) -> u64 {
    match e {
        ProcessCandidateEvidence::MemoryDelay { largest_delay_ns, .. } => largest_delay_ns,
        ProcessCandidateEvidence::MajorFaults { major_faults } => major_faults,
        _ => 0,
    }
}

/// Direct delay evidence first, then the larger score, then the smaller key.
pub open spec fn memory_victim_before(a: CandidateView, b: CandidateView) -> bool {
    let (da, db) = (a.4 is MemoryDelay, b.4 is MemoryDelay);
    ||| da && !db
    ||| da == db && memory_score(a.4) > memory_score(b.4)
    ||| da == db && memory_score(a.4) == memory_score(b.4) && key_lt(a.0, b.0)
}

pub open spec fn memory_victim_order() -> spec_fn(CandidateView, CandidateView) -> bool {
    |a: CandidateView, b: CandidateView| memory_victim_before(a, b)
}

/// Nothing went wrong while walking the processes of the window.
pub open spec fn process_window_complete(t: ProcessTelemetry) -> bool {
    let i = t.collection_issues;
    &&& t.process_resource_evidence@.len() > 0
    &&& !i.enumeration_failed
    &&& i.enumeration_errors == 0
    &&& i.disappeared == 0
    &&& i.permission_denied == 0
    &&& i.unreadable == 0
    &&& i.malformed == 0
    &&& i.appeared == 0
    &&& i.exited == 0
    &&& !i.limit_reached
}

pub open spec fn supports_memory_delays(f: TaskstatsFieldSupport) -> bool {
    f.swapin_delay && f.reclaim_delay && f.thrashing_delay && f.compaction_delay
        && f.write_protect_copy_delay
}

/// Only complete taskstats with delay accounting enabled can prove that no
/// process waited on memory.
pub open spec fn taskstats_complete_for_memory(t: ProcessTelemetry) -> bool {
    &&& t.taskstats_capability == TaskstatsCapability::Available
    &&& t.delay_accounting == DelayAccountingState::Enabled
    &&& process_window_complete(t)
    &&& forall|k: int|
        0 <= k < t.taskstats@.len() ==> supports_memory_delays(#[trigger] t.taskstats@[k].field_support)
}

/// The memory victims have no source at all: pressure asked for them, and
/// neither taskstats nor resource evidence was collected.
pub open spec fn memory_victims_unsupported(t: ProcessTelemetry, pressure: Option<Confidence>) -> bool {
    pressure is Some && !(t.taskstats_capability == TaskstatsCapability::Available
        || t.taskstats_capability == TaskstatsCapability::Partial)
        && t.process_resource_evidence@.len() == 0
}

fn unassessed(role: ProcessRole) -> (r: ProcessRoleList)
    ensures
        is_unassessed(r, role),
{
    ProcessRoleList {
        role,
        availability: ProcessCandidateAvailability::NotAssessed,
        completeness: ProcessRoleCompleteness::Unavailable,
        stale: false,
        candidates: Vec::new(),
    }
}

fn unavailable(role: ProcessRole) -> (r: ProcessRoleList)
    ensures
        is_unavailable(r, role),
{
    ProcessRoleList {
        role,
        availability: ProcessCandidateAvailability::UnavailableOrIncomplete,
        completeness: ProcessRoleCompleteness::Unavailable,
        stale: false,
        candidates: Vec::new(),
    }
}

fn missing_telemetry(role: ProcessRole, pressure: Option<Confidence>) -> (r: ProcessRoleList)
    ensures
        pressure is None ==> is_unassessed(r, role),
        pressure is Some ==> is_unavailable(r, role),
{
    match pressure {
        None => unassessed(role),
        Some(_) => unavailable(role),
    }
}

fn in_scope_exec(k: ProcessKey, allowed: Option<&Vec<ProcessKey>>) -> (r: bool)
    ensures
        r == in_scope(k, allowed),
{
    match allowed {
        None => true,
        Some(a) => {
            let mut i: usize = 0;
            while i < a.len()
                invariant
                    i <= a.len(),
                    allowed == Some(a),
                    forall|j: int| 0 <= j < i ==> a@[j] != k,
                decreases a.len() - i,
            {
                if a[i] == k {
                    assert(a@[i as int] == k);
                    assert(a@.contains(k));
                    return true;
                }
                i += 1;
            }
            false
        },
    }
}

fn window_complete_exec(t: &ProcessTelemetry) -> (r: bool)
    ensures
        r == process_window_complete(*t),
{
    let i = &t.collection_issues;
    t.process_resource_evidence.len() > 0 && !i.enumeration_failed && i.enumeration_errors == 0
        && i.disappeared == 0 && i.permission_denied == 0 && i.unreadable == 0 && i.malformed == 0
        && i.appeared == 0 && i.exited == 0 && !i.limit_reached
}

fn taskstats_complete_for_memory_exec(t: &ProcessTelemetry) -> (r: bool)
    ensures
        r == taskstats_complete_for_memory(*t),
{
    if !(t.taskstats_capability == TaskstatsCapability::Available && t.delay_accounting
        == DelayAccountingState::Enabled && window_complete_exec(t)) {
        return false;
    }
    let mut i: usize = 0;
    while i < t.taskstats.len()
        invariant
            i <= t.taskstats.len(),
            forall|k: int| 0 <= k < i ==> supports_memory_delays(#[trigger] t.taskstats@[k].field_support),
        decreases t.taskstats.len() - i,
    {
        let f = t.taskstats[i].field_support;
        if !(f.swapin_delay && f.reclaim_delay && f.thrashing_delay && f.compaction_delay
            && f.write_protect_copy_delay) {
            return false;
        }
        i += 1;
    }
    true
}

fn memory_victim_before_exec(a: &ProcessCandidate, b: &ProcessCandidate) -> (r: bool)
    ensures
        r == memory_victim_before(candidate_view(*a), candidate_view(*b)),
{
    let da = match a.evidence {
        ProcessCandidateEvidence::MemoryDelay { .. } => true,
        _ => false,
    };
    let db = match b.evidence {
        ProcessCandidateEvidence::MemoryDelay { .. } => true,
        _ => false,
    };
    let sa = memory_score_exec(&a.evidence);
    let sb = memory_score_exec(&b.evidence);
    (da && !db) || (da == db && sa > sb) || (da == db && sa == sb && key_less(a.key, b.key))
}

fn memory_score_exec(e: &ProcessCandidateEvidence) -> (r: u64)
    ensures
        r == memory_score(*e),
{
    match e {
        ProcessCandidateEvidence::MemoryDelay { largest_delay_ns, .. } => *largest_delay_ns,
        ProcessCandidateEvidence::MajorFaults { major_faults } => *major_faults,
        _ => 0,
    }
}

fn insert_memory_victim(out: &mut Vec<ProcessCandidate>, x: ProcessCandidate)
    ensures
        views(final(out)@) == insert_ranked(views(old(out)@), candidate_view(x), memory_victim_order()),
        forall|k: int| 0 <= k < final(out)@.len() ==> #[trigger] final(out)@[k].role == x.role || exists|
            j: int,
        | 0 <= j < old(out)@.len() && final(out)@[k] == old(out)@[j],
{
    let ghost before = out@;
    let ghost bv = views(before);
    let mut p: usize = 0;
    while p < out.len() && !memory_victim_before_exec(&x, &out[p])
        invariant
            p <= out.len(),
            out@ == before,
            bv == views(before),
            forall|k: int| 0 <= k < p ==> !(memory_victim_order())(candidate_view(x), #[trigger] bv[k]),
        decreases out.len() - p,
    {
        p += 1;
    }
    proof {
        lemma_insert_ranked_at(bv, candidate_view(x), memory_victim_order(), p as int);
    }
    out.insert(p, x);
    proof {
        assert(views(out@) =~= bv.insert(p as int, candidate_view(x)));
        assert forall|k: int| 0 <= k < out@.len() implies #[trigger] out@[k].role == x.role || exists|
            j: int,
        | 0 <= j < before.len() && out@[k] == before[j] by {
            if k < p {
                assert(out@[k] == before[k]);
            } else if k > p {
                assert(out@[k] == before[k - 1]);
            }
        }
    }
}

/// The processes that waited on memory in the window, for memory pressure
/// graded with confidence `pressure` (none when memory was not under
/// pressure) and restricted to `allowed` when a scope is given.
///
/// Taskstats memory delays are direct evidence; a process without one but
/// with major faults is a low-confidence fallback.  Direct evidence ranks
/// first, then the larger delay or fault count, then the smaller key; at
/// most five are listed.  The list is complete only when taskstats with
/// delay accounting covered the whole window.
pub fn memory_victims(
    cpu: Option<&ProcessTelemetry>,
    pressure: Option<Confidence>,
    allowed: Option<&Vec<ProcessKey>>,
) -> (r: ProcessRoleList)
    ensures
        match cpu {
            None => if pressure is None {
                is_unassessed(r, ProcessRole::MemoryVictim)
            } else {
                is_unavailable(r, ProcessRole::MemoryVictim)
            },
            Some(t) => if memory_victims_unsupported(*t, pressure) {
                is_unavailable(r, ProcessRole::MemoryVictim)
            } else {
                role_list_holds(
                    r,
                    ProcessRole::MemoryVictim,
                    pressure,
                    taskstats_complete_for_memory(*t),
                    first_candidates(
                        ranked_by(memory_victim_candidates(*t, pressure, allowed), memory_victim_order()),
                    ),
                )
            },
        },
{
    let t = match cpu {
        Some(t) => t,
        None => return missing_telemetry(ProcessRole::MemoryVictim, pressure),
    };
    if pressure.is_some() && !(t.taskstats_capability == TaskstatsCapability::Available
        || t.taskstats_capability == TaskstatsCapability::Partial)
        && t.process_resource_evidence.len() == 0 {
        return unavailable(ProcessRole::MemoryVictim);
    }
    let complete = taskstats_complete_for_memory_exec(t);
    let confidence = match pressure {
        Some(c) => c,
        None => Confidence::Low,
    };
    let ghost all = memory_victim_candidates(*t, pressure, allowed);
    let ghost direct = delay_victims(t.taskstats@, *t, allowed, confidence);
    let mut direct_keys: Vec<ProcessKey> = Vec::new();
    let mut ranked: Vec<ProcessCandidate> = Vec::new();
    let mut n: usize = 0;
    let mut i: usize = 0;
    while i < t.taskstats.len()
        invariant
            i <= t.taskstats.len(),
            n <= i,
            direct == delay_victims(t.taskstats@, *t, allowed, confidence),
            all == direct + fault_victims(t.process_resource_evidence@, direct, allowed),
            delay_victims(t.taskstats@.take(i as int), *t, allowed, confidence) == all.take(n as int),
            n <= direct.len(),
            direct_keys@.len() == n,
            forall|j: int| 0 <= j < n ==> #[trigger] direct_keys@[j] == all[j].0,
            views(ranked@) == ranked_by(all.take(n as int), memory_victim_order()),
            forall|k: int| 0 <= k < ranked@.len() ==> #[trigger] ranked@[k].role == ProcessRole::MemoryVictim,
        decreases t.taskstats.len() - i,
    {
        proof {
            lemma_delay_victims_prefix(t.taskstats@, *t, allowed, confidence, i as int);
        }
        assert(t.taskstats@.take(i + 1).drop_last() =~= t.taskstats@.take(i as int));
        assert(t.taskstats@.take(i + 1).last() == t.taskstats@[i as int]);
        let item = &t.taskstats[i];
        if in_scope_exec(item.key, allowed) {
            if let Some((name, d)) = largest_memory_delay_exec(item) {
                let c = ProcessCandidate {
                    role: ProcessRole::MemoryVictim,
                    key: item.key,
                    name: name_of(t, item.key),
                    confidence,
                    label: "observed_taskstats_memory_delay_victim_candidate",
                    evidence: ProcessCandidateEvidence::MemoryDelay {
                        largest_component: name,
                        largest_delay_ns: d,
                        swapin_delay_ns: item.swapin_delay_ns,
                        reclaim_delay_ns: item.reclaim_delay_ns,
                        thrashing_delay_ns: item.thrashing_delay_ns,
                        compaction_delay_ns: item.compaction_delay_ns,
                        write_protect_copy_delay_ns: item.write_protect_copy_delay_ns,
                    },
                };
                let ghost prev = delay_victims(t.taskstats@.take(i as int), *t, allowed, confidence);
                let ghost next = delay_victims(t.taskstats@.take(i + 1), *t, allowed, confidence);
                assert(next == prev.push(candidate_view(c)));
                assert(direct.take(next.len() as int) == next);
                assert(direct[n as int] == next[n as int]);
                assert(all[n as int] == direct[n as int]);
                assert(all.take(n + 1) =~= all.take(n as int).push(all[n as int]));
                assert(candidate_view(c) == all[n as int]);
                proof {
                    lemma_ranked_step(all, n as int, memory_victim_order());
                }
                direct_keys.push(item.key);
                insert_memory_victim(&mut ranked, c);
                n += 1;
            }
        }
        i += 1;
    }
    assert(t.taskstats@.take(t.taskstats@.len() as int) =~= t.taskstats@);
    assert(n == direct.len());
    let ghost faults = fault_victims(t.process_resource_evidence@, direct, allowed);
    let mut m: usize = 0;
    let mut i: usize = 0;
    while i < t.process_resource_evidence.len()
        invariant
            i <= t.process_resource_evidence.len(),
            m <= i,
            direct == delay_victims(t.taskstats@, *t, allowed, confidence),
            faults == fault_victims(t.process_resource_evidence@, direct, allowed),
            all == direct + faults,
            n == direct.len(),
            fault_victims(t.process_resource_evidence@.take(i as int), direct, allowed) == faults.take(
                m as int,
            ),
            m <= faults.len(),
            direct_keys@.len() == n,
            forall|j: int| 0 <= j < n ==> #[trigger] direct_keys@[j] == direct[j].0,
            views(ranked@) == ranked_by(all.take(n + m), memory_victim_order()),
            forall|k: int| 0 <= k < ranked@.len() ==> #[trigger] ranked@[k].role == ProcessRole::MemoryVictim,
        decreases t.process_resource_evidence.len() - i,
    {
        proof {
            lemma_fault_victims_prefix(t.process_resource_evidence@, direct, allowed, i as int);
        }
        let ghost rs = t.process_resource_evidence@;
        assert(rs.take(i + 1).drop_last() =~= rs.take(i as int));
        assert(rs.take(i + 1).last() == rs[i as int]);
        let item = &t.process_resource_evidence[i];
        if in_scope_exec(item.key, allowed) && !contains_key(&direct_keys, item.key) {
            proof {
                assert(!has_key(direct, item.key)) by {
                    if has_key(direct, item.key) {
                        let j = choose|j: int| 0 <= j < direct.len() && (#[trigger] direct[j]).0 == item.key;
                        assert(direct_keys@[j] == direct[j].0);
                    }
                }
            }
            match item.major_faults {
                Some(v) => if v > 0 {
                    let c = ProcessCandidate {
                        role: ProcessRole::MemoryVictim,
                        key: item.key,
                        name: item.name.clone(),
                        confidence: Confidence::Low,
                        label: "major_fault_memory_victim_candidate",
                        evidence: ProcessCandidateEvidence::MajorFaults { major_faults: v },
                    };
                    let ghost prev = fault_victims(rs.take(i as int), direct, allowed);
                    let ghost next = fault_victims(rs.take(i + 1), direct, allowed);
                    assert(next == prev.push(candidate_view(c)));
                    assert(faults.take(next.len() as int) == next);
                    assert(faults[m as int] == next[m as int]);
                    assert(all[n + m] == faults[m as int]);
                    assert(all.take(n + m + 1) =~= all.take(n + m).push(all[n + m]));
                    assert(candidate_view(c) == all[n + m]);
                    proof {
                        lemma_ranked_step(all, n + m, memory_victim_order());
                    }
                    insert_memory_victim(&mut ranked, c);
                    m += 1;
                },
                None => {},
            }
        } else {
            proof {
                if in_scope(item.key, allowed) {
                    let j = choose|j: int| 0 <= j < direct_keys@.len() && direct_keys@[j] == item.key;
                    assert(direct[j].0 == item.key);
                    assert(has_key(direct, item.key));
                }
            }
        }
        i += 1;
    }
    let ghost rs = t.process_resource_evidence@;
    assert(rs.take(rs.len() as int) =~= rs);
    assert(m == faults.len());
    assert(all.take(n + m) =~= all);
    let ghost full = views(ranked@);
    if ranked.len() > MAX_ROLE_CANDIDATES {
        ranked.truncate(MAX_ROLE_CANDIDATES);
    }
    assert(views(ranked@) =~= first_candidates(full));
    match pressure {
        None => unassessed(ProcessRole::MemoryVictim),
        Some(_) => ProcessRoleList {
            role: ProcessRole::MemoryVictim,
            availability: if complete {
                ProcessCandidateAvailability::Available
            } else {
                ProcessCandidateAvailability::UnavailableOrIncomplete
            },
            completeness: if complete {
                ProcessRoleCompleteness::Complete
            } else {
                ProcessRoleCompleteness::Partial
            },
            stale: false,
            candidates: ranked,
        },
    }
}

/// The memory victims of a window are listed strongest first (direct delay
/// evidence before a fault hint, then the larger delay or fault count, then
/// the smaller key), at most five, and each listed victim is a candidate of
/// the window.
pub proof fn lemma_memory_victims_ranked(
    t: ProcessTelemetry,
    pressure: Option<Confidence>,
    allowed: Option<&Vec<ProcessKey>>,
)
    ensures
        sorted_by(
            first_candidates(ranked_by(memory_victim_candidates(t, pressure, allowed), memory_victim_order())),
            memory_victim_order(),
        ),
        first_candidates(
            ranked_by(memory_victim_candidates(t, pressure, allowed), memory_victim_order()),
        ).len() <= MAX_ROLE_CANDIDATES,
        forall|k: int|
            0 <= k < first_candidates(
                ranked_by(memory_victim_candidates(t, pressure, allowed), memory_victim_order()),
            ).len() ==> memory_victim_candidates(t, pressure, allowed).contains(
                #[trigger] first_candidates(
                    ranked_by(memory_victim_candidates(t, pressure, allowed), memory_victim_order()),
                )[k],
            ),
{
    let all = memory_victim_candidates(t, pressure, allowed);
    let order = memory_victim_order();
    assert forall|a: CandidateView, b: CandidateView, c: CandidateView|
        #[trigger] order(a, b) && #[trigger] order(b, c) implies order(a, c) by {}
    assert(strict_order(order));
    lemma_ranked_sorted(all, order);
    let r = ranked_by(all, order);
    if r.len() > MAX_ROLE_CANDIDATES {
        lemma_sorted_prefix(r, order, MAX_ROLE_CANDIDATES as int);
    }
    let f = first_candidates(r);
    assert forall|k: int| 0 <= k < f.len() implies all.contains(#[trigger] f[k]) by {
        assert(f[k] == r[k]);
        assert(r.to_multiset().count(r[k]) > 0) by {
            r.to_multiset_ensures();
            assert(r.contains(r[k]));
        }
        all.to_multiset_ensures();
    }
}

fn contains_key(keys: &Vec<ProcessKey>, k: ProcessKey) -> (r: bool)
    ensures
        r == keys@.contains(k),
{
    let mut i: usize = 0;
    while i < keys.len()
        invariant
            i <= keys.len(),
            forall|j: int| 0 <= j < i ==> keys@[j] != k,
        decreases keys.len() - i,
    {
        if keys[i] == k {
            return true;
        }
        i += 1;
    }
    false
}

proof fn lemma_ranked_step(
    s: Seq<CandidateView>,
    k: int,
    order: spec_fn(CandidateView, CandidateView) -> bool,
)
    requires
        0 <= k < s.len(),
    ensures
        ranked_by(s.take(k + 1), order) == insert_ranked(ranked_by(s.take(k), order), s[k], order),
{
    assert(s.take(k + 1).drop_last() =~= s.take(k));
    assert(s.take(k + 1).last() == s[k]);
}

proof fn lemma_delay_victims_prefix(
    ts: Seq<TaskstatsInterval>,
    t: ProcessTelemetry,
    allowed: Option<&Vec<ProcessKey>>,
    confidence: Confidence,
    i: int,
)
    requires
        0 <= i < ts.len(),
    ensures
        delay_victims(ts.take(i), t, allowed, confidence).len() <= delay_victims(ts.take(i + 1), t, allowed, confidence).len(),
        delay_victims(ts.take(i + 1), t, allowed, confidence).len() <= delay_victims(ts, t, allowed, confidence).len(),
        delay_victims(ts, t, allowed, confidence).take(delay_victims(ts.take(i + 1), t, allowed, confidence).len() as int)
            == delay_victims(ts.take(i + 1), t, allowed, confidence),
    decreases ts.len() - i,
{
    assert(ts.take(i + 1).drop_last() =~= ts.take(i));
    if i + 1 == ts.len() {
        assert(ts.take(i + 1) =~= ts);
        let d = delay_victims(ts, t, allowed, confidence);
        assert(d.take(d.len() as int) =~= d);
    } else {
        lemma_delay_victims_prefix(ts, t, allowed, confidence, i + 1);
        let a = delay_victims(ts.take(i + 1), t, allowed, confidence);
        let b = delay_victims(ts.take(i + 2), t, allowed, confidence);
        let d = delay_victims(ts, t, allowed, confidence);
        assert(ts.take(i + 2).drop_last() =~= ts.take(i + 1));
        assert(b.take(a.len() as int) =~= a);
        assert(d.take(a.len() as int) =~= d.take(b.len() as int).take(a.len() as int));
    }
}

proof fn lemma_fault_victims_prefix(
    rs: Seq<ProcessResourceInterval>,
    direct: Seq<CandidateView>,
    allowed: Option<&Vec<ProcessKey>>,
    i: int,
)
    requires
        0 <= i < rs.len(),
    ensures
        fault_victims(rs.take(i), direct, allowed).len() <= fault_victims(rs.take(i + 1), direct, allowed).len(),
        fault_victims(rs.take(i + 1), direct, allowed).len() <= fault_victims(rs, direct, allowed).len(),
        fault_victims(rs, direct, allowed).take(fault_victims(rs.take(i + 1), direct, allowed).len() as int)
            == fault_victims(rs.take(i + 1), direct, allowed),
    decreases rs.len() - i,
{
    assert(rs.take(i + 1).drop_last() =~= rs.take(i));
    if i + 1 == rs.len() {
        assert(rs.take(i + 1) =~= rs);
        let d = fault_victims(rs, direct, allowed);
        assert(d.take(d.len() as int) =~= d);
    } else {
        lemma_fault_victims_prefix(rs, direct, allowed, i + 1);
        let a = fault_victims(rs.take(i + 1), direct, allowed);
        let b = fault_victims(rs.take(i + 2), direct, allowed);
        let d = fault_victims(rs, direct, allowed);
        assert(rs.take(i + 2).drop_last() =~= rs.take(i + 1));
        assert(b.take(a.len() as int) =~= a);
        assert(d.take(a.len() as int) =~= d.take(b.len() as int).take(a.len() as int));
    }
}


// ---------------------------------------------------------------------------
// I/O suspects
// ---------------------------------------------------------------------------

/// The lower of two confidences.
pub open spec fn lower_confidence(a: Confidence, b: Confidence) -> Confidence {
    if confidence_level(a) <= confidence_level(b) {
        a
    } else {
        b
    }
}

fn lower_confidence_exec(a: Confidence, b: Confidence) -> (r: Confidence)
    ensures
        r == lower_confidence(a, b),
{
    if confidence_rank(a) <= confidence_rank(b) {
        a
    } else {
        b
    }
}

/// The bytes a process is known to have read and written.
pub open spec fn known_io_bytes(p: ProcessIoInterval) -> u128 {
    (or_zero(p.read_bytes) + or_zero(p.write_bytes)) as u128
}

/// The processes in scope that read or wrote in the window, in observation
/// order; same-window activity is no proof of cause, so at most medium
/// confidence.
pub open spec fn io_activity_suspects(
    ps: Seq<ProcessIoInterval>,
    allowed: Option<&Vec<ProcessKey>>,
    confidence: Confidence,
) -> Seq<CandidateView>
    decreases ps.len(),
{
    if ps.len() == 0 {
        Seq::empty()
    } else {
        let prev = io_activity_suspects(ps.drop_last(), allowed, confidence);
        let p = ps.last();
        if in_scope(p.key, allowed) && known_io_bytes(p) > 0 {
            prev.push(
                (
                    p.key,
                    p.name@,
                    confidence,
                    "same_window_process_io_activity_suspect",
                    ProcessCandidateEvidence::IoActivity {
                        read_bytes: p.read_bytes,
                        write_bytes: p.write_bytes,
                        cancelled_write_bytes: p.cancelled_write_bytes,
                        known_accounted_bytes: known_io_bytes(p),
                    },
                ),
            )
        } else {
            prev
        }
    }
}

pub open spec fn io_activity_score(e: ProcessCandidateEvidence) -> u128 {
    match e {
        ProcessCandidateEvidence::IoActivity { known_accounted_bytes, .. } => known_accounted_bytes,
        _ => 0,
    }
}

/// More known bytes first, then the smaller key.
pub open spec fn io_suspect_before(a: CandidateView, b: CandidateView) -> bool {
    ||| io_activity_score(a.4) > io_activity_score(b.4)
    ||| io_activity_score(a.4) == io_activity_score(b.4) && key_lt(a.0, b.0)
}

pub open spec fn io_suspect_order() -> spec_fn(CandidateView, CandidateView) -> bool {
    |a: CandidateView, b: CandidateView| io_suspect_before(a, b)
}

/// Every I/O suspect before ranking.
pub open spec fn io_suspect_candidates(
    o: ProcessIoObservation,
    pressure: Option<Confidence>,
    allowed: Option<&Vec<ProcessKey>>,
) -> Seq<CandidateView> {
    let pressure_confidence = match pressure {
        Some(c) => c,
        None => Confidence::Low,
    };
    io_activity_suspects(o.processes@, allowed, lower_confidence(Confidence::Medium, pressure_confidence))
}

fn io_activity_score_exec(e: &ProcessCandidateEvidence) -> (r: u128)
    ensures
        r == io_activity_score(*e),
{
    match e {
        ProcessCandidateEvidence::IoActivity { known_accounted_bytes, .. } => *known_accounted_bytes,
        _ => 0,
    }
}

fn io_suspect_before_exec(a: &ProcessCandidate, b: &ProcessCandidate) -> (r: bool)
    ensures
        r == io_suspect_before(candidate_view(*a), candidate_view(*b)),
{
    let sa = io_activity_score_exec(&a.evidence);
    let sb = io_activity_score_exec(&b.evidence);
    sa > sb || (sa == sb && key_less(a.key, b.key))
}

fn insert_io_suspect(out: &mut Vec<ProcessCandidate>, x: ProcessCandidate)
    ensures
        views(final(out)@) == insert_ranked(views(old(out)@), candidate_view(x), io_suspect_order()),
        forall|k: int| 0 <= k < final(out)@.len() ==> #[trigger] final(out)@[k].role == x.role || exists|
            j: int,
        | 0 <= j < old(out)@.len() && final(out)@[k] == old(out)@[j],
{
    let ghost before = out@;
    let ghost bv = views(before);
    let mut p: usize = 0;
    while p < out.len() && !io_suspect_before_exec(&x, &out[p])
        invariant
            p <= out.len(),
            out@ == before,
            bv == views(before),
            forall|k: int| 0 <= k < p ==> !(io_suspect_order())(candidate_view(x), #[trigger] bv[k]),
        decreases out.len() - p,
    {
        p += 1;
    }
    proof {
        lemma_insert_ranked_at(bv, candidate_view(x), io_suspect_order(), p as int);
    }
    out.insert(p, x);
    proof {
        assert(views(out@) =~= bv.insert(p as int, candidate_view(x)));
        assert forall|k: int| 0 <= k < out@.len() implies #[trigger] out@[k].role == x.role || exists|
            j: int,
        | 0 <= j < before.len() && out@[k] == before[j] by {
            if k < p {
                assert(out@[k] == before[k]);
            } else if k > p {
                assert(out@[k] == before[k - 1]);
            }
        }
    }
}

/// The processes that read or wrote in the window of I/O pressure graded
/// with confidence `pressure` (none when I/O was not under pressure),
/// restricted to `allowed` when a scope is given: the most known bytes
/// first, then the smaller key, at most five.  The list is complete when
/// process I/O was fully available.
pub fn io_suspects_role(
    process_io: Option<&ProcessIoObservation>,
    pressure: Option<Confidence>,
    allowed: Option<&Vec<ProcessKey>>,
) -> (r: ProcessRoleList)
    ensures
        match process_io {
            None => if pressure is None {
                is_unassessed(r, ProcessRole::IoSuspect)
            } else {
                is_unavailable(r, ProcessRole::IoSuspect)
            },
            Some(o) => role_list_holds(
                r,
                ProcessRole::IoSuspect,
                pressure,
                o.capability == IoCapability::Available,
                first_candidates(ranked_by(io_suspect_candidates(*o, pressure, allowed), io_suspect_order())),
            ),
        },
{
    let o = match process_io {
        Some(o) => o,
        None => return missing_telemetry(ProcessRole::IoSuspect, pressure),
    };
    let complete = o.capability == IoCapability::Available;
    let pressure_confidence = match pressure {
        Some(c) => c,
        None => Confidence::Low,
    };
    let confidence = lower_confidence_exec(Confidence::Medium, pressure_confidence);
    let ghost all = io_suspect_candidates(*o, pressure, allowed);
    let mut ranked: Vec<ProcessCandidate> = Vec::new();
    let mut n: usize = 0;
    let mut i: usize = 0;
    while i < o.processes.len()
        invariant
            i <= o.processes.len(),
            n <= i,
            all == io_activity_suspects(o.processes@, allowed, confidence),
            io_activity_suspects(o.processes@.take(i as int), allowed, confidence) == all.take(n as int),
            n <= all.len(),
            views(ranked@) == ranked_by(all.take(n as int), io_suspect_order()),
            forall|k: int| 0 <= k < ranked@.len() ==> #[trigger] ranked@[k].role == ProcessRole::IoSuspect,
        decreases o.processes.len() - i,
    {
        proof {
            lemma_io_suspects_prefix(o.processes@, allowed, confidence, i as int);
        }
        let ghost ps = o.processes@;
        assert(ps.take(i + 1).drop_last() =~= ps.take(i as int));
        assert(ps.take(i + 1).last() == ps[i as int]);
        let p = &o.processes[i];
        let read: u64 = match p.read_bytes {
            Some(v) => v,
            None => 0,
        };
        let write: u64 = match p.write_bytes {
            Some(v) => v,
            None => 0,
        };
        let known: u128 = read as u128 + write as u128;
        if in_scope_exec(p.key, allowed) && known > 0 {
            let c = ProcessCandidate {
                role: ProcessRole::IoSuspect,
                key: p.key,
                name: p.name.clone(),
                confidence,
                label: "same_window_process_io_activity_suspect",
                evidence: ProcessCandidateEvidence::IoActivity {
                    read_bytes: p.read_bytes,
                    write_bytes: p.write_bytes,
                    cancelled_write_bytes: p.cancelled_write_bytes,
                    known_accounted_bytes: known,
                },
            };
            let ghost prev = io_activity_suspects(ps.take(i as int), allowed, confidence);
            let ghost next = io_activity_suspects(ps.take(i + 1), allowed, confidence);
            assert(next == prev.push(candidate_view(c)));
            assert(all.take(next.len() as int) == next);
            assert(all[n as int] == next[n as int]);
            assert(all.take(n + 1) =~= all.take(n as int).push(all[n as int]));
            proof {
                lemma_ranked_step(all, n as int, io_suspect_order());
            }
            insert_io_suspect(&mut ranked, c);
            n += 1;
        }
        i += 1;
    }
    let ghost ps = o.processes@;
    assert(ps.take(ps.len() as int) =~= ps);
    assert(all.take(n as int) =~= all);
    let ghost full = views(ranked@);
    if ranked.len() > MAX_ROLE_CANDIDATES {
        ranked.truncate(MAX_ROLE_CANDIDATES);
    }
    assert(views(ranked@) =~= first_candidates(full));
    match pressure {
        None => unassessed(ProcessRole::IoSuspect),
        Some(_) => ProcessRoleList {
            role: ProcessRole::IoSuspect,
            availability: if complete {
                ProcessCandidateAvailability::Available
            } else {
                ProcessCandidateAvailability::UnavailableOrIncomplete
            },
            completeness: if complete {
                ProcessRoleCompleteness::Complete
            } else {
                ProcessRoleCompleteness::Partial
            },
            stale: false,
            candidates: ranked,
        },
    }
}

proof fn lemma_io_suspects_prefix(
    ps: Seq<ProcessIoInterval>,
    allowed: Option<&Vec<ProcessKey>>,
    confidence: Confidence,
    i: int,
)
    requires
        0 <= i < ps.len(),
    ensures
        io_activity_suspects(ps.take(i), allowed, confidence).len() <= io_activity_suspects(ps.take(i + 1), allowed, confidence).len(),
        io_activity_suspects(ps.take(i + 1), allowed, confidence).len() <= io_activity_suspects(ps, allowed, confidence).len(),
        io_activity_suspects(ps, allowed, confidence).take(io_activity_suspects(ps.take(i + 1), allowed, confidence).len() as int)
            == io_activity_suspects(ps.take(i + 1), allowed, confidence),
    decreases ps.len() - i,
{
    assert(ps.take(i + 1).drop_last() =~= ps.take(i));
    if i + 1 == ps.len() {
        assert(ps.take(i + 1) =~= ps);
        let d = io_activity_suspects(ps, allowed, confidence);
        assert(d.take(d.len() as int) =~= d);
    } else {
        lemma_io_suspects_prefix(ps, allowed, confidence, i + 1);
        let a = io_activity_suspects(ps.take(i + 1), allowed, confidence);
        let b = io_activity_suspects(ps.take(i + 2), allowed, confidence);
        let d = io_activity_suspects(ps, allowed, confidence);
        assert(ps.take(i + 2).drop_last() =~= ps.take(i + 1));
        assert(b.take(a.len() as int) =~= a);
        assert(d.take(a.len() as int) =~= d.take(b.len() as int).take(a.len() as int));
    }
}


// ---------------------------------------------------------------------------
// Memory suspects
// ---------------------------------------------------------------------------

/// The processes in scope whose resident memory grew, in resource-evidence
/// order; growth is only a hint, so low confidence.
pub open spec fn rss_suspects(rs: Seq<ProcessResourceInterval>, allowed: Option<&Vec<ProcessKey>>) -> Seq<
    CandidateView,
>
    decreases rs.len(),
{
    if rs.len() == 0 {
        Seq::empty()
    } else {
        let prev = rss_suspects(rs.drop_last(), allowed);
        let item = rs.last();
        if in_scope(item.key, allowed) && item.rss_growth_bytes is Some && item.rss_growth_bytes->0 > 0 {
            prev.push(
                (
                    item.key,
                    item.name@,
                    Confidence::Low,
                    "rss_growth_memory_suspect",
                    ProcessCandidateEvidence::RssGrowth { rss_growth_bytes: item.rss_growth_bytes->0 },
                ),
            )
        } else {
            prev
        }
    }
}

pub open spec fn rss_score(e: ProcessCandidateEvidence) -> u64 {
    match e {
        ProcessCandidateEvidence::RssGrowth { rss_growth_bytes } => rss_growth_bytes,
        _ => 0,
    }
}

/// More growth first, then the smaller key.
pub open spec fn memory_suspect_before(a: CandidateView, b: CandidateView) -> bool {
    ||| rss_score(a.4) > rss_score(b.4)
    ||| rss_score(a.4) == rss_score(b.4) && key_lt(a.0, b.0)
}

pub open spec fn memory_suspect_order() -> spec_fn(CandidateView, CandidateView) -> bool {
    |a: CandidateView, b: CandidateView| memory_suspect_before(a, b)
}

/// Growth is known for every process of a complete window, and no value
/// overflowed.
pub open spec fn rss_complete(t: ProcessTelemetry) -> bool {
    &&& process_window_complete(t)
    &&& forall|k: int|
        0 <= k < t.process_resource_evidence@.len() ==> (#[trigger] t.process_resource_evidence@[k]).rss_growth_bytes is Some
    &&& t.collection_issues.resource_value_overflow == 0
}

/// The memory suspects have no source: pressure asked for them and the
/// resource deltas were not collected.
pub open spec fn memory_suspects_unsupported(t: ProcessTelemetry, pressure: Option<Confidence>) -> bool {
    pressure is Some && (t.resource_capability == ProcessResourceCapability::Unavailable
        || t.resource_capability == ProcessResourceCapability::NotRecorded)
}

fn rss_complete_exec(t: &ProcessTelemetry) -> (r: bool)
    ensures
        r == rss_complete(*t),
{
    if !window_complete_exec(t) || t.collection_issues.resource_value_overflow != 0 {
        return false;
    }
    let mut i: usize = 0;
    while i < t.process_resource_evidence.len()
        invariant
            i <= t.process_resource_evidence.len(),
            forall|k: int| 0 <= k < i ==> (#[trigger] t.process_resource_evidence@[k]).rss_growth_bytes is Some,
        decreases t.process_resource_evidence.len() - i,
    {
        if t.process_resource_evidence[i].rss_growth_bytes.is_none() {
            return false;
        }
        i += 1;
    }
    true
}

fn rss_score_exec(e: &ProcessCandidateEvidence) -> (r: u64)
    ensures
        r == rss_score(*e),
{
    match e {
        ProcessCandidateEvidence::RssGrowth { rss_growth_bytes } => *rss_growth_bytes,
        _ => 0,
    }
}

fn memory_suspect_before_exec(a: &ProcessCandidate, b: &ProcessCandidate) -> (r: bool)
    ensures
        r == memory_suspect_before(candidate_view(*a), candidate_view(*b)),
{
    let sa = rss_score_exec(&a.evidence);
    let sb = rss_score_exec(&b.evidence);
    sa > sb || (sa == sb && key_less(a.key, b.key))
}

fn insert_memory_suspect(out: &mut Vec<ProcessCandidate>, x: ProcessCandidate)
    ensures
        views(final(out)@) == insert_ranked(views(old(out)@), candidate_view(x), memory_suspect_order()),
        forall|k: int| 0 <= k < final(out)@.len() ==> #[trigger] final(out)@[k].role == x.role || exists|
            j: int,
        | 0 <= j < old(out)@.len() && final(out)@[k] == old(out)@[j],
{
    let ghost before = out@;
    let ghost bv = views(before);
    let mut p: usize = 0;
    while p < out.len() && !memory_suspect_before_exec(&x, &out[p])
        invariant
            p <= out.len(),
            out@ == before,
            bv == views(before),
            forall|k: int| 0 <= k < p ==> !(memory_suspect_order())(candidate_view(x), #[trigger] bv[k]),
        decreases out.len() - p,
    {
        p += 1;
    }
    proof {
        lemma_insert_ranked_at(bv, candidate_view(x), memory_suspect_order(), p as int);
    }
    out.insert(p, x);
    proof {
        assert(views(out@) =~= bv.insert(p as int, candidate_view(x)));
        assert forall|k: int| 0 <= k < out@.len() implies #[trigger] out@[k].role == x.role || exists|
            j: int,
        | 0 <= j < before.len() && out@[k] == before[j] by {
            if k < p {
                assert(out@[k] == before[k]);
            } else if k > p {
                assert(out@[k] == before[k - 1]);
            }
        }
    }
}

/// The processes whose resident memory grew in the window, for memory
/// pressure graded with confidence `pressure` (none when memory was not
/// under pressure), restricted to `allowed` when a scope is given: the most
/// growth first, then the smaller key, at most five, all of low confidence.
/// The list is complete only when growth is known for every process of a
/// complete window.
pub fn memory_suspects(
    cpu: Option<&ProcessTelemetry>,
    pressure: Option<Confidence>,
    allowed: Option<&Vec<ProcessKey>>,
) -> (r: ProcessRoleList)
    ensures
        match cpu {
            None => if pressure is None {
                is_unassessed(r, ProcessRole::MemorySuspect)
            } else {
                is_unavailable(r, ProcessRole::MemorySuspect)
            },
            Some(t) => if memory_suspects_unsupported(*t, pressure) {
                is_unavailable(r, ProcessRole::MemorySuspect)
            } else {
                role_list_holds(
                    r,
                    ProcessRole::MemorySuspect,
                    pressure,
                    rss_complete(*t),
                    first_candidates(
                        ranked_by(rss_suspects(t.process_resource_evidence@, allowed), memory_suspect_order()),
                    ),
                )
            },
        },
{
    let t = match cpu {
        Some(t) => t,
        None => return missing_telemetry(ProcessRole::MemorySuspect, pressure),
    };
    if pressure.is_some() && (t.resource_capability == ProcessResourceCapability::Unavailable
        || t.resource_capability == ProcessResourceCapability::NotRecorded) {
        return unavailable(ProcessRole::MemorySuspect);
    }
    let complete = rss_complete_exec(t);
    let ghost all = rss_suspects(t.process_resource_evidence@, allowed);
    let mut ranked: Vec<ProcessCandidate> = Vec::new();
    let mut n: usize = 0;
    let mut i: usize = 0;
    while i < t.process_resource_evidence.len()
        invariant
            i <= t.process_resource_evidence.len(),
            n <= i,
            all == rss_suspects(t.process_resource_evidence@, allowed),
            rss_suspects(t.process_resource_evidence@.take(i as int), allowed) == all.take(n as int),
            n <= all.len(),
            views(ranked@) == ranked_by(all.take(n as int), memory_suspect_order()),
            forall|k: int| 0 <= k < ranked@.len() ==> #[trigger] ranked@[k].role == ProcessRole::MemorySuspect,
        decreases t.process_resource_evidence.len() - i,
    {
        proof {
            lemma_rss_suspects_prefix(t.process_resource_evidence@, allowed, i as int);
        }
        let ghost rs = t.process_resource_evidence@;
        assert(rs.take(i + 1).drop_last() =~= rs.take(i as int));
        assert(rs.take(i + 1).last() == rs[i as int]);
        let item = &t.process_resource_evidence[i];
        if in_scope_exec(item.key, allowed) {
            match item.rss_growth_bytes {
                Some(v) => if v > 0 {
                    let c = ProcessCandidate {
                        role: ProcessRole::MemorySuspect,
                        key: item.key,
                        name: item.name.clone(),
                        confidence: Confidence::Low,
                        label: "rss_growth_memory_suspect",
                        evidence: ProcessCandidateEvidence::RssGrowth { rss_growth_bytes: v },
                    };
                    let ghost prev = rss_suspects(rs.take(i as int), allowed);
                    let ghost next = rss_suspects(rs.take(i + 1), allowed);
                    assert(next == prev.push(candidate_view(c)));
                    assert(all.take(next.len() as int) == next);
                    assert(all[n as int] == next[n as int]);
                    assert(all.take(n + 1) =~= all.take(n as int).push(all[n as int]));
                    proof {
                        lemma_ranked_step(all, n as int, memory_suspect_order());
                    }
                    insert_memory_suspect(&mut ranked, c);
                    n += 1;
                },
                None => {},
            }
        }
        i += 1;
    }
    let ghost rs = t.process_resource_evidence@;
    assert(rs.take(rs.len() as int) =~= rs);
    assert(all.take(n as int) =~= all);
    let ghost full = views(ranked@);
    if ranked.len() > MAX_ROLE_CANDIDATES {
        ranked.truncate(MAX_ROLE_CANDIDATES);
    }
    assert(views(ranked@) =~= first_candidates(full));
    match pressure {
        None => unassessed(ProcessRole::MemorySuspect),
        Some(_) => ProcessRoleList {
            role: ProcessRole::MemorySuspect,
            availability: if complete {
                ProcessCandidateAvailability::Available
            } else {
                ProcessCandidateAvailability::UnavailableOrIncomplete
            },
            completeness: if complete {
                ProcessRoleCompleteness::Complete
            } else {
                ProcessRoleCompleteness::Partial
            },
            stale: false,
            candidates: ranked,
        },
    }
}

proof fn lemma_rss_suspects_prefix(rs: Seq<ProcessResourceInterval>, allowed: Option<&Vec<ProcessKey>>, i: int)
    requires
        0 <= i < rs.len(),
    ensures
        rss_suspects(rs.take(i), allowed).len() <= rss_suspects(rs.take(i + 1), allowed).len(),
        rss_suspects(rs.take(i + 1), allowed).len() <= rss_suspects(rs, allowed).len(),
        rss_suspects(rs, allowed).take(rss_suspects(rs.take(i + 1), allowed).len() as int) == rss_suspects(
            rs.take(i + 1),
            allowed,
        ),
    decreases rs.len() - i,
{
    assert(rs.take(i + 1).drop_last() =~= rs.take(i));
    if i + 1 == rs.len() {
        assert(rs.take(i + 1) =~= rs);
        let d = rss_suspects(rs, allowed);
        assert(d.take(d.len() as int) =~= d);
    } else {
        lemma_rss_suspects_prefix(rs, allowed, i + 1);
        let a = rss_suspects(rs.take(i + 1), allowed);
        let b = rss_suspects(rs.take(i + 2), allowed);
        let d = rss_suspects(rs, allowed);
        assert(rs.take(i + 2).drop_last() =~= rs.take(i + 1));
        assert(b.take(a.len() as int) =~= a);
        assert(d.take(a.len() as int) =~= d.take(b.len() as int).take(a.len() as int));
    }
}


// ---------------------------------------------------------------------------
// I/O victims
// ---------------------------------------------------------------------------

/// The last taskstats entry of `k`, as a map built from the entries in
/// order keeps it.
pub open spec fn last_taskstats(ts: Seq<TaskstatsInterval>, k: ProcessKey) -> Option<TaskstatsInterval>
    decreases ts.len(),
{
    if ts.len() == 0 {
        None
    } else if ts.last().key == k {
        Some(ts.last())
    } else {
        last_taskstats(ts.drop_last(), k)
    }
}

/// The first resource entry of `k`.
pub open spec fn first_resource(rs: Seq<ProcessResourceInterval>, k: ProcessKey) -> Option<
    ProcessResourceInterval,
>
    decreases rs.len(),
{
    if rs.len() == 0 {
        None
    } else if rs[0].key == k {
        Some(rs[0])
    } else {
        first_resource(rs.drop_first(), k)
    }
}

pub open spec fn add_key(s: Seq<ProcessKey>, k: ProcessKey) -> Seq<ProcessKey> {
    if s.contains(k) {
        s
    } else {
        s.push(k)
    }
}

/// The keys in scope of the resource entries, each once, in first-seen order.
pub open spec fn resource_keys(rs: Seq<ProcessResourceInterval>, allowed: Option<&Vec<ProcessKey>>) -> Seq<
    ProcessKey,
>
    decreases rs.len(),
{
    if rs.len() == 0 {
        Seq::empty()
    } else {
        let prev = resource_keys(rs.drop_last(), allowed);
        if in_scope(rs.last().key, allowed) {
            add_key(prev, rs.last().key)
        } else {
            prev
        }
    }
}

/// `base` followed by the keys in scope of the taskstats entries not yet
/// listed, each once.
pub open spec fn with_taskstats_keys(
    base: Seq<ProcessKey>,
    ts: Seq<TaskstatsInterval>,
    allowed: Option<&Vec<ProcessKey>>,
) -> Seq<ProcessKey>
    decreases ts.len(),
{
    if ts.len() == 0 {
        base
    } else {
        let prev = with_taskstats_keys(base, ts.drop_last(), allowed);
        if in_scope(ts.last().key, allowed) {
            add_key(prev, ts.last().key)
        } else {
            prev
        }
    }
}

pub open spec fn positive_value(v: Option<u64>) -> bool {
    v is Some && v->0 > 0
}

/// The taskstats block-I/O delay of `k`, when taskstats has it.
pub open spec fn direct_block_delay(t: ProcessTelemetry, k: ProcessKey) -> Option<u64> {
    match last_taskstats(t.taskstats@, k) {
        Some(x) => x.block_io_delay_ns,
        None => None,
    }
}

/// The procfs block-I/O delay of `k`, when its resource entry has it.
pub open spec fn procfs_block_delay(t: ProcessTelemetry, k: ProcessKey) -> Option<u64> {
    match first_resource(t.process_resource_evidence@, k) {
        Some(x) => x.block_io_delay_ticks,
        None => None,
    }
}

/// The candidates among `keys` that waited on block I/O: taskstats delay is
/// direct evidence graded with the pressure's confidence; the procfs delay
/// alone is at most medium.
pub open spec fn block_delay_victims(
    keys: Seq<ProcessKey>,
    t: ProcessTelemetry,
    pressure_confidence: Confidence,
) -> Seq<CandidateView>
    decreases keys.len(),
{
    if keys.len() == 0 {
        Seq::empty()
    } else {
        let prev = block_delay_victims(keys.drop_last(), t, pressure_confidence);
        let k = keys.last();
        let direct = direct_block_delay(t, k);
        let fallback = procfs_block_delay(t, k);
        if positive_value(direct) || positive_value(fallback) {
            prev.push(
                (
                    k,
                    name_for_key(t, k),
                    if positive_value(direct) {
                        pressure_confidence
                    } else {
                        lower_confidence(Confidence::Medium, pressure_confidence)
                    },
                    if positive_value(direct) {
                        "observed_taskstats_block_io_delay_victim_candidate"
                    } else {
                        "observed_procfs_block_io_delay_victim_candidate"
                    },
                    ProcessCandidateEvidence::BlockIoDelay {
                        block_io_delay_ns: direct,
                        procfs_block_io_delay_ticks: fallback,
                    },
                ),
            )
        } else {
            prev
        }
    }
}

/// Every I/O-victim candidate before ranking.
pub open spec fn io_victim_candidates(
    t: ProcessTelemetry,
    pressure: Option<Confidence>,
    allowed: Option<&Vec<ProcessKey>>,
) -> Seq<CandidateView> {
    let pressure_confidence = match pressure {
        Some(c) => c,
        None => Confidence::Low,
    };
    let keys = with_taskstats_keys(
        resource_keys(t.process_resource_evidence@, allowed),
        t.taskstats@,
        allowed,
    );
    block_delay_victims(keys, t, pressure_confidence)
}

pub open spec fn io_direct(e: ProcessCandidateEvidence) -> bool {
    e matches ProcessCandidateEvidence::BlockIoDelay { block_io_delay_ns, .. } && positive_value(
        block_io_delay_ns,
    )
}

pub open spec fn io_victim_score(e: ProcessCandidateEvidence) -> u64 {
    match e {
        ProcessCandidateEvidence::BlockIoDelay { block_io_delay_ns, procfs_block_io_delay_ticks } => if positive_value(
            block_io_delay_ns,
        ) {
            block_io_delay_ns->0
        } else if positive_value(procfs_block_io_delay_ticks) {
            procfs_block_io_delay_ticks->0
        } else {
            0
        },
        _ => 0,
    }
}

/// Direct taskstats evidence first, then the larger delay, then the smaller
/// key.
pub open spec fn io_victim_before(a: CandidateView, b: CandidateView) -> bool {
    let (da, db) = (io_direct(a.4), io_direct(b.4));
    ||| da && !db
    ||| da == db && io_victim_score(a.4) > io_victim_score(b.4)
    ||| da == db && io_victim_score(a.4) == io_victim_score(b.4) && key_lt(a.0, b.0)
}

pub open spec fn io_victim_order() -> spec_fn(CandidateView, CandidateView) -> bool {
    |a: CandidateView, b: CandidateView| io_victim_before(a, b)
}

/// Complete taskstats with delay accounting enabled cover block-I/O delay.
pub open spec fn taskstats_complete_for_io(t: ProcessTelemetry) -> bool {
    &&& t.taskstats_capability == TaskstatsCapability::Available
    &&& t.delay_accounting == DelayAccountingState::Enabled
    &&& process_window_complete(t)
    &&& forall|k: int| 0 <= k < t.taskstats@.len() ==> (#[trigger] t.taskstats@[k]).field_support.block_io_delay
}

/// Complete procfs delay fields cover block-I/O delay.
pub open spec fn procfs_block_io_complete(t: ProcessTelemetry) -> bool {
    &&& t.task_stat_capability == TaskstatsCapability::Available
    &&& t.delay_accounting == DelayAccountingState::Enabled
    &&& process_window_complete(t)
    &&& forall|k: int|
        0 <= k < t.process_resource_evidence@.len() ==> (#[trigger] t.process_resource_evidence@[k]).block_io_delay_ticks is Some
}

fn find_last_taskstats(ts: &Vec<TaskstatsInterval>, k: ProcessKey) -> (r: Option<Option<u64>>)
    ensures
        match r {
            Some(v) => last_taskstats(ts@, k) matches Some(x) && x.block_io_delay_ns == v,
            None => last_taskstats(ts@, k) is None,
        },
{
    let mut i: usize = ts.len();
    assert(ts@.take(ts@.len() as int) =~= ts@);
    while i > 0
        invariant
            i <= ts.len(),
            last_taskstats(ts@, k) == last_taskstats(ts@.take(i as int), k),
        decreases i,
    {
        assert(ts@.take(i as int).drop_last() =~= ts@.take(i - 1));
        assert(ts@.take(i as int).last() == ts@[i - 1]);
        if ts[i - 1].key == k {
            return Some(ts[i - 1].block_io_delay_ns);
        }
        i -= 1;
    }
    None
}

fn find_first_resource(rs: &Vec<ProcessResourceInterval>, k: ProcessKey) -> (r: Option<Option<u64>>)
    ensures
        match r {
            Some(v) => first_resource(rs@, k) matches Some(x) && x.block_io_delay_ticks == v,
            None => first_resource(rs@, k) is None,
        },
{
    let mut i: usize = 0;
    assert(rs@.skip(0) =~= rs@);
    while i < rs.len()
        invariant
            i <= rs.len(),
            first_resource(rs@, k) == first_resource(rs@.skip(i as int), k),
        decreases rs.len() - i,
    {
        assert(rs@.skip(i as int).drop_first() =~= rs@.skip(i + 1));
        if rs[i].key == k {
            return Some(rs[i].block_io_delay_ticks);
        }
        i += 1;
    }
    None
}

fn add_key_exec(keys: &mut Vec<ProcessKey>, k: ProcessKey)
    ensures
        final(keys)@ == add_key(old(keys)@, k),
{
    if !contains_key(keys, k) {
        keys.push(k);
    }
}

fn io_victim_score_exec(e: &ProcessCandidateEvidence) -> (r: u64)
    ensures
        r == io_victim_score(*e),
{
    match e {
        ProcessCandidateEvidence::BlockIoDelay { block_io_delay_ns, procfs_block_io_delay_ticks } => {
            match block_io_delay_ns {
                Some(v) => if *v > 0 {
                    return *v;
                },
                None => {},
            }
            match procfs_block_io_delay_ticks {
                Some(v) => if *v > 0 {
                    return *v;
                },
                None => {},
            }
            0
        },
        _ => 0,
    }
}

fn io_direct_exec(e: &ProcessCandidateEvidence) -> (r: bool)
    ensures
        r == io_direct(*e),
{
    match e {
        ProcessCandidateEvidence::BlockIoDelay { block_io_delay_ns, .. } => match block_io_delay_ns {
            Some(v) => *v > 0,
            None => false,
        },
        _ => false,
    }
}

fn io_victim_before_exec(a: &ProcessCandidate, b: &ProcessCandidate) -> (r: bool)
    ensures
        r == io_victim_before(candidate_view(*a), candidate_view(*b)),
{
    let da = io_direct_exec(&a.evidence);
    let db = io_direct_exec(&b.evidence);
    let sa = io_victim_score_exec(&a.evidence);
    let sb = io_victim_score_exec(&b.evidence);
    (da && !db) || (da == db && sa > sb) || (da == db && sa == sb && key_less(a.key, b.key))
}

fn insert_io_victim(out: &mut Vec<ProcessCandidate>, x: ProcessCandidate)
    ensures
        views(final(out)@) == insert_ranked(views(old(out)@), candidate_view(x), io_victim_order()),
        forall|k: int| 0 <= k < final(out)@.len() ==> #[trigger] final(out)@[k].role == x.role || exists|
            j: int,
        | 0 <= j < old(out)@.len() && final(out)@[k] == old(out)@[j],
{
    let ghost before = out@;
    let ghost bv = views(before);
    let mut p: usize = 0;
    while p < out.len() && !io_victim_before_exec(&x, &out[p])
        invariant
            p <= out.len(),
            out@ == before,
            bv == views(before),
            forall|k: int| 0 <= k < p ==> !(io_victim_order())(candidate_view(x), #[trigger] bv[k]),
        decreases out.len() - p,
    {
        p += 1;
    }
    proof {
        lemma_insert_ranked_at(bv, candidate_view(x), io_victim_order(), p as int);
    }
    out.insert(p, x);
    proof {
        assert(views(out@) =~= bv.insert(p as int, candidate_view(x)));
        assert forall|k: int| 0 <= k < out@.len() implies #[trigger] out@[k].role == x.role || exists|
            j: int,
        | 0 <= j < before.len() && out@[k] == before[j] by {
            if k < p {
                assert(out@[k] == before[k]);
            } else if k > p {
                assert(out@[k] == before[k - 1]);
            }
        }
    }
}

fn io_victim_keys(t: &ProcessTelemetry, allowed: Option<&Vec<ProcessKey>>) -> (keys: Vec<ProcessKey>)
    ensures
        keys@ == with_taskstats_keys(resource_keys(t.process_resource_evidence@, allowed), t.taskstats@, allowed),
{
    let mut keys: Vec<ProcessKey> = Vec::new();
    let mut i: usize = 0;
    while i < t.process_resource_evidence.len()
        invariant
            i <= t.process_resource_evidence.len(),
            keys@ == resource_keys(t.process_resource_evidence@.take(i as int), allowed),
        decreases t.process_resource_evidence.len() - i,
    {
        let ghost rs = t.process_resource_evidence@;
        assert(rs.take(i + 1).drop_last() =~= rs.take(i as int));
        assert(rs.take(i + 1).last() == rs[i as int]);
        let k = t.process_resource_evidence[i].key;
        if in_scope_exec(k, allowed) {
            add_key_exec(&mut keys, k);
        }
        i += 1;
    }
    let ghost rs = t.process_resource_evidence@;
    assert(rs.take(rs.len() as int) =~= rs);
    let ghost base = keys@;
    let mut j: usize = 0;
    while j < t.taskstats.len()
        invariant
            j <= t.taskstats.len(),
            base == resource_keys(t.process_resource_evidence@, allowed),
            keys@ == with_taskstats_keys(base, t.taskstats@.take(j as int), allowed),
        decreases t.taskstats.len() - j,
    {
        let ghost ts = t.taskstats@;
        assert(ts.take(j + 1).drop_last() =~= ts.take(j as int));
        assert(ts.take(j + 1).last() == ts[j as int]);
        let k = t.taskstats[j].key;
        if in_scope_exec(k, allowed) {
            add_key_exec(&mut keys, k);
        }
        j += 1;
    }
    let ghost ts = t.taskstats@;
    assert(ts.take(ts.len() as int) =~= ts);
    keys
}

fn taskstats_complete_for_io_exec(t: &ProcessTelemetry) -> (r: bool)
    ensures
        r == taskstats_complete_for_io(*t),
{
    if !(t.taskstats_capability == TaskstatsCapability::Available && t.delay_accounting
        == DelayAccountingState::Enabled && window_complete_exec(t)) {
        return false;
    }
    let mut i: usize = 0;
    while i < t.taskstats.len()
        invariant
            i <= t.taskstats.len(),
            forall|k: int| 0 <= k < i ==> (#[trigger] t.taskstats@[k]).field_support.block_io_delay,
        decreases t.taskstats.len() - i,
    {
        if !t.taskstats[i].field_support.block_io_delay {
            return false;
        }
        i += 1;
    }
    true
}

fn procfs_block_io_complete_exec(t: &ProcessTelemetry) -> (r: bool)
    ensures
        r == procfs_block_io_complete(*t),
{
    if !(t.task_stat_capability == TaskstatsCapability::Available && t.delay_accounting
        == DelayAccountingState::Enabled && window_complete_exec(t)) {
        return false;
    }
    let mut i: usize = 0;
    while i < t.process_resource_evidence.len()
        invariant
            i <= t.process_resource_evidence.len(),
            forall|k: int| 0 <= k < i ==> (#[trigger] t.process_resource_evidence@[k]).block_io_delay_ticks is Some,
        decreases t.process_resource_evidence.len() - i,
    {
        if t.process_resource_evidence[i].block_io_delay_ticks.is_none() {
            return false;
        }
        i += 1;
    }
    true
}

/// The processes that waited on block I/O in the window, for I/O pressure
/// graded with confidence `pressure` (none when I/O was not under pressure),
/// restricted to `allowed` when a scope is given.  Every process in scope
/// with a resource entry or a taskstats entry is considered once.  A
/// positive taskstats delay is direct evidence; a positive procfs delay
/// alone is at most medium.  Direct evidence ranks first, then the larger
/// delay, then the smaller key; at most five are listed.  The list is
/// complete when taskstats or procfs cover block-I/O delay for the whole
/// window.
pub fn io_victims(
    cpu: Option<&ProcessTelemetry>,
    pressure: Option<Confidence>,
    allowed: Option<&Vec<ProcessKey>>,
) -> (r: ProcessRoleList)
    ensures
        match cpu {
            None => if pressure is None {
                is_unassessed(r, ProcessRole::IoVictim)
            } else {
                is_unavailable(r, ProcessRole::IoVictim)
            },
            Some(t) => if memory_victims_unsupported(*t, pressure) {
                is_unavailable(r, ProcessRole::IoVictim)
            } else {
                role_list_holds(
                    r,
                    ProcessRole::IoVictim,
                    pressure,
                    taskstats_complete_for_io(*t) || procfs_block_io_complete(*t),
                    first_candidates(ranked_by(io_victim_candidates(*t, pressure, allowed), io_victim_order())),
                )
            },
        },
{
    let t = match cpu {
        Some(t) => t,
        None => return missing_telemetry(ProcessRole::IoVictim, pressure),
    };
    if pressure.is_some() && !(t.taskstats_capability == TaskstatsCapability::Available
        || t.taskstats_capability == TaskstatsCapability::Partial)
        && t.process_resource_evidence.len() == 0 {
        return unavailable(ProcessRole::IoVictim);
    }
    let complete = taskstats_complete_for_io_exec(t) || procfs_block_io_complete_exec(t);
    let pressure_confidence = match pressure {
        Some(c) => c,
        None => Confidence::Low,
    };
    let medium = lower_confidence_exec(Confidence::Medium, pressure_confidence);
    let keys = io_victim_keys(t, allowed);
    let ghost all = io_victim_candidates(*t, pressure, allowed);
    let mut ranked: Vec<ProcessCandidate> = Vec::new();
    let mut n: usize = 0;
    let mut i: usize = 0;
    while i < keys.len()
        invariant
            i <= keys.len(),
            n <= i,
            all == block_delay_victims(keys@, *t, pressure_confidence),
            block_delay_victims(keys@.take(i as int), *t, pressure_confidence) == all.take(n as int),
            n <= all.len(),
            medium == lower_confidence(Confidence::Medium, pressure_confidence),
            views(ranked@) == ranked_by(all.take(n as int), io_victim_order()),
            forall|k: int| 0 <= k < ranked@.len() ==> #[trigger] ranked@[k].role == ProcessRole::IoVictim,
        decreases keys.len() - i,
    {
        proof {
            lemma_block_delay_prefix(keys@, *t, pressure_confidence, i as int);
        }
        let ghost ks = keys@;
        assert(ks.take(i + 1).drop_last() =~= ks.take(i as int));
        assert(ks.take(i + 1).last() == ks[i as int]);
        let k = keys[i];
        let direct: Option<u64> = match find_last_taskstats(&t.taskstats, k) {
            Some(v) => v,
            None => None,
        };
        let fallback: Option<u64> = match find_first_resource(&t.process_resource_evidence, k) {
            Some(v) => v,
            None => None,
        };
        let direct_positive = match direct {
            Some(v) => v > 0,
            None => false,
        };
        let fallback_positive = match fallback {
            Some(v) => v > 0,
            None => false,
        };
        if direct_positive || fallback_positive {
            let c = ProcessCandidate {
                role: ProcessRole::IoVictim,
                key: k,
                name: name_of(t, k),
                confidence: if direct_positive {
                    pressure_confidence
                } else {
                    medium
                },
                label: if direct_positive {
                    "observed_taskstats_block_io_delay_victim_candidate"
                } else {
                    "observed_procfs_block_io_delay_victim_candidate"
                },
                evidence: ProcessCandidateEvidence::BlockIoDelay {
                    block_io_delay_ns: direct,
                    procfs_block_io_delay_ticks: fallback,
                },
            };
            let ghost prev = block_delay_victims(ks.take(i as int), *t, pressure_confidence);
            let ghost next = block_delay_victims(ks.take(i + 1), *t, pressure_confidence);
            assert(next == prev.push(candidate_view(c)));
            assert(all.take(next.len() as int) == next);
            assert(all[n as int] == next[n as int]);
            assert(all.take(n + 1) =~= all.take(n as int).push(all[n as int]));
            proof {
                lemma_ranked_step(all, n as int, io_victim_order());
            }
            insert_io_victim(&mut ranked, c);
            n += 1;
        }
        i += 1;
    }
    let ghost ks = keys@;
    assert(ks.take(ks.len() as int) =~= ks);
    assert(all.take(n as int) =~= all);
    let ghost full = views(ranked@);
    if ranked.len() > MAX_ROLE_CANDIDATES {
        ranked.truncate(MAX_ROLE_CANDIDATES);
    }
    assert(views(ranked@) =~= first_candidates(full));
    match pressure {
        None => unassessed(ProcessRole::IoVictim),
        Some(_) => ProcessRoleList {
            role: ProcessRole::IoVictim,
            availability: if complete {
                ProcessCandidateAvailability::Available
            } else {
                ProcessCandidateAvailability::UnavailableOrIncomplete
            },
            completeness: if complete {
                ProcessRoleCompleteness::Complete
            } else {
                ProcessRoleCompleteness::Partial
            },
            stale: false,
            candidates: ranked,
        },
    }
}

proof fn lemma_block_delay_prefix(keys: Seq<ProcessKey>, t: ProcessTelemetry, c: Confidence, i: int)
    requires
        0 <= i < keys.len(),
    ensures
        block_delay_victims(keys.take(i), t, c).len() <= block_delay_victims(keys.take(i + 1), t, c).len(),
        block_delay_victims(keys.take(i + 1), t, c).len() <= block_delay_victims(keys, t, c).len(),
        block_delay_victims(keys, t, c).take(block_delay_victims(keys.take(i + 1), t, c).len() as int)
            == block_delay_victims(keys.take(i + 1), t, c),
    decreases keys.len() - i,
{
    assert(keys.take(i + 1).drop_last() =~= keys.take(i));
    if i + 1 == keys.len() {
        assert(keys.take(i + 1) =~= keys);
        let d = block_delay_victims(keys, t, c);
        assert(d.take(d.len() as int) =~= d);
    } else {
        lemma_block_delay_prefix(keys, t, c, i + 1);
        let a = block_delay_victims(keys.take(i + 1), t, c);
        let b = block_delay_victims(keys.take(i + 2), t, c);
        let d = block_delay_victims(keys, t, c);
        assert(keys.take(i + 2).drop_last() =~= keys.take(i + 1));
        assert(b.take(a.len() as int) =~= a);
        assert(d.take(a.len() as int) =~= d.take(b.len() as int).take(a.len() as int));
    }
}


// ---------------------------------------------------------------------------
// CPU victims
// ---------------------------------------------------------------------------

/// The taskstats CPU delay of `k`, when taskstats has it.
pub open spec fn taskstats_cpu_delay(t: ProcessTelemetry, k: ProcessKey) -> Option<u64> {
    match last_taskstats(t.taskstats@, k) {
        Some(x) => x.cpu_delay_ns,
        None => None,
    }
}

/// The processes in scope whose tasks waited to run, in schedstat order;
/// each carries the taskstats CPU delay that corroborates it, if any.
pub open spec fn runnable_victims(
    ds: Seq<ProcessSchedulerDelayInterval>,
    t: ProcessTelemetry,
    allowed: Option<&Vec<ProcessKey>>,
    confidence: Confidence,
) -> Seq<CandidateView>
    decreases ds.len(),
{
    if ds.len() == 0 {
        Seq::empty()
    } else {
        let prev = runnable_victims(ds.drop_last(), t, allowed, confidence);
        let d = ds.last();
        if in_scope(d.key, allowed) && d.runnable_wait_ns > 0 {
            prev.push(
                (
                    d.key,
                    d.name@,
                    confidence,
                    "observed_runnable_delay_victim_candidate",
                    ProcessCandidateEvidence::RunnableDelay {
                        runnable_wait_ns: d.runnable_wait_ns,
                        stable_task_count: d.task_count,
                        taskstats_cpu_delay_ns: taskstats_cpu_delay(t, d.key),
                    },
                ),
            )
        } else {
            prev
        }
    }
}

/// The processes in scope with a taskstats CPU delay and no schedstat
/// candidate, in taskstats order.
pub open spec fn taskstats_cpu_victims(
    ts: Seq<TaskstatsInterval>,
    direct: Seq<CandidateView>,
    t: ProcessTelemetry,
    allowed: Option<&Vec<ProcessKey>>,
    confidence: Confidence,
) -> Seq<CandidateView>
    decreases ts.len(),
{
    if ts.len() == 0 {
        Seq::empty()
    } else {
        let prev = taskstats_cpu_victims(ts.drop_last(), direct, t, allowed, confidence);
        let x = ts.last();
        if in_scope(x.key, allowed) && !has_key(direct, x.key) && positive_value(x.cpu_delay_ns) {
            prev.push(
                (
                    x.key,
                    name_for_key(t, x.key),
                    confidence,
                    "observed_taskstats_cpu_delay_victim_candidate",
                    ProcessCandidateEvidence::TaskstatsCpuDelay { cpu_delay_ns: x.cpu_delay_ns->0 },
                ),
            )
        } else {
            prev
        }
    }
}

/// Every CPU-victim candidate before ranking: schedstat waits first, then,
/// when taskstats was read, the taskstats delays of the other processes.
pub open spec fn cpu_victim_candidates(
    t: ProcessTelemetry,
    pressure: Option<Confidence>,
    allowed: Option<&Vec<ProcessKey>>,
) -> Seq<CandidateView> {
    let confidence = match pressure {
        Some(c) => c,
        None => Confidence::Low,
    };
    let direct = runnable_victims(t.scheduler_delay_candidates@, t, allowed, confidence);
    if t.taskstats_capability == TaskstatsCapability::Available || t.taskstats_capability
        == TaskstatsCapability::Partial {
        direct + taskstats_cpu_victims(t.taskstats@, direct, t, allowed, confidence)
    } else {
        direct
    }
}

pub open spec fn cpu_victim_score(e: ProcessCandidateEvidence) -> u64 {
    match e {
        ProcessCandidateEvidence::RunnableDelay { runnable_wait_ns, .. } => runnable_wait_ns,
        ProcessCandidateEvidence::TaskstatsCpuDelay { cpu_delay_ns } => cpu_delay_ns,
        _ => 0,
    }
}

/// Schedstat evidence first, then the longer wait, then the smaller key.
pub open spec fn cpu_victim_before(a: CandidateView, b: CandidateView) -> bool {
    let (da, db) = (a.4 is RunnableDelay, b.4 is RunnableDelay);
    ||| da && !db
    ||| da == db && cpu_victim_score(a.4) > cpu_victim_score(b.4)
    ||| da == db && cpu_victim_score(a.4) == cpu_victim_score(b.4) && key_lt(a.0, b.0)
}

pub open spec fn cpu_victim_order() -> spec_fn(CandidateView, CandidateView) -> bool {
    |a: CandidateView, b: CandidateView| cpu_victim_before(a, b)
}

/// Complete taskstats with delay accounting enabled cover CPU delay.
pub open spec fn taskstats_complete_for_cpu(t: ProcessTelemetry) -> bool {
    &&& t.taskstats_capability == TaskstatsCapability::Available
    &&& t.delay_accounting == DelayAccountingState::Enabled
    &&& process_window_complete(t)
    &&& forall|k: int| 0 <= k < t.taskstats@.len() ==> (#[trigger] t.taskstats@[k]).field_support.cpu_delay
}

fn find_taskstats_cpu_delay(ts: &Vec<TaskstatsInterval>, k: ProcessKey) -> (r: Option<u64>)
    ensures
        r == match last_taskstats(ts@, k) {
            Some(x) => x.cpu_delay_ns,
            None => None,
        },
{
    let mut i: usize = ts.len();
    assert(ts@.take(ts@.len() as int) =~= ts@);
    while i > 0
        invariant
            i <= ts.len(),
            last_taskstats(ts@, k) == last_taskstats(ts@.take(i as int), k),
        decreases i,
    {
        assert(ts@.take(i as int).drop_last() =~= ts@.take(i - 1));
        assert(ts@.take(i as int).last() == ts@[i - 1]);
        if ts[i - 1].key == k {
            return ts[i - 1].cpu_delay_ns;
        }
        i -= 1;
    }
    None
}

fn taskstats_complete_for_cpu_exec(t: &ProcessTelemetry) -> (r: bool)
    ensures
        r == taskstats_complete_for_cpu(*t),
{
    if !(t.taskstats_capability == TaskstatsCapability::Available && t.delay_accounting
        == DelayAccountingState::Enabled && window_complete_exec(t)) {
        return false;
    }
    let mut i: usize = 0;
    while i < t.taskstats.len()
        invariant
            i <= t.taskstats.len(),
            forall|k: int| 0 <= k < i ==> (#[trigger] t.taskstats@[k]).field_support.cpu_delay,
        decreases t.taskstats.len() - i,
    {
        if !t.taskstats[i].field_support.cpu_delay {
            return false;
        }
        i += 1;
    }
    true
}

fn cpu_victim_score_exec(e: &ProcessCandidateEvidence) -> (r: u64)
    ensures
        r == cpu_victim_score(*e),
{
    match e {
        ProcessCandidateEvidence::RunnableDelay { runnable_wait_ns, .. } => *runnable_wait_ns,
        ProcessCandidateEvidence::TaskstatsCpuDelay { cpu_delay_ns } => *cpu_delay_ns,
        _ => 0,
    }
}

fn cpu_victim_before_exec(a: &ProcessCandidate, b: &ProcessCandidate) -> (r: bool)
    ensures
        r == cpu_victim_before(candidate_view(*a), candidate_view(*b)),
{
    let da = match a.evidence {
        ProcessCandidateEvidence::RunnableDelay { .. } => true,
        _ => false,
    };
    let db = match b.evidence {
        ProcessCandidateEvidence::RunnableDelay { .. } => true,
        _ => false,
    };
    let sa = cpu_victim_score_exec(&a.evidence);
    let sb = cpu_victim_score_exec(&b.evidence);
    (da && !db) || (da == db && sa > sb) || (da == db && sa == sb && key_less(a.key, b.key))
}

fn insert_cpu_victim(out: &mut Vec<ProcessCandidate>, x: ProcessCandidate)
    ensures
        views(final(out)@) == insert_ranked(views(old(out)@), candidate_view(x), cpu_victim_order()),
        forall|k: int| 0 <= k < final(out)@.len() ==> #[trigger] final(out)@[k].role == x.role || exists|
            j: int,
        | 0 <= j < old(out)@.len() && final(out)@[k] == old(out)@[j],
{
    let ghost before = out@;
    let ghost bv = views(before);
    let mut p: usize = 0;
    while p < out.len() && !cpu_victim_before_exec(&x, &out[p])
        invariant
            p <= out.len(),
            out@ == before,
            bv == views(before),
            forall|k: int| 0 <= k < p ==> !(cpu_victim_order())(candidate_view(x), #[trigger] bv[k]),
        decreases out.len() - p,
    {
        p += 1;
    }
    proof {
        lemma_insert_ranked_at(bv, candidate_view(x), cpu_victim_order(), p as int);
    }
    out.insert(p, x);
    proof {
        assert(views(out@) =~= bv.insert(p as int, candidate_view(x)));
        assert forall|k: int| 0 <= k < out@.len() implies #[trigger] out@[k].role == x.role || exists|
            j: int,
        | 0 <= j < before.len() && out@[k] == before[j] by {
            if k < p {
                assert(out@[k] == before[k]);
            } else if k > p {
                assert(out@[k] == before[k - 1]);
            }
        }
    }
}

/// The processes whose tasks waited to run in the window, for CPU pressure
/// graded with confidence `pressure` (none when the CPU was not under
/// pressure), restricted to `allowed` when a scope is given.  Schedstat
/// waits are listed first, each with the taskstats delay that corroborates
/// it; when taskstats was read, other processes with a taskstats CPU delay
/// follow.  Longer waits rank first, then the smaller key; at most five are
/// listed.  The list is complete when schedstat covered the window or
/// taskstats covered CPU delay for it.
pub fn cpu_victims(
    cpu: Option<&ProcessTelemetry>,
    pressure: Option<Confidence>,
    allowed: Option<&Vec<ProcessKey>>,
) -> (r: ProcessRoleList)
    ensures
        match cpu {
            None => if pressure is None {
                is_unassessed(r, ProcessRole::CpuVictim)
            } else {
                is_unavailable(r, ProcessRole::CpuVictim)
            },
            Some(t) => role_list_holds(
                r,
                ProcessRole::CpuVictim,
                pressure,
                t.schedstat_capability == TaskstatsCapability::Available || taskstats_complete_for_cpu(*t),
                first_candidates(ranked_by(cpu_victim_candidates(*t, pressure, allowed), cpu_victim_order())),
            ),
        },
{
    let t = match cpu {
        Some(t) => t,
        None => return missing_telemetry(ProcessRole::CpuVictim, pressure),
    };
    let complete = t.schedstat_capability == TaskstatsCapability::Available || taskstats_complete_for_cpu_exec(t);
    let confidence = match pressure {
        Some(c) => c,
        None => Confidence::Low,
    };
    let ghost all = cpu_victim_candidates(*t, pressure, allowed);
    let ghost direct = runnable_victims(t.scheduler_delay_candidates@, *t, allowed, confidence);
    let ghost with_taskstats = t.taskstats_capability == TaskstatsCapability::Available
        || t.taskstats_capability == TaskstatsCapability::Partial;
    let ghost rest = if with_taskstats {
        taskstats_cpu_victims(t.taskstats@, direct, *t, allowed, confidence)
    } else {
        Seq::<CandidateView>::empty()
    };
    assert(all =~= direct + rest);
    let mut direct_keys: Vec<ProcessKey> = Vec::new();
    let mut ranked: Vec<ProcessCandidate> = Vec::new();
    let mut n: usize = 0;
    let mut i: usize = 0;
    while i < t.scheduler_delay_candidates.len()
        invariant
            i <= t.scheduler_delay_candidates.len(),
            n <= i,
            direct == runnable_victims(t.scheduler_delay_candidates@, *t, allowed, confidence),
            all == direct + rest,
            runnable_victims(t.scheduler_delay_candidates@.take(i as int), *t, allowed, confidence) == all.take(
                n as int,
            ),
            n <= direct.len(),
            direct_keys@.len() == n,
            forall|j: int| 0 <= j < n ==> #[trigger] direct_keys@[j] == all[j].0,
            views(ranked@) == ranked_by(all.take(n as int), cpu_victim_order()),
            forall|k: int| 0 <= k < ranked@.len() ==> #[trigger] ranked@[k].role == ProcessRole::CpuVictim,
        decreases t.scheduler_delay_candidates.len() - i,
    {
        proof {
            lemma_runnable_prefix(t.scheduler_delay_candidates@, *t, allowed, confidence, i as int);
        }
        let ghost ds = t.scheduler_delay_candidates@;
        assert(ds.take(i + 1).drop_last() =~= ds.take(i as int));
        assert(ds.take(i + 1).last() == ds[i as int]);
        let d = &t.scheduler_delay_candidates[i];
        if in_scope_exec(d.key, allowed) && d.runnable_wait_ns > 0 {
            let c = ProcessCandidate {
                role: ProcessRole::CpuVictim,
                key: d.key,
                name: d.name.clone(),
                confidence,
                label: "observed_runnable_delay_victim_candidate",
                evidence: ProcessCandidateEvidence::RunnableDelay {
                    runnable_wait_ns: d.runnable_wait_ns,
                    stable_task_count: d.task_count,
                    taskstats_cpu_delay_ns: find_taskstats_cpu_delay(&t.taskstats, d.key),
                },
            };
            let ghost prev = runnable_victims(ds.take(i as int), *t, allowed, confidence);
            let ghost next = runnable_victims(ds.take(i + 1), *t, allowed, confidence);
            assert(next == prev.push(candidate_view(c)));
            assert(direct.take(next.len() as int) == next);
            assert(direct[n as int] == next[n as int]);
            assert(all[n as int] == direct[n as int]);
            assert(all.take(n + 1) =~= all.take(n as int).push(all[n as int]));
            proof {
                lemma_ranked_step(all, n as int, cpu_victim_order());
            }
            direct_keys.push(d.key);
            insert_cpu_victim(&mut ranked, c);
            n += 1;
        }
        i += 1;
    }
    let ghost ds = t.scheduler_delay_candidates@;
    assert(ds.take(ds.len() as int) =~= ds);
    assert(n == direct.len());
    if t.taskstats_capability == TaskstatsCapability::Available || t.taskstats_capability
        == TaskstatsCapability::Partial {
        let mut m: usize = 0;
        let mut i: usize = 0;
        while i < t.taskstats.len()
            invariant
                i <= t.taskstats.len(),
                m <= i,
                direct == runnable_victims(t.scheduler_delay_candidates@, *t, allowed, confidence),
                rest == taskstats_cpu_victims(t.taskstats@, direct, *t, allowed, confidence),
                all == direct + rest,
                n == direct.len(),
                taskstats_cpu_victims(t.taskstats@.take(i as int), direct, *t, allowed, confidence)
                    == rest.take(m as int),
                m <= rest.len(),
                direct_keys@.len() == n,
                forall|j: int| 0 <= j < n ==> #[trigger] direct_keys@[j] == direct[j].0,
                views(ranked@) == ranked_by(all.take(n + m), cpu_victim_order()),
                forall|k: int| 0 <= k < ranked@.len() ==> #[trigger] ranked@[k].role == ProcessRole::CpuVictim,
            decreases t.taskstats.len() - i,
        {
            proof {
                lemma_taskstats_cpu_prefix(t.taskstats@, direct, *t, allowed, confidence, i as int);
            }
            let ghost ts = t.taskstats@;
            assert(ts.take(i + 1).drop_last() =~= ts.take(i as int));
            assert(ts.take(i + 1).last() == ts[i as int]);
            let x = &t.taskstats[i];
            if in_scope_exec(x.key, allowed) && !contains_key(&direct_keys, x.key) {
                proof {
                    assert(!has_key(direct, x.key)) by {
                        if has_key(direct, x.key) {
                            let j = choose|j: int| 0 <= j < direct.len() && (#[trigger] direct[j]).0 == x.key;
                            assert(direct_keys@[j] == direct[j].0);
                        }
                    }
                }
                match x.cpu_delay_ns {
                    Some(v) => if v > 0 {
                        let c = ProcessCandidate {
                            role: ProcessRole::CpuVictim,
                            key: x.key,
                            name: name_of(t, x.key),
                            confidence,
                            label: "observed_taskstats_cpu_delay_victim_candidate",
                            evidence: ProcessCandidateEvidence::TaskstatsCpuDelay { cpu_delay_ns: v },
                        };
                        let ghost prev = taskstats_cpu_victims(ts.take(i as int), direct, *t, allowed, confidence);
                        let ghost next = taskstats_cpu_victims(ts.take(i + 1), direct, *t, allowed, confidence);
                        assert(next == prev.push(candidate_view(c)));
                        assert(rest.take(next.len() as int) == next);
                        assert(rest[m as int] == next[m as int]);
                        assert(all[n + m] == rest[m as int]);
                        assert(all.take(n + m + 1) =~= all.take(n + m).push(all[n + m]));
                        proof {
                            lemma_ranked_step(all, n + m, cpu_victim_order());
                        }
                        insert_cpu_victim(&mut ranked, c);
                        m += 1;
                    },
                    None => {},
                }
            } else {
                proof {
                    if in_scope(x.key, allowed) {
                        let j = choose|j: int| 0 <= j < direct_keys@.len() && direct_keys@[j] == x.key;
                        assert(direct[j].0 == x.key);
                        assert(has_key(direct, x.key));
                    }
                }
            }
            i += 1;
        }
        let ghost ts = t.taskstats@;
        assert(ts.take(ts.len() as int) =~= ts);
        assert(m == rest.len());
        assert(all.take(n + m) =~= all);
    } else {
        assert(all.take(n as int) =~= all);
    }
    let ghost full = views(ranked@);
    if ranked.len() > MAX_ROLE_CANDIDATES {
        ranked.truncate(MAX_ROLE_CANDIDATES);
    }
    assert(views(ranked@) =~= first_candidates(full));
    match pressure {
        None => unassessed(ProcessRole::CpuVictim),
        Some(_) => ProcessRoleList {
            role: ProcessRole::CpuVictim,
            availability: if complete {
                ProcessCandidateAvailability::Available
            } else {
                ProcessCandidateAvailability::UnavailableOrIncomplete
            },
            completeness: if complete {
                ProcessRoleCompleteness::Complete
            } else {
                ProcessRoleCompleteness::Partial
            },
            stale: false,
            candidates: ranked,
        },
    }
}

proof fn lemma_runnable_prefix(
    ds: Seq<ProcessSchedulerDelayInterval>,
    t: ProcessTelemetry,
    allowed: Option<&Vec<ProcessKey>>,
    c: Confidence,
    i: int,
)
    requires
        0 <= i < ds.len(),
    ensures
        runnable_victims(ds.take(i), t, allowed, c).len() <= runnable_victims(ds.take(i + 1), t, allowed, c).len(),
        runnable_victims(ds.take(i + 1), t, allowed, c).len() <= runnable_victims(ds, t, allowed, c).len(),
        runnable_victims(ds, t, allowed, c).take(runnable_victims(ds.take(i + 1), t, allowed, c).len() as int)
            == runnable_victims(ds.take(i + 1), t, allowed, c),
    decreases ds.len() - i,
{
    assert(ds.take(i + 1).drop_last() =~= ds.take(i));
    if i + 1 == ds.len() {
        assert(ds.take(i + 1) =~= ds);
        let d = runnable_victims(ds, t, allowed, c);
        assert(d.take(d.len() as int) =~= d);
    } else {
        lemma_runnable_prefix(ds, t, allowed, c, i + 1);
        let a = runnable_victims(ds.take(i + 1), t, allowed, c);
        let b = runnable_victims(ds.take(i + 2), t, allowed, c);
        let d = runnable_victims(ds, t, allowed, c);
        assert(ds.take(i + 2).drop_last() =~= ds.take(i + 1));
        assert(b.take(a.len() as int) =~= a);
        assert(d.take(a.len() as int) =~= d.take(b.len() as int).take(a.len() as int));
    }
}

proof fn lemma_taskstats_cpu_prefix(
    ts: Seq<TaskstatsInterval>,
    direct: Seq<CandidateView>,
    t: ProcessTelemetry,
    allowed: Option<&Vec<ProcessKey>>,
    c: Confidence,
    i: int,
)
    requires
        0 <= i < ts.len(),
    ensures
        taskstats_cpu_victims(ts.take(i), direct, t, allowed, c).len() <= taskstats_cpu_victims(ts.take(i + 1), direct, t, allowed, c).len(),
        taskstats_cpu_victims(ts.take(i + 1), direct, t, allowed, c).len() <= taskstats_cpu_victims(ts, direct, t, allowed, c).len(),
        taskstats_cpu_victims(ts, direct, t, allowed, c).take(taskstats_cpu_victims(ts.take(i + 1), direct, t, allowed, c).len() as int)
            == taskstats_cpu_victims(ts.take(i + 1), direct, t, allowed, c),
    decreases ts.len() - i,
{
    assert(ts.take(i + 1).drop_last() =~= ts.take(i));
    if i + 1 == ts.len() {
        assert(ts.take(i + 1) =~= ts);
        let d = taskstats_cpu_victims(ts, direct, t, allowed, c);
        assert(d.take(d.len() as int) =~= d);
    } else {
        lemma_taskstats_cpu_prefix(ts, direct, t, allowed, c, i + 1);
        let a = taskstats_cpu_victims(ts.take(i + 1), direct, t, allowed, c);
        let b = taskstats_cpu_victims(ts.take(i + 2), direct, t, allowed, c);
        let d = taskstats_cpu_victims(ts, direct, t, allowed, c);
        assert(ts.take(i + 2).drop_last() =~= ts.take(i + 1));
        assert(b.take(a.len() as int) =~= a);
        assert(d.take(a.len() as int) =~= d.take(b.len() as int).take(a.len() as int));
    }
}


/// How long a CPU victim waited: its runnable wait when schedstat saw it,
/// else its taskstats CPU delay.
pub open spec fn victim_wait_ns(e: ProcessCandidateEvidence) -> int {
    match e {
        ProcessCandidateEvidence::RunnableDelay { runnable_wait_ns, .. } => runnable_wait_ns as int,
        ProcessCandidateEvidence::TaskstatsCpuDelay { cpu_delay_ns } => cpu_delay_ns as int,
        _ => 0,
    }
}

/// The CPU victims of a window are listed longest wait first: victims seen
/// by schedstat come before those known only from taskstats, among victims
/// of one kind a longer wait is never listed after a shorter one, and equal
/// waits come by process key.
pub proof fn lemma_cpu_victims_longest_wait_first(
    cpu: Option<&ProcessTelemetry>,
    pressure: Option<Confidence>,
    allowed: Option<&Vec<ProcessKey>>,
    r: ProcessRoleList,
)
    requires
        match cpu {
            None => if pressure is None {
                is_unassessed(r, ProcessRole::CpuVictim)
            } else {
                is_unavailable(r, ProcessRole::CpuVictim)
            },
            Some(t) => role_list_holds(
                r,
                ProcessRole::CpuVictim,
                pressure,
                t.schedstat_capability == TaskstatsCapability::Available || taskstats_complete_for_cpu(*t),
                first_candidates(ranked_by(cpu_victim_candidates(*t, pressure, allowed), cpu_victim_order())),
            ),
        },
    ensures
        forall|i: int, j: int|
            0 <= i < j < r.candidates@.len() ==> {
                let (a, b) = (#[trigger] r.candidates@[i].evidence, #[trigger] r.candidates@[j].evidence);
                &&& b is RunnableDelay ==> a is RunnableDelay
                &&& (a is RunnableDelay <==> b is RunnableDelay) ==> victim_wait_ns(a) >= victim_wait_ns(b)
                &&& (a is RunnableDelay <==> b is RunnableDelay) && victim_wait_ns(a) == victim_wait_ns(b)
                    ==> !key_lt(r.candidates@[j].key, r.candidates@[i].key)
            },
{
    match cpu {
        None => {},
        Some(t) => {
            if pressure is Some {
                let all = cpu_victim_candidates(*t, pressure, allowed);
                let order = cpu_victim_order();
                assert forall|a: CandidateView| !#[trigger] order(a, a) by {}
                assert forall|a: CandidateView, b: CandidateView, c: CandidateView|
                    #[trigger] order(a, b) && #[trigger] order(b, c) implies order(a, c) by {}
                assert(strict_order(order));
                lemma_ranked_sorted(all, order);
                let ranked = ranked_by(all, order);
                if ranked.len() > MAX_ROLE_CANDIDATES {
                    lemma_sorted_prefix(ranked, order, MAX_ROLE_CANDIDATES as int);
                }
                let v = first_candidates(ranked);
                assert(views(r.candidates@) == v);
                assert forall|i: int, j: int| 0 <= i < j < r.candidates@.len() implies {
                    let (a, b) = (#[trigger] r.candidates@[i].evidence, #[trigger] r.candidates@[j].evidence);
                    &&& b is RunnableDelay ==> a is RunnableDelay
                    &&& (a is RunnableDelay <==> b is RunnableDelay) ==> victim_wait_ns(a) >= victim_wait_ns(b)
                    &&& (a is RunnableDelay <==> b is RunnableDelay) && victim_wait_ns(a) == victim_wait_ns(b)
                        ==> !key_lt(r.candidates@[j].key, r.candidates@[i].key)
                } by {
                    assert(v[i] == candidate_view(r.candidates@[i]));
                    assert(v[j] == candidate_view(r.candidates@[j]));
                    assert(!order(v[j], v[i]));
                }
            }
        },
    }
}


/// A CPU victim left off a bounded list never waited longer than one on
/// it: each candidate of the window is either listed, or every listed
/// victim is of schedstat kind where it is, and waited at least as long
/// where the two are of one kind.
pub proof fn lemma_cpu_victims_keep_longest_waits(
    t: ProcessTelemetry,
    pressure: Option<Confidence>,
    allowed: Option<&Vec<ProcessKey>>,
    r: ProcessRoleList,
)
    requires
        role_list_holds(
            r,
            ProcessRole::CpuVictim,
            pressure,
            t.schedstat_capability == TaskstatsCapability::Available || taskstats_complete_for_cpu(t),
            first_candidates(ranked_by(cpu_victim_candidates(t, pressure, allowed), cpu_victim_order())),
        ),
    ensures
        forall|k: int|
            0 <= k < cpu_victim_candidates(t, pressure, allowed).len() ==> {
                let c = #[trigger] cpu_victim_candidates(t, pressure, allowed)[k];
                ||| views(r.candidates@).contains(c)
                ||| forall|i: int|
                    0 <= i < r.candidates@.len() ==> {
                        let a = (#[trigger] r.candidates@[i]).evidence;
                        &&& c.4 is RunnableDelay ==> a is RunnableDelay
                        &&& (a is RunnableDelay <==> c.4 is RunnableDelay) ==> victim_wait_ns(a)
                            >= victim_wait_ns(c.4)
                    }
            },
{
    broadcast use vstd::seq_lib::group_to_multiset_ensures;

    if pressure is Some {
        let all = cpu_victim_candidates(t, pressure, allowed);
        let order = cpu_victim_order();
        assert forall|a: CandidateView| !#[trigger] order(a, a) by {}
        assert forall|a: CandidateView, b: CandidateView, c: CandidateView|
            #[trigger] order(a, b) && #[trigger] order(b, c) implies order(a, c) by {}
        assert(strict_order(order));
        lemma_ranked_sorted(all, order);
        let ranked = ranked_by(all, order);
        let v = first_candidates(ranked);
        assert(views(r.candidates@) == v);
        assert forall|k: int| 0 <= k < all.len() implies {
            let c = #[trigger] all[k];
            ||| views(r.candidates@).contains(c)
            ||| forall|i: int|
                0 <= i < r.candidates@.len() ==> {
                    let a = (#[trigger] r.candidates@[i]).evidence;
                    &&& c.4 is RunnableDelay ==> a is RunnableDelay
                    &&& (a is RunnableDelay <==> c.4 is RunnableDelay) ==> victim_wait_ns(a)
                        >= victim_wait_ns(c.4)
                }
        } by {
            let c = all[k];
            assert(all.contains(c));
            assert(all.to_multiset().count(c) > 0);
            assert(ranked.contains(c));
            let m = choose|m: int| 0 <= m < ranked.len() && ranked[m] == c;
            if m < v.len() {
                assert(v[m] == c);
                assert(views(r.candidates@).contains(c));
            } else {
                assert forall|i: int| 0 <= i < r.candidates@.len() implies {
                    let a = (#[trigger] r.candidates@[i]).evidence;
                    &&& c.4 is RunnableDelay ==> a is RunnableDelay
                    &&& (a is RunnableDelay <==> c.4 is RunnableDelay) ==> victim_wait_ns(a)
                        >= victim_wait_ns(c.4)
                } by {
                    assert(v[i] == candidate_view(r.candidates@[i]));
                    assert(v[i] == ranked[i]);
                    assert(!order(ranked[m], ranked[i]));
                }
            }
        }
    }
}

/// A role list built from a ranked candidate list never lists a candidate
/// after one that the ranking puts it before.
proof fn lemma_listed_in_rank_order(
    r: ProcessRoleList,
    role: ProcessRole,
    pressure: Option<Confidence>,
    complete: bool,
    all: Seq<CandidateView>,
    order: spec_fn(CandidateView, CandidateView) -> bool,
)
    requires
        strict_order(order),
        role_list_holds(r, role, pressure, complete, first_candidates(ranked_by(all, order))),
    ensures
        forall|i: int, j: int|
            0 <= i < j < r.candidates@.len() ==> !order(
                candidate_view(#[trigger] r.candidates@[j]),
                candidate_view(#[trigger] r.candidates@[i]),
            ),
{
    if pressure is Some {
        lemma_ranked_sorted(all, order);
        let ranked = ranked_by(all, order);
        if ranked.len() > MAX_ROLE_CANDIDATES {
            lemma_sorted_prefix(ranked, order, MAX_ROLE_CANDIDATES as int);
        }
        let v = first_candidates(ranked);
        assert forall|i: int, j: int| 0 <= i < j < r.candidates@.len() implies !order(
            candidate_view(#[trigger] r.candidates@[j]),
            candidate_view(#[trigger] r.candidates@[i]),
        ) by {
            assert(v[i] == candidate_view(r.candidates@[i]));
            assert(v[j] == candidate_view(r.candidates@[j]));
        }
    }
}

/// How much a memory victim suffered: its largest taskstats memory delay,
/// else its major fault count.
pub open spec fn memory_victim_amount(e: ProcessCandidateEvidence) -> int {
    match e {
        ProcessCandidateEvidence::MemoryDelay { largest_delay_ns, .. } => largest_delay_ns as int,
        ProcessCandidateEvidence::MajorFaults { major_faults } => major_faults as int,
        _ => 0,
    }
}

/// Memory victims are listed with direct delay evidence before fault hints,
/// and among victims of one kind the larger delay or fault count first.
pub proof fn lemma_memory_victims_largest_first(
    cpu: Option<&ProcessTelemetry>,
    pressure: Option<Confidence>,
    allowed: Option<&Vec<ProcessKey>>,
    r: ProcessRoleList,
)
    requires
        match cpu {
            None => if pressure is None {
                is_unassessed(r, ProcessRole::MemoryVictim)
            } else {
                is_unavailable(r, ProcessRole::MemoryVictim)
            },
            Some(t) => if memory_victims_unsupported(*t, pressure) {
                is_unavailable(r, ProcessRole::MemoryVictim)
            } else {
                role_list_holds(
                    r,
                    ProcessRole::MemoryVictim,
                    pressure,
                    taskstats_complete_for_memory(*t),
                    first_candidates(
                        ranked_by(memory_victim_candidates(*t, pressure, allowed), memory_victim_order()),
                    ),
                )
            },
        },
    ensures
        forall|i: int, j: int|
            0 <= i < j < r.candidates@.len() ==> {
                let (a, b) = (#[trigger] r.candidates@[i].evidence, #[trigger] r.candidates@[j].evidence);
                &&& b is MemoryDelay ==> a is MemoryDelay
                &&& (a is MemoryDelay <==> b is MemoryDelay) ==> memory_victim_amount(a) >= memory_victim_amount(b)
            },
{
    match cpu {
        Some(t) => if !memory_victims_unsupported(*t, pressure) {
            let order = memory_victim_order();
            assert forall|a: CandidateView, b: CandidateView, c: CandidateView|
                #[trigger] order(a, b) && #[trigger] order(b, c) implies order(a, c) by {}
            assert(strict_order(order));
            lemma_listed_in_rank_order(
                r,
                ProcessRole::MemoryVictim,
                pressure,
                taskstats_complete_for_memory(*t),
                memory_victim_candidates(*t, pressure, allowed),
                order,
            );
        },
        None => {},
    }
}

/// The RSS growth a memory suspect showed.
pub open spec fn suspect_growth(e: ProcessCandidateEvidence) -> int {
    match e {
        ProcessCandidateEvidence::RssGrowth { rss_growth_bytes } => rss_growth_bytes as int,
        _ => 0,
    }
}

/// Memory suspects are listed largest RSS growth first.
pub proof fn lemma_memory_suspects_largest_growth_first(
    cpu: Option<&ProcessTelemetry>,
    pressure: Option<Confidence>,
    allowed: Option<&Vec<ProcessKey>>,
    r: ProcessRoleList,
)
    requires
        match cpu {
            None => if pressure is None {
                is_unassessed(r, ProcessRole::MemorySuspect)
            } else {
                is_unavailable(r, ProcessRole::MemorySuspect)
            },
            Some(t) => if memory_suspects_unsupported(*t, pressure) {
                is_unavailable(r, ProcessRole::MemorySuspect)
            } else {
                role_list_holds(
                    r,
                    ProcessRole::MemorySuspect,
                    pressure,
                    rss_complete(*t),
                    first_candidates(
                        ranked_by(rss_suspects(t.process_resource_evidence@, allowed), memory_suspect_order()),
                    ),
                )
            },
        },
    ensures
        forall|i: int, j: int|
            0 <= i < j < r.candidates@.len() ==> suspect_growth(#[trigger] r.candidates@[i].evidence)
                >= suspect_growth(#[trigger] r.candidates@[j].evidence),
{
    match cpu {
        Some(t) => if !memory_suspects_unsupported(*t, pressure) {
            let order = memory_suspect_order();
            assert forall|a: CandidateView, b: CandidateView, c: CandidateView|
                #[trigger] order(a, b) && #[trigger] order(b, c) implies order(a, c) by {}
            assert(strict_order(order));
            lemma_listed_in_rank_order(
                r,
                ProcessRole::MemorySuspect,
                pressure,
                rss_complete(*t),
                rss_suspects(t.process_resource_evidence@, allowed),
                order,
            );
        },
        None => {},
    }
}

/// The block-I/O delay of an I/O victim: its taskstats delay when positive,
/// else its procfs delay.
pub open spec fn io_victim_delay(e: ProcessCandidateEvidence) -> int {
    match e {
        ProcessCandidateEvidence::BlockIoDelay { block_io_delay_ns, procfs_block_io_delay_ticks } => {
            match (block_io_delay_ns, procfs_block_io_delay_ticks) {
                (Some(v), _) if v > 0 => v as int,
                (_, Some(w)) if w > 0 => w as int,
                _ => 0,
            }
        },
        _ => 0,
    }
}

/// The victim's delay was measured by taskstats.
pub open spec fn io_victim_measured(e: ProcessCandidateEvidence) -> bool {
    e matches ProcessCandidateEvidence::BlockIoDelay { block_io_delay_ns, .. } && (
    block_io_delay_ns matches Some(v) && v > 0)
}

/// I/O victims are listed with taskstats-measured delay before procfs delay,
/// and among victims of one kind the longer delay first.
pub proof fn lemma_io_victims_longest_delay_first(
    cpu: Option<&ProcessTelemetry>,
    pressure: Option<Confidence>,
    allowed: Option<&Vec<ProcessKey>>,
    r: ProcessRoleList,
)
    requires
        match cpu {
            None => if pressure is None {
                is_unassessed(r, ProcessRole::IoVictim)
            } else {
                is_unavailable(r, ProcessRole::IoVictim)
            },
            Some(t) => if memory_victims_unsupported(*t, pressure) {
                is_unavailable(r, ProcessRole::IoVictim)
            } else {
                role_list_holds(
                    r,
                    ProcessRole::IoVictim,
                    pressure,
                    taskstats_complete_for_io(*t) || procfs_block_io_complete(*t),
                    first_candidates(ranked_by(io_victim_candidates(*t, pressure, allowed), io_victim_order())),
                )
            },
        },
    ensures
        forall|i: int, j: int|
            0 <= i < j < r.candidates@.len() ==> {
                let (a, b) = (#[trigger] r.candidates@[i].evidence, #[trigger] r.candidates@[j].evidence);
                &&& io_victim_measured(b) ==> io_victim_measured(a)
                &&& (io_victim_measured(a) <==> io_victim_measured(b)) ==> io_victim_delay(a) >= io_victim_delay(b)
            },
{
    match cpu {
        Some(t) => if !memory_victims_unsupported(*t, pressure) {
            let order = io_victim_order();
            assert forall|a: CandidateView, b: CandidateView, c: CandidateView|
                #[trigger] order(a, b) && #[trigger] order(b, c) implies order(a, c) by {}
            assert(strict_order(order));
            lemma_listed_in_rank_order(
                r,
                ProcessRole::IoVictim,
                pressure,
                taskstats_complete_for_io(*t) || procfs_block_io_complete(*t),
                io_victim_candidates(*t, pressure, allowed),
                order,
            );
        },
        None => {},
    }
}

/// The bytes an I/O suspect is known to have moved.
pub open spec fn suspect_known_bytes(e: ProcessCandidateEvidence) -> int {
    match e {
        ProcessCandidateEvidence::IoActivity { known_accounted_bytes, .. } => known_accounted_bytes as int,
        _ => 0,
    }
}

/// I/O suspects are listed most known bytes first.
pub proof fn lemma_io_suspects_most_bytes_first(
    process_io: Option<&ProcessIoObservation>,
    pressure: Option<Confidence>,
    allowed: Option<&Vec<ProcessKey>>,
    r: ProcessRoleList,
)
    requires
        match process_io {
            None => if pressure is None {
                is_unassessed(r, ProcessRole::IoSuspect)
            } else {
                is_unavailable(r, ProcessRole::IoSuspect)
            },
            Some(o) => role_list_holds(
                r,
                ProcessRole::IoSuspect,
                pressure,
                o.capability == IoCapability::Available,
                first_candidates(ranked_by(io_suspect_candidates(*o, pressure, allowed), io_suspect_order())),
            ),
        },
    ensures
        forall|i: int, j: int|
            0 <= i < j < r.candidates@.len() ==> suspect_known_bytes(#[trigger] r.candidates@[i].evidence)
                >= suspect_known_bytes(#[trigger] r.candidates@[j].evidence),
{
    match process_io {
        Some(o) => {
            let order = io_suspect_order();
            assert forall|a: CandidateView, b: CandidateView, c: CandidateView|
                #[trigger] order(a, b) && #[trigger] order(b, c) implies order(a, c) by {}
            assert(strict_order(order));
            lemma_listed_in_rank_order(
                r,
                ProcessRole::IoSuspect,
                pressure,
                o.capability == IoCapability::Available,
                io_suspect_candidates(*o, pressure, allowed),
                order,
            );
        },
        None => {},
    }
}

} // verus!
