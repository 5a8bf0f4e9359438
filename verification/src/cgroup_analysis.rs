//! Scoped findings from cgroup pressure intervals.  Each cgroup and resource
//! gets a finding whose kind, severity, confidence, mechanism, qualifiers and
//! stable members follow from the interval; the share of the interval spent
//! stalled is graded by the caller, which holds it as a fraction.  Cgroup
//! pressure is never evidence that the group caused host pressure.

use vstd::prelude::*;
use crate::analysis::{
    cgroup_contains_path, cgroup_mechanism_label, contains_path, mechanism_of, page_rate_at_least,
    severity_level, severity_rank, CgroupAssessmentKind, CgroupMechanism, CgroupMember,
    CgroupResourceKind, ChainEndpoint, ChainKind, ChainRelation, Confidence, Qualifier, Severity,
    MAX_CGROUP_EVIDENCE_CHAINS, THRASHING_MIN_PAGE_RATE_PER_SEC,
};
use crate::cgroup::{
    CgroupCpuInterval, CgroupFileState, CgroupInterval, CgroupIoDevice, CgroupIoRaw,
    CgroupMemoryEventsRaw, CgroupMemoryStatRaw, CgroupObservation, CgroupProcessMember,
    CgroupPsiInterval, CgroupPsiIntervalState, CgroupResource,
};
use crate::ranking::{
    insert_ranked, lemma_insert_ranked_at, lemma_ranked_sorted, lemma_sorted_prefix, ranked_by,
    sorted_by, strict_order,
};
use crate::record::{copy_io, copy_unit};
use crate::text::{
    append_str, chars_lt, chars_of, eq_chars, lemma_seq_lt_irreflexive, lemma_seq_lt_transitive,
    seq_lt,
};

verus! {

/// A pressure interval shorter than this (one second) gives no verdict.
pub const MIN_DIAGNOSIS_WINDOW_NS: u64 = 1000000000;

/// A pressure interval at least this long (five seconds) is sustained.
pub const SUSTAINED_WINDOW_NS: u64 = 5000000000;

/// At most this many stable members are listed with a finding.
pub const MAX_SCOPED_MEMBERS: usize = 5;

/// At most this many pressure findings are reported.
pub const MAX_CGROUP_FINDINGS: usize = 64;

/// What the caller read off the shares of a pressure interval: the severity
/// band of the `some` share, and whether the `full` share is at least one
/// percent.
#[derive(Debug, Clone, Copy, PartialEq, Eq, Structural)]
pub struct PsiGrade {
    pub some_severity: Severity,
    pub full_material: bool,
}

/// The evidence of a scoped finding.  The pressure shares are the totals
/// over the window; controller values are context only.
#[derive(Debug, Clone, PartialEq, Eq)]
pub struct CgroupEvidence {
    pub psi_some_total_delta_us: Option<u64>,
    pub psi_full_total_delta_us: Option<u64>,
    /// The measured pressure interval, in nanoseconds.
    pub psi_window_ns: Option<u64>,
    pub psi_state: CgroupFileState,
    pub cpu: CgroupResource<CgroupCpuInterval>,
    pub memory_current_end: CgroupResource<u64>,
    pub memory_events: CgroupResource<CgroupMemoryEventsRaw>,
    pub memory_stat: CgroupResource<CgroupMemoryStatRaw>,
    pub io: CgroupResource<Vec<(CgroupIoDevice, CgroupIoRaw)>>,
}

#[derive(Debug, Clone, PartialEq, Eq)]
pub struct CgroupFinding {
    pub path: String,
    pub resource: CgroupResourceKind,
    pub kind: CgroupAssessmentKind,
    pub severity: Severity,
    pub resource_confidence: Confidence,
    pub mechanism: Option<CgroupMechanism>,
    pub mechanism_confidence: Option<Confidence>,
    pub evidence: CgroupEvidence,
    pub systemd_unit_candidate: Option<String>,
    pub members: Vec<CgroupMember>,
    pub qualifiers: Vec<Qualifier>,
}

// ---------------------------------------------------------------------------
// What a pressure interval supports
// ---------------------------------------------------------------------------

/// The measured window of the interval, when there is one.
pub open spec fn psi_window(psi: CgroupResource<CgroupPsiInterval>) -> Option<u64> {
    match psi.value {
        Some(v) => v.elapsed_ns,
        None => None,
    }
}

/// The window in whole microseconds (zero without a window).
pub open spec fn psi_window_us(psi: CgroupResource<CgroupPsiInterval>) -> int {
    match psi_window(psi) {
        Some(w) => w as int / 1000,
        None => 0,
    }
}

pub open spec fn psi_interval_state(psi: CgroupResource<CgroupPsiInterval>) -> CgroupPsiIntervalState {
    match psi.value {
        Some(v) => v.state,
        None => CgroupPsiIntervalState::Partial,
    }
}

/// The window is absent or shorter than a second.
pub open spec fn too_short(psi: CgroupResource<CgroupPsiInterval>) -> bool {
    match psi_window(psi) {
        Some(w) => w < MIN_DIAGNOSIS_WINDOW_NS,
        None => true,
    }
}

/// A share of the window exists: the total is known and the window is not
/// empty.
pub open spec fn share_defined(total: Option<u64>, psi: CgroupResource<CgroupPsiInterval>) -> bool {
    total is Some && (psi_window(psi) matches Some(w) && w != 0)
}

pub open spec fn some_total(psi: CgroupResource<CgroupPsiInterval>) -> Option<u64> {
    match psi.value {
        Some(v) => v.some_total_usec,
        None => None,
    }
}

pub open spec fn full_total(psi: CgroupResource<CgroupPsiInterval>) -> Option<u64> {
    match psi.value {
        Some(v) => v.full_total_usec,
        None => None,
    }
}

/// The `some` stall time is longer than the measured window.
pub open spec fn some_exceeds_window(psi: CgroupResource<CgroupPsiInterval>) -> bool {
    some_total(psi) matches Some(t) && t > psi_window_us(psi)
}

/// A usable `some` share: the interval's state keeps `some`, the share
/// exists and does not exceed the window.
pub open spec fn valid_some(psi: CgroupResource<CgroupPsiInterval>) -> bool {
    (psi_interval_state(psi) == CgroupPsiIntervalState::Available || psi_interval_state(psi)
        == CgroupPsiIntervalState::Partial || psi_interval_state(psi)
        == CgroupPsiIntervalState::FullExceedsSome) && share_defined(some_total(psi), psi)
        && !some_exceeds_window(psi)
}

pub open spec fn finding_severity(psi: CgroupResource<CgroupPsiInterval>, grade: PsiGrade) -> Severity {
    if valid_some(psi) && !too_short(psi) {
        grade.some_severity
    } else {
        Severity::Negligible
    }
}

pub open spec fn finding_kind(psi: CgroupResource<CgroupPsiInterval>, grade: PsiGrade) -> CgroupAssessmentKind {
    if too_short(psi) || !valid_some(psi) {
        CgroupAssessmentKind::InsufficientObservation
    } else if grade.some_severity == Severity::Negligible {
        CgroupAssessmentKind::NoMeaningfulPressure
    } else {
        CgroupAssessmentKind::Pressure
    }
}

pub open spec fn rate_met(pages: Option<u64>, elapsed_ns: u64) -> bool {
    elapsed_ns != 0 && match pages {
        Some(p) => p * 1_000_000_000 >= THRASHING_MIN_PAGE_RATE_PER_SEC * elapsed_ns,
        None => false,
    }
}

/// Scoped possible thrashing: high or severe memory pressure sustained for
/// five seconds with a complete interval, a material `full` share, and
/// direct scan, direct steal, swap-in and swap-out each at the minimum page
/// rate over the observation.
pub open spec fn possible_thrashing(
    severity: Severity,
    psi: CgroupResource<CgroupPsiInterval>,
    grade: PsiGrade,
    elapsed_ns: u64,
    stat: CgroupMemoryStatRaw,
) -> bool {
    &&& (severity == Severity::High || severity == Severity::Severe)
    &&& psi_window(psi) matches Some(w) && w >= SUSTAINED_WINDOW_NS
    &&& psi_interval_state(psi) == CgroupPsiIntervalState::Available
    &&& share_defined(full_total(psi), psi) && grade.full_material
    &&& rate_met(stat.pgscan_direct, elapsed_ns)
    &&& rate_met(stat.pgsteal_direct, elapsed_ns)
    &&& rate_met(stat.pswpin, elapsed_ns)
    &&& rate_met(stat.pswpout, elapsed_ns)
}

pub open spec fn finding_mechanism(
    group: CgroupInterval,
    resource: CgroupResourceKind,
    psi: CgroupResource<CgroupPsiInterval>,
    grade: PsiGrade,
    elapsed_ns: u64,
) -> (Option<CgroupMechanism>, Option<Confidence>) {
    let kind = finding_kind(psi, grade);
    if resource == CgroupResourceKind::Memory && kind == CgroupAssessmentKind::Pressure && (
    group.memory_stat.value matches Some(stat) && possible_thrashing(
        finding_severity(psi, grade),
        psi,
        grade,
        elapsed_ns,
        stat,
    )) {
        (Some(CgroupMechanism::PossibleThrashing), Some(Confidence::Medium))
    } else {
        mechanism_of(resource, kind, group)
    }
}

pub open spec fn finding_confidence(kind: CgroupAssessmentKind, psi: CgroupResource<CgroupPsiInterval>) -> Confidence {
    if kind == CgroupAssessmentKind::InsufficientObservation {
        Confidence::Low
    } else if psi_window(psi) matches Some(w) && w >= SUSTAINED_WINDOW_NS {
        Confidence::High
    } else {
        Confidence::Medium
    }
}

// ---------------------------------------------------------------------------
// Qualifiers
// ---------------------------------------------------------------------------

pub open spec fn only_if(c: bool, q: Qualifier) -> Seq<Qualifier> {
    if c {
        seq![q]
    } else {
        Seq::empty()
    }
}

pub open spec fn scoped_base_qualifiers() -> Seq<Qualifier> {
    seq![
        Qualifier {
            kind: "cgroup_scoped_evidence",
            message: "This is cgroup-scoped PSI evidence. It does not establish that this cgroup caused host pressure or that host pressure affected this cgroup.",
        },
        Qualifier {
            kind: "cgroup_context_not_causality",
            message: "CPU, memory, I/O counters, gauges, and stable membership are context only; they do not establish a cross-resource or process causal relationship.",
        },
        Qualifier {
            kind: "cgroup_hierarchy_overlaps",
            message: "Ancestor and child cgroup scopes can overlap because parent controller and PSI data may include descendants; findings are not independent and are never summed.",
        },
        Qualifier {
            kind: "cgroup_path_lifetime_uncertain",
            message: "A stable cgroup path has no generation counter, so deletion and recreation at the same path cannot be ruled out.",
        },
    ]
}

pub open spec fn systemd_candidate_qualifier() -> Qualifier {
    Qualifier {
        kind: "systemd_unit_candidate",
        message: "The systemd-looking final path component is a presentation-only candidate, not authoritative unit identity.",
    }
}

pub open spec fn membership_changed_qualifier() -> Qualifier {
    Qualifier {
        kind: "cgroup_membership_changed",
        message: "Membership changed during the interval; only stable same-path members are retained, so membership context is partial.",
    }
}

pub open spec fn collection_partial_qualifier() -> Qualifier {
    Qualifier {
        kind: "cgroup_collection_partial",
        message: "Bounded collection or permissions made cgroup context partial.",
    }
}

pub open spec fn psi_invalid_qualifier() -> Qualifier {
    Qualifier {
        kind: "cgroup_psi_unavailable_or_invalid",
        message: "This cgroup PSI interval is unavailable or its `some` counter regressed; no pressure verdict was made.",
    }
}

pub open spec fn some_exceeds_qualifier() -> Qualifier {
    Qualifier {
        kind: "cgroup_some_exceeds_window",
        message: "Cgroup PSI `some` exceeded its measured interval and was rejected as inconsistent; no pressure verdict was made.",
    }
}

pub open spec fn full_partial_qualifier() -> Qualifier {
    Qualifier {
        kind: "cgroup_full_partial",
        message: "Cgroup PSI `full` is partial or inconsistent; valid `some` remains the sole pressure verdict.",
    }
}

pub open spec fn insufficient_qualifier() -> Qualifier {
    Qualifier {
        kind: "insufficient_observation",
        message: "A measured cgroup PSI interval of at least 1s is required for a diagnosis.",
    }
}

pub open spec fn memory_mechanism_qualifier() -> Qualifier {
    Qualifier {
        kind: "cgroup_memory_mechanism_same_window_correlation",
        message: "Cgroup memory.stat page deltas occurred in the same window as scoped PSI pressure; they support a reclaim, swap, or possible-thrashing label but do not prove causality.",
    }
}

pub open spec fn quota_mechanism_qualifier() -> Qualifier {
    Qualifier {
        kind: "cgroup_cpu_quota_throttle_same_window_correlation",
        message: "Cgroup cpu.stat throttled time occurred in the same window as scoped CPU PSI pressure; it supports a quota-throttle label but does not prove the quota caused the stalls or host CPU pressure.",
    }
}

pub open spec fn thrashing_heuristic_qualifier() -> Qualifier {
    Qualifier {
        kind: "cgroup_possible_thrashing_heuristic",
        message: "Scoped possible thrashing requires sustained high `some`, non-trivial valid `full`, and material direct-reclaim plus bidirectional swap churn over the cgroup observation interval; it remains a heuristic and may include descendant activity.",
    }
}

/// Stable membership changed while the interval was collected.
pub open spec fn membership_changed(o: CgroupObservation) -> bool {
    o.issues.members_moved != 0 || o.issues.members_reused != 0 || o.issues.members_appeared != 0
        || o.issues.members_exited != 0
}

/// Bounds or permissions limited what was collected.
pub open spec fn collection_limited(o: CgroupObservation) -> bool {
    o.issues.process_limit_reached || o.issues.cgroup_limit_reached
        || o.issues.process_permission_denied != 0 || o.issues.cgroup_permission_denied != 0
}

/// The qualifiers of a scoped finding, in the order they are attached.
pub open spec fn finding_qualifiers(
    group: CgroupInterval,
    observation: CgroupObservation,
    psi: CgroupResource<CgroupPsiInterval>,
    mechanism: Option<CgroupMechanism>,
) -> Seq<Qualifier> {
    let state = psi_interval_state(psi);
    scoped_base_qualifiers() + only_if(
        group.systemd_unit_candidate is Some,
        systemd_candidate_qualifier(),
    ) + only_if(membership_changed(observation), membership_changed_qualifier()) + only_if(
        collection_limited(observation),
        collection_partial_qualifier(),
    ) + only_if(!valid_some(psi), psi_invalid_qualifier()) + only_if(
        some_exceeds_window(psi),
        some_exceeds_qualifier(),
    ) + only_if(
        state == CgroupPsiIntervalState::Partial || state == CgroupPsiIntervalState::FullExceedsSome,
        full_partial_qualifier(),
    ) + only_if(too_short(psi), insufficient_qualifier()) + only_if(
        mechanism == Some(CgroupMechanism::Reclaim) || mechanism == Some(CgroupMechanism::Swap)
            || mechanism == Some(CgroupMechanism::PossibleThrashing),
        memory_mechanism_qualifier(),
    ) + only_if(mechanism == Some(CgroupMechanism::CpuQuotaThrottle), quota_mechanism_qualifier())
        + only_if(mechanism == Some(CgroupMechanism::PossibleThrashing), thrashing_heuristic_qualifier())
}

// ---------------------------------------------------------------------------
// Stable members in scope
// ---------------------------------------------------------------------------

/// The members whose cgroup lies in the scope `path`, in member order.
pub open spec fn members_in(ms: Seq<CgroupProcessMember>, path: Seq<char>) -> Seq<CgroupProcessMember>
    decreases ms.len(),
{
    if ms.len() == 0 {
        Seq::empty()
    } else {
        let rest = members_in(ms.drop_last(), path);
        if contains_path(path, ms.last().cgroup_path@) {
            rest.push(ms.last())
        } else {
            rest
        }
    }
}

pub open spec fn member_label(m: CgroupProcessMember, path: Seq<char>) -> &'static str {
    if m.cgroup_path@ == path {
        "stable_direct_cgroup_member"
    } else {
        "stable_descendant_cgroup_member"
    }
}

pub open spec fn first_members(s: Seq<CgroupProcessMember>) -> Seq<CgroupProcessMember> {
    if s.len() > MAX_SCOPED_MEMBERS {
        s.take(MAX_SCOPED_MEMBERS as int)
    } else {
        s
    }
}

/// A listed member agrees with the stable member it stands for.
pub open spec fn lists_member(c: CgroupMember, m: CgroupProcessMember, path: Seq<char>) -> bool {
    c.key == m.key && c.name@ == m.name@ && c.label == member_label(m, path)
}

/// The listed members are the first in-scope stable members, labeled.
pub open spec fn scoped_members(listed: Seq<CgroupMember>, ms: Seq<CgroupProcessMember>, path: Seq<char>) -> bool {
    let chosen = first_members(members_in(ms, path));
    listed.len() == chosen.len() && forall|i: int|
        0 <= i < listed.len() ==> lists_member(#[trigger] listed[i], chosen[i], path)
}

fn member_view(m: &CgroupProcessMember, path: &str) -> (c: CgroupMember)
    ensures
        lists_member(c, *m, path@),
{
    let direct = eq_chars(&chars_of(m.cgroup_path.as_str()), &chars_of(path));
    let label = if direct {
        "stable_direct_cgroup_member"
    } else {
        "stable_descendant_cgroup_member"
    };
    CgroupMember { key: m.key, name: m.name.clone(), label }
}

/// The first `MAX_SCOPED_MEMBERS` stable members in the scope of `path`.
pub fn members_in_scope(members: &Vec<CgroupProcessMember>, path: &str) -> (out: Vec<CgroupMember>)
    ensures
        scoped_members(out@, members@, path@),
{
    let mut out: Vec<CgroupMember> = Vec::new();
    let mut i: usize = 0;
    while i < members.len()
        invariant
            i <= members@.len(),
            scoped_members(out@, members@.take(i as int), path@),
        decreases members.len() - i,
    {
        let ghost before = members_in(members@.take(i as int), path@);
        assert(members@.take(i as int + 1).drop_last() =~= members@.take(i as int));
        let inside = cgroup_contains_path(path, members[i].cgroup_path.as_str());
        if inside {
            assert(members_in(members@.take(i as int + 1), path@) == before.push(members@[i as int]));
            if out.len() < MAX_SCOPED_MEMBERS {
                let c = member_view(&members[i], path);
                out.push(c);
                assert(first_members(before.push(members@[i as int])) =~= first_members(
                    before,
                ).push(members@[i as int]));
            } else {
                assert(first_members(before.push(members@[i as int])) =~= first_members(before));
            }
        } else {
            assert(members_in(members@.take(i as int + 1), path@) == before);
        }
        i += 1;
    }
    assert(members@.take(members@.len() as int) =~= members@);
    out
}


// ---------------------------------------------------------------------------
// One scoped finding
// ---------------------------------------------------------------------------

/// The evidence of a finding agrees with the group and its interval.
pub open spec fn evidence_holds(e: CgroupEvidence, group: CgroupInterval, psi: CgroupResource<CgroupPsiInterval>) -> bool {
    &&& e.psi_some_total_delta_us == some_total(psi)
    &&& e.psi_full_total_delta_us == full_total(psi)
    &&& e.psi_window_ns == psi_window(psi)
    &&& e.psi_state == psi.state
    &&& e.cpu == group.cpu
    &&& e.memory_current_end == group.memory_current_end
    &&& e.memory_events == group.memory_events
    &&& e.memory_stat == group.memory_stat
    &&& e.io.state == group.io.state
    &&& match (e.io.value, group.io.value) {
        (Some(a), Some(b)) => a@ == b@,
        (None, None) => true,
        _ => false,
    }
}

/// Everything a scoped finding states, given the caller's grade.
pub open spec fn finding_holds(
    f: CgroupFinding,
    group: CgroupInterval,
    resource: CgroupResourceKind,
    psi: CgroupResource<CgroupPsiInterval>,
    observation: CgroupObservation,
    grade: PsiGrade,
) -> bool {
    let kind = finding_kind(psi, grade);
    let (mechanism, mechanism_confidence) = finding_mechanism(
        group,
        resource,
        psi,
        grade,
        observation.elapsed_ns,
    );
    &&& f.path@ == group.path@
    &&& f.resource == resource
    &&& f.kind == kind
    &&& f.severity == finding_severity(psi, grade)
    &&& f.resource_confidence == finding_confidence(kind, psi)
    &&& f.mechanism == mechanism
    &&& f.mechanism_confidence == mechanism_confidence
    &&& evidence_holds(f.evidence, group, psi)
    &&& f.systemd_unit_candidate == group.systemd_unit_candidate
    &&& scoped_members(f.members@, observation.members@, group.path@)
    &&& f.qualifiers@ == finding_qualifiers(group, observation, psi, mechanism)
}

fn push_if(out: &mut Vec<Qualifier>, c: bool, q: Qualifier)
    ensures
        final(out)@ == old(out)@ + only_if(c, q),
{
    if c {
        out.push(q);
    }
    assert(final(out)@ =~= old(out)@ + only_if(c, q));
}

/// The scoped finding for one cgroup and resource.  `psi` is the pressure
/// interval of that resource in `group`, and `grade` is how the caller
/// graded its `some` and `full` shares.  Without a valid `some` share over
/// at least a second there is no verdict; otherwise the grade decides
/// between no meaningful pressure and pressure.  Memory pressure may name
/// swap, reclaim or (sustained, with material `full` and page churn)
/// possible thrashing; CPU pressure may name a quota throttle.
pub fn cgroup_finding(
    group: &CgroupInterval,
    resource: CgroupResourceKind,
    psi: &CgroupResource<CgroupPsiInterval>,
    observation: &CgroupObservation,
    grade: PsiGrade,
) -> (f: CgroupFinding)
    ensures
        finding_holds(f, *group, resource, *psi, *observation, grade),
{
    let window: Option<u64> = match &psi.value {
        Some(v) => v.elapsed_ns,
        None => None,
    };
    let window_us: u64 = match window {
        Some(w) => w / 1000,
        None => 0,
    };
    let state = match &psi.value {
        Some(v) => v.state,
        None => CgroupPsiIntervalState::Partial,
    };
    let some: Option<u64> = match &psi.value {
        Some(v) => v.some_total_usec,
        None => None,
    };
    let full: Option<u64> = match &psi.value {
        Some(v) => v.full_total_usec,
        None => None,
    };
    let nonempty = match window {
        Some(w) => w != 0,
        None => false,
    };
    let insufficient = match window {
        Some(w) => w < MIN_DIAGNOSIS_WINDOW_NS,
        None => true,
    };
    let sustained = match window {
        Some(w) => w >= SUSTAINED_WINDOW_NS,
        None => false,
    };
    let some_exceeds = match some {
        Some(t) => t > window_us,
        None => false,
    };
    let state_keeps_some = match state {
        CgroupPsiIntervalState::Available
        | CgroupPsiIntervalState::Partial
        | CgroupPsiIntervalState::FullExceedsSome => true,
        _ => false,
    };
    let valid = state_keeps_some && some.is_some() && nonempty && !some_exceeds;
    assert(valid == valid_some(*psi));
    let severity = if valid && !insufficient {
        grade.some_severity
    } else {
        Severity::Negligible
    };
    let kind = if insufficient || !valid {
        CgroupAssessmentKind::InsufficientObservation
    } else if grade.some_severity == Severity::Negligible {
        CgroupAssessmentKind::NoMeaningfulPressure
    } else {
        CgroupAssessmentKind::Pressure
    };
    let elapsed = observation.elapsed_ns;
    let thrashing = match resource {
        CgroupResourceKind::Memory => {
            if kind == CgroupAssessmentKind::Pressure {
                match &group.memory_stat.value {
                    Some(stat) => {
                        let severe_enough = match severity {
                            Severity::High | Severity::Severe => true,
                            _ => false,
                        };
                        let full_ok = full.is_some() && nonempty && grade.full_material;
                        severe_enough && sustained && state == CgroupPsiIntervalState::Available
                            && full_ok && page_rate_at_least(
                            stat.pgscan_direct,
                            elapsed,
                            THRASHING_MIN_PAGE_RATE_PER_SEC,
                        ) && page_rate_at_least(
                            stat.pgsteal_direct,
                            elapsed,
                            THRASHING_MIN_PAGE_RATE_PER_SEC,
                        ) && page_rate_at_least(stat.pswpin, elapsed, THRASHING_MIN_PAGE_RATE_PER_SEC)
                            && page_rate_at_least(
                            stat.pswpout,
                            elapsed,
                            THRASHING_MIN_PAGE_RATE_PER_SEC,
                        )
                    },
                    None => false,
                }
            } else {
                false
            }
        },
        _ => false,
    };
    let (mechanism, mechanism_confidence) = if thrashing {
        (Some(CgroupMechanism::PossibleThrashing), Some(Confidence::Medium))
    } else {
        cgroup_mechanism_label(resource, kind, group)
    };
    let confidence = if kind == CgroupAssessmentKind::InsufficientObservation {
        Confidence::Low
    } else if sustained {
        Confidence::High
    } else {
        Confidence::Medium
    };

    let mut qualifiers: Vec<Qualifier> = Vec::new();
    qualifiers.push(
        Qualifier {
            kind: "cgroup_scoped_evidence",
            message: "This is cgroup-scoped PSI evidence. It does not establish that this cgroup caused host pressure or that host pressure affected this cgroup.",
        },
    );
    qualifiers.push(
        Qualifier {
            kind: "cgroup_context_not_causality",
            message: "CPU, memory, I/O counters, gauges, and stable membership are context only; they do not establish a cross-resource or process causal relationship.",
        },
    );
    qualifiers.push(
        Qualifier {
            kind: "cgroup_hierarchy_overlaps",
            message: "Ancestor and child cgroup scopes can overlap because parent controller and PSI data may include descendants; findings are not independent and are never summed.",
        },
    );
    qualifiers.push(
        Qualifier {
            kind: "cgroup_path_lifetime_uncertain",
            message: "A stable cgroup path has no generation counter, so deletion and recreation at the same path cannot be ruled out.",
        },
    );
    assert(qualifiers@ =~= scoped_base_qualifiers());
    let issues = &observation.issues;
    push_if(
        &mut qualifiers,
        group.systemd_unit_candidate.is_some(),
        Qualifier {
            kind: "systemd_unit_candidate",
            message: "The systemd-looking final path component is a presentation-only candidate, not authoritative unit identity.",
        },
    );
    push_if(
        &mut qualifiers,
        issues.members_moved != 0 || issues.members_reused != 0 || issues.members_appeared != 0
            || issues.members_exited != 0,
        Qualifier {
            kind: "cgroup_membership_changed",
            message: "Membership changed during the interval; only stable same-path members are retained, so membership context is partial.",
        },
    );
    push_if(
        &mut qualifiers,
        issues.process_limit_reached || issues.cgroup_limit_reached
            || issues.process_permission_denied != 0 || issues.cgroup_permission_denied != 0,
        Qualifier {
            kind: "cgroup_collection_partial",
            message: "Bounded collection or permissions made cgroup context partial.",
        },
    );
    push_if(
        &mut qualifiers,
        !valid,
        Qualifier {
            kind: "cgroup_psi_unavailable_or_invalid",
            message: "This cgroup PSI interval is unavailable or its `some` counter regressed; no pressure verdict was made.",
        },
    );
    push_if(
        &mut qualifiers,
        some_exceeds,
        Qualifier {
            kind: "cgroup_some_exceeds_window",
            message: "Cgroup PSI `some` exceeded its measured interval and was rejected as inconsistent; no pressure verdict was made.",
        },
    );
    push_if(
        &mut qualifiers,
        state == CgroupPsiIntervalState::Partial || state == CgroupPsiIntervalState::FullExceedsSome,
        Qualifier {
            kind: "cgroup_full_partial",
            message: "Cgroup PSI `full` is partial or inconsistent; valid `some` remains the sole pressure verdict.",
        },
    );
    push_if(
        &mut qualifiers,
        insufficient,
        Qualifier {
            kind: "insufficient_observation",
            message: "A measured cgroup PSI interval of at least 1s is required for a diagnosis.",
        },
    );
    let memory_mechanism = match mechanism {
        Some(CgroupMechanism::Reclaim) | Some(CgroupMechanism::Swap) | Some(
            CgroupMechanism::PossibleThrashing,
        ) => true,
        _ => false,
    };
    let quota = match mechanism {
        Some(CgroupMechanism::CpuQuotaThrottle) => true,
        _ => false,
    };
    let thrashing_named = match mechanism {
        Some(CgroupMechanism::PossibleThrashing) => true,
        _ => false,
    };
    push_if(
        &mut qualifiers,
        memory_mechanism,
        Qualifier {
            kind: "cgroup_memory_mechanism_same_window_correlation",
            message: "Cgroup memory.stat page deltas occurred in the same window as scoped PSI pressure; they support a reclaim, swap, or possible-thrashing label but do not prove causality.",
        },
    );
    push_if(
        &mut qualifiers,
        quota,
        Qualifier {
            kind: "cgroup_cpu_quota_throttle_same_window_correlation",
            message: "Cgroup cpu.stat throttled time occurred in the same window as scoped CPU PSI pressure; it supports a quota-throttle label but does not prove the quota caused the stalls or host CPU pressure.",
        },
    );
    push_if(
        &mut qualifiers,
        thrashing_named,
        Qualifier {
            kind: "cgroup_possible_thrashing_heuristic",
            message: "Scoped possible thrashing requires sustained high `some`, non-trivial valid `full`, and material direct-reclaim plus bidirectional swap churn over the cgroup observation interval; it remains a heuristic and may include descendant activity.",
        },
    );

    let members = members_in_scope(&observation.members, group.path.as_str());
    let evidence = CgroupEvidence {
        psi_some_total_delta_us: some,
        psi_full_total_delta_us: full,
        psi_window_ns: window,
        psi_state: psi.state,
        cpu: group.cpu,
        memory_current_end: group.memory_current_end,
        memory_events: group.memory_events,
        memory_stat: group.memory_stat,
        io: copy_io(&group.io),
    };
    CgroupFinding {
        path: group.path.clone(),
        resource,
        kind,
        severity,
        resource_confidence: confidence,
        mechanism,
        mechanism_confidence,
        evidence,
        systemd_unit_candidate: copy_unit(&group.systemd_unit_candidate),
        members,
        qualifiers,
    }
}

// ---------------------------------------------------------------------------
// Same-cgroup memory and I/O evidence chains
// ---------------------------------------------------------------------------

/// The evidence of a same-cgroup chain.  Each pressure share is given by its
/// stall total and measured window.
#[derive(Debug, Clone, PartialEq, Eq)]
pub struct ChainEvidence {
    pub memory_psi_some_total_us: u64,
    pub memory_psi_window_ns: u64,
    pub io_psi_some_total_us: u64,
    pub io_psi_window_ns: u64,
    pub swap_in_pages: Option<u64>,
    pub swap_out_pages: Option<u64>,
    pub scan_direct_pages: Option<u64>,
    pub steal_direct_pages: Option<u64>,
    pub path: Option<String>,
    pub high_events: Option<u64>,
    pub max_events: Option<u64>,
}

/// A relation between two findings that independent evidence supports.  It
/// never claims that one resource caused the other.
#[derive(Debug, Clone, PartialEq, Eq)]
pub struct EvidenceChain {
    pub kind: ChainKind,
    pub relation: ChainRelation,
    pub confidence: Confidence,
    pub summary: String,
    pub from: ChainEndpoint,
    pub to: ChainEndpoint,
    pub evidence: ChainEvidence,
    pub qualifiers: Vec<Qualifier>,
}

/// A counter delta that shows activity: present and above zero.
pub open spec fn positive(v: Option<u64>) -> Option<u64> {
    match v {
        Some(x) => if x > 0 {
            Some(x)
        } else {
            None
        },
        None => None,
    }
}

/// The stall total and window of a finding's `some` share, when the share
/// exists.
pub open spec fn share_of(e: CgroupEvidence) -> Option<(u64, u64)> {
    match (e.psi_some_total_delta_us, e.psi_window_ns) {
        (Some(t), Some(w)) => if w != 0 {
            Some((t, w))
        } else {
            None
        },
        _ => None,
    }
}

pub open spec fn event_count(f: CgroupFinding, high: bool) -> Option<u64> {
    match f.evidence.memory_events.value {
        Some(e) => positive(if high { e.high } else { e.max }),
        None => None,
    }
}

pub open spec fn stat_count(f: CgroupFinding, pick: int) -> Option<u64> {
    match f.evidence.memory_stat.value {
        Some(s) => positive(
            if pick == 0 {
                s.pgscan_direct
            } else if pick == 1 {
                s.pgsteal_direct
            } else if pick == 2 {
                s.pswpin
            } else {
                s.pswpout
            },
        ),
        None => None,
    }
}

/// A memory mechanism backs the chain: limit reclaim (`high` or `max`
/// events), direct reclaim (scan and steal), or swap-in.
pub open spec fn mechanism_backed(m: CgroupFinding) -> bool {
    event_count(m, true) is Some || event_count(m, false) is Some || (stat_count(m, 0) is Some
        && stat_count(m, 1) is Some) || stat_count(m, 2) is Some
}

/// A chain links these two findings.
pub open spec fn chain_possible(m: CgroupFinding, io: CgroupFinding) -> bool {
    m.path@ == io.path@ && mechanism_backed(m) && share_of(m.evidence) is Some && share_of(
        io.evidence,
    ) is Some
}

pub open spec fn chain_qualifiers() -> Seq<Qualifier> {
    seq![
        Qualifier {
            kind: "chain_not_causal",
            message: "Independent same-cgroup PSI plus memory.events or memory.stat evidence can support a related path; it does not prove that memory reclaim in this cgroup caused its I/O stalls.",
        },
        Qualifier {
            kind: "same_cgroup_scope_only",
            message: "The relation is limited to one cgroup path. It does not link host findings to cgroup findings or one cgroup to another, including ancestors and children.",
        },
        Qualifier {
            kind: "cgroup_memory_mechanism_scoped",
            message: "memory.events high/max and memory.stat direct-reclaim or swap-in deltas are cgroup-scoped signals, not host vmstat proof, and may include descendant activity.",
        },
        Qualifier {
            kind: "no_process_device_mapping",
            message: "The chain does not map processes to devices or identify which I/O was reclaim or swap traffic.",
        },
    ]
}

/// Everything the chain between `m` and `io` states.
pub open spec fn chain_holds(c: EvidenceChain, m: CgroupFinding, io: CgroupFinding) -> bool {
    let (mt, mw) = share_of(m.evidence).unwrap();
    let (it, iw) = share_of(io.evidence).unwrap();
    &&& c.kind == ChainKind::CgroupMemoryConsistentWithIo
    &&& c.relation == ChainRelation::ConsistentWith
    &&& c.confidence == Confidence::Low
    &&& c.summary@ == "Scoped memory pressure in "@ + m.path@
        + " is consistent with scoped I/O pressure in the same cgroup."@
    &&& c.from matches ChainEndpoint::CgroupMemory { path, kind } && path@ == m.path@ && kind
        == m.kind
    &&& c.to matches ChainEndpoint::CgroupIo { path, kind } && path@ == io.path@ && kind == io.kind
    &&& c.evidence.memory_psi_some_total_us == mt && c.evidence.memory_psi_window_ns == mw
    &&& c.evidence.io_psi_some_total_us == it && c.evidence.io_psi_window_ns == iw
    &&& c.evidence.swap_in_pages == stat_count(m, 2)
    &&& c.evidence.swap_out_pages == stat_count(m, 3)
    &&& c.evidence.scan_direct_pages == stat_count(m, 0)
    &&& c.evidence.steal_direct_pages == stat_count(m, 1)
    &&& c.evidence.path matches Some(p) && p@ == m.path@
    &&& c.evidence.high_events == event_count(m, true)
    &&& c.evidence.max_events == event_count(m, false)
    &&& c.qualifiers@ == chain_qualifiers()
}

fn positive_exec(v: Option<u64>) -> (r: Option<u64>)
    ensures
        r == positive(v),
{
    match v {
        Some(x) => if x > 0 {
            Some(x)
        } else {
            None
        },
        None => None,
    }
}

fn share_exec(e: &CgroupEvidence) -> (r: Option<(u64, u64)>)
    ensures
        r == share_of(*e),
{
    match (e.psi_some_total_delta_us, e.psi_window_ns) {
        (Some(t), Some(w)) => if w != 0 {
            Some((t, w))
        } else {
            None
        },
        _ => None,
    }
}

/// The chain between a memory and an I/O pressure finding of the same
/// cgroup, when a memory mechanism backs it and both shares exist.
/// Coincident pressure without a mechanism is no chain.
pub fn cgroup_memory_io_chain(memory: &CgroupFinding, io: &CgroupFinding) -> (out: Option<
    EvidenceChain,
>)
    ensures
        match out {
            Some(c) => chain_possible(*memory, *io) && chain_holds(c, *memory, *io),
            None => !chain_possible(*memory, *io),
        },
{
    if !eq_chars(&chars_of(memory.path.as_str()), &chars_of(io.path.as_str())) {
        return None;
    }
    let (high_events, max_events) = match &memory.evidence.memory_events.value {
        Some(e) => (positive_exec(e.high), positive_exec(e.max)),
        None => (None, None),
    };
    let (scan, steal, swap_in, swap_out) = match &memory.evidence.memory_stat.value {
        Some(s) => (
            positive_exec(s.pgscan_direct),
            positive_exec(s.pgsteal_direct),
            positive_exec(s.pswpin),
            positive_exec(s.pswpout),
        ),
        None => (None, None, None, None),
    };
    let limit_reclaim = high_events.is_some() || max_events.is_some();
    let direct_reclaim = scan.is_some() && steal.is_some();
    if !limit_reclaim && !direct_reclaim && swap_in.is_none() {
        return None;
    }
    let (mt, mw) = match share_exec(&memory.evidence) {
        Some(s) => s,
        None => return None,
    };
    let (it, iw) = match share_exec(&io.evidence) {
        Some(s) => s,
        None => return None,
    };
    let mut summary = String::new();
    append_str(&mut summary, "Scoped memory pressure in ");
    append_str(&mut summary, memory.path.as_str());
    append_str(&mut summary, " is consistent with scoped I/O pressure in the same cgroup.");
    let mut qualifiers: Vec<Qualifier> = Vec::new();
    qualifiers.push(
        Qualifier {
            kind: "chain_not_causal",
            message: "Independent same-cgroup PSI plus memory.events or memory.stat evidence can support a related path; it does not prove that memory reclaim in this cgroup caused its I/O stalls.",
        },
    );
    qualifiers.push(
        Qualifier {
            kind: "same_cgroup_scope_only",
            message: "The relation is limited to one cgroup path. It does not link host findings to cgroup findings or one cgroup to another, including ancestors and children.",
        },
    );
    qualifiers.push(
        Qualifier {
            kind: "cgroup_memory_mechanism_scoped",
            message: "memory.events high/max and memory.stat direct-reclaim or swap-in deltas are cgroup-scoped signals, not host vmstat proof, and may include descendant activity.",
        },
    );
    qualifiers.push(
        Qualifier {
            kind: "no_process_device_mapping",
            message: "The chain does not map processes to devices or identify which I/O was reclaim or swap traffic.",
        },
    );
    assert(qualifiers@ =~= chain_qualifiers());
    Some(
        EvidenceChain {
            kind: ChainKind::CgroupMemoryConsistentWithIo,
            relation: ChainRelation::ConsistentWith,
            confidence: Confidence::Low,
            summary,
            from: ChainEndpoint::CgroupMemory { path: memory.path.clone(), kind: memory.kind },
            to: ChainEndpoint::CgroupIo { path: io.path.clone(), kind: io.kind },
            evidence: ChainEvidence {
                memory_psi_some_total_us: mt,
                memory_psi_window_ns: mw,
                io_psi_some_total_us: it,
                io_psi_window_ns: iw,
                swap_in_pages: swap_in,
                swap_out_pages: swap_out,
                scan_direct_pages: scan,
                steal_direct_pages: steal,
                path: Some(memory.path.clone()),
                high_events,
                max_events,
            },
            qualifiers,
        },
    )
}

// ---------------------------------------------------------------------------
// Choosing the chains of a set of scoped findings
// ---------------------------------------------------------------------------

pub open spec fn pressure_of(f: CgroupFinding, r: CgroupResourceKind) -> bool {
    f.kind == CgroupAssessmentKind::Pressure && f.resource == r
}

/// The last pressure finding of resource `r` for `path` among the first `n`
/// findings.
pub open spec fn latest(fs: Seq<CgroupFinding>, path: Seq<char>, r: CgroupResourceKind, n: int) -> Option<usize>
    decreases n,
{
    if n <= 0 {
        None
    } else if pressure_of(fs[n - 1], r) && fs[n - 1].path@ == path {
        Some((n - 1) as usize)
    } else {
        latest(fs, path, r, n - 1)
    }
}

/// The chained pairs among the first `n` findings, in finding order: each
/// memory pressure finding that is the last of its path, with the last I/O
/// pressure finding of that path, when a chain links them.
pub open spec fn chain_pairs(fs: Seq<CgroupFinding>, n: int) -> Seq<(usize, usize)>
    decreases n,
{
    if n <= 0 {
        Seq::empty()
    } else {
        let rest = chain_pairs(fs, n - 1);
        let i = n - 1;
        let path = fs[i].path@;
        if pressure_of(fs[i], CgroupResourceKind::Memory) && latest(
            fs,
            path,
            CgroupResourceKind::Memory,
            fs.len() as int,
        ) == Some(i as usize) && (latest(fs, path, CgroupResourceKind::Io, fs.len() as int) matches Some(
            j,
        ) && chain_possible(fs[i], fs[j as int])) {
            rest.push((i as usize, latest(fs, path, CgroupResourceKind::Io, fs.len() as int).unwrap()))
        } else {
            rest
        }
    }
}

/// A chain's strength: the higher severity of its two findings.
pub open spec fn pair_rank(fs: Seq<CgroupFinding>, p: (usize, usize)) -> u8 {
    let a = severity_level(fs[p.0 as int].severity);
    let b = severity_level(fs[p.1 as int].severity);
    if a >= b {
        a
    } else {
        b
    }
}

/// Stronger chains first; ties by cgroup path.
pub open spec fn pair_before(fs: Seq<CgroupFinding>, a: (usize, usize), b: (usize, usize)) -> bool {
    pair_rank(fs, a) > pair_rank(fs, b) || (pair_rank(fs, a) == pair_rank(fs, b) && seq_lt(
        fs[a.0 as int].path@,
        fs[b.0 as int].path@,
    ))
}

pub open spec fn pair_order(fs: Seq<CgroupFinding>) -> spec_fn((usize, usize), (usize, usize)) -> bool {
    |a: (usize, usize), b: (usize, usize)| pair_before(fs, a, b)
}

pub open spec fn first_chains<T>(s: Seq<T>) -> Seq<T> {
    if s.len() > MAX_CGROUP_EVIDENCE_CHAINS {
        s.take(MAX_CGROUP_EVIDENCE_CHAINS as int)
    } else {
        s
    }
}

/// The pairs whose chains are reported, strongest first.
pub open spec fn chosen_pairs(fs: Seq<CgroupFinding>) -> Seq<(usize, usize)> {
    first_chains(ranked_by(chain_pairs(fs, fs.len() as int), pair_order(fs)))
}

fn latest_exec(fs: &Vec<CgroupFinding>, path: &Vec<char>, r: CgroupResourceKind) -> (out: Option<usize>)
    ensures
        out == latest(fs@, path@, r, fs@.len() as int),
        out matches Some(j) ==> j < fs@.len(),
{
    let mut j: usize = fs.len();
    while j > 0
        invariant
            j <= fs@.len(),
            latest(fs@, path@, r, fs@.len() as int) == latest(fs@, path@, r, j as int),
        decreases j,
    {
        let f = &fs[j - 1];
        if f.kind == CgroupAssessmentKind::Pressure && f.resource == r && eq_chars(
            &chars_of(f.path.as_str()),
            path,
        ) {
            return Some(j - 1);
        }
        j -= 1;
    }
    None
}

fn pair_rank_exec(fs: &Vec<CgroupFinding>, p: (usize, usize)) -> (r: u8)
    requires
        p.0 < fs@.len(),
        p.1 < fs@.len(),
    ensures
        r == pair_rank(fs@, p),
{
    let a = severity_rank(fs[p.0].severity);
    let b = severity_rank(fs[p.1].severity);
    if a >= b {
        a
    } else {
        b
    }
}

fn pair_before_exec(fs: &Vec<CgroupFinding>, a: (usize, usize), b: (usize, usize)) -> (r: bool)
    requires
        a.0 < fs@.len(),
        a.1 < fs@.len(),
        b.0 < fs@.len(),
        b.1 < fs@.len(),
    ensures
        r == pair_before(fs@, a, b),
{
    let ra = pair_rank_exec(fs, a);
    let rb = pair_rank_exec(fs, b);
    ra > rb || (ra == rb && chars_lt(
        &chars_of(fs[a.0].path.as_str()),
        &chars_of(fs[b.0].path.as_str()),
    ))
}

/// The same-cgroup memory/I-O chains among scoped findings: for each cgroup
/// path with memory and I/O pressure findings (the last of each), the chain
/// between them when a memory mechanism backs it; strongest first, ties by
/// path, at most `MAX_CGROUP_EVIDENCE_CHAINS`.
pub fn analyze_cgroup_memory_io_chains(findings: &Vec<CgroupFinding>) -> (out: Vec<EvidenceChain>)
    ensures
        out@.len() == chosen_pairs(findings@).len(),
        forall|k: int|
            0 <= k < out@.len() ==> chain_holds(
                #[trigger] out@[k],
                findings@[chosen_pairs(findings@)[k].0 as int],
                findings@[chosen_pairs(findings@)[k].1 as int],
            ),
{
    let ghost fs = findings@;
    let mut pairs: Vec<(usize, usize)> = Vec::new();
    let mut chains: Vec<EvidenceChain> = Vec::new();
    let mut i: usize = 0;
    while i < findings.len()
        invariant
            i <= fs.len(),
            fs == findings@,
            pairs@ == ranked_by(chain_pairs(fs, i as int), pair_order(fs)),
            chains@.len() == pairs@.len(),
            forall|k: int| 0 <= k < pairs@.len() ==> #[trigger] pairs@[k].0 < fs.len() && pairs@[k].1 < fs.len(),
            forall|k: int|
                0 <= k < chains@.len() ==> chain_holds(
                    #[trigger] chains@[k],
                    fs[pairs@[k].0 as int],
                    fs[pairs@[k].1 as int],
                ),
        decreases findings.len() - i,
    {
        let ghost pre = chain_pairs(fs, i as int);
        assert(chain_pairs(fs, i as int + 1) == (if pressure_of(fs[i as int], CgroupResourceKind::Memory)
            && latest(fs, fs[i as int].path@, CgroupResourceKind::Memory, fs.len() as int) == Some(i)
            && (latest(fs, fs[i as int].path@, CgroupResourceKind::Io, fs.len() as int) matches Some(j)
            && chain_possible(fs[i as int], fs[j as int])) {
            pre.push((i, latest(fs, fs[i as int].path@, CgroupResourceKind::Io, fs.len() as int).unwrap()))
        } else {
            pre
        }));
        let f = &findings[i];
        if f.kind == CgroupAssessmentKind::Pressure && f.resource == CgroupResourceKind::Memory {
            let path = chars_of(f.path.as_str());
            let last_memory = latest_exec(findings, &path, CgroupResourceKind::Memory);
            if last_memory == Some(i) {
                match latest_exec(findings, &path, CgroupResourceKind::Io) {
                    Some(j) => {
                        match cgroup_memory_io_chain(f, &findings[j]) {
                            Some(chain) => {
                                let x: (usize, usize) = (i, j);
                                let ghost before = pairs@;
                                let mut p: usize = 0;
                                while p < pairs.len() && !pair_before_exec(findings, x, pairs[p])
                                    invariant
                                        p <= pairs@.len(),
                                        pairs@ == before,
                                        fs == findings@,
                                        x.0 < fs.len() && x.1 < fs.len(),
                                        forall|k: int| 0 <= k < pairs@.len() ==> #[trigger] pairs@[k].0 < fs.len() && pairs@[k].1 < fs.len(),
                                        forall|k: int| 0 <= k < p ==> !(pair_order(fs))(x, #[trigger] before[k]),
                                    decreases pairs.len() - p,
                                {
                                    p += 1;
                                }
                                proof {
                                    lemma_insert_ranked_at(before, x, pair_order(fs), p as int);
                                }
                                let ghost old_chains = chains@;
                                pairs.insert(p, x);
                                chains.insert(p, chain);
                                assert forall|k: int| 0 <= k < pairs@.len() implies #[trigger] pairs@[k].0 < fs.len() && pairs@[k].1 < fs.len() by {
                                    if k < p {
                                        assert(pairs@[k] == before[k]);
                                    } else if k > p {
                                        assert(pairs@[k] == before[k - 1]);
                                    }
                                }
                                assert forall|k: int| 0 <= k < chains@.len() implies chain_holds(
                                    #[trigger] chains@[k],
                                    fs[pairs@[k].0 as int],
                                    fs[pairs@[k].1 as int],
                                ) by {
                                    if k < p {
                                        assert(pairs@[k] == before[k] && chains@[k] == old_chains[k]);
                                    } else if k > p {
                                        assert(pairs@[k] == before[k - 1] && chains@[k] == old_chains[k - 1]);
                                    }
                                }
                                assert(chain_pairs(fs, i as int).push(x).drop_last() =~= chain_pairs(fs, i as int));
                            },
                            None => {},
                        }
                    },
                    None => {},
                }
            }
        }
        assert(pre.push((i, 0usize)).drop_last() =~= pre);
        i += 1;
    }
    let ghost all = pairs@;
    pairs.truncate(MAX_CGROUP_EVIDENCE_CHAINS);
    let ghost kept = chains@;
    chains.truncate(MAX_CGROUP_EVIDENCE_CHAINS);
    assert(chosen_pairs(fs) =~= first_chains(all));
    assert forall|k: int| 0 <= k < chains@.len() implies chain_holds(
        #[trigger] chains@[k],
        fs[chosen_pairs(fs)[k].0 as int],
        fs[chosen_pairs(fs)[k].1 as int],
    ) by {
        assert(chains@[k] == kept[k]);
        assert(chosen_pairs(fs)[k] == all[k]);
    }
    chains
}

// ---------------------------------------------------------------------------
// Reported scoped findings
// ---------------------------------------------------------------------------

/// The pressure findings, in order.
pub open spec fn pressure_only(fs: Seq<CgroupFinding>) -> Seq<CgroupFinding>
    decreases fs.len(),
{
    if fs.len() == 0 {
        Seq::empty()
    } else {
        let rest = pressure_only(fs.drop_last());
        if fs.last().kind == CgroupAssessmentKind::Pressure {
            rest.push(fs.last())
        } else {
            rest
        }
    }
}

pub open spec fn first_findings(s: Seq<CgroupFinding>) -> Seq<CgroupFinding> {
    if s.len() > MAX_CGROUP_FINDINGS {
        s.take(MAX_CGROUP_FINDINGS as int)
    } else {
        s
    }
}

/// What is reported of ranked scoped findings: the pressure findings, at
/// most `MAX_CGROUP_FINDINGS`; without any, the top finding alone as a
/// summary.
pub open spec fn reported_findings(fs: Seq<CgroupFinding>) -> Seq<CgroupFinding> {
    let p = pressure_only(fs);
    if p.len() == 0 {
        if fs.len() > 0 {
            seq![fs[0]]
        } else {
            Seq::empty()
        }
    } else {
        first_findings(p)
    }
}

/// Chooses the findings to report from ranked scoped findings.
pub fn select_cgroup_findings(ranked: Vec<CgroupFinding>) -> (out: Vec<CgroupFinding>)
    ensures
        out@ == reported_findings(ranked@),
{
    let ghost all = ranked@;
    assert(all.len() == ranked.len());
    let mut rest = ranked;
    let mut out: Vec<CgroupFinding> = Vec::new();
    let mut first: Option<CgroupFinding> = None;
    let mut k: usize = 0;
    while rest.len() > 0
        invariant
            k <= all.len(),
            all.len() <= usize::MAX,
            rest@ == all.skip(k as int),
            out@ == first_findings(pressure_only(all.take(k as int))),
            first == (if k > 0 && all[0].kind != CgroupAssessmentKind::Pressure {
                Some(all[0])
            } else {
                None::<CgroupFinding>
            }),
        decreases rest.len(),
    {
        let ghost pre = pressure_only(all.take(k as int));
        assert(all.take(k + 1).drop_last() =~= all.take(k as int));
        assert(rest@[0] == all[k as int]);
        let f = rest.remove(0);
        assert(rest@ =~= all.skip(k + 1));
        if f.kind == CgroupAssessmentKind::Pressure {
            assert(pressure_only(all.take(k + 1)) == pre.push(f));
            if out.len() < MAX_CGROUP_FINDINGS {
                out.push(f);
                assert(first_findings(pre.push(f)) =~= first_findings(pre).push(f));
            } else {
                assert(first_findings(pre.push(f)) =~= first_findings(pre));
            }
        } else {
            assert(pressure_only(all.take(k + 1)) == pre);
            if k == 0 {
                first = Some(f);
            }
        }
        k += 1;
    }
    assert(all.take(k as int) =~= all);
    if out.len() == 0 {
        match first {
            Some(f) => {
                out.push(f);
                assert(out@ =~= seq![all[0]]);
            },
            None => {
                proof {
                    if all.len() > 0 {
                        assert(all[0].kind == CgroupAssessmentKind::Pressure);
                        assert(all.take(1).drop_last() =~= Seq::<CgroupFinding>::empty());
                        lemma_pressure_only_prefix(all, 1);
                    }
                }
            },
        }
    }
    out
}

/// The pressure findings of a prefix are a prefix of those of the whole.
proof fn lemma_pressure_only_prefix(s: Seq<CgroupFinding>, n: int)
    requires
        0 <= n <= s.len(),
    ensures
        pressure_only(s.take(n)).len() <= pressure_only(s).len(),
    decreases s.len() - n,
{
    if n < s.len() {
        lemma_pressure_only_prefix(s, n + 1);
        assert(s.take(n + 1).drop_last() =~= s.take(n));
    } else {
        assert(s.take(n) =~= s);
    }
}

// ---------------------------------------------------------------------------
// Laws
// ---------------------------------------------------------------------------

/// A pressure interval without a window, or shorter than a second, gives no
/// pressure verdict.  For any grade, such a finding is marked insufficient,
/// with negligible severity, low confidence and no mechanism.
pub proof fn lemma_short_window_no_verdict(
    f: CgroupFinding,
    group: CgroupInterval,
    resource: CgroupResourceKind,
    psi: CgroupResource<CgroupPsiInterval>,
    observation: CgroupObservation,
    grade: PsiGrade,
)
    requires
        finding_holds(f, group, resource, psi, observation, grade),
        too_short(psi),
    ensures
        f.kind == CgroupAssessmentKind::InsufficientObservation,
        f.severity == Severity::Negligible,
        f.resource_confidence == Confidence::Low,
        f.mechanism is None,
        f.mechanism_confidence is None,
{
}

/// Every scoped finding says first that it is scoped evidence, not
/// causality: its qualifiers begin with the four scoped caveats.
pub proof fn lemma_scoped_caveats_first(
    f: CgroupFinding,
    group: CgroupInterval,
    resource: CgroupResourceKind,
    psi: CgroupResource<CgroupPsiInterval>,
    observation: CgroupObservation,
    grade: PsiGrade,
)
    requires
        finding_holds(f, group, resource, psi, observation, grade),
    ensures
        f.qualifiers@.len() >= 4,
        f.qualifiers@.take(4) == scoped_base_qualifiers(),
{
    let m = finding_mechanism(group, resource, psi, grade, observation.elapsed_ns).0;
    let q = finding_qualifiers(group, observation, psi, m);
    assert(q.take(4) =~= scoped_base_qualifiers());
}

proof fn lemma_pair_order_strict(fs: Seq<CgroupFinding>)
    ensures
        strict_order(pair_order(fs)),
{
    let o = pair_order(fs);
    assert forall|a: (usize, usize)| !#[trigger] o(a, a) by {
        lemma_seq_lt_irreflexive(fs[a.0 as int].path@);
    }
    assert forall|a: (usize, usize), b: (usize, usize), c: (usize, usize)|
        #[trigger] o(a, b) && #[trigger] o(b, c) implies o(a, c) by {
        if pair_rank(fs, a) == pair_rank(fs, b) && pair_rank(fs, b) == pair_rank(fs, c) {
            lemma_seq_lt_transitive(fs[a.0 as int].path@, fs[b.0 as int].path@, fs[c.0 as int].path@);
        }
    }
}

/// The reported chains are ranked: no chain follows one it outranks (a
/// stronger one, or an equally strong one of a smaller path), and there
/// are at most `MAX_CGROUP_EVIDENCE_CHAINS`.
pub proof fn lemma_chains_ranked(fs: Seq<CgroupFinding>)
    ensures
        sorted_by(chosen_pairs(fs), pair_order(fs)),
        chosen_pairs(fs).len() <= MAX_CGROUP_EVIDENCE_CHAINS,
{
    let all = ranked_by(chain_pairs(fs, fs.len() as int), pair_order(fs));
    lemma_pair_order_strict(fs);
    lemma_ranked_sorted(chain_pairs(fs, fs.len() as int), pair_order(fs));
    if all.len() > MAX_CGROUP_EVIDENCE_CHAINS {
        lemma_sorted_prefix(all, pair_order(fs), MAX_CGROUP_EVIDENCE_CHAINS as int);
    }
}


/// Counters never decide pressure.  Two findings of the same pressure
/// interval and grade have the same kind, severity and confidence, even when
/// the controller counters, members or units of their cgroups differ.
pub proof fn lemma_counters_never_decide_pressure(
    f1: CgroupFinding,
    g1: CgroupInterval,
    o1: CgroupObservation,
    f2: CgroupFinding,
    g2: CgroupInterval,
    o2: CgroupObservation,
    resource: CgroupResourceKind,
    psi: CgroupResource<CgroupPsiInterval>,
    grade: PsiGrade,
)
    requires
        finding_holds(f1, g1, resource, psi, o1, grade),
        finding_holds(f2, g2, resource, psi, o2, grade),
    ensures
        f1.kind == f2.kind,
        f1.severity == f2.severity,
        f1.resource_confidence == f2.resource_confidence,
{
}

/// A chained pair: a memory and an I/O pressure finding of one cgroup path,
/// linked by a memory mechanism.
pub open spec fn linked_pair(fs: Seq<CgroupFinding>, p: (usize, usize)) -> bool {
    &&& p.0 < fs.len() && p.1 < fs.len()
    &&& pressure_of(fs[p.0 as int], CgroupResourceKind::Memory)
    &&& pressure_of(fs[p.1 as int], CgroupResourceKind::Io)
    &&& fs[p.0 as int].path@ == fs[p.1 as int].path@
    &&& chain_possible(fs[p.0 as int], fs[p.1 as int])
}

proof fn lemma_latest_matches(fs: Seq<CgroupFinding>, path: Seq<char>, r: CgroupResourceKind, n: int)
    requires
        n <= fs.len() <= usize::MAX,
    ensures
        latest(fs, path, r, n) matches Some(j) ==> j < n && pressure_of(fs[j as int], r)
            && fs[j as int].path@ == path,
    decreases n,
{
    if n > 0 {
        lemma_latest_matches(fs, path, r, n - 1);
    }
}

proof fn lemma_chain_pairs_linked(fs: Seq<CgroupFinding>, n: int)
    requires
        n <= fs.len() <= usize::MAX,
    ensures
        forall|k: int|
            0 <= k < chain_pairs(fs, n).len() ==> linked_pair(fs, #[trigger] chain_pairs(fs, n)[k]),
    decreases n,
{
    if n > 0 {
        lemma_chain_pairs_linked(fs, n - 1);
        let i = n - 1;
        lemma_latest_matches(fs, fs[i].path@, CgroupResourceKind::Io, fs.len() as int);
        let rest = chain_pairs(fs, n - 1);
        let now = chain_pairs(fs, n);
        assert forall|k: int| 0 <= k < now.len() implies linked_pair(fs, #[trigger] now[k]) by {
            if k < rest.len() {
                assert(now[k] == rest[k]);
            }
        }
    }
}

/// Chains stay within one cgroup: every reported chain joins a memory and
/// an I/O pressure finding of the same path, backed by a memory mechanism;
/// it never links a cgroup to another, parent and child included.
pub proof fn lemma_chains_stay_in_one_cgroup(fs: Seq<CgroupFinding>)
    requires
        fs.len() <= usize::MAX,
    ensures
        forall|k: int|
            0 <= k < chosen_pairs(fs).len() ==> linked_pair(fs, #[trigger] chosen_pairs(fs)[k]),
{
    broadcast use vstd::seq_lib::group_to_multiset_ensures;

    let pairs = chain_pairs(fs, fs.len() as int);
    let all = ranked_by(pairs, pair_order(fs));
    lemma_chain_pairs_linked(fs, fs.len() as int);
    lemma_pair_order_strict(fs);
    lemma_ranked_sorted(pairs, pair_order(fs));
    assert forall|k: int| 0 <= k < all.len() implies linked_pair(fs, #[trigger] all[k]) by {
        assert(all.to_multiset().count(all[k]) > 0);
        assert(pairs.to_multiset().count(all[k]) > 0);
        assert(pairs.contains(all[k]));
        let m = choose|m: int| 0 <= m < pairs.len() && pairs[m] == all[k];
        assert(linked_pair(fs, pairs[m]));
    }
    let chosen = chosen_pairs(fs);
    assert forall|k: int| 0 <= k < chosen.len() implies linked_pair(fs, #[trigger] chosen[k]) by {
        assert(chosen[k] == all[k]);
    }
}


/// The stronger severity of a chained pair, in the natural order of
/// severities.
pub open spec fn pair_strength(fs: Seq<CgroupFinding>, p: (usize, usize)) -> int {
    let a = crate::host_analysis::severity_index(fs[p.0 as int].severity);
    let b = crate::host_analysis::severity_index(fs[p.1 as int].severity);
    if a >= b {
        a
    } else {
        b
    }
}

/// Scoped evidence chains come strongest first (by the more severe of their
/// two findings), equally strong chains by ascending cgroup path, and at
/// most sixteen are kept.
pub proof fn lemma_chains_strongest_first(fs: Seq<CgroupFinding>)
    ensures
        chosen_pairs(fs).len() <= 16,
        forall|i: int, j: int|
            0 <= i < j < chosen_pairs(fs).len() ==> pair_strength(fs, #[trigger] chosen_pairs(fs)[i]) >= pair_strength(
                fs,
                #[trigger] chosen_pairs(fs)[j],
            ) && (pair_strength(fs, chosen_pairs(fs)[i]) == pair_strength(fs, chosen_pairs(fs)[j]) ==> !seq_lt(
                fs[chosen_pairs(fs)[j].0 as int].path@,
                fs[chosen_pairs(fs)[i].0 as int].path@,
            )),
{
    lemma_chains_ranked(fs);
    let c = chosen_pairs(fs);
    assert forall|i: int, j: int| 0 <= i < j < c.len() implies pair_strength(fs, #[trigger] c[i]) >= pair_strength(
        fs,
        #[trigger] c[j],
    ) && (pair_strength(fs, c[i]) == pair_strength(fs, c[j]) ==> !seq_lt(
        fs[c[j].0 as int].path@,
        fs[c[i].0 as int].path@,
    )) by {
        assert(!(pair_order(fs))(c[j], c[i]));
    }
}

} // verus!
