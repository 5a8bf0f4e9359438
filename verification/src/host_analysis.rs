//! Host-wide verdicts from pressure-stall intervals: CPU contention, memory
//! pressure with its mechanism, and block-I/O pressure with the devices and
//! processes active in the same window, then the overall health status.
//! The share of an interval spent stalled is a fraction; the caller grades
//! it into a `PsiGrade`, and everything else is decided here.

use vstd::prelude::*;
use crate::analysis::{
    active_device_candidates, active_suspects, bounded, device_activity_qualifier, device_order,
    io_device_candidates, io_process_suspects, page_rate_at_least, process_activity_qualifier,
    suspect_order, AssessmentKind, ChainEndpoint, ChainKind, ChainRelation, confidence_level,
    confidence_rank, severity_level, severity_rank,
    Confidence, IoAssessmentKind, IoDeviceCandidate, IoFullEvidenceState, IoProcessSuspect,
    MemoryAssessmentKind, MemoryFullEvidenceState, Qualifier, Resource, Severity,
    THRASHING_MIN_PAGE_RATE_PER_SEC, MAX_CGROUP_EVIDENCE_CHAINS,
};
use crate::cgroup::CgroupPsiRaw;
use crate::analysis::CgroupAssessmentKind;
use crate::cgroup_analysis::{
    lemma_chains_ranked, lemma_chains_stay_in_one_cgroup, linked_pair,
    analyze_cgroup_memory_io_chains, chain_holds, chosen_pairs, ChainEvidence, CgroupFinding,
    EvidenceChain, PsiGrade, MIN_DIAGNOSIS_WINDOW_NS, SUSTAINED_WINDOW_NS,
};
use crate::text::{append_str, chars_of, seqs_of, string_of, strictly_sorted};
use crate::cgroup::{insert_path, strs_of};
use crate::presentation::{terminal_form, terminal_text};
use crate::finding_rows::{all_rows, finding_rows, row_order, row_views, FindingRow};
use crate::presentation::{OverallStatus, ResourceState};
use crate::io::{DiskstatsObservation, IoCapability, ProcessIoObservation};
use crate::ranking::{
    lemma_ranked_stable, tie_compatible, ties_with, insert_ranked, lemma_insert_ranked_at, lemma_ranked_sorted, ranked_by, sorted_by, strict_order,
};
use crate::memory::{
    counter_value, lookup_counter, MemoryContextCapability, MemoryContextObservation, VmstatCounter,
};

verus! {

// ---------------------------------------------------------------------------
// Pressure evidence
// ---------------------------------------------------------------------------

/// A CPU pressure interval: the requested and measured windows, and the
/// cumulative `some` stall over the measured window.
#[derive(Debug, Clone, Copy, PartialEq, Eq, Structural)]
pub struct CpuPsiEvidence {
    pub requested_ns: u64,
    pub elapsed_ns: u64,
    pub some_total_delta_us: u64,
}

/// What became of the `full` stall counter over an interval.
#[derive(Debug, Clone, Copy, PartialEq, Eq, Structural)]
pub enum FullStall {
    Available { total_delta_us: u64 },
    Missing,
    CounterRegressed,
    DeltaExceedsElapsed,
    ExceedsSome,
}

/// A memory or I/O pressure interval: the requested and measured windows,
/// the cumulative `some` stall, and the `full` stall.
#[derive(Debug, Clone, Copy, PartialEq, Eq, Structural)]
pub struct StallEvidence {
    pub requested_ns: u64,
    pub elapsed_ns: u64,
    pub some_total_delta_us: u64,
    pub full: FullStall,
}

pub type MemoryPsiEvidence = StallEvidence;

pub type IoPsiEvidence = StallEvidence;

/// The interval between two pressure readings taken `elapsed_ns` apart, or
/// nothing when `some` regressed or exceeds the measured window.
pub open spec fn stall_interval(
    requested_ns: u64,
    elapsed_ns: u64,
    start: CgroupPsiRaw,
    end: CgroupPsiRaw,
) -> Option<StallEvidence> {
    let window_us = elapsed_ns / 1000;
    if end.some_total_usec < start.some_total_usec || end.some_total_usec - start.some_total_usec
        > window_us {
        None
    } else {
        let some = (end.some_total_usec - start.some_total_usec) as u64;
        let full = match (start.full_total_usec, end.full_total_usec) {
            (Some(a), Some(b)) => if b < a {
                FullStall::CounterRegressed
            } else if b - a > window_us {
                FullStall::DeltaExceedsElapsed
            } else if b - a > some {
                FullStall::ExceedsSome
            } else {
                FullStall::Available { total_delta_us: (b - a) as u64 }
            },
            _ => FullStall::Missing,
        };
        Some(StallEvidence { requested_ns, elapsed_ns, some_total_delta_us: some, full })
    }
}

/// Checked `some` and `full` deltas between two memory or I/O pressure
/// readings.  A regressed or oversized `some` gives no interval; a bad
/// `full` is kept as its state while `some` remains usable.
pub fn stall_evidence(requested_ns: u64, elapsed_ns: u64, start: &CgroupPsiRaw, end: &CgroupPsiRaw) -> (r: Option<StallEvidence>)
    ensures
        r == stall_interval(requested_ns, elapsed_ns, *start, *end),
{
    let window_us = elapsed_ns / 1000;
    if end.some_total_usec < start.some_total_usec {
        return None;
    }
    let some = end.some_total_usec - start.some_total_usec;
    if some > window_us {
        return None;
    }
    let full = match (start.full_total_usec, end.full_total_usec) {
        (Some(a), Some(b)) => if b < a {
            FullStall::CounterRegressed
        } else if b - a > window_us {
            FullStall::DeltaExceedsElapsed
        } else if b - a > some {
            FullStall::ExceedsSome
        } else {
            FullStall::Available { total_delta_us: b - a }
        },
        _ => FullStall::Missing,
    };
    Some(StallEvidence { requested_ns, elapsed_ns, some_total_delta_us: some, full })
}

pub open spec fn min_window(requested_ns: u64, elapsed_ns: u64) -> u64 {
    if requested_ns <= elapsed_ns {
        requested_ns
    } else {
        elapsed_ns
    }
}

/// Confidence in a verdict is high when both windows reach five seconds.
pub open spec fn window_confidence(requested_ns: u64, elapsed_ns: u64) -> Confidence {
    if requested_ns >= SUSTAINED_WINDOW_NS && elapsed_ns >= SUSTAINED_WINDOW_NS {
        Confidence::High
    } else {
        Confidence::Medium
    }
}

fn window_confidence_exec(requested_ns: u64, elapsed_ns: u64) -> (c: Confidence)
    ensures
        c == window_confidence(requested_ns, elapsed_ns),
{
    if requested_ns >= SUSTAINED_WINDOW_NS && elapsed_ns >= SUSTAINED_WINDOW_NS {
        Confidence::High
    } else {
        Confidence::Medium
    }
}

/// A finding's one-line summary: a fixed sentence is stated here; a
/// sentence that quotes a pressure share (a fraction) is left to the caller,
/// and the summary is then absent.
pub open spec fn summary_is(s: Option<String>, text: Option<Seq<char>>) -> bool {
    match (s, text) {
        (Some(a), Some(b)) => a@ == b,
        (None, None) => true,
        _ => false,
    }
}

fn fixed_summary(text: &str) -> (s: Option<String>)
    ensures
        s matches Some(x) && x@ == text@,
{
    let mut out = String::new();
    append_str(&mut out, text);
    Some(out)
}

pub open spec fn only_if(c: bool, q: Qualifier) -> Seq<Qualifier> {
    if c {
        seq![q]
    } else {
        Seq::empty()
    }
}

fn push_if(out: &mut Vec<Qualifier>, c: bool, q: Qualifier)
    ensures
        final(out)@ == old(out)@ + only_if(c, q),
{
    if c {
        out.push(q);
    }
    assert(final(out)@ =~= old(out)@ + only_if(c, q));
}

// ---------------------------------------------------------------------------
// CPU
// ---------------------------------------------------------------------------

#[derive(Debug, Clone, Copy, PartialEq, Eq, Structural)]
pub struct CpuEvidence {
    pub psi_total_delta_us: u64,
    /// The measured window in nanoseconds.
    pub psi_window_ns: u64,
}

#[derive(Debug, Clone, PartialEq, Eq)]
pub struct CpuFinding {
    pub resource: Resource,
    pub kind: AssessmentKind,
    pub severity: Severity,
    pub resource_confidence: Confidence,
    pub summary: Option<String>,
    pub evidence: CpuEvidence,
    pub qualifiers: Vec<Qualifier>,
}

#[derive(Debug, Clone, PartialEq, Eq)]
pub struct AnalysisResult {
    pub findings: Vec<CpuFinding>,
    pub qualifiers: Vec<Qualifier>,
}

pub open spec fn cpu_unavailable_qualifier() -> Qualifier {
    Qualifier {
        kind: "cpu_assessment_unavailable",
        message: "CPU PSI is unavailable, so no CPU contention assessment was produced.",
    }
}

pub open spec fn cpu_insufficient_qualifier() -> Qualifier {
    Qualifier {
        kind: "insufficient_observation",
        message: "A requested and measured CPU PSI interval of at least 1s is required for a diagnosis.",
    }
}

/// The caveats of a CPU verdict without process telemetry: the context and
/// the victim/suspect attribution are unavailable.
pub open spec fn cpu_context_qualifiers() -> Seq<Qualifier> {
    seq![
        Qualifier {
            kind: "cpu_context_unavailable",
            message: "Host/process CPU context was unavailable; PSI alone determines the resource verdict.",
        },
        Qualifier {
            kind: "attribution_unavailable",
            message: "CPU interval context is unavailable; victim and suspect attribution was not produced.",
        },
    ]
}

pub open spec fn cpu_no_contention_qualifier() -> Qualifier {
    Qualifier {
        kind: "cpu_no_meaningful_contention",
        message: "No meaningful CPU scheduling contention was observed from exact-interval CPU PSI.",
    }
}

/// The summary of a CPU finding; contention quotes its share.
pub open spec fn cpu_summary(kind: AssessmentKind) -> Option<Seq<char>> {
    match kind {
        AssessmentKind::InsufficientObservation => Some(
            "CPU observation is shorter than 1s; no healthy or contention conclusion was made."@,
        ),
        AssessmentKind::CpuNoMeaningfulContention => Some(
            "No meaningful CPU scheduling contention observed."@,
        ),
        AssessmentKind::CpuContention => None,
    }
}

/// Everything the CPU analysis states.
pub open spec fn cpu_analysis_holds(r: AnalysisResult, psi: Option<&CpuPsiEvidence>, grade: PsiGrade) -> bool {
    match psi {
        None => r.findings@.len() == 0 && r.qualifiers@ == seq![cpu_unavailable_qualifier()],
        Some(p) => {
            let f = r.findings@[0];
            let contention = grade.some_severity != Severity::Negligible;
            &&& r.findings@.len() == 1
            &&& r.qualifiers@.len() == 0
            &&& f.resource == Resource::Cpu
            &&& summary_is(f.summary, cpu_summary(f.kind))
            &&& f.evidence == (CpuEvidence {
                psi_total_delta_us: p.some_total_delta_us,
                psi_window_ns: p.elapsed_ns,
            })
            &&& if min_window(p.requested_ns, p.elapsed_ns) < MIN_DIAGNOSIS_WINDOW_NS {
                &&& f.kind == AssessmentKind::InsufficientObservation
                &&& f.severity == Severity::Negligible
                &&& f.resource_confidence == Confidence::Low
                &&& f.qualifiers@ == seq![cpu_insufficient_qualifier()]
            } else {
                &&& f.kind == if contention {
                    AssessmentKind::CpuContention
                } else {
                    AssessmentKind::CpuNoMeaningfulContention
                }
                &&& f.severity == grade.some_severity
                &&& f.resource_confidence == window_confidence(p.requested_ns, p.elapsed_ns)
                &&& f.qualifiers@ == cpu_context_qualifiers() + only_if(
                    !contention,
                    cpu_no_contention_qualifier(),
                )
            }
        },
    }
}

/// The CPU verdict from exact-interval CPU pressure.  Without pressure
/// evidence there is no assessment; a requested or measured window shorter
/// than a second gives no verdict; otherwise the graded `some` share
/// decides contention.  Process telemetry is not part of this analysis, so
/// victims and suspects are reported as unavailable.
pub fn analyze_cpu(psi: Option<&CpuPsiEvidence>, grade: PsiGrade) -> (r: AnalysisResult)
    ensures
        cpu_analysis_holds(r, psi, grade),
{
    let p = match psi {
        None => {
            let mut qualifiers: Vec<Qualifier> = Vec::new();
            qualifiers.push(
                Qualifier {
                    kind: "cpu_assessment_unavailable",
                    message: "CPU PSI is unavailable, so no CPU contention assessment was produced.",
                },
            );
            return AnalysisResult { findings: Vec::new(), qualifiers };
        },
        Some(p) => *p,
    };
    let evidence = CpuEvidence { psi_total_delta_us: p.some_total_delta_us, psi_window_ns: p.elapsed_ns };
    let window = if p.requested_ns <= p.elapsed_ns {
        p.requested_ns
    } else {
        p.elapsed_ns
    };
    let mut qualifiers: Vec<Qualifier> = Vec::new();
    let finding = if window < MIN_DIAGNOSIS_WINDOW_NS {
        qualifiers.push(
            Qualifier {
                kind: "insufficient_observation",
                message: "A requested and measured CPU PSI interval of at least 1s is required for a diagnosis.",
            },
        );
        CpuFinding {
            resource: Resource::Cpu,
            kind: AssessmentKind::InsufficientObservation,
            severity: Severity::Negligible,
            resource_confidence: Confidence::Low,
            summary: fixed_summary(
                "CPU observation is shorter than 1s; no healthy or contention conclusion was made.",
            ),
            evidence,
            qualifiers,
        }
    } else {
        let contention = match grade.some_severity {
            Severity::Negligible => false,
            _ => true,
        };
        qualifiers.push(
            Qualifier {
                kind: "cpu_context_unavailable",
                message: "Host/process CPU context was unavailable; PSI alone determines the resource verdict.",
            },
        );
        qualifiers.push(
            Qualifier {
                kind: "attribution_unavailable",
                message: "CPU interval context is unavailable; victim and suspect attribution was not produced.",
            },
        );
        assert(qualifiers@ =~= cpu_context_qualifiers());
        push_if(
            &mut qualifiers,
            !contention,
            Qualifier {
                kind: "cpu_no_meaningful_contention",
                message: "No meaningful CPU scheduling contention was observed from exact-interval CPU PSI.",
            },
        );
        CpuFinding {
            resource: Resource::Cpu,
            kind: if contention {
                AssessmentKind::CpuContention
            } else {
                AssessmentKind::CpuNoMeaningfulContention
            },
            severity: grade.some_severity,
            resource_confidence: window_confidence_exec(p.requested_ns, p.elapsed_ns),
            summary: if contention {
                None
            } else {
                fixed_summary("No meaningful CPU scheduling contention observed.")
            },
            evidence,
            qualifiers,
        }
    };
    let mut findings: Vec<CpuFinding> = Vec::new();
    findings.push(finding);
    AnalysisResult { findings, qualifiers: Vec::new() }
}

// ---------------------------------------------------------------------------
// Memory
// ---------------------------------------------------------------------------

/// Memory evidence: the pressure interval and, when collected, the
/// meminfo gauges and the VM counter deltas of the context interval.
#[derive(Debug, Clone, Copy, PartialEq, Eq, Structural)]
pub struct MemoryEvidence {
    pub psi_some_total_delta_us: u64,
    pub psi_full_total_delta_us: Option<u64>,
    pub psi_full_state: MemoryFullEvidenceState,
    pub psi_window_ns: u64,
    pub memory_context_window_ns: Option<u64>,
    pub memory_total_bytes: Option<u64>,
    pub memory_available_bytes: Option<u64>,
    pub swap_total_bytes: Option<u64>,
    pub swap_free_bytes: Option<u64>,
    pub swap_used_bytes: Option<u64>,
    pub page_faults: Option<u64>,
    pub major_page_faults: Option<u64>,
    pub swap_in_pages: Option<u64>,
    pub swap_out_pages: Option<u64>,
    pub scan_kswapd_pages: Option<u64>,
    pub scan_direct_pages: Option<u64>,
    pub steal_kswapd_pages: Option<u64>,
    pub steal_direct_pages: Option<u64>,
    pub meminfo_capability: Option<MemoryContextCapability>,
    pub vmstat_capability: Option<MemoryContextCapability>,
}

#[derive(Debug, Clone, PartialEq, Eq)]
pub struct MemoryFinding {
    pub resource: Resource,
    pub kind: MemoryAssessmentKind,
    pub severity: Severity,
    /// Confidence in the pressure verdict.
    pub resource_confidence: Confidence,
    /// Confidence in a VM-counter mechanism label; never high.
    pub mechanism_confidence: Option<Confidence>,
    pub summary: Option<String>,
    pub evidence: MemoryEvidence,
    pub qualifiers: Vec<Qualifier>,
}

#[derive(Debug, Clone, PartialEq, Eq)]
pub struct MemoryAnalysisResult {
    pub findings: Vec<MemoryFinding>,
    pub qualifiers: Vec<Qualifier>,
}

pub open spec fn memory_full_state(f: FullStall) -> MemoryFullEvidenceState {
    match f {
        FullStall::Available { .. } => MemoryFullEvidenceState::Available,
        FullStall::Missing => MemoryFullEvidenceState::Missing,
        FullStall::CounterRegressed => MemoryFullEvidenceState::CounterRegressed,
        FullStall::DeltaExceedsElapsed => MemoryFullEvidenceState::DeltaExceedsElapsed,
        FullStall::ExceedsSome => MemoryFullEvidenceState::ExceedsSome,
    }
}

pub open spec fn full_total(f: FullStall) -> Option<u64> {
    match f {
        FullStall::Available { total_delta_us } => Some(total_delta_us),
        _ => None,
    }
}

pub open spec fn vm_delta(context: Option<&MemoryContextObservation>, c: VmstatCounter) -> Option<u64> {
    match context {
        Some(x) => counter_value(x.vmstat_deltas@, c),
        None => None,
    }
}

pub open spec fn memory_evidence_of(psi: StallEvidence, context: Option<&MemoryContextObservation>) -> MemoryEvidence {
    let meminfo = match context {
        Some(x) => x.end_meminfo,
        None => None,
    };
    MemoryEvidence {
        psi_some_total_delta_us: psi.some_total_delta_us,
        psi_full_total_delta_us: full_total(psi.full),
        psi_full_state: memory_full_state(psi.full),
        psi_window_ns: psi.elapsed_ns,
        memory_context_window_ns: match context {
            Some(x) => Some(x.elapsed_ns),
            None => None,
        },
        memory_total_bytes: match meminfo {
            Some(m) => Some(m.mem_total_bytes),
            None => None,
        },
        memory_available_bytes: match meminfo {
            Some(m) => Some(m.mem_available_bytes),
            None => None,
        },
        swap_total_bytes: match meminfo {
            Some(m) => Some(m.swap_total_bytes),
            None => None,
        },
        swap_free_bytes: match meminfo {
            Some(m) => Some(m.swap_free_bytes),
            None => None,
        },
        swap_used_bytes: match meminfo {
            Some(m) => if m.swap_free_bytes <= m.swap_total_bytes {
                Some((m.swap_total_bytes - m.swap_free_bytes) as u64)
            } else {
                None
            },
            None => None,
        },
        page_faults: vm_delta(context, VmstatCounter::PageFaults),
        major_page_faults: vm_delta(context, VmstatCounter::MajorPageFaults),
        swap_in_pages: vm_delta(context, VmstatCounter::SwapIn),
        swap_out_pages: vm_delta(context, VmstatCounter::SwapOut),
        scan_kswapd_pages: vm_delta(context, VmstatCounter::ScanKswapd),
        scan_direct_pages: vm_delta(context, VmstatCounter::ScanDirect),
        steal_kswapd_pages: vm_delta(context, VmstatCounter::StealKswapd),
        steal_direct_pages: vm_delta(context, VmstatCounter::StealDirect),
        meminfo_capability: match context {
            Some(x) => Some(x.meminfo_capability),
            None => None,
        },
        vmstat_capability: match context {
            Some(x) => Some(x.vmstat_capability),
            None => None,
        },
    }
}

pub open spec fn positive(v: Option<u64>) -> bool {
    v matches Some(x) && x > 0
}

pub open spec fn no_memory_attribution() -> Qualifier {
    Qualifier {
        kind: "no_process_attribution",
        message: "Memory evidence is host-wide; this slice does not identify affected or contributing processes.",
    }
}

pub open spec fn memory_unavailable_qualifier() -> Qualifier {
    Qualifier {
        kind: "memory_assessment_unavailable",
        message: "Memory PSI is unavailable, so no memory pressure assessment was produced.",
    }
}

pub open spec fn memory_insufficient_qualifier() -> Qualifier {
    Qualifier {
        kind: "insufficient_observation",
        message: "A requested and measured memory PSI interval of at least 1s is required for a diagnosis.",
    }
}

/// The caveats drawn from the memory evidence and its context, in order.
pub open spec fn memory_context_qualifiers(
    e: MemoryEvidence,
    context: Option<&MemoryContextObservation>,
    high_occupancy: bool,
) -> Seq<Qualifier> {
    seq![no_memory_attribution()] + only_if(
        e.psi_full_state == MemoryFullEvidenceState::Missing,
        Qualifier {
            kind: "memory_full_unavailable",
            message: "Memory PSI `full` is unavailable; the valid `some` interval still determines the resource verdict.",
        },
    ) + only_if(
        e.psi_full_state != MemoryFullEvidenceState::Missing && e.psi_full_state
            != MemoryFullEvidenceState::Available,
        Qualifier {
            kind: "memory_full_interval_invalid",
            message: "Memory PSI `full` was inconsistent; it was excluded while valid `some` evidence was retained.",
        },
    ) + only_if(
        context is None,
        Qualifier {
            kind: "memory_context_unavailable",
            message: "Meminfo and VM counter context is unavailable; memory PSI alone determines the resource verdict.",
        },
    ) + only_if(
        context matches Some(x) && x.meminfo_capability != MemoryContextCapability::Available,
        Qualifier {
            kind: "memory_context_partial",
            message: "Meminfo context is unavailable or partial; occupancy and swap-allocation context may be incomplete.",
        },
    ) + only_if(
        context matches Some(x) && x.vmstat_capability != MemoryContextCapability::Available,
        Qualifier {
            kind: "vmstat_partial",
            message: "VM counter context is unavailable or partial; the pressure mechanism may be unclassified.",
        },
    ) + only_if(
        high_occupancy,
        Qualifier {
            kind: "high_occupancy_context",
            message: "Memory occupancy was at least 90%; occupancy is context and is not itself evidence of harmful pressure.",
        },
    ) + only_if(
        positive(e.swap_used_bytes),
        Qualifier {
            kind: "swap_allocated_context",
            message: "Swap space was allocated; allocation may be historical and does not establish active swap pressure.",
        },
    ) + only_if(
        e.scan_kswapd_pages is Some && e.steal_kswapd_pages is Some && (positive(e.scan_kswapd_pages)
            || positive(e.steal_kswapd_pages)),
        Qualifier {
            kind: "kswapd_reclaim_context",
            message: "Background reclaim activity was observed; it is supporting context, not proof of synchronous allocation delay.",
        },
    ) + only_if(
        positive(e.swap_out_pages) && !positive(e.swap_in_pages),
        Qualifier {
            kind: "swap_out_context",
            message: "Swap-out activity was observed without swap-in; it does not by itself establish active swap pressure.",
        },
    )
}

pub open spec fn rate_met(pages: Option<u64>, elapsed_ns: u64) -> bool {
    elapsed_ns != 0 && match pages {
        Some(p) => p * 1_000_000_000 >= THRASHING_MIN_PAGE_RATE_PER_SEC * elapsed_ns,
        None => false,
    }
}

/// Direct scan, direct steal, swap-in and swap-out all reach the minimum
/// page rate over the context interval.
pub open spec fn material_churn(e: MemoryEvidence, context: Option<&MemoryContextObservation>) -> bool {
    context matches Some(x) && x.elapsed_ns != 0 && rate_met(e.scan_direct_pages, x.elapsed_ns)
        && rate_met(e.steal_direct_pages, x.elapsed_ns) && rate_met(e.swap_in_pages, x.elapsed_ns)
        && rate_met(e.swap_out_pages, x.elapsed_ns)
}

/// The memory verdict for a window of at least a second.
pub open spec fn memory_kind(
    psi: StallEvidence,
    grade: PsiGrade,
    e: MemoryEvidence,
    context: Option<&MemoryContextObservation>,
) -> MemoryAssessmentKind {
    let s = grade.some_severity;
    if s == Severity::Negligible {
        MemoryAssessmentKind::NoHarmfulPressure
    } else if (s == Severity::High || s == Severity::Severe) && min_window(
        psi.requested_ns,
        psi.elapsed_ns,
    ) >= SUSTAINED_WINDOW_NS && psi.full is Available && grade.full_material && material_churn(
        e,
        context,
    ) {
        MemoryAssessmentKind::PossibleThrashing
    } else if positive(e.swap_in_pages) {
        MemoryAssessmentKind::SwapPressure
    } else if positive(e.scan_direct_pages) && positive(e.steal_direct_pages) {
        MemoryAssessmentKind::ReclaimPressure
    } else {
        MemoryAssessmentKind::Pressure
    }
}

pub open spec fn memory_mechanism_confidence(kind: MemoryAssessmentKind) -> Option<Confidence> {
    match kind {
        MemoryAssessmentKind::ReclaimPressure | MemoryAssessmentKind::SwapPressure => Some(
            Confidence::Low,
        ),
        MemoryAssessmentKind::PossibleThrashing => Some(Confidence::Medium),
        _ => None,
    }
}

pub open spec fn memory_verdict_qualifiers(kind: MemoryAssessmentKind) -> Seq<Qualifier> {
    only_if(
        memory_mechanism_confidence(kind) is Some,
        Qualifier {
            kind: "memory_mechanism_same_window_correlation",
            message: "Host-wide VM counter changes occurred in the same window as PSI pressure; they support the mechanism label but do not prove causality.",
        },
    ) + only_if(
        kind == MemoryAssessmentKind::PossibleThrashing,
        Qualifier {
            kind: "possible_thrashing_heuristic",
            message: "Possible thrashing requires sustained high `some`, non-trivial `full`, and material direct-reclaim plus bidirectional swap churn; it remains a heuristic.",
        },
    ) + only_if(
        kind == MemoryAssessmentKind::NoHarmfulPressure,
        Qualifier {
            kind: "memory_no_harmful_pressure",
            message: "No harmful memory pressure was observed from exact-interval memory PSI; occupancy and VM counters do not override that verdict.",
        },
    )
}

/// The summary of a memory finding: no harmful pressure is said to hold
/// despite high occupancy when occupancy was high; a finding of pressure
/// quotes its share.
pub open spec fn memory_summary(kind: MemoryAssessmentKind, high_occupancy: bool) -> Option<Seq<char>> {
    match kind {
        MemoryAssessmentKind::InsufficientObservation => Some(
            "Memory observation is shorter than 1s; no healthy or pressure conclusion was made."@,
        ),
        MemoryAssessmentKind::NoHarmfulPressure => if high_occupancy {
            Some("No harmful memory pressure observed despite high memory occupancy."@)
        } else {
            Some("No harmful memory pressure observed."@)
        },
        _ => None,
    }
}

/// Everything the memory analysis states.  `high_occupancy` is whether the
/// caller found the end occupancy (one minus available over total) to be at
/// least 90%.
pub open spec fn memory_analysis_holds(
    r: MemoryAnalysisResult,
    psi: Option<&MemoryPsiEvidence>,
    grade: PsiGrade,
    context: Option<&MemoryContextObservation>,
    high_occupancy: bool,
) -> bool {
    match psi {
        None => r.findings@.len() == 0 && r.qualifiers@ == seq![memory_unavailable_qualifier()],
        Some(p) => {
            let f = r.findings@[0];
            let e = memory_evidence_of(*p, context);
            &&& r.findings@.len() == 1
            &&& r.qualifiers@.len() == 0
            &&& f.resource == Resource::Memory
            &&& summary_is(f.summary, memory_summary(f.kind, high_occupancy))
            &&& f.evidence == e
            &&& if min_window(p.requested_ns, p.elapsed_ns) < MIN_DIAGNOSIS_WINDOW_NS {
                &&& f.kind == MemoryAssessmentKind::InsufficientObservation
                &&& f.severity == Severity::Negligible
                &&& f.resource_confidence == Confidence::Low
                &&& f.mechanism_confidence is None
                &&& f.qualifiers@ == seq![memory_insufficient_qualifier(), no_memory_attribution()]
            } else {
                let kind = memory_kind(*p, grade, e, context);
                &&& f.kind == kind
                &&& f.severity == grade.some_severity
                &&& f.resource_confidence == window_confidence(p.requested_ns, p.elapsed_ns)
                &&& f.mechanism_confidence == memory_mechanism_confidence(kind)
                &&& f.qualifiers@ == memory_context_qualifiers(e, context, high_occupancy)
                    + memory_verdict_qualifiers(kind)
            }
        },
    }
}

fn opt_positive(v: Option<u64>) -> (b: bool)
    ensures
        b == positive(v),
{
    match v {
        Some(x) => x > 0,
        None => false,
    }
}

fn memory_evidence(psi: &StallEvidence, context: Option<&MemoryContextObservation>) -> (e: MemoryEvidence)
    ensures
        e == memory_evidence_of(*psi, context),
{
    let meminfo = match context {
        Some(x) => x.end_meminfo,
        None => None,
    };
    let delta = |c: VmstatCounter| -> (d: Option<u64>)
        ensures
            d == vm_delta(context, c),
        {
            match context {
                Some(x) => lookup_counter(&x.vmstat_deltas, c),
                None => None,
            }
        };
    MemoryEvidence {
        psi_some_total_delta_us: psi.some_total_delta_us,
        psi_full_total_delta_us: match psi.full {
            FullStall::Available { total_delta_us } => Some(total_delta_us),
            _ => None,
        },
        psi_full_state: match psi.full {
            FullStall::Available { .. } => MemoryFullEvidenceState::Available,
            FullStall::Missing => MemoryFullEvidenceState::Missing,
            FullStall::CounterRegressed => MemoryFullEvidenceState::CounterRegressed,
            FullStall::DeltaExceedsElapsed => MemoryFullEvidenceState::DeltaExceedsElapsed,
            FullStall::ExceedsSome => MemoryFullEvidenceState::ExceedsSome,
        },
        psi_window_ns: psi.elapsed_ns,
        memory_context_window_ns: match context {
            Some(x) => Some(x.elapsed_ns),
            None => None,
        },
        memory_total_bytes: match meminfo {
            Some(m) => Some(m.mem_total_bytes),
            None => None,
        },
        memory_available_bytes: match meminfo {
            Some(m) => Some(m.mem_available_bytes),
            None => None,
        },
        swap_total_bytes: match meminfo {
            Some(m) => Some(m.swap_total_bytes),
            None => None,
        },
        swap_free_bytes: match meminfo {
            Some(m) => Some(m.swap_free_bytes),
            None => None,
        },
        swap_used_bytes: match meminfo {
            Some(m) => m.swap_total_bytes.checked_sub(m.swap_free_bytes),
            None => None,
        },
        page_faults: delta(VmstatCounter::PageFaults),
        major_page_faults: delta(VmstatCounter::MajorPageFaults),
        swap_in_pages: delta(VmstatCounter::SwapIn),
        swap_out_pages: delta(VmstatCounter::SwapOut),
        scan_kswapd_pages: delta(VmstatCounter::ScanKswapd),
        scan_direct_pages: delta(VmstatCounter::ScanDirect),
        steal_kswapd_pages: delta(VmstatCounter::StealKswapd),
        steal_direct_pages: delta(VmstatCounter::StealDirect),
        meminfo_capability: match context {
            Some(x) => Some(x.meminfo_capability),
            None => None,
        },
        vmstat_capability: match context {
            Some(x) => Some(x.vmstat_capability),
            None => None,
        },
    }
}

/// The memory verdict from exact-interval memory pressure and, as context,
/// the meminfo gauges and VM counter deltas.  Without pressure evidence
/// there is no assessment; a window shorter than a second gives no verdict.
/// Otherwise the graded `some` share decides between no harmful pressure and
/// pressure, and the counters only name a mechanism: possible thrashing
/// (sustained high pressure, material `full`, page churn), swap, reclaim.
pub fn analyze_memory(
    psi: Option<&MemoryPsiEvidence>,
    grade: PsiGrade,
    context: Option<&MemoryContextObservation>,
    high_occupancy: bool,
) -> (r: MemoryAnalysisResult)
    ensures
        memory_analysis_holds(r, psi, grade, context, high_occupancy),
{
    let p = match psi {
        None => {
            let mut qualifiers: Vec<Qualifier> = Vec::new();
            qualifiers.push(
                Qualifier {
                    kind: "memory_assessment_unavailable",
                    message: "Memory PSI is unavailable, so no memory pressure assessment was produced.",
                },
            );
            return MemoryAnalysisResult { findings: Vec::new(), qualifiers };
        },
        Some(p) => *p,
    };
    let e = memory_evidence(&p, context);
    let window = if p.requested_ns <= p.elapsed_ns {
        p.requested_ns
    } else {
        p.elapsed_ns
    };
    let no_attribution = Qualifier {
        kind: "no_process_attribution",
        message: "Memory evidence is host-wide; this slice does not identify affected or contributing processes.",
    };
    let mut qualifiers: Vec<Qualifier> = Vec::new();
    if window < MIN_DIAGNOSIS_WINDOW_NS {
        qualifiers.push(
            Qualifier {
                kind: "insufficient_observation",
                message: "A requested and measured memory PSI interval of at least 1s is required for a diagnosis.",
            },
        );
        qualifiers.push(no_attribution);
        let mut findings: Vec<MemoryFinding> = Vec::new();
        findings.push(
            MemoryFinding {
                resource: Resource::Memory,
                kind: MemoryAssessmentKind::InsufficientObservation,
                severity: Severity::Negligible,
                resource_confidence: Confidence::Low,
                mechanism_confidence: None,
                summary: fixed_summary(
                    "Memory observation is shorter than 1s; no healthy or pressure conclusion was made.",
                ),
                evidence: e,
                qualifiers,
            },
        );
        assert(findings@[0].qualifiers@ =~= seq![memory_insufficient_qualifier(), no_memory_attribution()]);
        return MemoryAnalysisResult { findings, qualifiers: Vec::new() };
    }
    qualifiers.push(no_attribution);
    push_if(
        &mut qualifiers,
        e.psi_full_state == MemoryFullEvidenceState::Missing,
        Qualifier {
            kind: "memory_full_unavailable",
            message: "Memory PSI `full` is unavailable; the valid `some` interval still determines the resource verdict.",
        },
    );
    push_if(
        &mut qualifiers,
        e.psi_full_state != MemoryFullEvidenceState::Missing && e.psi_full_state
            != MemoryFullEvidenceState::Available,
        Qualifier {
            kind: "memory_full_interval_invalid",
            message: "Memory PSI `full` was inconsistent; it was excluded while valid `some` evidence was retained.",
        },
    );
    push_if(
        &mut qualifiers,
        context.is_none(),
        Qualifier {
            kind: "memory_context_unavailable",
            message: "Meminfo and VM counter context is unavailable; memory PSI alone determines the resource verdict.",
        },
    );
    let (meminfo_partial, vmstat_partial) = match context {
        Some(x) => (
            x.meminfo_capability != MemoryContextCapability::Available,
            x.vmstat_capability != MemoryContextCapability::Available,
        ),
        None => (false, false),
    };
    push_if(
        &mut qualifiers,
        meminfo_partial,
        Qualifier {
            kind: "memory_context_partial",
            message: "Meminfo context is unavailable or partial; occupancy and swap-allocation context may be incomplete.",
        },
    );
    push_if(
        &mut qualifiers,
        vmstat_partial,
        Qualifier {
            kind: "vmstat_partial",
            message: "VM counter context is unavailable or partial; the pressure mechanism may be unclassified.",
        },
    );
    push_if(
        &mut qualifiers,
        high_occupancy,
        Qualifier {
            kind: "high_occupancy_context",
            message: "Memory occupancy was at least 90%; occupancy is context and is not itself evidence of harmful pressure.",
        },
    );
    push_if(
        &mut qualifiers,
        opt_positive(e.swap_used_bytes),
        Qualifier {
            kind: "swap_allocated_context",
            message: "Swap space was allocated; allocation may be historical and does not establish active swap pressure.",
        },
    );
    push_if(
        &mut qualifiers,
        e.scan_kswapd_pages.is_some() && e.steal_kswapd_pages.is_some() && (opt_positive(
            e.scan_kswapd_pages,
        ) || opt_positive(e.steal_kswapd_pages)),
        Qualifier {
            kind: "kswapd_reclaim_context",
            message: "Background reclaim activity was observed; it is supporting context, not proof of synchronous allocation delay.",
        },
    );
    push_if(
        &mut qualifiers,
        opt_positive(e.swap_out_pages) && !opt_positive(e.swap_in_pages),
        Qualifier {
            kind: "swap_out_context",
            message: "Swap-out activity was observed without swap-in; it does not by itself establish active swap pressure.",
        },
    );
    assert(qualifiers@ =~= memory_context_qualifiers(e, context, high_occupancy));
    let ghost base = qualifiers@;

    let churn = match context {
        Some(x) => x.elapsed_ns != 0 && page_rate_at_least(
            e.scan_direct_pages,
            x.elapsed_ns,
            THRASHING_MIN_PAGE_RATE_PER_SEC,
        ) && page_rate_at_least(e.steal_direct_pages, x.elapsed_ns, THRASHING_MIN_PAGE_RATE_PER_SEC)
            && page_rate_at_least(e.swap_in_pages, x.elapsed_ns, THRASHING_MIN_PAGE_RATE_PER_SEC)
            && page_rate_at_least(e.swap_out_pages, x.elapsed_ns, THRASHING_MIN_PAGE_RATE_PER_SEC),
        None => false,
    };
    let severe = match grade.some_severity {
        Severity::High | Severity::Severe => true,
        _ => false,
    };
    let full_available = match p.full {
        FullStall::Available { .. } => true,
        _ => false,
    };
    let kind = match grade.some_severity {
        Severity::Negligible => MemoryAssessmentKind::NoHarmfulPressure,
        _ => if severe && window >= SUSTAINED_WINDOW_NS && full_available && grade.full_material
            && churn {
            MemoryAssessmentKind::PossibleThrashing
        } else if opt_positive(e.swap_in_pages) {
            MemoryAssessmentKind::SwapPressure
        } else if opt_positive(e.scan_direct_pages) && opt_positive(e.steal_direct_pages) {
            MemoryAssessmentKind::ReclaimPressure
        } else {
            MemoryAssessmentKind::Pressure
        },
    };
    let mechanism_confidence = match kind {
        MemoryAssessmentKind::ReclaimPressure | MemoryAssessmentKind::SwapPressure => Some(
            Confidence::Low,
        ),
        MemoryAssessmentKind::PossibleThrashing => Some(Confidence::Medium),
        _ => None,
    };
    push_if(
        &mut qualifiers,
        mechanism_confidence.is_some(),
        Qualifier {
            kind: "memory_mechanism_same_window_correlation",
            message: "Host-wide VM counter changes occurred in the same window as PSI pressure; they support the mechanism label but do not prove causality.",
        },
    );
    push_if(
        &mut qualifiers,
        kind == MemoryAssessmentKind::PossibleThrashing,
        Qualifier {
            kind: "possible_thrashing_heuristic",
            message: "Possible thrashing requires sustained high `some`, non-trivial `full`, and material direct-reclaim plus bidirectional swap churn; it remains a heuristic.",
        },
    );
    push_if(
        &mut qualifiers,
        kind == MemoryAssessmentKind::NoHarmfulPressure,
        Qualifier {
            kind: "memory_no_harmful_pressure",
            message: "No harmful memory pressure was observed from exact-interval memory PSI; occupancy and VM counters do not override that verdict.",
        },
    );
    assert(qualifiers@ =~= base + memory_verdict_qualifiers(kind));
    let summary = match kind {
        MemoryAssessmentKind::NoHarmfulPressure => if high_occupancy {
            fixed_summary("No harmful memory pressure observed despite high memory occupancy.")
        } else {
            fixed_summary("No harmful memory pressure observed.")
        },
        _ => None,
    };
    let mut findings: Vec<MemoryFinding> = Vec::new();
    findings.push(
        MemoryFinding {
            resource: Resource::Memory,
            kind,
            severity: grade.some_severity,
            resource_confidence: window_confidence_exec(p.requested_ns, p.elapsed_ns),
            mechanism_confidence,
            summary,
            evidence: e,
            qualifiers,
        },
    );
    MemoryAnalysisResult { findings, qualifiers: Vec::new() }
}

// ---------------------------------------------------------------------------
// Block I/O
// ---------------------------------------------------------------------------

#[derive(Debug, Clone, Copy, PartialEq, Eq, Structural)]
pub struct IoEvidence {
    pub psi_some_total_delta_us: u64,
    pub psi_full_total_delta_us: Option<u64>,
    pub psi_full_state: IoFullEvidenceState,
    pub psi_window_ns: u64,
    pub diskstats_window_ns: Option<u64>,
    pub diskstats_capability: Option<IoCapability>,
    pub process_io_window_ns: Option<u64>,
    pub process_io_capability: Option<IoCapability>,
}

#[derive(Debug, Clone, PartialEq, Eq)]
pub struct IoFinding {
    pub resource: Resource,
    pub kind: IoAssessmentKind,
    pub severity: Severity,
    pub resource_confidence: Confidence,
    pub summary: Option<String>,
    pub evidence: IoEvidence,
    pub device_candidates: Vec<IoDeviceCandidate>,
    pub process_suspects: Vec<IoProcessSuspect>,
    pub qualifiers: Vec<Qualifier>,
}

#[derive(Debug, Clone, PartialEq, Eq)]
pub struct IoAnalysisResult {
    pub findings: Vec<IoFinding>,
    pub qualifiers: Vec<Qualifier>,
}

pub open spec fn io_full_state(f: FullStall) -> IoFullEvidenceState {
    match f {
        FullStall::Available { .. } => IoFullEvidenceState::Available,
        FullStall::Missing => IoFullEvidenceState::Missing,
        FullStall::CounterRegressed => IoFullEvidenceState::CounterRegressed,
        FullStall::DeltaExceedsElapsed => IoFullEvidenceState::DeltaExceedsElapsed,
        FullStall::ExceedsSome => IoFullEvidenceState::ExceedsSome,
    }
}

pub open spec fn io_evidence_of(
    psi: StallEvidence,
    diskstats: Option<&DiskstatsObservation>,
    process_io: Option<&ProcessIoObservation>,
) -> IoEvidence {
    IoEvidence {
        psi_some_total_delta_us: psi.some_total_delta_us,
        psi_full_total_delta_us: full_total(psi.full),
        psi_full_state: io_full_state(psi.full),
        psi_window_ns: psi.elapsed_ns,
        diskstats_window_ns: match diskstats {
            Some(d) => Some(d.elapsed_ns),
            None => None,
        },
        diskstats_capability: match diskstats {
            Some(d) => Some(d.capability),
            None => None,
        },
        process_io_window_ns: match process_io {
            Some(o) => Some(o.elapsed_ns),
            None => None,
        },
        process_io_capability: match process_io {
            Some(o) => Some(o.capability),
            None => None,
        },
    }
}

pub open spec fn no_io_attribution() -> Qualifier {
    Qualifier {
        kind: "no_affected_workload_attribution",
        message: "This host-wide I/O slice does not identify affected workloads or claim that any process is a victim.",
    }
}

pub open spec fn io_unavailable_qualifier() -> Qualifier {
    Qualifier {
        kind: "io_assessment_unavailable",
        message: "I/O PSI is unavailable, so no block-I/O pressure assessment was produced.",
    }
}

pub open spec fn io_insufficient_qualifier() -> Qualifier {
    Qualifier {
        kind: "insufficient_observation",
        message: "A requested and measured I/O PSI interval of at least 1s is required for a diagnosis.",
    }
}

pub open spec fn io_no_contention_qualifier() -> Qualifier {
    Qualifier {
        kind: "io_no_meaningful_contention",
        message: "No meaningful block-I/O pressure was observed from exact-interval I/O PSI; activity counters do not override that verdict.",
    }
}

/// The caveats of an I/O verdict, in order.
pub open spec fn io_context_qualifiers(
    e: IoEvidence,
    diskstats: Option<&DiskstatsObservation>,
    process_io: Option<&ProcessIoObservation>,
) -> Seq<Qualifier> {
    seq![
        no_io_attribution(),
        Qualifier {
            kind: "layered_device_visibility",
            message: "Diskstats can include layered, virtual, or stacked devices; activity may be represented more than once and is not ownership attribution.",
        },
        Qualifier {
            kind: "page_cache_writeback_visibility",
            message: "Process read_bytes, charged write_bytes, cancelled writes, and diskstats do not reveal page-cache hits, writeback timing, or which storage operation caused a stall.",
        },
        Qualifier {
            kind: "io_full_nonadditive_subset",
            message: "I/O PSI `full` is a subset of `some`; it is retained as context and never added to the pressure fraction or used to establish pressure.",
        },
    ] + only_if(
        e.psi_full_state == IoFullEvidenceState::Missing,
        Qualifier {
            kind: "io_full_unavailable",
            message: "I/O PSI `full` is unavailable; valid `some` still determines the resource verdict.",
        },
    ) + only_if(
        e.psi_full_state != IoFullEvidenceState::Missing && e.psi_full_state
            != IoFullEvidenceState::Available,
        Qualifier {
            kind: "io_full_interval_invalid",
            message: "I/O PSI `full` was inconsistent; it was excluded while valid `some` evidence was retained.",
        },
    ) + only_if(
        diskstats is None,
        Qualifier {
            kind: "diskstats_unavailable",
            message: "Diskstats context is unavailable; I/O PSI alone determines the resource verdict.",
        },
    ) + only_if(
        diskstats matches Some(d) && d.capability != IoCapability::Available,
        Qualifier {
            kind: "diskstats_partial",
            message: "Diskstats context is partial or unavailable; device activity attribution is limited.",
        },
    ) + only_if(
        process_io is None,
        Qualifier {
            kind: "process_io_unavailable",
            message: "Per-process I/O context is unavailable; no process activity suspects were produced.",
        },
    ) + only_if(
        process_io matches Some(o) && o.capability != IoCapability::Available,
        Qualifier {
            kind: "process_io_partial",
            message: "Per-process I/O context is partial or unavailable; process activity attribution is limited.",
        },
    )
}

/// The devices active in the window, busiest first and bounded.
pub open spec fn devices_of(diskstats: Option<&DiskstatsObservation>) -> Seq<IoDeviceCandidate> {
    match diskstats {
        None => Seq::empty(),
        Some(d) => bounded(
            ranked_by(
                active_device_candidates(
                    d.devices@,
                    if d.capability == IoCapability::Available {
                        Confidence::Medium
                    } else {
                        Confidence::Low
                    },
                ),
                device_order(),
            ),
        ),
    }
}

/// The processes with I/O in the window, most bytes first and bounded.
pub open spec fn suspects_of(process_io: Option<&ProcessIoObservation>) -> Seq<IoProcessSuspect> {
    match process_io {
        None => Seq::empty(),
        Some(o) => bounded(
            ranked_by(
                active_suspects(
                    o.processes@,
                    if o.capability == IoCapability::Available {
                        Confidence::Medium
                    } else {
                        Confidence::Low
                    },
                ),
                suspect_order(),
            ),
        ),
    }
}

/// The summary of an I/O finding; pressure quotes its share.
pub open spec fn io_summary(kind: IoAssessmentKind) -> Option<Seq<char>> {
    match kind {
        IoAssessmentKind::InsufficientObservation => Some(
            "Block-I/O observation is shorter than 1s; no healthy or pressure conclusion was made."@,
        ),
        IoAssessmentKind::NoMeaningfulContention => Some("No meaningful block-I/O pressure observed."@),
        IoAssessmentKind::Pressure => None,
    }
}

/// Everything the I/O analysis states.
pub open spec fn io_analysis_holds(
    r: IoAnalysisResult,
    psi: Option<&IoPsiEvidence>,
    grade: PsiGrade,
    diskstats: Option<&DiskstatsObservation>,
    process_io: Option<&ProcessIoObservation>,
) -> bool {
    match psi {
        None => r.findings@.len() == 0 && r.qualifiers@ == seq![io_unavailable_qualifier()],
        Some(p) => {
            let f = r.findings@[0];
            let e = io_evidence_of(*p, diskstats, process_io);
            let pressure = grade.some_severity != Severity::Negligible;
            let devices = devices_of(diskstats);
            let suspects = suspects_of(process_io);
            &&& r.findings@.len() == 1
            &&& r.qualifiers@.len() == 0
            &&& f.resource == Resource::Io
            &&& summary_is(f.summary, io_summary(f.kind))
            &&& f.evidence == e
            &&& if min_window(p.requested_ns, p.elapsed_ns) < MIN_DIAGNOSIS_WINDOW_NS {
                &&& f.kind == IoAssessmentKind::InsufficientObservation
                &&& f.severity == Severity::Negligible
                &&& f.resource_confidence == Confidence::Low
                &&& f.device_candidates@.len() == 0
                &&& f.process_suspects@.len() == 0
                &&& f.qualifiers@ == seq![io_insufficient_qualifier(), no_io_attribution()]
            } else {
                &&& f.kind == if pressure {
                    IoAssessmentKind::Pressure
                } else {
                    IoAssessmentKind::NoMeaningfulContention
                }
                &&& f.severity == grade.some_severity
                &&& f.resource_confidence == window_confidence(p.requested_ns, p.elapsed_ns)
                &&& f.device_candidates@ == if pressure {
                    devices
                } else {
                    Seq::empty()
                }
                &&& f.process_suspects@ == if pressure {
                    suspects
                } else {
                    Seq::empty()
                }
                &&& f.qualifiers@ == io_context_qualifiers(e, diskstats, process_io) + only_if(
                    pressure && devices.len() > 0,
                    device_activity_qualifier(),
                ) + only_if(pressure && suspects.len() > 0, process_activity_qualifier())
                    + only_if(!pressure, io_no_contention_qualifier())
            }
        },
    }
}

fn io_qualifiers(
    e: &IoEvidence,
    diskstats: Option<&DiskstatsObservation>,
    process_io: Option<&ProcessIoObservation>,
) -> (q: Vec<Qualifier>)
    ensures
        q@ == io_context_qualifiers(*e, diskstats, process_io),
{
    let no_attribution = Qualifier {
        kind: "no_affected_workload_attribution",
        message: "This host-wide I/O slice does not identify affected workloads or claim that any process is a victim.",
    };
    let mut qualifiers: Vec<Qualifier> = Vec::new();
    qualifiers.push(no_attribution);
    qualifiers.push(
        Qualifier {
            kind: "layered_device_visibility",
            message: "Diskstats can include layered, virtual, or stacked devices; activity may be represented more than once and is not ownership attribution.",
        },
    );
    qualifiers.push(
        Qualifier {
            kind: "page_cache_writeback_visibility",
            message: "Process read_bytes, charged write_bytes, cancelled writes, and diskstats do not reveal page-cache hits, writeback timing, or which storage operation caused a stall.",
        },
    );
    qualifiers.push(
        Qualifier {
            kind: "io_full_nonadditive_subset",
            message: "I/O PSI `full` is a subset of `some`; it is retained as context and never added to the pressure fraction or used to establish pressure.",
        },
    );
    push_if(
        &mut qualifiers,
        e.psi_full_state == IoFullEvidenceState::Missing,
        Qualifier {
            kind: "io_full_unavailable",
            message: "I/O PSI `full` is unavailable; valid `some` still determines the resource verdict.",
        },
    );
    push_if(
        &mut qualifiers,
        e.psi_full_state != IoFullEvidenceState::Missing && e.psi_full_state
            != IoFullEvidenceState::Available,
        Qualifier {
            kind: "io_full_interval_invalid",
            message: "I/O PSI `full` was inconsistent; it was excluded while valid `some` evidence was retained.",
        },
    );
    push_if(
        &mut qualifiers,
        diskstats.is_none(),
        Qualifier {
            kind: "diskstats_unavailable",
            message: "Diskstats context is unavailable; I/O PSI alone determines the resource verdict.",
        },
    );
    let disk_partial = match diskstats {
        Some(d) => d.capability != IoCapability::Available,
        None => false,
    };
    push_if(
        &mut qualifiers,
        disk_partial,
        Qualifier {
            kind: "diskstats_partial",
            message: "Diskstats context is partial or unavailable; device activity attribution is limited.",
        },
    );
    push_if(
        &mut qualifiers,
        process_io.is_none(),
        Qualifier {
            kind: "process_io_unavailable",
            message: "Per-process I/O context is unavailable; no process activity suspects were produced.",
        },
    );
    let process_partial = match process_io {
        Some(o) => o.capability != IoCapability::Available,
        None => false,
    };
    push_if(
        &mut qualifiers,
        process_partial,
        Qualifier {
            kind: "process_io_partial",
            message: "Per-process I/O context is partial or unavailable; process activity attribution is limited.",
        },
    );
    assert(qualifiers@ =~= io_context_qualifiers(*e, diskstats, process_io));
    qualifiers
}

/// The block-I/O verdict from exact-interval I/O pressure.  Without pressure
/// evidence there is no assessment; a window shorter than a second gives no
/// verdict.  Devices and processes active in the same window are listed
/// only under pressure, and only as correlation.
#[verifier::rlimit(40)]
pub fn analyze_io(
    psi: Option<&IoPsiEvidence>,
    grade: PsiGrade,
    diskstats: Option<&DiskstatsObservation>,
    process_io: Option<&ProcessIoObservation>,
) -> (r: IoAnalysisResult)
    ensures
        io_analysis_holds(r, psi, grade, diskstats, process_io),
{
    let p = match psi {
        None => {
            let mut qualifiers: Vec<Qualifier> = Vec::new();
            qualifiers.push(
                Qualifier {
                    kind: "io_assessment_unavailable",
                    message: "I/O PSI is unavailable, so no block-I/O pressure assessment was produced.",
                },
            );
            return IoAnalysisResult { findings: Vec::new(), qualifiers };
        },
        Some(p) => *p,
    };
    let e = IoEvidence {
        psi_some_total_delta_us: p.some_total_delta_us,
        psi_full_total_delta_us: match p.full {
            FullStall::Available { total_delta_us } => Some(total_delta_us),
            _ => None,
        },
        psi_full_state: match p.full {
            FullStall::Available { .. } => IoFullEvidenceState::Available,
            FullStall::Missing => IoFullEvidenceState::Missing,
            FullStall::CounterRegressed => IoFullEvidenceState::CounterRegressed,
            FullStall::DeltaExceedsElapsed => IoFullEvidenceState::DeltaExceedsElapsed,
            FullStall::ExceedsSome => IoFullEvidenceState::ExceedsSome,
        },
        psi_window_ns: p.elapsed_ns,
        diskstats_window_ns: match diskstats {
            Some(d) => Some(d.elapsed_ns),
            None => None,
        },
        diskstats_capability: match diskstats {
            Some(d) => Some(d.capability),
            None => None,
        },
        process_io_window_ns: match process_io {
            Some(o) => Some(o.elapsed_ns),
            None => None,
        },
        process_io_capability: match process_io {
            Some(o) => Some(o.capability),
            None => None,
        },
    };
    let no_attribution = Qualifier {
        kind: "no_affected_workload_attribution",
        message: "This host-wide I/O slice does not identify affected workloads or claim that any process is a victim.",
    };
    let window = if p.requested_ns <= p.elapsed_ns {
        p.requested_ns
    } else {
        p.elapsed_ns
    };
    let mut qualifiers: Vec<Qualifier> = Vec::new();
    if window < MIN_DIAGNOSIS_WINDOW_NS {
        qualifiers.push(
            Qualifier {
                kind: "insufficient_observation",
                message: "A requested and measured I/O PSI interval of at least 1s is required for a diagnosis.",
            },
        );
        qualifiers.push(no_attribution);
        let mut findings: Vec<IoFinding> = Vec::new();
        findings.push(
            IoFinding {
                resource: Resource::Io,
                kind: IoAssessmentKind::InsufficientObservation,
                severity: Severity::Negligible,
                resource_confidence: Confidence::Low,
                summary: fixed_summary(
                    "Block-I/O observation is shorter than 1s; no healthy or pressure conclusion was made.",
                ),
                evidence: e,
                device_candidates: Vec::new(),
                process_suspects: Vec::new(),
                qualifiers,
            },
        );
        assert(findings@[0].qualifiers@ =~= seq![io_insufficient_qualifier(), no_io_attribution()]);
        return IoAnalysisResult { findings, qualifiers: Vec::new() };
    }
    let mut qualifiers = io_qualifiers(&e, diskstats, process_io);
    assert(qualifiers@ =~= io_context_qualifiers(e, diskstats, process_io));
    let ghost base = qualifiers@;
    let pressure = match grade.some_severity {
        Severity::Negligible => false,
        _ => true,
    };
    let device_candidates = if pressure {
        io_device_candidates(diskstats, &mut qualifiers)
    } else {
        Vec::new()
    };
    assert(qualifiers@ =~= base + only_if(pressure && devices_of(diskstats).len() > 0, device_activity_qualifier()));
    let ghost with_devices = qualifiers@;
    let process_suspects = if pressure {
        io_process_suspects(process_io, &mut qualifiers)
    } else {
        Vec::new()
    };
    assert(qualifiers@ =~= with_devices + only_if(pressure && suspects_of(process_io).len() > 0, process_activity_qualifier()));
    let ghost with_suspects = qualifiers@;
    push_if(
        &mut qualifiers,
        !pressure,
        Qualifier {
            kind: "io_no_meaningful_contention",
            message: "No meaningful block-I/O pressure was observed from exact-interval I/O PSI; activity counters do not override that verdict.",
        },
    );
    assert(qualifiers@ =~= io_context_qualifiers(e, diskstats, process_io) + only_if(
        pressure && devices_of(diskstats).len() > 0,
        device_activity_qualifier(),
    ) + only_if(pressure && suspects_of(process_io).len() > 0, process_activity_qualifier())
        + only_if(!pressure, io_no_contention_qualifier()));
    assert(device_candidates@ == if pressure { devices_of(diskstats) } else { Seq::empty() });
    assert(process_suspects@ == if pressure { suspects_of(process_io) } else { Seq::empty() });
    assert(e == io_evidence_of(p, diskstats, process_io));
    let mut findings: Vec<IoFinding> = Vec::new();
    findings.push(
        IoFinding {
            resource: Resource::Io,
            kind: if pressure {
                IoAssessmentKind::Pressure
            } else {
                IoAssessmentKind::NoMeaningfulContention
            },
            severity: grade.some_severity,
            resource_confidence: window_confidence_exec(p.requested_ns, p.elapsed_ns),
            summary: if pressure {
                None
            } else {
                fixed_summary("No meaningful block-I/O pressure observed.")
            },
            evidence: e,
            device_candidates,
            process_suspects,
            qualifiers,
        },
    );
    IoAnalysisResult { findings, qualifiers: Vec::new() }
}

// ---------------------------------------------------------------------------
// Overall health
// ---------------------------------------------------------------------------

/// One resource row of a diagnosis.
#[derive(Debug, Clone, Copy, PartialEq, Eq)]
pub struct ResourceView {
    pub name: &'static str,
    pub state: ResourceState,
    pub severity: Severity,
    pub confidence: Confidence,
}

/// The results a diagnosis is built from.
#[derive(Debug, Clone, PartialEq, Eq)]
pub struct HostAnalysis {
    pub cpu: AnalysisResult,
    pub memory: Option<MemoryAnalysisResult>,
    pub io: Option<IoAnalysisResult>,
    pub cgroups: Vec<CgroupFinding>,
}

/// One evidence-chain row of a diagnosis.
#[derive(Debug, Clone, PartialEq, Eq)]
pub struct ChainView {
    pub summary: String,
    pub confidence: Confidence,
}

/// The overall status; the CPU, memory and I/O rows, in that order; the
/// ranked finding rows; the evidence-chain rows; and the limitations, each
/// stated once, in order.
#[derive(Debug, Clone, PartialEq, Eq)]
pub struct DiagnosisView {
    pub status: OverallStatus,
    pub requested_duration_ms: u64,
    pub resources: Vec<ResourceView>,
    pub findings: Vec<FindingRow>,
    pub chains: Vec<ChainView>,
    pub limitations: Vec<String>,
}

/// The messages of a list of qualifiers.
pub open spec fn messages(qs: Seq<Qualifier>) -> Set<Seq<char>> {
    Set::new(|m: Seq<char>| exists|j: int| 0 <= j < qs.len() && (#[trigger] qs[j]).message@ == m)
}

pub open spec fn first_cpu(a: HostAnalysis) -> Option<CpuFinding> {
    if a.cpu.findings@.len() > 0 {
        Some(a.cpu.findings@[0])
    } else {
        None
    }
}

pub open spec fn first_memory(a: HostAnalysis) -> Option<MemoryFinding> {
    match a.memory {
        Some(m) => if m.findings@.len() > 0 {
            Some(m.findings@[0])
        } else {
            None
        },
        None => None,
    }
}

pub open spec fn first_io(a: HostAnalysis) -> Option<IoFinding> {
    match a.io {
        Some(i) => if i.findings@.len() > 0 {
            Some(i.findings@[0])
        } else {
            None
        },
        None => None,
    }
}

pub open spec fn cpu_unavailable_text() -> Seq<char> {
    "CPU assessment unavailable: no valid exact-interval CPU PSI evidence."@
}

pub open spec fn memory_unavailable_text() -> Seq<char> {
    "Memory assessment unavailable: no valid exact-interval memory PSI evidence."@
}

pub open spec fn io_unavailable_text() -> Seq<char> {
    "I/O assessment unavailable: no valid exact-interval I/O PSI evidence."@
}

/// The qualifier messages of the scoped findings that show pressure.
pub open spec fn scoped_limitations(fs: Seq<CgroupFinding>) -> Set<Seq<char>> {
    Set::new(
        |m: Seq<char>|
            exists|i: int|
                0 <= i < fs.len() && (#[trigger] fs[i]).kind == CgroupAssessmentKind::Pressure
                    && messages(fs[i].qualifiers@).contains(m),
    )
}

/// The limitations of a diagnosis: the qualifier messages of each assessed
/// resource's verdict, a sentence for each resource without one, and the
/// qualifier messages of the scoped pressure findings.
pub open spec fn limitation_set(a: HostAnalysis) -> Set<Seq<char>> {
    let cpu = match first_cpu(a) {
        Some(f) => messages(f.qualifiers@),
        None => set![cpu_unavailable_text()],
    };
    let memory = match first_memory(a) {
        Some(f) => messages(f.qualifiers@),
        None => set![memory_unavailable_text()],
    };
    let io = match first_io(a) {
        Some(f) => messages(f.qualifiers@),
        None => set![io_unavailable_text()],
    };
    cpu + memory + io + scoped_limitations(a.cgroups@)
}

/// The host memory and I/O verdicts form a chain.
pub open spec fn host_chain_present(a: HostAnalysis) -> bool {
    first_memory(a) matches Some(m) && first_io(a) matches Some(i) && host_chain_possible(m, i)
}

/// The summary of the chain within one cgroup.
pub open spec fn scoped_chain_summary(path: Seq<char>) -> Seq<char> {
    "Scoped memory pressure in "@ + path + " is consistent with scoped I/O pressure in the same cgroup."@
}

/// The chain rows: the host chain, if any, then the same-cgroup chains,
/// each with its summary cut to 160 terminal-safe characters.
pub open spec fn chain_rows_hold(rows: Seq<ChainView>, a: HostAnalysis) -> bool {
    let hc: int = if host_chain_present(a) {
        1
    } else {
        0
    };
    let fs = a.cgroups@;
    &&& rows.len() == hc + chosen_pairs(fs).len()
    &&& host_chain_present(a) ==> rows[0].summary@ == terminal_form(
        host_chain_summary(first_memory(a)->0.kind),
        160,
    ) && Some(rows[0].confidence) == host_chain_confidence(first_memory(a)->0.kind)
    &&& forall|k: int|
        0 <= k < chosen_pairs(fs).len() ==> (#[trigger] rows[hc + k]).summary@ == terminal_form(
            scoped_chain_summary(fs[chosen_pairs(fs)[k].0 as int].path@),
            160,
        ) && rows[hc + k].confidence == Confidence::Low
}

fn add_text(acc: &mut Vec<Vec<char>>, text: &str)
    requires
        strictly_sorted(seqs_of(old(acc)@)),
    ensures
        strictly_sorted(seqs_of(final(acc)@)),
        forall|p: Seq<char>|
            #[trigger] seqs_of(final(acc)@).contains(p) <==> (seqs_of(old(acc)@).contains(p) || p == text@),
{
    insert_path(acc, chars_of(text));
}

fn add_messages(acc: &mut Vec<Vec<char>>, qs: &Vec<Qualifier>)
    requires
        strictly_sorted(seqs_of(old(acc)@)),
    ensures
        strictly_sorted(seqs_of(final(acc)@)),
        forall|p: Seq<char>|
            #[trigger] seqs_of(final(acc)@).contains(p) <==> (seqs_of(old(acc)@).contains(p) || messages(
                qs@,
            ).contains(p)),
{
    let ghost before = seqs_of(acc@);
    let mut i: usize = 0;
    while i < qs.len()
        invariant
            i <= qs.len(),
            strictly_sorted(seqs_of(acc@)),
            forall|p: Seq<char>|
                #[trigger] seqs_of(acc@).contains(p) <==> (before.contains(p) || exists|j: int|
                    0 <= j < i && (#[trigger] qs@[j]).message@ == p),
        decreases qs.len() - i,
    {
        add_text(acc, qs[i].message);
        assert forall|p: Seq<char>|
            #[trigger] seqs_of(acc@).contains(p) <==> (before.contains(p) || exists|j: int|
                0 <= j < i + 1 && (#[trigger] qs@[j]).message@ == p) by {
            if p == qs@[i as int].message@ {
                assert(qs@[i as int].message@ == p);
            }
            if exists|j: int| 0 <= j < i + 1 && (#[trigger] qs@[j]).message@ == p {
                let j = choose|j: int| 0 <= j < i + 1 && (#[trigger] qs@[j]).message@ == p;
                if j < i {
                    assert(qs@[j].message@ == p);
                }
            }
        }
        i += 1;
    }
    assert forall|p: Seq<char>| #[trigger] seqs_of(acc@).contains(p) <==> (before.contains(p) || messages(
        qs@,
    ).contains(p)) by {
        if messages(qs@).contains(p) {
            let j = choose|j: int| 0 <= j < qs@.len() && (#[trigger] qs@[j]).message@ == p;
            assert(qs@[j].message@ == p);
        }
    }
}

fn diagnosis_limitations(results: &HostAnalysis) -> (out: Vec<String>)
    ensures
        strictly_sorted(strs_of(out@)),
        strs_of(out@).to_set() == limitation_set(*results),
{
    let ghost a = *results;
    let mut acc: Vec<Vec<char>> = Vec::new();
    assert(seqs_of(acc@) =~= Seq::<Seq<char>>::empty());
    let ghost s0 = seqs_of(acc@);
    if results.cpu.findings.len() > 0 {
        add_messages(&mut acc, &results.cpu.findings[0].qualifiers);
    } else {
        add_text(&mut acc, "CPU assessment unavailable: no valid exact-interval CPU PSI evidence.");
    }
    let ghost s1 = seqs_of(acc@);
    let ghost cpu_set = match first_cpu(a) {
        Some(f) => messages(f.qualifiers@),
        None => set![cpu_unavailable_text()],
    };
    assert forall|p: Seq<char>| #[trigger] s1.contains(p) <==> cpu_set.contains(p) by {}
    match &results.memory {
        Some(m) => if m.findings.len() > 0 {
            add_messages(&mut acc, &m.findings[0].qualifiers);
        } else {
            add_text(&mut acc, "Memory assessment unavailable: no valid exact-interval memory PSI evidence.");
        },
        None => add_text(
            &mut acc,
            "Memory assessment unavailable: no valid exact-interval memory PSI evidence.",
        ),
    }
    let ghost s2 = seqs_of(acc@);
    let ghost memory_set = match first_memory(a) {
        Some(f) => messages(f.qualifiers@),
        None => set![memory_unavailable_text()],
    };
    assert forall|p: Seq<char>| #[trigger] s2.contains(p) <==> (cpu_set.contains(p) || memory_set.contains(p)) by {}
    match &results.io {
        Some(io) => if io.findings.len() > 0 {
            add_messages(&mut acc, &io.findings[0].qualifiers);
        } else {
            add_text(&mut acc, "I/O assessment unavailable: no valid exact-interval I/O PSI evidence.");
        },
        None => add_text(&mut acc, "I/O assessment unavailable: no valid exact-interval I/O PSI evidence."),
    }
    let ghost s3 = seqs_of(acc@);
    let ghost io_set = match first_io(a) {
        Some(f) => messages(f.qualifiers@),
        None => set![io_unavailable_text()],
    };
    assert forall|p: Seq<char>| #[trigger] s3.contains(p) <==> (cpu_set.contains(p) || memory_set.contains(p)
        || io_set.contains(p)) by {}
    let ghost fs = results.cgroups@;
    let mut i: usize = 0;
    while i < results.cgroups.len()
        invariant
            i <= results.cgroups.len(),
            fs == results.cgroups@,
            strictly_sorted(seqs_of(acc@)),
            forall|p: Seq<char>|
                #[trigger] seqs_of(acc@).contains(p) <==> (s3.contains(p) || scoped_limitations(
                    fs.take(i as int),
                ).contains(p)),
        decreases results.cgroups.len() - i,
    {
        let ghost before = seqs_of(acc@);
        let f = &results.cgroups[i];
        let pressure = f.kind == CgroupAssessmentKind::Pressure;
        if pressure {
            add_messages(&mut acc, &f.qualifiers);
        }
        assert forall|p: Seq<char>|
            #[trigger] seqs_of(acc@).contains(p) <==> (s3.contains(p) || scoped_limitations(
                fs.take(i + 1),
            ).contains(p)) by {
            let t0 = fs.take(i as int);
            let t1 = fs.take(i + 1);
            assert(t1[i as int] == fs[i as int]);
            if scoped_limitations(t1).contains(p) {
                let k = choose|k: int|
                    0 <= k < t1.len() && (#[trigger] t1[k]).kind == CgroupAssessmentKind::Pressure
                        && messages(t1[k].qualifiers@).contains(p);
                if k < i {
                    assert(t0[k] == t1[k]);
                    assert(scoped_limitations(t0).contains(p));
                }
            }
            if scoped_limitations(t0).contains(p) {
                let k = choose|k: int|
                    0 <= k < t0.len() && (#[trigger] t0[k]).kind == CgroupAssessmentKind::Pressure
                        && messages(t0[k].qualifiers@).contains(p);
                assert(t1[k] == t0[k]);
            }
            if pressure && messages(f.qualifiers@).contains(p) {
                assert(t1[i as int].kind == CgroupAssessmentKind::Pressure);
            }
        }
        i += 1;
    }
    assert(fs.take(fs.len() as int) =~= fs);
    let mut out: Vec<String> = Vec::new();
    let mut k: usize = 0;
    while k < acc.len()
        invariant
            k <= acc.len(),
            strs_of(out@) == seqs_of(acc@).take(k as int),
        decreases acc.len() - k,
    {
        let s = string_of(acc[k].as_slice());
        let ghost before = strs_of(out@);
        assert(seqs_of(acc@)[k as int] == acc@[k as int]@);
        assert(s@ == seqs_of(acc@)[k as int]);
        out.push(s);
        assert(strs_of(out@) =~= before.push(seqs_of(acc@)[k as int]));
        assert(strs_of(out@) =~= seqs_of(acc@).take(k + 1));
        k += 1;
    }
    assert(seqs_of(acc@).take(k as int) =~= seqs_of(acc@));
    assert(strs_of(out@).to_set() =~= limitation_set(a));
    out
}

fn diagnosis_chains(results: &HostAnalysis) -> (out: Vec<ChainView>)
    ensures
        chain_rows_hold(out@, *results),
{
    let mf: Option<&MemoryFinding> = match &results.memory {
        Some(m) => if m.findings.len() > 0 {
            Some(&m.findings[0])
        } else {
            None
        },
        None => None,
    };
    let iof: Option<&IoFinding> = match &results.io {
        Some(io) => if io.findings.len() > 0 {
            Some(&io.findings[0])
        } else {
            None
        },
        None => None,
    };
    let chains = analyze_evidence_chains(mf, iof, &results.cgroups);
    let mut out: Vec<ChainView> = Vec::new();
    let mut k: usize = 0;
    while k < chains.len()
        invariant
            k <= chains.len(),
            out@.len() == k,
            forall|j: int|
                0 <= j < k ==> (#[trigger] out@[j]).summary@ == terminal_form(chains@[j].summary@, 160)
                    && out@[j].confidence == chains@[j].confidence,
        decreases chains.len() - k,
    {
        out.push(
            ChainView {
                summary: terminal_text(chains[k].summary.as_str(), 160),
                confidence: chains[k].confidence,
            },
        );
        k += 1;
    }
    let ghost a = *results;
    let ghost hc: int = if host_chain_present(a) {
        1
    } else {
        0
    };
    assert(host_chain_count(mf, iof) == hc);
    assert forall|j: int| 0 <= j < chosen_pairs(a.cgroups@).len() implies (#[trigger] out@[hc + j]).summary@
        == terminal_form(scoped_chain_summary(a.cgroups@[chosen_pairs(a.cgroups@)[j].0 as int].path@), 160)
        && out@[hc + j].confidence == Confidence::Low by {
        assert(chains@[hc + j] == chains@[host_chain_count(mf, iof) + j]);
    }
    out
}

pub open spec fn unavailable_view(name: &'static str) -> ResourceView {
    ResourceView {
        name,
        state: ResourceState::Unavailable,
        severity: Severity::Negligible,
        confidence: Confidence::Low,
    }
}

pub open spec fn cpu_view(r: AnalysisResult) -> ResourceView {
    if r.findings@.len() > 0 {
        let f = r.findings@[0];
        ResourceView {
            name: "CPU",
            state: match f.kind {
                AssessmentKind::CpuContention => ResourceState::Pressure,
                AssessmentKind::CpuNoMeaningfulContention => ResourceState::Healthy,
                AssessmentKind::InsufficientObservation => ResourceState::Inconclusive,
            },
            severity: f.severity,
            confidence: f.resource_confidence,
        }
    } else {
        unavailable_view("CPU")
    }
}

pub open spec fn memory_view(r: Option<MemoryAnalysisResult>) -> ResourceView {
    match r {
        Some(m) => if m.findings@.len() > 0 {
            let f = m.findings@[0];
            ResourceView {
                name: "Memory",
                state: match f.kind {
                    MemoryAssessmentKind::NoHarmfulPressure => ResourceState::Healthy,
                    MemoryAssessmentKind::InsufficientObservation => ResourceState::Inconclusive,
                    _ => ResourceState::Pressure,
                },
                severity: f.severity,
                confidence: f.resource_confidence,
            }
        } else {
            unavailable_view("Memory")
        },
        None => unavailable_view("Memory"),
    }
}

pub open spec fn io_view(r: Option<IoAnalysisResult>) -> ResourceView {
    match r {
        Some(m) => if m.findings@.len() > 0 {
            let f = m.findings@[0];
            ResourceView {
                name: "I/O",
                state: match f.kind {
                    IoAssessmentKind::NoMeaningfulContention => ResourceState::Healthy,
                    IoAssessmentKind::InsufficientObservation => ResourceState::Inconclusive,
                    IoAssessmentKind::Pressure => ResourceState::Pressure,
                },
                severity: f.severity,
                confidence: f.resource_confidence,
            }
        } else {
            unavailable_view("I/O")
        },
        None => unavailable_view("I/O"),
    }
}

pub open spec fn resource_views(a: HostAnalysis) -> Seq<ResourceView> {
    seq![cpu_view(a.cpu), memory_view(a.memory), io_view(a.io)]
}

/// A scoped pressure finding with a severity counts as pressure.
pub open spec fn scoped_pressure(cgroups: Seq<CgroupFinding>) -> bool {
    exists|i: int|
        0 <= i < cgroups.len() && (#[trigger] cgroups[i]).kind == CgroupAssessmentKind::Pressure
            && cgroups[i].severity != Severity::Negligible
}

/// Degraded when any resource or scoped finding shows pressure; otherwise
/// incomplete when any resource is inconclusive or unavailable; otherwise
/// healthy.
pub open spec fn overall_status(a: HostAnalysis) -> OverallStatus {
    let v = resource_views(a);
    if (exists|i: int| 0 <= i < 3 && (#[trigger] v[i]).state == ResourceState::Pressure)
        || scoped_pressure(a.cgroups@) {
        OverallStatus::Degraded
    } else if exists|i: int|
        0 <= i < 3 && ((#[trigger] v[i]).state == ResourceState::Inconclusive || v[i].state
            == ResourceState::Unavailable) {
        OverallStatus::Incomplete
    } else {
        OverallStatus::Healthy
    }
}

fn unavailable_view_exec(name: &'static str) -> (v: ResourceView)
    ensures
        v == unavailable_view(name),
{
    ResourceView {
        name,
        state: ResourceState::Unavailable,
        severity: Severity::Negligible,
        confidence: Confidence::Low,
    }
}

fn cpu_view_exec(r: &AnalysisResult) -> (v: ResourceView)
    ensures
        v == cpu_view(*r),
{
    if r.findings.len() > 0 {
        let f = &r.findings[0];
        ResourceView {
            name: "CPU",
            state: match f.kind {
                AssessmentKind::CpuContention => ResourceState::Pressure,
                AssessmentKind::CpuNoMeaningfulContention => ResourceState::Healthy,
                AssessmentKind::InsufficientObservation => ResourceState::Inconclusive,
            },
            severity: f.severity,
            confidence: f.resource_confidence,
        }
    } else {
        unavailable_view_exec("CPU")
    }
}

fn memory_view_exec(r: &Option<MemoryAnalysisResult>) -> (v: ResourceView)
    ensures
        v == memory_view(*r),
{
    match r {
        Some(m) => if m.findings.len() > 0 {
            let f = &m.findings[0];
            ResourceView {
                name: "Memory",
                state: match f.kind {
                    MemoryAssessmentKind::NoHarmfulPressure => ResourceState::Healthy,
                    MemoryAssessmentKind::InsufficientObservation => ResourceState::Inconclusive,
                    _ => ResourceState::Pressure,
                },
                severity: f.severity,
                confidence: f.resource_confidence,
            }
        } else {
            unavailable_view_exec("Memory")
        },
        None => unavailable_view_exec("Memory"),
    }
}

fn io_view_exec(r: &Option<IoAnalysisResult>) -> (v: ResourceView)
    ensures
        v == io_view(*r),
{
    match r {
        Some(m) => if m.findings.len() > 0 {
            let f = &m.findings[0];
            ResourceView {
                name: "I/O",
                state: match f.kind {
                    IoAssessmentKind::NoMeaningfulContention => ResourceState::Healthy,
                    IoAssessmentKind::InsufficientObservation => ResourceState::Inconclusive,
                    IoAssessmentKind::Pressure => ResourceState::Pressure,
                },
                severity: f.severity,
                confidence: f.resource_confidence,
            }
        } else {
            unavailable_view_exec("I/O")
        },
        None => unavailable_view_exec("I/O"),
    }
}

fn scoped_pressure_exec(cgroups: &Vec<CgroupFinding>) -> (b: bool)
    ensures
        b == scoped_pressure(cgroups@),
{
    let mut i: usize = 0;
    while i < cgroups.len()
        invariant
            i <= cgroups@.len(),
            forall|j: int|
                0 <= j < i ==> !((#[trigger] cgroups@[j]).kind == CgroupAssessmentKind::Pressure
                    && cgroups@[j].severity != Severity::Negligible),
        decreases cgroups.len() - i,
    {
        let f = &cgroups[i];
        let pressured = f.kind == CgroupAssessmentKind::Pressure && match f.severity {
            Severity::Negligible => false,
            _ => true,
        };
        if pressured {
            assert(cgroups@[i as int] == *f);
            return true;
        }
        i += 1;
    }
    false
}

/// The diagnosis of a hunt: the CPU, memory and I/O rows and the overall
/// status they and the scoped findings give.
pub fn diagnosis_view(results: &HostAnalysis, requested_ms: u64) -> (v: DiagnosisView)
    ensures
        v.status == overall_status(*results),
        v.resources@ == resource_views(*results),
        v.requested_duration_ms == requested_ms,
        row_views(v.findings@) == ranked_by(all_rows(*results), row_order()),
        chain_rows_hold(v.chains@, *results),
        strictly_sorted(strs_of(v.limitations@)),
        strs_of(v.limitations@).to_set() == limitation_set(*results),
{
    let cpu = cpu_view_exec(&results.cpu);
    let memory = memory_view_exec(&results.memory);
    let io = io_view_exec(&results.io);
    let is_pressure = |s: ResourceState| -> (b: bool)
        ensures
            b == (s == ResourceState::Pressure),
        {
            match s {
                ResourceState::Pressure => true,
                _ => false,
            }
        };
    let is_incomplete = |s: ResourceState| -> (b: bool)
        ensures
            b == (s == ResourceState::Inconclusive || s == ResourceState::Unavailable),
        {
            match s {
                ResourceState::Inconclusive | ResourceState::Unavailable => true,
                _ => false,
            }
        };
    let mut resources: Vec<ResourceView> = Vec::new();
    resources.push(cpu);
    resources.push(memory);
    resources.push(io);
    let ghost views = resource_views(*results);
    assert(resources@ =~= views);
    let any_pressure = is_pressure(cpu.state) || is_pressure(memory.state) || is_pressure(io.state)
        || scoped_pressure_exec(&results.cgroups);
    let any_incomplete = is_incomplete(cpu.state) || is_incomplete(memory.state) || is_incomplete(
        io.state,
    );
    proof {
        assert(views[0] == cpu && views[1] == memory && views[2] == io);
        if exists|i: int| 0 <= i < 3 && (#[trigger] views[i]).state == ResourceState::Pressure {
            let i = choose|i: int| 0 <= i < 3 && (#[trigger] views[i]).state == ResourceState::Pressure;
            assert(i == 0 || i == 1 || i == 2);
        }
        if exists|i: int|
            0 <= i < 3 && ((#[trigger] views[i]).state == ResourceState::Inconclusive
                || views[i].state == ResourceState::Unavailable) {
            let i = choose|i: int|
                0 <= i < 3 && ((#[trigger] views[i]).state == ResourceState::Inconclusive
                    || views[i].state == ResourceState::Unavailable);
            assert(i == 0 || i == 1 || i == 2);
        }
    }
    let status = if any_pressure {
        OverallStatus::Degraded
    } else if any_incomplete {
        OverallStatus::Incomplete
    } else {
        OverallStatus::Healthy
    };
    let findings = finding_rows(results);
    let chains = diagnosis_chains(results);
    let limitations = diagnosis_limitations(results);
    DiagnosisView { status, requested_duration_ms: requested_ms, resources, findings, chains, limitations }
}

// ---------------------------------------------------------------------------
// Host memory/I-O evidence chain
// ---------------------------------------------------------------------------

/// The confidence of a host chain from a memory verdict to I/O pressure:
/// only a reclaim, swap or thrashing mechanism supports one.
pub open spec fn host_chain_confidence(kind: MemoryAssessmentKind) -> Option<Confidence> {
    match kind {
        MemoryAssessmentKind::ReclaimPressure => Some(Confidence::Low),
        MemoryAssessmentKind::SwapPressure => Some(Confidence::Low),
        MemoryAssessmentKind::PossibleThrashing => Some(Confidence::Medium),
        _ => None,
    }
}

pub open spec fn host_chain_summary(kind: MemoryAssessmentKind) -> Seq<char> {
    match kind {
        MemoryAssessmentKind::ReclaimPressure =>
            "Memory reclaim pressure is consistent with block-I/O pressure in the same window."@,
        MemoryAssessmentKind::SwapPressure =>
            "Memory swap pressure is consistent with block-I/O pressure in the same window."@,
        _ => "Possible thrashing is consistent with block-I/O pressure in the same window."@,
    }
}

pub open spec fn host_chain_qualifiers() -> Seq<Qualifier> {
    seq![
        Qualifier {
            kind: "chain_not_causal",
            message: "Independent same-window PSI and VM-counter evidence can support a related path; it does not prove that memory reclaim or swap caused the I/O stalls.",
        },
        Qualifier {
            kind: "no_process_device_mapping",
            message: "The chain does not map processes to devices or identify which I/O was reclaim or swap traffic.",
        },
    ]
}

/// A host chain exists when I/O is under pressure and the memory verdict
/// names a mechanism.
pub open spec fn host_chain_possible(m: MemoryFinding, io: IoFinding) -> bool {
    io.kind == IoAssessmentKind::Pressure && host_chain_confidence(m.kind) is Some
}

/// Everything the host chain between `m` and `io` states.
pub open spec fn host_chain_holds(c: EvidenceChain, m: MemoryFinding, io: IoFinding) -> bool {
    &&& c.kind == ChainKind::MemoryMechanismConsistentWithIo
    &&& c.relation == ChainRelation::ConsistentWith
    &&& Some(c.confidence) == host_chain_confidence(m.kind)
    &&& c.summary@ == host_chain_summary(m.kind)
    &&& c.from == ChainEndpoint::Memory { kind: m.kind }
    &&& c.to == ChainEndpoint::Io { kind: io.kind }
    &&& c.evidence.memory_psi_some_total_us == m.evidence.psi_some_total_delta_us
    &&& c.evidence.memory_psi_window_ns == m.evidence.psi_window_ns
    &&& c.evidence.io_psi_some_total_us == io.evidence.psi_some_total_delta_us
    &&& c.evidence.io_psi_window_ns == io.evidence.psi_window_ns
    &&& c.evidence.swap_in_pages == m.evidence.swap_in_pages
    &&& c.evidence.swap_out_pages == m.evidence.swap_out_pages
    &&& c.evidence.scan_direct_pages == m.evidence.scan_direct_pages
    &&& c.evidence.steal_direct_pages == m.evidence.steal_direct_pages
    &&& c.evidence.path is None
    &&& c.evidence.high_events is None
    &&& c.evidence.max_events is None
    &&& c.qualifiers@ == host_chain_qualifiers()
}

/// The host chain between a memory and an I/O finding: present exactly when
/// I/O is under pressure and the memory verdict is reclaim, swap or possible
/// thrashing.  Coincident pressure without a mechanism is no chain, and the
/// chain never claims that memory caused the I/O stalls.
pub fn analyze_host_memory_io_chain(memory: Option<&MemoryFinding>, io: Option<&IoFinding>) -> (out: Vec<
    EvidenceChain,
>)
    ensures
        out@.len() <= 1,
        out@.len() == 1 <==> (memory matches Some(m) && io matches Some(i) && host_chain_possible(*m, *i)),
        out@.len() == 1 ==> host_chain_holds(out@[0], *memory.unwrap(), *io.unwrap()),
{
    let out = host_chain_of(memory, io);
    proof {
        lemma_host_chain_by_mechanism(memory, io, out@);
    }
    out
}

/// The host chain by memory mechanism: when I/O is under pressure, a reclaim
/// or swap verdict gives one low-confidence chain and possible thrashing one
/// medium-confidence chain, each saying that the mechanism is consistent with
/// the block-I/O pressure, links the two host findings and carries their
/// PSI and VM-counter evidence; any other memory verdict, or I/O not under
/// pressure, gives none.
pub proof fn lemma_host_chain_by_mechanism(
    memory: Option<&MemoryFinding>,
    io: Option<&IoFinding>,
    out: Seq<EvidenceChain>,
)
    requires
        out.len() <= 1,
        out.len() == 1 <==> (memory matches Some(m) && io matches Some(i) && host_chain_possible(*m, *i)),
        out.len() == 1 ==> host_chain_holds(out[0], *memory.unwrap(), *io.unwrap()),
    ensures
        (out.len() == 1) <==> (memory matches Some(m) && io matches Some(i) && i.kind
            == IoAssessmentKind::Pressure && (m.kind == MemoryAssessmentKind::ReclaimPressure || m.kind
            == MemoryAssessmentKind::SwapPressure || m.kind == MemoryAssessmentKind::PossibleThrashing)),
        out.len() == 1 && memory.unwrap().kind == MemoryAssessmentKind::ReclaimPressure ==> out[0].confidence
            == Confidence::Low && out[0].summary@
            == "Memory reclaim pressure is consistent with block-I/O pressure in the same window."@,
        out.len() == 1 && memory.unwrap().kind == MemoryAssessmentKind::SwapPressure ==> out[0].confidence
            == Confidence::Low && out[0].summary@
            == "Memory swap pressure is consistent with block-I/O pressure in the same window."@,
        out.len() == 1 && memory.unwrap().kind == MemoryAssessmentKind::PossibleThrashing ==> out[0].confidence
            == Confidence::Medium && out[0].summary@
            == "Possible thrashing is consistent with block-I/O pressure in the same window."@,
        out.len() == 1 ==> out[0].relation == ChainRelation::ConsistentWith && out[0].kind
            == ChainKind::MemoryMechanismConsistentWithIo,
        out.len() == 1 ==> out[0].from == (ChainEndpoint::Memory { kind: memory.unwrap().kind }) && out[0].to
            == (ChainEndpoint::Io { kind: io.unwrap().kind }),
        out.len() == 1 ==> {
            let (e, me, ie) = (out[0].evidence, memory.unwrap().evidence, io.unwrap().evidence);
            &&& e.memory_psi_some_total_us == me.psi_some_total_delta_us
            &&& e.memory_psi_window_ns == me.psi_window_ns
            &&& e.io_psi_some_total_us == ie.psi_some_total_delta_us
            &&& e.io_psi_window_ns == ie.psi_window_ns
            &&& e.swap_in_pages == me.swap_in_pages
            &&& e.swap_out_pages == me.swap_out_pages
            &&& e.scan_direct_pages == me.scan_direct_pages
            &&& e.steal_direct_pages == me.steal_direct_pages
            &&& e.path is None
        },
{
}

fn host_chain_of(memory: Option<&MemoryFinding>, io: Option<&IoFinding>) -> (out: Vec<EvidenceChain>)
    ensures
        out@.len() <= 1,
        out@.len() == 1 <==> (memory matches Some(m) && io matches Some(i) && host_chain_possible(*m, *i)),
        out@.len() == 1 ==> host_chain_holds(out@[0], *memory.unwrap(), *io.unwrap()),
{
    let mut out: Vec<EvidenceChain> = Vec::new();
    let m = match memory {
        Some(m) => m,
        None => return out,
    };
    let i = match io {
        Some(i) => i,
        None => return out,
    };
    if i.kind != IoAssessmentKind::Pressure {
        return out;
    }
    let mut summary = String::new();
    let confidence = match m.kind {
        MemoryAssessmentKind::ReclaimPressure => {
            append_str(
                &mut summary,
                "Memory reclaim pressure is consistent with block-I/O pressure in the same window.",
            );
            Confidence::Low
        },
        MemoryAssessmentKind::SwapPressure => {
            append_str(
                &mut summary,
                "Memory swap pressure is consistent with block-I/O pressure in the same window.",
            );
            Confidence::Low
        },
        MemoryAssessmentKind::PossibleThrashing => {
            append_str(
                &mut summary,
                "Possible thrashing is consistent with block-I/O pressure in the same window.",
            );
            Confidence::Medium
        },
        _ => return out,
    };
    let mut qualifiers: Vec<Qualifier> = Vec::new();
    qualifiers.push(
        Qualifier {
            kind: "chain_not_causal",
            message: "Independent same-window PSI and VM-counter evidence can support a related path; it does not prove that memory reclaim or swap caused the I/O stalls.",
        },
    );
    qualifiers.push(
        Qualifier {
            kind: "no_process_device_mapping",
            message: "The chain does not map processes to devices or identify which I/O was reclaim or swap traffic.",
        },
    );
    assert(qualifiers@ =~= host_chain_qualifiers());
    assert(summary@ =~= host_chain_summary(m.kind));
    out.push(
        EvidenceChain {
            kind: ChainKind::MemoryMechanismConsistentWithIo,
            relation: ChainRelation::ConsistentWith,
            confidence,
            summary,
            from: ChainEndpoint::Memory { kind: m.kind },
            to: ChainEndpoint::Io { kind: i.kind },
            evidence: ChainEvidence {
                memory_psi_some_total_us: m.evidence.psi_some_total_delta_us,
                memory_psi_window_ns: m.evidence.psi_window_ns,
                io_psi_some_total_us: i.evidence.psi_some_total_delta_us,
                io_psi_window_ns: i.evidence.psi_window_ns,
                swap_in_pages: m.evidence.swap_in_pages,
                swap_out_pages: m.evidence.swap_out_pages,
                scan_direct_pages: m.evidence.scan_direct_pages,
                steal_direct_pages: m.evidence.steal_direct_pages,
                path: None,
                high_events: None,
                max_events: None,
            },
            qualifiers,
        },
    );
    out
}

/// How many host chains the findings give: one or none.
pub open spec fn host_chain_count(memory: Option<&MemoryFinding>, io: Option<&IoFinding>) -> int {
    if memory matches Some(m) && io matches Some(i) && host_chain_possible(*m, *i) {
        1
    } else {
        0
    }
}

/// A chain joins a memory and an I/O finding of one and the same cgroup.
pub open spec fn same_cgroup(c: EvidenceChain) -> bool {
    match (c.from, c.to) {
        (ChainEndpoint::CgroupMemory { path: p, .. }, ChainEndpoint::CgroupIo { path: q, .. }) => p@ == q@,
        _ => false,
    }
}

/// All evidence chains: the host chain, if any, then the same-cgroup chains.
/// Host and cgroup findings are never linked to each other.  No chain is of
/// high confidence or claims more than consistency, every scoped chain stays
/// within one cgroup, and at most one host chain and
/// `MAX_CGROUP_EVIDENCE_CHAINS` scoped chains are reported.
pub fn analyze_evidence_chains(
    memory: Option<&MemoryFinding>,
    io: Option<&IoFinding>,
    cgroup_findings: &Vec<CgroupFinding>,
) -> (out: Vec<EvidenceChain>)
    ensures
        out@.len() == host_chain_count(memory, io) + chosen_pairs(cgroup_findings@).len(),
        host_chain_count(memory, io) == 1 ==> host_chain_holds(out@[0], *memory.unwrap(), *io.unwrap()),
        forall|k: int|
            0 <= k < chosen_pairs(cgroup_findings@).len() ==> chain_holds(
                #[trigger] out@[host_chain_count(memory, io) + k],
                cgroup_findings@[chosen_pairs(cgroup_findings@)[k].0 as int],
                cgroup_findings@[chosen_pairs(cgroup_findings@)[k].1 as int],
            ),
        out@.len() <= 1 + MAX_CGROUP_EVIDENCE_CHAINS,
        forall|k: int|
            0 <= k < out@.len() ==> (#[trigger] out@[k]).confidence != Confidence::High
                && out@[k].relation == ChainRelation::ConsistentWith,
        forall|k: int|
            host_chain_count(memory, io) <= k < out@.len() ==> same_cgroup(#[trigger] out@[k]),
{
    let _count: usize = cgroup_findings.len();
    proof {
        lemma_chains_ranked(cgroup_findings@);
        lemma_chains_stay_in_one_cgroup(cgroup_findings@);
    }
    let mut chains = analyze_host_memory_io_chain(memory, io);
    let mut scoped = analyze_cgroup_memory_io_chains(cgroup_findings);
    let ghost h = chains@;
    let ghost c = scoped@;
    chains.append(&mut scoped);
    assert(chains@ =~= h + c);
    assert forall|k: int| 0 <= k < c.len() implies #[trigger] chains@[h.len() + k] == c[k] by {}
    let ghost fs = cgroup_findings@;
    assert forall|k: int|
        0 <= k < chains@.len() implies (#[trigger] chains@[k]).confidence != Confidence::High
            && chains@[k].relation == ChainRelation::ConsistentWith by {
        if k >= h.len() {
            assert(chains@[k] == c[k - h.len()]);
            assert(chain_holds(c[k - h.len()], fs[chosen_pairs(fs)[k - h.len()].0 as int], fs[chosen_pairs(fs)[k - h.len()].1 as int]));
        }
    }
    assert forall|k: int| h.len() <= k < chains@.len() implies same_cgroup(#[trigger] chains@[k]) by {
        let j = k - h.len();
        assert(chains@[k] == c[j]);
        let pr = chosen_pairs(fs)[j];
        assert(chain_holds(c[j], fs[pr.0 as int], fs[pr.1 as int]));
        assert(linked_pair(fs, pr));
    }
    chains
}

// ---------------------------------------------------------------------------
// Ranking the host findings
// ---------------------------------------------------------------------------

/// A host finding of any resource.
#[derive(Debug, Clone, PartialEq, Eq)]
pub enum Finding {
    Cpu(CpuFinding),
    Memory(MemoryFinding),
    Io(IoFinding),
}

pub open spec fn finding_severity_level(f: Finding) -> u8 {
    match f {
        Finding::Cpu(x) => severity_level(x.severity),
        Finding::Memory(x) => severity_level(x.severity),
        Finding::Io(x) => severity_level(x.severity),
    }
}

pub open spec fn finding_confidence_level(f: Finding) -> u8 {
    match f {
        Finding::Cpu(x) => confidence_level(x.resource_confidence),
        Finding::Memory(x) => confidence_level(x.resource_confidence),
        Finding::Io(x) => confidence_level(x.resource_confidence),
    }
}

/// CPU, then memory, then I/O.
pub open spec fn finding_resource_level(f: Finding) -> u8 {
    match f {
        Finding::Cpu(_) => 0,
        Finding::Memory(_) => 1,
        Finding::Io(_) => 2,
    }
}

/// `a` is reported before `b`: more severe, then more confident, then by
/// resource.
pub open spec fn finding_before(a: Finding, b: Finding) -> bool {
    let (sa, sb) = (finding_severity_level(a), finding_severity_level(b));
    let (ca, cb) = (finding_confidence_level(a), finding_confidence_level(b));
    ||| sa > sb
    ||| sa == sb && ca > cb
    ||| sa == sb && ca == cb && finding_resource_level(a) < finding_resource_level(b)
}

pub open spec fn finding_order() -> spec_fn(Finding, Finding) -> bool {
    |a: Finding, b: Finding| finding_before(a, b)
}

/// The findings of the three resources, CPU first, then memory, then I/O.
pub open spec fn all_findings(
    cpu: Seq<CpuFinding>,
    memory: Seq<MemoryFinding>,
    io: Seq<IoFinding>,
) -> Seq<Finding> {
    cpu.map_values(|f: CpuFinding| Finding::Cpu(f)) + memory.map_values(
        |f: MemoryFinding| Finding::Memory(f),
    ) + io.map_values(|f: IoFinding| Finding::Io(f))
}

fn finding_levels(f: &Finding) -> (r: (u8, u8, u8))
    ensures
        r == (finding_severity_level(*f), finding_confidence_level(*f), finding_resource_level(*f)),
{
    match f {
        Finding::Cpu(x) => (severity_rank(x.severity), confidence_rank(x.resource_confidence), 0),
        Finding::Memory(x) => (severity_rank(x.severity), confidence_rank(x.resource_confidence), 1),
        Finding::Io(x) => (severity_rank(x.severity), confidence_rank(x.resource_confidence), 2),
    }
}

fn finding_before_exec(a: &Finding, b: &Finding) -> (r: bool)
    ensures
        r == finding_before(*a, *b),
{
    let (sa, ca, ra) = finding_levels(a);
    let (sb, cb, rb) = finding_levels(b);
    sa > sb || (sa == sb && ca > cb) || (sa == sb && ca == cb && ra < rb)
}

fn insert_finding(out: &mut Vec<Finding>, x: Finding)
    ensures
        final(out)@ == insert_ranked(old(out)@, x, finding_order()),
{
    let ghost before = out@;
    let mut p: usize = 0;
    while p < out.len() && !finding_before_exec(&x, &out[p])
        invariant
            p <= out.len(),
            out@ == before,
            forall|k: int| 0 <= k < p ==> !(finding_order())(x, #[trigger] before[k]),
        decreases out.len() - p,
    {
        p += 1;
    }
    proof {
        lemma_insert_ranked_at(before, x, finding_order(), p as int);
    }
    out.insert(p, x);
}

proof fn lemma_ranked_step(s: Seq<Finding>, k: int)
    requires
        0 <= k < s.len(),
    ensures
        ranked_by(s.take(k + 1), finding_order()) == insert_ranked(
            ranked_by(s.take(k), finding_order()),
            s[k],
            finding_order(),
        ),
{
    assert(s.take(k + 1).drop_last() =~= s.take(k));
    assert(s.take(k + 1).last() == s[k]);
}

proof fn lemma_finding_order_strict()
    ensures
        strict_order(finding_order()),
{
}

/// Every finding of the three resources, most severe first, then most
/// confident, then CPU before memory before I/O; findings that tie keep
/// their order.
pub fn ranked_findings_with_io(
    cpu: AnalysisResult,
    memory: MemoryAnalysisResult,
    io: IoAnalysisResult,
) -> (out: Vec<Finding>)
    ensures
        out@ == ranked_by(all_findings(cpu.findings@, memory.findings@, io.findings@), finding_order()),
        sorted_by(out@, finding_order()),
        out@.to_multiset() == all_findings(cpu.findings@, memory.findings@, io.findings@).to_multiset(),
        forall|i: int, j: int|
            0 <= i < j < out@.len() ==> severity_index(finding_severity(out@[j])) <= severity_index(
                finding_severity(#[trigger] out@[i]),
            ) && (severity_index(finding_severity(out@[j])) == severity_index(finding_severity(out@[i]))
                ==> confidence_index(finding_confidence(#[trigger] out@[j])) <= confidence_index(
                finding_confidence(out@[i]),
            )),
        forall|i: int, j: int|
            0 <= i < j < out@.len() && finding_severity(#[trigger] out@[i]) == finding_severity(
                #[trigger] out@[j],
            ) && finding_confidence(out@[i]) == finding_confidence(out@[j]) ==> (out@[i] is Io
                ==> out@[j] is Io) && (out@[i] is Memory ==> !(out@[j] is Cpu)),
{
    let ghost all = all_findings(cpu.findings@, memory.findings@, io.findings@);
    let ghost cs = cpu.findings@;
    let ghost ms = memory.findings@;
    let ghost is = io.findings@;
    let mut out: Vec<Finding> = Vec::new();
    assert(all.take(0) =~= Seq::<Finding>::empty());
    let mut src = cpu.findings;
    let _total: usize = src.len();
    let mut k: usize = 0;
    while src.len() > 0
        invariant
            k + src@.len() == cs.len(),
            cs.len() <= usize::MAX,
            src@ == cs.skip(k as int),
            all == all_findings(cs, ms, is),
            out@ == ranked_by(all.take(k as int), finding_order()),
        decreases src.len(),
    {
        let f = src.remove(0);
        assert(all[k as int] == Finding::Cpu(f));
        proof {
            lemma_ranked_step(all, k as int);
        }
        insert_finding(&mut out, Finding::Cpu(f));
        k += 1;
        assert(src@ =~= cs.skip(k as int));
    }
    let ghost base = cs.len();
    let mut src = memory.findings;
    let _total: usize = src.len();
    let mut k: usize = 0;
    while src.len() > 0
        invariant
            k + src@.len() == ms.len(),
            ms.len() <= usize::MAX,
            src@ == ms.skip(k as int),
            all == all_findings(cs, ms, is),
            base == cs.len(),
            out@ == ranked_by(all.take(base + k), finding_order()),
        decreases src.len(),
    {
        let f = src.remove(0);
        assert(all[base + k] == Finding::Memory(f));
        proof {
            lemma_ranked_step(all, base + k);
        }
        insert_finding(&mut out, Finding::Memory(f));
        k += 1;
        assert(src@ =~= ms.skip(k as int));
    }
    let ghost base = cs.len() + ms.len();
    let mut src = io.findings;
    let _total: usize = src.len();
    let mut k: usize = 0;
    while src.len() > 0
        invariant
            k + src@.len() == is.len(),
            is.len() <= usize::MAX,
            src@ == is.skip(k as int),
            all == all_findings(cs, ms, is),
            base == cs.len() + ms.len(),
            out@ == ranked_by(all.take(base + k), finding_order()),
        decreases src.len(),
    {
        let f = src.remove(0);
        assert(all[base + k] == Finding::Io(f));
        proof {
            lemma_ranked_step(all, base + k);
        }
        insert_finding(&mut out, Finding::Io(f));
        k += 1;
        assert(src@ =~= is.skip(k as int));
    }
    assert(all.take(all.len() as int) =~= all);
    proof {
        lemma_finding_order_strict();
        lemma_ranked_sorted(all, finding_order());
        lemma_ranked_findings_most_severe_first(cs, ms, is);
    }
    out
}

// ---------------------------------------------------------------------------
// Laws
// ---------------------------------------------------------------------------

/// A hunt is healthy only when CPU, memory and I/O were each assessed and
/// found healthy and no scoped finding shows pressure: an unavailable or
/// inconclusive resource never passes for healthy.
pub proof fn lemma_healthy_only_when_all_assessed_healthy(a: HostAnalysis)
    ensures
        overall_status(a) == OverallStatus::Healthy ==> cpu_view(a.cpu).state == ResourceState::Healthy
            && memory_view(a.memory).state == ResourceState::Healthy && io_view(a.io).state
            == ResourceState::Healthy && !scoped_pressure(a.cgroups@),
{
    let v = resource_views(a);
    if overall_status(a) == OverallStatus::Healthy {
        assert(v[0] == cpu_view(a.cpu) && v[1] == memory_view(a.memory) && v[2] == io_view(a.io));
        assert(v[0].state != ResourceState::Pressure && v[0].state != ResourceState::Inconclusive
            && v[0].state != ResourceState::Unavailable);
        assert(v[1].state != ResourceState::Pressure && v[1].state != ResourceState::Inconclusive
            && v[1].state != ResourceState::Unavailable);
        assert(v[2].state != ResourceState::Pressure && v[2].state != ResourceState::Inconclusive
            && v[2].state != ResourceState::Unavailable);
    }
}

/// Sub-second observations receive no verdict.  When every requested or
/// measured pressure window is shorter than a second, each assessed
/// resource is inconclusive, and the hunt is never healthy.
pub proof fn lemma_short_hunt_is_never_healthy(
    a: HostAnalysis,
    cpu_psi: Option<&CpuPsiEvidence>,
    cpu_grade: PsiGrade,
    memory_psi: Option<&MemoryPsiEvidence>,
    memory_grade: PsiGrade,
    context: Option<&MemoryContextObservation>,
    high_occupancy: bool,
    io_psi: Option<&IoPsiEvidence>,
    io_grade: PsiGrade,
    diskstats: Option<&DiskstatsObservation>,
    process_io: Option<&ProcessIoObservation>,
)
    requires
        cpu_analysis_holds(a.cpu, cpu_psi, cpu_grade),
        a.memory matches Some(m) && memory_analysis_holds(m, memory_psi, memory_grade, context, high_occupancy),
        a.io matches Some(i) && io_analysis_holds(i, io_psi, io_grade, diskstats, process_io),
        cpu_psi matches Some(p) ==> min_window(p.requested_ns, p.elapsed_ns) < MIN_DIAGNOSIS_WINDOW_NS,
        memory_psi matches Some(p) ==> min_window(p.requested_ns, p.elapsed_ns) < MIN_DIAGNOSIS_WINDOW_NS,
        io_psi matches Some(p) ==> min_window(p.requested_ns, p.elapsed_ns) < MIN_DIAGNOSIS_WINDOW_NS,
    ensures
        cpu_view(a.cpu).state != ResourceState::Healthy && cpu_view(a.cpu).state != ResourceState::Pressure,
        memory_view(a.memory).state != ResourceState::Healthy && memory_view(a.memory).state != ResourceState::Pressure,
        io_view(a.io).state != ResourceState::Healthy && io_view(a.io).state != ResourceState::Pressure,
        overall_status(a) != OverallStatus::Healthy,
{
    lemma_healthy_only_when_all_assessed_healthy(a);
}


/// The severity of a host finding.
pub open spec fn finding_severity(f: Finding) -> Severity {
    match f {
        Finding::Cpu(x) => x.severity,
        Finding::Memory(x) => x.severity,
        Finding::Io(x) => x.severity,
    }
}

/// The confidence of a host finding's verdict.
pub open spec fn finding_confidence(f: Finding) -> Confidence {
    match f {
        Finding::Cpu(x) => x.resource_confidence,
        Finding::Memory(x) => x.resource_confidence,
        Finding::Io(x) => x.resource_confidence,
    }
}

/// Severities in their natural order: negligible, low, moderate, high,
/// severe.
pub open spec fn severity_index(s: Severity) -> int {
    match s {
        Severity::Negligible => 0,
        Severity::Low => 1,
        Severity::Moderate => 2,
        Severity::High => 3,
        Severity::Severe => 4,
    }
}

/// Confidences in their natural order: low, medium, high.
pub open spec fn confidence_index(c: Confidence) -> int {
    match c {
        Confidence::Low => 0,
        Confidence::Medium => 1,
        Confidence::High => 2,
    }
}

/// Ranked host findings come most severe first: a finding is never listed
/// after one of lesser severity, among findings of one severity never
/// after one of lesser confidence, and among findings that tie on both, CPU
/// comes before memory and memory before I/O.
pub proof fn lemma_ranked_findings_most_severe_first(
    cpu: Seq<CpuFinding>,
    memory: Seq<MemoryFinding>,
    io: Seq<IoFinding>,
)
    ensures
        ({
            let r = ranked_by(all_findings(cpu, memory, io), finding_order());
            &&& forall|i: int, j: int|
                0 <= i < j < r.len() ==> severity_index(finding_severity(r[j])) <= severity_index(
                    finding_severity(#[trigger] r[i]),
                ) && (severity_index(finding_severity(r[j])) == severity_index(finding_severity(r[i]))
                    ==> confidence_index(finding_confidence(#[trigger] r[j])) <= confidence_index(
                    finding_confidence(r[i]),
                ))
            &&& forall|i: int, j: int|
                0 <= i < j < r.len() && finding_severity(#[trigger] r[i]) == finding_severity(#[trigger] r[j])
                    && finding_confidence(r[i]) == finding_confidence(r[j]) ==> (r[i] is Io ==> r[j] is Io)
                    && (r[i] is Memory ==> !(r[j] is Cpu))
        }),
{
    let all = all_findings(cpu, memory, io);
    let r = ranked_by(all, finding_order());
    lemma_finding_order_strict();
    lemma_ranked_sorted(all, finding_order());
    assert forall|f: Finding| #[trigger] finding_severity_level(f) == severity_index(finding_severity(f))
        && finding_confidence_level(f) == confidence_index(finding_confidence(f)) by {}
    assert forall|i: int, j: int| 0 <= i < j < r.len() implies severity_index(finding_severity(r[j]))
        <= severity_index(finding_severity(#[trigger] r[i])) && (severity_index(finding_severity(r[j]))
        == severity_index(finding_severity(r[i])) ==> confidence_index(finding_confidence(#[trigger] r[j]))
        <= confidence_index(finding_confidence(r[i]))) by {
        assert(!(finding_order())(r[j], r[i]));
        assert(finding_severity_level(r[i]) == severity_index(finding_severity(r[i])));
        assert(finding_severity_level(r[j]) == severity_index(finding_severity(r[j])));
        assert(finding_confidence_level(r[i]) == confidence_index(finding_confidence(r[i])));
        assert(finding_confidence_level(r[j]) == confidence_index(finding_confidence(r[j])));
    }
    assert forall|i: int, j: int|
        0 <= i < j < r.len() && finding_severity(#[trigger] r[i]) == finding_severity(#[trigger] r[j])
            && finding_confidence(r[i]) == finding_confidence(r[j]) implies (r[i] is Io ==> r[j] is Io)
            && (r[i] is Memory ==> !(r[j] is Cpu)) by {
        assert(!(finding_order())(r[j], r[i]));
        assert(finding_severity_level(r[i]) == severity_index(finding_severity(r[i])));
        assert(finding_severity_level(r[j]) == severity_index(finding_severity(r[j])));
        assert(finding_confidence_level(r[i]) == confidence_index(finding_confidence(r[i])));
        assert(finding_confidence_level(r[j]) == confidence_index(finding_confidence(r[j])));
    }
}

/// Findings that tie (the same severity, confidence and resource) come out
/// of `ranked_findings_with_io` in the order they were given.
pub proof fn lemma_ranked_findings_keep_tie_order(
    cpu: Seq<CpuFinding>,
    memory: Seq<MemoryFinding>,
    io: Seq<IoFinding>,
    c: Finding,
)
    ensures
        ranked_by(all_findings(cpu, memory, io), finding_order()).filter(ties_with(finding_order(), c))
            == all_findings(cpu, memory, io).filter(ties_with(finding_order(), c)),
{
    lemma_finding_order_strict();
    assert(tie_compatible(finding_order()));
    lemma_ranked_stable(all_findings(cpu, memory, io), finding_order(), c);
}


// ---------------------------------------------------------------------------
// Pressure the process attribution may rely on
// ---------------------------------------------------------------------------

/// A memory verdict that PSI established pressure.
pub open spec fn memory_kind_is_pressure(k: MemoryAssessmentKind) -> bool {
    k == MemoryAssessmentKind::Pressure || k == MemoryAssessmentKind::ReclaimPressure
        || k == MemoryAssessmentKind::SwapPressure || k == MemoryAssessmentKind::PossibleThrashing
}

/// The confidence of CPU contention, when the CPU finding established it.
pub fn cpu_pressure_confidence(r: &AnalysisResult) -> (c: Option<Confidence>)
    ensures
        c == if r.findings@.len() > 0 && r.findings@[0].kind == AssessmentKind::CpuContention {
            Some(r.findings@[0].resource_confidence)
        } else {
            None::<Confidence>
        },
{
    if r.findings.len() > 0 && r.findings[0].kind == AssessmentKind::CpuContention {
        Some(r.findings[0].resource_confidence)
    } else {
        None
    }
}

/// The confidence of memory pressure, when the memory finding established it.
pub fn memory_pressure_confidence(r: &MemoryAnalysisResult) -> (c: Option<Confidence>)
    ensures
        c == if r.findings@.len() > 0 && memory_kind_is_pressure(r.findings@[0].kind) {
            Some(r.findings@[0].resource_confidence)
        } else {
            None::<Confidence>
        },
{
    if r.findings.len() > 0 {
        let k = r.findings[0].kind;
        if k == MemoryAssessmentKind::Pressure || k == MemoryAssessmentKind::ReclaimPressure
            || k == MemoryAssessmentKind::SwapPressure || k == MemoryAssessmentKind::PossibleThrashing {
            return Some(r.findings[0].resource_confidence);
        }
    }
    None
}

/// The confidence of I/O pressure, when the I/O finding established it.
pub fn io_pressure_confidence(r: &IoAnalysisResult) -> (c: Option<Confidence>)
    ensures
        c == if r.findings@.len() > 0 && r.findings@[0].kind == IoAssessmentKind::Pressure {
            Some(r.findings@[0].resource_confidence)
        } else {
            None::<Confidence>
        },
{
    if r.findings.len() > 0 && r.findings[0].kind == IoAssessmentKind::Pressure {
        Some(r.findings[0].resource_confidence)
    } else {
        None
    }
}

} // verus!
