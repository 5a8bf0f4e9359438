use stallhunt::analysis::{
    AssessmentKind, Confidence, IoAssessmentKind, MemoryAssessmentKind, MemoryFullEvidenceState,
    Severity,
};
use stallhunt::cgroup::CgroupPsiRaw;
use stallhunt::cgroup_analysis::PsiGrade;
use stallhunt::analysis::{ChainEndpoint, ChainKind};
use stallhunt::host_analysis::{
    analyze_cpu, analyze_evidence_chains, analyze_host_memory_io_chain, analyze_io,
    analyze_memory, diagnosis_view, ranked_findings_with_io, stall_evidence, CpuPsiEvidence,
    Finding, FullStall, HostAnalysis, StallEvidence,
};
use stallhunt::io::{
    BlockDeviceKey, DiskstatsInterval, DiskstatsIntervalIssues, DiskstatsObservation, IoCapability,
    ProcessIoCollectionIssues, ProcessIoInterval, ProcessIoObservation,
};
use stallhunt::process::ProcessKey;
use stallhunt::memory::{
    MeminfoRaw, MemoryContextCapability, MemoryContextObservation, VmstatCounter,
    VmstatIntervalIssues,
};
use stallhunt::presentation::{OverallStatus, ResourceState};

const SECOND_NS: u64 = 1_000_000_000;

fn grade(some_severity: Severity, full_material: bool) -> PsiGrade {
    PsiGrade {
        some_severity,
        full_material,
    }
}

fn cpu_psi(requested_ns: u64, elapsed_ns: u64) -> CpuPsiEvidence {
    CpuPsiEvidence {
        requested_ns,
        elapsed_ns,
        some_total_delta_us: 1_000_000,
    }
}

fn stall(window_ns: u64, full: FullStall) -> StallEvidence {
    StallEvidence {
        requested_ns: window_ns,
        elapsed_ns: window_ns,
        some_total_delta_us: 800_000,
        full,
    }
}

fn context(deltas: Vec<(VmstatCounter, u64)>, elapsed_ns: u64) -> MemoryContextObservation {
    MemoryContextObservation {
        elapsed_ns,
        end_meminfo: Some(MeminfoRaw {
            mem_total_bytes: 100,
            mem_available_bytes: 5,
            swap_total_bytes: 10,
            swap_free_bytes: 4,
            cached_bytes: None,
            sreclaimable_bytes: None,
            anon_pages_bytes: None,
        }),
        meminfo_capability: MemoryContextCapability::Available,
        vmstat_capability: MemoryContextCapability::Available,
        vmstat_deltas: deltas,
        vmstat_issues: VmstatIntervalIssues::default(),
    }
}

#[test]
fn cpu_without_pressure_evidence_is_not_assessed() {
    let r = analyze_cpu(None, grade(Severity::Severe, false));
    assert!(r.findings.is_empty());
    assert_eq!(r.qualifiers[0].kind, "cpu_assessment_unavailable");
}

#[test]
fn cpu_short_window_gives_no_verdict() {
    let r = analyze_cpu(Some(&cpu_psi(10 * SECOND_NS, SECOND_NS / 2)), grade(Severity::Severe, false));
    let f = &r.findings[0];
    assert_eq!(f.kind, AssessmentKind::InsufficientObservation);
    assert_eq!(f.severity, Severity::Negligible);
    assert_eq!(f.resource_confidence, Confidence::Low);
    assert_eq!(f.qualifiers[0].kind, "insufficient_observation");
}

#[test]
fn cpu_grade_decides_contention_and_windows_decide_confidence() {
    let r = analyze_cpu(Some(&cpu_psi(10 * SECOND_NS, 10 * SECOND_NS)), grade(Severity::High, false));
    let f = &r.findings[0];
    assert_eq!(f.kind, AssessmentKind::CpuContention);
    assert_eq!(f.severity, Severity::High);
    assert_eq!(f.resource_confidence, Confidence::High);
    assert_eq!(f.evidence.psi_total_delta_us, 1_000_000);
    assert!(f.qualifiers.iter().any(|q| q.kind == "attribution_unavailable"));

    let r = analyze_cpu(Some(&cpu_psi(2 * SECOND_NS, 2 * SECOND_NS)), grade(Severity::Negligible, false));
    let f = &r.findings[0];
    assert_eq!(f.kind, AssessmentKind::CpuNoMeaningfulContention);
    assert_eq!(f.resource_confidence, Confidence::Medium);
    assert!(f.qualifiers.iter().any(|q| q.kind == "cpu_no_meaningful_contention"));
}

#[test]
fn memory_counters_name_the_mechanism_but_never_create_pressure() {
    let window = 10 * SECOND_NS;
    let ctx = context(
        vec![(VmstatCounter::ScanDirect, 12), (VmstatCounter::StealDirect, 8)],
        window,
    );
    let available = FullStall::Available { total_delta_us: 1_000 };
    let r = analyze_memory(Some(&stall(window, available)), grade(Severity::Moderate, false), Some(&ctx), false);
    let f = &r.findings[0];
    assert_eq!(f.kind, MemoryAssessmentKind::ReclaimPressure);
    assert_eq!(f.mechanism_confidence, Some(Confidence::Low));
    assert_eq!(f.evidence.scan_direct_pages, Some(12));
    assert_eq!(f.evidence.swap_used_bytes, Some(6));
    assert_eq!(f.evidence.psi_full_state, MemoryFullEvidenceState::Available);
    assert!(f.qualifiers.iter().any(|q| q.kind == "memory_mechanism_same_window_correlation"));
    assert!(f.qualifiers.iter().any(|q| q.kind == "swap_allocated_context"));

    let swap = context(vec![(VmstatCounter::SwapIn, 3)], window);
    let r = analyze_memory(Some(&stall(window, FullStall::Missing)), grade(Severity::Low, false), Some(&swap), false);
    assert_eq!(r.findings[0].kind, MemoryAssessmentKind::SwapPressure);
    assert!(r.findings[0].qualifiers.iter().any(|q| q.kind == "memory_full_unavailable"));

    let r = analyze_memory(Some(&stall(window, available)), grade(Severity::Negligible, false), Some(&ctx), true);
    let f = &r.findings[0];
    assert_eq!(f.kind, MemoryAssessmentKind::NoHarmfulPressure);
    assert_eq!(f.mechanism_confidence, None);
    assert!(f.qualifiers.iter().any(|q| q.kind == "high_occupancy_context"));
    assert!(f.qualifiers.iter().any(|q| q.kind == "memory_no_harmful_pressure"));
}

#[test]
fn memory_possible_thrashing_needs_sustained_pressure_full_and_churn() {
    let window = 5 * SECOND_NS;
    let churn = context(
        vec![
            (VmstatCounter::SwapIn, 5_120),
            (VmstatCounter::SwapOut, 5_120),
            (VmstatCounter::ScanDirect, 5_120),
            (VmstatCounter::StealDirect, 5_120),
        ],
        window,
    );
    let full = FullStall::Available { total_delta_us: 100_000 };
    let r = analyze_memory(Some(&stall(window, full)), grade(Severity::High, true), Some(&churn), false);
    assert_eq!(r.findings[0].kind, MemoryAssessmentKind::PossibleThrashing);
    assert_eq!(r.findings[0].mechanism_confidence, Some(Confidence::Medium));

    let r = analyze_memory(Some(&stall(window, full)), grade(Severity::High, false), Some(&churn), false);
    assert_eq!(r.findings[0].kind, MemoryAssessmentKind::SwapPressure);

    let r = analyze_memory(Some(&stall(window, full)), grade(Severity::Moderate, true), Some(&churn), false);
    assert_eq!(r.findings[0].kind, MemoryAssessmentKind::SwapPressure);

    let short = stall(2 * SECOND_NS, full);
    let r = analyze_memory(Some(&short), grade(Severity::Severe, true), Some(&churn), false);
    assert_eq!(r.findings[0].kind, MemoryAssessmentKind::SwapPressure);
}

#[test]
fn memory_short_window_gives_no_verdict() {
    let r = analyze_memory(Some(&stall(SECOND_NS / 10, FullStall::Missing)), grade(Severity::Severe, true), None, false);
    let f = &r.findings[0];
    assert_eq!(f.kind, MemoryAssessmentKind::InsufficientObservation);
    assert_eq!(f.qualifiers.len(), 2);
    assert_eq!(f.qualifiers[1].kind, "no_process_attribution");
    assert!(analyze_memory(None, grade(Severity::Low, false), None, false).findings.is_empty());
}

fn disks() -> DiskstatsObservation {
    DiskstatsObservation {
        elapsed_ns: 10 * SECOND_NS,
        capability: IoCapability::Available,
        devices: vec![DiskstatsInterval {
            key: BlockDeviceKey { major: 8, minor: 0 },
            name: "sda".into(),
            reads_completed: Some(10),
            sectors_read_512: Some(80),
            writes_completed: Some(0),
            sectors_written_512: Some(0),
            io_ticks_ms: Some(900),
            weighted_io_ticks_ms: Some(1_200),
            end_in_flight: 1,
        }],
        issues: DiskstatsIntervalIssues {
            start_error: None,
            end_error: None,
            appeared: vec![],
            exited: vec![],
            identity_changed: vec![],
            regressed: vec![],
            limit_reached: false,
        },
    }
}

#[test]
fn io_devices_are_listed_only_under_pressure() {
    let window = 10 * SECOND_NS;
    let d = disks();
    let r = analyze_io(Some(&stall(window, FullStall::Missing)), grade(Severity::Moderate, false), Some(&d), None);
    let f = &r.findings[0];
    assert_eq!(f.kind, IoAssessmentKind::Pressure);
    assert_eq!(f.device_candidates.len(), 1);
    assert_eq!(f.device_candidates[0].name, "sda");
    assert!(f.qualifiers.iter().any(|q| q.kind == "device_activity_same_window_correlation"));
    assert!(f.qualifiers.iter().any(|q| q.kind == "process_io_unavailable"));

    let r = analyze_io(Some(&stall(window, FullStall::Missing)), grade(Severity::Negligible, false), Some(&d), None);
    let f = &r.findings[0];
    assert_eq!(f.kind, IoAssessmentKind::NoMeaningfulContention);
    assert!(f.device_candidates.is_empty());
    assert!(f.qualifiers.iter().any(|q| q.kind == "io_no_meaningful_contention"));

    let r = analyze_io(Some(&stall(SECOND_NS / 2, FullStall::Missing)), grade(Severity::Severe, false), Some(&d), None);
    assert_eq!(r.findings[0].kind, IoAssessmentKind::InsufficientObservation);
    assert!(r.findings[0].device_candidates.is_empty());
}

#[test]
fn stall_intervals_check_some_and_keep_bad_full_as_a_state() {
    let start = CgroupPsiRaw { some_total_usec: 100, full_total_usec: Some(50) };
    let end = CgroupPsiRaw { some_total_usec: 600, full_total_usec: Some(250) };
    let e = stall_evidence(SECOND_NS, SECOND_NS, &start, &end).unwrap();
    assert_eq!(e.some_total_delta_us, 500);
    assert_eq!(e.full, FullStall::Available { total_delta_us: 200 });

    let regressed = CgroupPsiRaw { some_total_usec: 50, full_total_usec: None };
    assert_eq!(stall_evidence(SECOND_NS, SECOND_NS, &start, &regressed), None);
    let too_long = CgroupPsiRaw { some_total_usec: 2_000_000, full_total_usec: Some(60) };
    assert_eq!(stall_evidence(SECOND_NS, SECOND_NS, &start, &too_long), None);

    let full_over_some = CgroupPsiRaw { some_total_usec: 200, full_total_usec: Some(300) };
    assert_eq!(stall_evidence(SECOND_NS, SECOND_NS, &start, &full_over_some).unwrap().full, FullStall::ExceedsSome);
    let full_back = CgroupPsiRaw { some_total_usec: 200, full_total_usec: Some(10) };
    assert_eq!(stall_evidence(SECOND_NS, SECOND_NS, &start, &full_back).unwrap().full, FullStall::CounterRegressed);
    let no_full = CgroupPsiRaw { some_total_usec: 200, full_total_usec: None };
    assert_eq!(stall_evidence(SECOND_NS, SECOND_NS, &start, &no_full).unwrap().full, FullStall::Missing);
}

#[test]
fn health_is_degraded_incomplete_or_healthy() {
    let window = 10 * SECOND_NS;
    let healthy = HostAnalysis {
        cpu: analyze_cpu(Some(&cpu_psi(window, window)), grade(Severity::Negligible, false)),
        memory: Some(analyze_memory(Some(&stall(window, FullStall::Missing)), grade(Severity::Negligible, false), None, false)),
        io: Some(analyze_io(Some(&stall(window, FullStall::Missing)), grade(Severity::Negligible, false), None, None)),
        cgroups: vec![],
    };
    let view = diagnosis_view(&healthy, 10_000);
    assert_eq!(view.status, OverallStatus::Healthy);
    assert_eq!(view.resources.len(), 3);
    assert_eq!(view.resources[1].name, "Memory");
    assert_eq!(view.requested_duration_ms, 10_000);

    let mut degraded = healthy.clone();
    degraded.io = Some(analyze_io(Some(&stall(window, FullStall::Missing)), grade(Severity::High, false), None, None));
    let view = diagnosis_view(&degraded, 10_000);
    assert_eq!(view.status, OverallStatus::Degraded);
    assert_eq!(view.resources[2].state, ResourceState::Pressure);

    let mut incomplete = healthy.clone();
    incomplete.cpu = analyze_cpu(None, grade(Severity::Negligible, false));
    let view = diagnosis_view(&incomplete, 10_000);
    assert_eq!(view.status, OverallStatus::Incomplete);
    assert_eq!(view.resources[0].state, ResourceState::Unavailable);

    let short = HostAnalysis {
        cpu: analyze_cpu(Some(&cpu_psi(SECOND_NS / 2, SECOND_NS / 2)), grade(Severity::Negligible, false)),
        memory: Some(analyze_memory(Some(&stall(SECOND_NS / 2, FullStall::Missing)), grade(Severity::Negligible, false), None, false)),
        io: Some(analyze_io(Some(&stall(SECOND_NS / 2, FullStall::Missing)), grade(Severity::Negligible, false), None, None)),
        cgroups: vec![],
    };
    let view = diagnosis_view(&short, 500);
    assert_eq!(view.status, OverallStatus::Incomplete);
    assert!(view.resources.iter().all(|r| r.state == ResourceState::Inconclusive));
}

#[test]
fn memory_mechanism_and_io_pressure_form_a_non_causal_chain() {
    let window = 10 * SECOND_NS;
    let ctx = context(
        vec![(VmstatCounter::ScanDirect, 12), (VmstatCounter::StealDirect, 8)],
        window,
    );
    let memory = analyze_memory(Some(&stall(window, FullStall::Missing)), grade(Severity::Moderate, false), Some(&ctx), false);
    let io = analyze_io(Some(&stall(window, FullStall::Missing)), grade(Severity::Moderate, false), None, None);
    let chains = analyze_host_memory_io_chain(Some(&memory.findings[0]), Some(&io.findings[0]));
    assert_eq!(chains.len(), 1);
    let chain = &chains[0];
    assert_eq!(chain.kind, ChainKind::MemoryMechanismConsistentWithIo);
    assert_eq!(chain.confidence, Confidence::Low);
    assert_eq!(
        chain.summary,
        "Memory reclaim pressure is consistent with block-I/O pressure in the same window."
    );
    assert_eq!(chain.from, ChainEndpoint::Memory { kind: MemoryAssessmentKind::ReclaimPressure });
    assert_eq!(chain.to, ChainEndpoint::Io { kind: IoAssessmentKind::Pressure });
    assert_eq!(chain.evidence.scan_direct_pages, Some(12));
    assert_eq!(chain.evidence.memory_psi_some_total_us, 800_000);
    assert_eq!(chain.evidence.io_psi_window_ns, window);
    assert_eq!(chain.qualifiers[0].kind, "chain_not_causal");
    assert_eq!(chain.qualifiers[1].kind, "no_process_device_mapping");

    let all = analyze_evidence_chains(Some(&memory.findings[0]), Some(&io.findings[0]), &vec![]);
    assert_eq!(all, chains);
}

#[test]
fn coincident_or_incomplete_pressure_does_not_form_a_chain() {
    let window = 10 * SECOND_NS;
    let plain = analyze_memory(Some(&stall(window, FullStall::Missing)), grade(Severity::High, false), None, false);
    assert_eq!(plain.findings[0].kind, MemoryAssessmentKind::Pressure);
    let io = analyze_io(Some(&stall(window, FullStall::Missing)), grade(Severity::High, false), None, None);
    assert!(analyze_host_memory_io_chain(Some(&plain.findings[0]), Some(&io.findings[0])).is_empty());

    let ctx = context(vec![(VmstatCounter::SwapIn, 3)], window);
    let swap = analyze_memory(Some(&stall(window, FullStall::Missing)), grade(Severity::Low, false), Some(&ctx), false);
    let calm = analyze_io(Some(&stall(window, FullStall::Missing)), grade(Severity::Negligible, false), None, None);
    assert!(analyze_host_memory_io_chain(Some(&swap.findings[0]), Some(&calm.findings[0])).is_empty());
    assert!(analyze_host_memory_io_chain(Some(&swap.findings[0]), None).is_empty());
    assert!(analyze_host_memory_io_chain(None, Some(&io.findings[0])).is_empty());
    let chained = analyze_host_memory_io_chain(Some(&swap.findings[0]), Some(&io.findings[0]));
    assert_eq!(
        chained[0].summary,
        "Memory swap pressure is consistent with block-I/O pressure in the same window."
    );
}

#[test]
fn ranked_findings_put_more_severe_memory_evidence_first() {
    let window = 10 * SECOND_NS;
    let cpu = analyze_cpu(Some(&cpu_psi(window, window)), grade(Severity::Low, false));
    let memory = analyze_memory(Some(&stall(window, FullStall::Missing)), grade(Severity::Severe, false), None, false);
    let io = analyze_io(Some(&stall(window, FullStall::Missing)), grade(Severity::Low, false), None, None);
    let ranked = ranked_findings_with_io(cpu, memory, io);
    assert_eq!(ranked.len(), 3);
    assert!(matches!(ranked[0], Finding::Memory(_)));
    assert!(matches!(ranked[1], Finding::Cpu(_)));
    assert!(matches!(ranked[2], Finding::Io(_)));
}

#[test]
fn ranked_findings_break_ties_by_confidence_then_resource() {
    let window = 10 * SECOND_NS;
    let cpu = analyze_cpu(Some(&cpu_psi(2 * SECOND_NS, 2 * SECOND_NS)), grade(Severity::High, false));
    let memory = analyze_memory(Some(&stall(window, FullStall::Missing)), grade(Severity::High, false), None, false);
    let io = analyze_io(Some(&stall(window, FullStall::Missing)), grade(Severity::High, false), None, None);
    let ranked = ranked_findings_with_io(cpu, memory, io);
    assert!(matches!(ranked[0], Finding::Memory(_)));
    assert!(matches!(ranked[1], Finding::Io(_)));
    assert!(matches!(ranked[2], Finding::Cpu(_)));
    let none = ranked_findings_with_io(
        analyze_cpu(None, grade(Severity::Low, false)),
        analyze_memory(None, grade(Severity::Low, false), None, false),
        analyze_io(None, grade(Severity::Low, false), None, None),
    );
    assert!(none.is_empty());
}

/// A pressure interval of `window_ns` whose `some` share is `some_permille`
/// thousandths, with a `full` state.
fn shares(some_permille: u64, full: FullStall, window_ns: u64) -> StallEvidence {
    StallEvidence {
        requested_ns: window_ns,
        elapsed_ns: window_ns,
        some_total_delta_us: window_ns / 1_000 * some_permille / 1_000,
        full,
    }
}

fn full_permille(permille: u64, window_ns: u64) -> FullStall {
    FullStall::Available { total_delta_us: window_ns / 1_000 * permille / 1_000 }
}

/// Meminfo with `available` of a million bytes free, a fully free swap, and
/// every VM counter delta zero.
fn memory_context(available: u64) -> MemoryContextObservation {
    MemoryContextObservation {
        elapsed_ns: 10 * SECOND_NS,
        end_meminfo: Some(MeminfoRaw {
            mem_total_bytes: 1_000_000,
            mem_available_bytes: available,
            swap_total_bytes: 100_000,
            swap_free_bytes: 100_000,
            cached_bytes: Some(400_000),
            sreclaimable_bytes: Some(50_000),
            anon_pages_bytes: Some(300_000),
        }),
        meminfo_capability: MemoryContextCapability::Available,
        vmstat_capability: MemoryContextCapability::Available,
        vmstat_deltas: VmstatCounter::all().into_iter().map(|c| (c, 0)).collect(),
        vmstat_issues: VmstatIntervalIssues::default(),
    }
}

fn set_delta(context: &mut MemoryContextObservation, counter: VmstatCounter, value: u64) {
    for entry in context.vmstat_deltas.iter_mut() {
        if entry.0 == counter {
            entry.1 = value;
        }
    }
}

#[test]
fn high_occupancy_and_allocated_swap_do_not_create_memory_pressure() {
    let mut context = memory_context(50_000);
    context.end_meminfo.as_mut().unwrap().swap_free_bytes = 25_000;
    let window = 10 * SECOND_NS;
    let finding = &analyze_memory(
        Some(&shares(5, full_permille(1, window), window)),
        grade(Severity::Negligible, false),
        Some(&context),
        true,
    )
    .findings[0];
    assert_eq!(finding.kind, MemoryAssessmentKind::NoHarmfulPressure);
    assert_eq!(finding.severity, Severity::Negligible);
    assert!(finding
        .summary
        .as_deref()
        .is_some_and(|summary| summary.contains("despite high memory occupancy")));
    assert!(finding.qualifiers.iter().any(|q| q.kind == "swap_allocated_context"));
}

#[test]
fn memory_mechanisms_require_conservative_counter_conjunctions() {
    let window = 10 * SECOND_NS;
    let pressure = shares(80, full_permille(10, window), window);
    let moderate = grade(Severity::Moderate, true);
    let mut context = memory_context(200_000);
    set_delta(&mut context, VmstatCounter::ScanKswapd, 10);
    assert_eq!(
        analyze_memory(Some(&pressure), moderate, Some(&context), false).findings[0].kind,
        MemoryAssessmentKind::Pressure
    );
    set_delta(&mut context, VmstatCounter::ScanDirect, 10);
    assert_eq!(
        analyze_memory(Some(&pressure), moderate, Some(&context), false).findings[0].kind,
        MemoryAssessmentKind::Pressure
    );
    set_delta(&mut context, VmstatCounter::StealDirect, 5);
    assert_eq!(
        analyze_memory(Some(&pressure), moderate, Some(&context), false).findings[0].kind,
        MemoryAssessmentKind::ReclaimPressure
    );
    set_delta(&mut context, VmstatCounter::SwapOut, 3);
    assert_eq!(
        analyze_memory(Some(&pressure), moderate, Some(&context), false).findings[0].kind,
        MemoryAssessmentKind::ReclaimPressure
    );
    set_delta(&mut context, VmstatCounter::SwapIn, 1);
    assert_eq!(
        analyze_memory(Some(&pressure), moderate, Some(&context), false).findings[0].kind,
        MemoryAssessmentKind::SwapPressure
    );
}

fn thrashing_context() -> MemoryContextObservation {
    let mut context = memory_context(50_000);
    context.elapsed_ns = 5 * SECOND_NS;
    for counter in [
        VmstatCounter::ScanDirect,
        VmstatCounter::StealDirect,
        VmstatCounter::SwapIn,
        VmstatCounter::SwapOut,
    ] {
        set_delta(&mut context, counter, 5_120);
    }
    context
}

#[test]
fn possible_thrashing_requires_sustained_high_some_full_and_mechanism() {
    let mut context = thrashing_context();
    let window = 5 * SECOND_NS;
    let high = grade(Severity::High, true);
    let psi = shares(200, full_permille(20, window), window);
    let finding = &analyze_memory(Some(&psi), high, Some(&context), true).findings[0];
    assert_eq!(finding.kind, MemoryAssessmentKind::PossibleThrashing);
    assert_eq!(finding.resource_confidence, Confidence::High);
    assert_eq!(finding.mechanism_confidence, Some(Confidence::Medium));
    assert_eq!(finding.evidence.memory_context_window_ns, Some(5 * SECOND_NS));

    context.elapsed_ns = 10 * SECOND_NS;
    let slower_context = &analyze_memory(Some(&psi), high, Some(&context), true).findings[0];
    assert_eq!(slower_context.kind, MemoryAssessmentKind::SwapPressure);
    context.elapsed_ns = 5 * SECOND_NS;

    set_delta(&mut context, VmstatCounter::SwapIn, 1);
    let immaterial = &analyze_memory(Some(&psi), high, Some(&context), true).findings[0];
    assert_eq!(immaterial.kind, MemoryAssessmentKind::SwapPressure);
    assert_eq!(immaterial.mechanism_confidence, Some(Confidence::Low));
    set_delta(&mut context, VmstatCounter::SwapIn, 0);
    set_delta(&mut context, VmstatCounter::SwapOut, 0);

    let moderate = &analyze_memory(
        Some(&shares(149, full_permille(20, window), window)),
        grade(Severity::Moderate, true),
        Some(&context),
        true,
    )
    .findings[0];
    assert_eq!(moderate.kind, MemoryAssessmentKind::ReclaimPressure);
    let short_window = 4 * SECOND_NS;
    let short = &analyze_memory(
        Some(&shares(200, full_permille(20, short_window), short_window)),
        high,
        Some(&context),
        true,
    )
    .findings[0];
    assert_eq!(short.kind, MemoryAssessmentKind::ReclaimPressure);
}

#[test]
fn invalid_host_full_blocks_possible_thrashing_but_not_pressure() {
    let context = thrashing_context();
    let window = 5 * SECOND_NS;
    let high = grade(Severity::High, true);
    let finding = &analyze_memory(
        Some(&shares(200, FullStall::ExceedsSome, window)),
        high,
        Some(&context),
        true,
    )
    .findings[0];
    assert_eq!(finding.kind, MemoryAssessmentKind::SwapPressure);
    assert_eq!(finding.evidence.psi_full_state, MemoryFullEvidenceState::ExceedsSome);
    assert_eq!(finding.evidence.psi_full_total_delta_us, None);
    assert!(finding.qualifiers.iter().any(|q| q.kind == "memory_full_interval_invalid"));

    for state in [FullStall::CounterRegressed, FullStall::DeltaExceedsElapsed] {
        let finding = &analyze_memory(Some(&shares(200, state, window)), high, Some(&context), true)
            .findings[0];
        assert_eq!(finding.kind, MemoryAssessmentKind::SwapPressure);
        assert_ne!(finding.evidence.psi_full_state, MemoryFullEvidenceState::Available);
    }
}

#[test]
fn valid_some_survives_missing_full_and_memory_context() {
    let window = 10 * SECOND_NS;
    let finding = &analyze_memory(
        Some(&shares(80, FullStall::Missing, window)),
        grade(Severity::Moderate, false),
        None,
        false,
    )
    .findings[0];
    assert_eq!(finding.kind, MemoryAssessmentKind::Pressure);
    assert_eq!(finding.severity, Severity::Moderate);
    assert!(finding.qualifiers.iter().any(|q| q.kind == "memory_full_unavailable"));
    assert!(finding.qualifiers.iter().any(|q| q.kind == "memory_context_unavailable"));
}

fn io_context() -> (DiskstatsObservation, ProcessIoObservation) {
    let disk = |minor: u32, name: &str, reads: u64, sectors_read: u64, writes: u64, sectors_written: u64| {
        DiskstatsInterval {
            key: BlockDeviceKey { major: 8, minor },
            name: name.into(),
            reads_completed: Some(reads),
            sectors_read_512: Some(sectors_read),
            writes_completed: Some(writes),
            sectors_written_512: Some(sectors_written),
            io_ticks_ms: Some(1),
            weighted_io_ticks_ms: Some(1),
            end_in_flight: 0,
        }
    };
    let diskstats = DiskstatsObservation {
        elapsed_ns: 10 * SECOND_NS,
        capability: IoCapability::Available,
        devices: vec![disk(16, "sdb", 2, 100, 2, 200), disk(0, "sda", 1, 1_000, 0, 0)],
        issues: DiskstatsIntervalIssues {
            start_error: None,
            end_error: None,
            appeared: vec![],
            exited: vec![],
            identity_changed: vec![],
            regressed: vec![],
            limit_reached: false,
        },
    };
    let process = |pid: u32, name: &str, read: u64, write: u64| ProcessIoInterval {
        key: ProcessKey { pid, start_time_ticks: 1 },
        name: name.into(),
        read_bytes: Some(read),
        write_bytes: Some(write),
        cancelled_write_bytes: Some(0),
        rchar: None,
        wchar: None,
    };
    let process_io = ProcessIoObservation {
        elapsed_ns: 10 * SECOND_NS,
        capability: IoCapability::Available,
        processes: vec![process(2, "writer", 1, 900), process(1, "reader", 1_000, 0)],
        issues: ProcessIoCollectionIssues::default(),
        regressed: vec![],
    };
    (diskstats, process_io)
}

#[test]
fn io_psi_alone_controls_pressure_and_activity_is_ranked_only_when_pressured() {
    let (diskstats, process_io) = io_context();
    let window = 10 * SECOND_NS;
    let pressured = &analyze_io(
        Some(&shares(80, full_permille(20, window), window)),
        grade(Severity::Moderate, true),
        Some(&diskstats),
        Some(&process_io),
    )
    .findings[0];
    assert_eq!(pressured.kind, IoAssessmentKind::Pressure);
    assert_eq!(pressured.device_candidates[0].name, "sda");
    assert_eq!(pressured.process_suspects[0].name, "reader");
    assert!(pressured.qualifiers.iter().any(|q| q.kind == "no_affected_workload_attribution"));
    let healthy = &analyze_io(
        Some(&shares(5, full_permille(1, window), window)),
        grade(Severity::Negligible, false),
        Some(&diskstats),
        Some(&process_io),
    )
    .findings[0];
    assert_eq!(healthy.kind, IoAssessmentKind::NoMeaningfulContention);
    assert!(healthy.device_candidates.is_empty() && healthy.process_suspects.is_empty());
}

#[test]
fn partial_io_context_reduces_attribution_confidence() {
    let (mut diskstats, mut process_io) = io_context();
    diskstats.capability = IoCapability::Partial;
    process_io.capability = IoCapability::Partial;
    let window = 10 * SECOND_NS;
    let finding = &analyze_io(
        Some(&shares(80, full_permille(20, window), window)),
        grade(Severity::Moderate, true),
        Some(&diskstats),
        Some(&process_io),
    )
    .findings[0];
    assert!(finding.device_candidates.iter().all(|c| c.confidence == Confidence::Low));
    assert!(finding.process_suspects.iter().all(|s| s.confidence == Confidence::Low));
    assert!(finding.qualifiers.iter().any(|q| q.kind == "diskstats_partial"));
}

#[test]
fn psi_alone_controls_negative_and_short_verdicts() {
    let calm = CpuPsiEvidence { requested_ns: 10 * SECOND_NS, elapsed_ns: 10 * SECOND_NS, some_total_delta_us: 50_000 };
    assert_eq!(
        analyze_cpu(Some(&calm), grade(Severity::Negligible, false)).findings[0].kind,
        AssessmentKind::CpuNoMeaningfulContention
    );
    let short = CpuPsiEvidence { requested_ns: 999_000_000, elapsed_ns: 999_000_000, some_total_delta_us: 199_800 };
    assert_eq!(
        analyze_cpu(Some(&short), grade(Severity::High, false)).findings[0].kind,
        AssessmentKind::InsufficientObservation
    );
    assert!(analyze_cpu(None, grade(Severity::Negligible, false)).findings.is_empty());
}

fn cpu_window(requested_ns: u64, elapsed_ns: u64) -> CpuPsiEvidence {
    CpuPsiEvidence { requested_ns, elapsed_ns, some_total_delta_us: elapsed_ns / 1_000 / 5 }
}

#[test]
fn threshold_edges_and_confidence_are_deterministic() {
    let high = grade(Severity::High, false);
    assert_eq!(
        analyze_cpu(Some(&cpu_window(SECOND_NS, SECOND_NS)), high).findings[0].resource_confidence,
        Confidence::Medium
    );
    assert_eq!(
        analyze_cpu(Some(&cpu_window(4_999_000_000, 4_999_000_000)), high).findings[0].resource_confidence,
        Confidence::Medium
    );
    assert_eq!(
        analyze_cpu(Some(&cpu_window(5 * SECOND_NS, 5 * SECOND_NS)), high).findings[0].resource_confidence,
        Confidence::High
    );
    assert_eq!(
        analyze_cpu(Some(&cpu_window(SECOND_NS / 10, SECOND_NS)), high).findings[0].kind,
        AssessmentKind::InsufficientObservation
    );
    assert_eq!(
        analyze_cpu(Some(&cpu_window(SECOND_NS, SECOND_NS)), high).findings[0].resource_confidence,
        Confidence::Medium
    );
}

#[test]
fn memory_psi_boundaries_windows_and_missing_data_are_conservative() {
    let context = memory_context(500_000);
    let high = grade(Severity::High, true);
    let short_window = 999_000_000;
    let short = shares(200, full_permille(100, short_window), short_window);
    assert_eq!(
        analyze_memory(Some(&short), high, Some(&context), false).findings[0].kind,
        MemoryAssessmentKind::InsufficientObservation
    );
    let mut requested_short = shares(200, full_permille(100, SECOND_NS), SECOND_NS);
    requested_short.requested_ns = SECOND_NS / 10;
    assert_eq!(
        analyze_memory(Some(&requested_short), high, Some(&context), false).findings[0].kind,
        MemoryAssessmentKind::InsufficientObservation
    );
    assert!(analyze_memory(None, high, Some(&context), false).findings.is_empty());
}

#[test]
fn io_boundaries_missing_and_contradictory_context_are_conservative() {
    let window = 10 * SECOND_NS;
    let missing = &analyze_io(
        Some(&shares(200, FullStall::Missing, window)),
        grade(Severity::High, false),
        None,
        None,
    )
    .findings[0];
    assert_eq!(missing.kind, IoAssessmentKind::Pressure);
    assert!(missing.qualifiers.iter().any(|q| q.kind == "diskstats_unavailable"));
    let short_window = 999_000_000;
    let short = &analyze_io(
        Some(&shares(200, full_permille(10, short_window), short_window)),
        grade(Severity::High, true),
        None,
        None,
    )
    .findings[0];
    assert_eq!(short.kind, IoAssessmentKind::InsufficientObservation);
    assert!(analyze_io(None, grade(Severity::High, false), None, None).findings.is_empty());
}

#[test]
fn fixed_summaries_are_stated_and_shares_are_left_to_the_caller() {
    let window = 10 * SECOND_NS;
    let calm = analyze_memory(Some(&shares(5, FullStall::Missing, window)), grade(Severity::Negligible, false), None, false);
    assert_eq!(calm.findings[0].summary.as_deref(), Some("No harmful memory pressure observed."));
    let pressed = analyze_memory(Some(&shares(80, FullStall::Missing, window)), grade(Severity::Moderate, false), None, false);
    assert_eq!(pressed.findings[0].summary, None);
    let short = analyze_cpu(Some(&cpu_window(SECOND_NS / 2, SECOND_NS / 2)), grade(Severity::High, false));
    assert_eq!(
        short.findings[0].summary.as_deref(),
        Some("CPU observation is shorter than 1s; no healthy or contention conclusion was made.")
    );
    let io = analyze_io(Some(&shares(5, FullStall::Missing, window)), grade(Severity::Negligible, false), None, None);
    assert_eq!(io.findings[0].summary.as_deref(), Some("No meaningful block-I/O pressure observed."));
}

#[test]
fn unavailable_resources_are_listed_as_sorted_limitations() {
    let none = HostAnalysis {
        cpu: analyze_cpu(None, grade(Severity::Negligible, false)),
        memory: None,
        io: None,
        cgroups: vec![],
    };
    let view = diagnosis_view(&none, 10_000);
    assert_eq!(view.status, OverallStatus::Incomplete);
    assert_eq!(view.requested_duration_ms, 10_000);
    let names: Vec<&str> = view.resources.iter().map(|r| r.name).collect();
    assert_eq!(names, vec!["CPU", "Memory", "I/O"]);
    assert!(view.resources.iter().all(|r| r.state == ResourceState::Unavailable
        && r.severity == Severity::Negligible
        && r.confidence == Confidence::Low));
    assert!(view.chains.is_empty());
    assert!(view.findings.is_empty());
    assert_eq!(
        view.limitations,
        vec![
            "CPU assessment unavailable: no valid exact-interval CPU PSI evidence.".to_string(),
            "I/O assessment unavailable: no valid exact-interval I/O PSI evidence.".to_string(),
            "Memory assessment unavailable: no valid exact-interval memory PSI evidence.".to_string(),
        ]
    );
}

#[test]
fn diagnosis_lists_each_qualifier_once_and_the_chain_rows() {
    let window = 10 * SECOND_NS;
    let ctx = context(vec![(VmstatCounter::ScanDirect, 12), (VmstatCounter::StealDirect, 8)], window);
    let analysis = HostAnalysis {
        cpu: analyze_cpu(Some(&cpu_psi(window, window)), grade(Severity::Negligible, false)),
        memory: Some(analyze_memory(Some(&stall(window, FullStall::Missing)), grade(Severity::Moderate, false), Some(&ctx), false)),
        io: Some(analyze_io(Some(&stall(window, FullStall::Missing)), grade(Severity::Moderate, false), None, None)),
        cgroups: vec![],
    };
    let view = diagnosis_view(&analysis, 10_000);
    assert_eq!(view.status, OverallStatus::Degraded);
    assert_eq!(view.chains.len(), 1);
    assert_eq!(
        view.chains[0].summary,
        "Memory reclaim pressure is consistent with block-I/O pressure in the same window."
    );
    assert_eq!(view.chains[0].confidence, Confidence::Low);
    let mut expected: Vec<String> = Vec::new();
    for q in analysis.cpu.findings[0]
        .qualifiers
        .iter()
        .chain(analysis.memory.as_ref().unwrap().findings[0].qualifiers.iter())
        .chain(analysis.io.as_ref().unwrap().findings[0].qualifiers.iter())
    {
        expected.push(q.message.to_string());
    }
    expected.sort();
    expected.dedup();
    assert_eq!(view.limitations, expected);
}

#[test]
fn finding_rows_rank_severity_then_confidence_then_identifier() {
    let window = 10 * SECOND_NS;
    let ctx = context(vec![(VmstatCounter::ScanDirect, 12), (VmstatCounter::StealDirect, 8)], window);
    let analysis = HostAnalysis {
        cpu: analyze_cpu(Some(&cpu_psi(window, window)), grade(Severity::Negligible, false)),
        memory: Some(analyze_memory(Some(&stall(window, FullStall::Missing)), grade(Severity::Moderate, false), Some(&ctx), false)),
        io: Some(analyze_io(Some(&stall(window, FullStall::Missing)), grade(Severity::High, false), None, None)),
        cgroups: vec![],
    };
    let view = diagnosis_view(&analysis, 10_000);
    let ids: Vec<&str> = view.findings.iter().map(|row| row.id.as_str()).collect();
    // The CPU finding is healthy and has no row; I/O is more severe than memory.
    assert_eq!(ids, vec!["host:io", "host:memory"]);
    assert_eq!(view.findings[0].resource, "I/O");
    assert_eq!(view.findings[0].scope, "host");
    assert_eq!(view.findings[0].severity, Severity::High);
    let memory = &analysis.memory.as_ref().unwrap().findings[0];
    let messages: Vec<&str> = memory.qualifiers.iter().map(|q| q.message).collect();
    assert_eq!(view.findings[1].qualifiers, messages);
    assert_eq!(view.findings[1].confidence, memory.resource_confidence);
}
