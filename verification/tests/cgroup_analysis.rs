use stallhunt::analysis::{
    CgroupAssessmentKind, CgroupMechanism, CgroupResourceKind, ChainEndpoint, ChainKind,
    ChainRelation, Confidence, Severity, MAX_CGROUP_EVIDENCE_CHAINS,
};
use stallhunt::cgroup::{
    CgroupCollectionIssues, CgroupCpuInterval, CgroupFileState, CgroupInterval,
    CgroupMemoryEventsRaw, CgroupMemoryStatRaw, CgroupObservation, CgroupProcessMember,
    CgroupPsiInterval, CgroupPsiIntervalState, CgroupResource,
};
use stallhunt::cgroup_analysis::{
    analyze_cgroup_memory_io_chains, cgroup_finding, cgroup_memory_io_chain,
    members_in_scope, select_cgroup_findings, CgroupFinding, PsiGrade,
};
use stallhunt::process::ProcessKey;

const SECOND_NS: u64 = 1_000_000_000;

fn missing<T>() -> CgroupResource<T> {
    CgroupResource {
        state: CgroupFileState::Missing,
        value: None,
    }
}

fn psi(some_us: Option<u64>, window_ns: u64, state: CgroupPsiIntervalState) -> CgroupResource<CgroupPsiInterval> {
    CgroupResource {
        state: if some_us.is_some() {
            CgroupFileState::Available
        } else {
            CgroupFileState::Missing
        },
        value: some_us.map(|some_total_usec| CgroupPsiInterval {
            elapsed_ns: Some(window_ns),
            some_total_usec: Some(some_total_usec),
            full_total_usec: None,
            state,
        }),
    }
}

fn events(high: Option<u64>, max: Option<u64>) -> CgroupResource<CgroupMemoryEventsRaw> {
    match (high, max) {
        (None, None) => missing(),
        _ => CgroupResource {
            state: CgroupFileState::Available,
            value: Some(CgroupMemoryEventsRaw {
                low: Some(0),
                high,
                max,
                oom: Some(0),
                oom_kill: Some(0),
                oom_group_kill: Some(0),
            }),
        },
    }
}

fn stat(scan: Option<u64>, steal: Option<u64>, swap_in: Option<u64>, swap_out: Option<u64>) -> CgroupResource<CgroupMemoryStatRaw> {
    CgroupResource {
        state: CgroupFileState::Available,
        value: Some(CgroupMemoryStatRaw {
            pgscan_direct: scan,
            pgsteal_direct: steal,
            pswpin: swap_in,
            pswpout: swap_out,
        }),
    }
}

fn cpu(throttled_usec: Option<u64>) -> CgroupResource<CgroupCpuInterval> {
    CgroupResource {
        state: CgroupFileState::Available,
        value: Some(CgroupCpuInterval {
            usage_usec: Some(1_000_000),
            user_usec: None,
            system_usec: None,
            nr_periods: Some(100),
            nr_throttled: Some(4),
            throttled_usec,
        }),
    }
}

fn group(
    path: &str,
    memory_some_us: Option<u64>,
    io_some_us: Option<u64>,
    cpu_some_us: Option<u64>,
    memory_events: CgroupResource<CgroupMemoryEventsRaw>,
    window_ns: u64,
) -> CgroupInterval {
    CgroupInterval {
        path: path.to_string(),
        cpu: missing(),
        memory_current_end: missing(),
        memory_events,
        memory_stat: missing(),
        io: missing(),
        cpu_pressure: psi(cpu_some_us, window_ns, CgroupPsiIntervalState::Available),
        memory_pressure: psi(memory_some_us, window_ns, CgroupPsiIntervalState::Available),
        io_pressure: psi(io_some_us, window_ns, CgroupPsiIntervalState::Available),
        systemd_unit_candidate: None,
    }
}

fn observation(groups: Vec<CgroupInterval>, elapsed_ns: u64) -> CgroupObservation {
    CgroupObservation {
        elapsed_ns,
        groups,
        members: vec![],
        issues: CgroupCollectionIssues::default(),
    }
}

/// The grade a caller gives a pressure interval: the `some` share in the
/// 1/5/15/30 percent bands, and whether `full` reaches one percent.
fn grade(psi: &CgroupResource<CgroupPsiInterval>) -> PsiGrade {
    let share = |total: Option<u64>, window: Option<u64>| -> Option<f64> {
        let window = window.filter(|w| *w != 0)?;
        Some(total? as f64 / (window / 1_000) as f64)
    };
    let (some, full) = match &psi.value {
        Some(v) => (share(v.some_total_usec, v.elapsed_ns), share(v.full_total_usec, v.elapsed_ns)),
        None => (None, None),
    };
    let some = some.unwrap_or(0.0);
    let some_severity = if some < 0.01 {
        Severity::Negligible
    } else if some < 0.05 {
        Severity::Low
    } else if some < 0.15 {
        Severity::Moderate
    } else if some < 0.30 {
        Severity::High
    } else {
        Severity::Severe
    };
    PsiGrade {
        some_severity,
        full_material: full.is_some_and(|f| f >= 0.01),
    }
}

fn findings_of(o: &CgroupObservation) -> Vec<CgroupFinding> {
    let mut out = Vec::new();
    for g in &o.groups {
        for (resource, p) in [
            (CgroupResourceKind::Cpu, &g.cpu_pressure),
            (CgroupResourceKind::Memory, &g.memory_pressure),
            (CgroupResourceKind::Io, &g.io_pressure),
        ] {
            out.push(cgroup_finding(g, resource, p, o, grade(p)));
        }
    }
    out
}

fn finding_for(o: &CgroupObservation, resource: CgroupResourceKind) -> CgroupFinding {
    findings_of(o)
        .into_iter()
        .find(|f| f.resource == resource)
        .expect("finding for the resource")
}

#[test]
fn cgroup_pressure_is_scoped_and_never_a_host_causal_claim() {
    let mut g = group("/demo.service", None, None, Some(100_000), missing(), SECOND_NS);
    g.systemd_unit_candidate = Some("demo.service".to_string());
    let o = observation(vec![g], SECOND_NS);
    let finding = finding_for(&o, CgroupResourceKind::Cpu);
    assert_eq!(finding.kind, CgroupAssessmentKind::Pressure);
    assert_eq!(finding.severity, Severity::Moderate);
    assert_eq!(finding.resource_confidence, Confidence::Medium);
    assert_eq!(finding.systemd_unit_candidate.as_deref(), Some("demo.service"));
    assert_eq!(finding.qualifiers[0].kind, "cgroup_scoped_evidence");
    assert!(finding.qualifiers.iter().any(|q| q.kind == "systemd_unit_candidate"));
    assert!(finding
        .qualifiers
        .iter()
        .any(|q| q.message.contains("does not establish that this cgroup caused host pressure")));
    assert_eq!(finding.evidence.psi_some_total_delta_us, Some(100_000));
    assert_eq!(finding.evidence.psi_window_ns, Some(SECOND_NS));
}

#[test]
fn cgroup_short_or_invalid_some_has_no_pressure_verdict() {
    let short = observation(
        vec![group("/demo.service", None, None, Some(5_000), missing(), SECOND_NS / 2)],
        SECOND_NS / 2,
    );
    let finding = finding_for(&short, CgroupResourceKind::Cpu);
    assert_eq!(finding.kind, CgroupAssessmentKind::InsufficientObservation);
    assert_eq!(finding.severity, Severity::Negligible);
    assert_eq!(finding.resource_confidence, Confidence::Low);
    assert!(finding.qualifiers.iter().any(|q| q.kind == "insufficient_observation"));

    let mut g = group("/demo.service", None, None, Some(5_000), missing(), SECOND_NS);
    g.cpu_pressure = psi(None, SECOND_NS, CgroupPsiIntervalState::SomeExceedsElapsed);
    let invalid = observation(vec![g], SECOND_NS);
    let finding = finding_for(&invalid, CgroupResourceKind::Cpu);
    assert_eq!(finding.kind, CgroupAssessmentKind::InsufficientObservation);
    assert!(finding.qualifiers.iter().any(|q| q.kind == "cgroup_psi_unavailable_or_invalid"));
}

#[test]
fn scoped_some_beyond_the_window_is_rejected() {
    let o = observation(
        vec![group("/demo.service", None, None, Some(2_000_000), missing(), SECOND_NS)],
        SECOND_NS,
    );
    let finding = finding_for(&o, CgroupResourceKind::Cpu);
    assert_eq!(finding.kind, CgroupAssessmentKind::InsufficientObservation);
    assert!(finding.qualifiers.iter().any(|q| q.kind == "cgroup_some_exceeds_window"));
}

#[test]
fn cgroup_memory_stat_labels_reclaim_or_swap_without_creating_pressure() {
    let elapsed = 10 * SECOND_NS;
    let mut reclaim = group("/workload.service", Some(800_000), None, None, events(None, None), elapsed);
    reclaim.memory_stat = stat(Some(12), Some(8), Some(0), Some(0));
    let finding = finding_for(&observation(vec![reclaim], elapsed), CgroupResourceKind::Memory);
    assert_eq!(finding.kind, CgroupAssessmentKind::Pressure);
    assert_eq!(finding.mechanism, Some(CgroupMechanism::Reclaim));
    assert_eq!(finding.mechanism_confidence, Some(Confidence::Low));
    assert_eq!(finding.resource_confidence, Confidence::High);
    assert!(finding
        .qualifiers
        .iter()
        .any(|q| q.kind == "cgroup_memory_mechanism_same_window_correlation"));

    let mut swap = group("/workload.service", Some(800_000), None, None, events(None, None), elapsed);
    swap.memory_stat = stat(Some(12), Some(8), Some(5), Some(2));
    let finding = finding_for(&observation(vec![swap], elapsed), CgroupResourceKind::Memory);
    assert_eq!(finding.mechanism, Some(CgroupMechanism::Swap));

    let unlabeled = group("/workload.service", Some(800_000), None, None, events(Some(3), Some(0)), elapsed);
    let finding = finding_for(&observation(vec![unlabeled], elapsed), CgroupResourceKind::Memory);
    assert_eq!(finding.kind, CgroupAssessmentKind::Pressure);
    assert_eq!(finding.mechanism, None);

    let mut scan_only = group("/workload.service", Some(800_000), None, None, events(None, None), elapsed);
    scan_only.memory_stat = stat(Some(12), Some(0), Some(0), Some(0));
    let finding = finding_for(&observation(vec![scan_only], elapsed), CgroupResourceKind::Memory);
    assert_eq!(finding.kind, CgroupAssessmentKind::Pressure);
    assert_eq!(finding.mechanism, None);

    let mut healthy = group("/workload.service", Some(5_000), None, None, events(None, None), elapsed);
    healthy.memory_stat = stat(Some(12), Some(8), Some(5), Some(2));
    assert!(
        findings_of(&observation(vec![healthy], elapsed))
            .iter()
            .all(|f| f.kind != CgroupAssessmentKind::Pressure),
        "page counters must not create a pressure verdict"
    );
}

fn thrash_group(some_us: u64, full_us: Option<u64>, window_ns: u64, pages: [u64; 4]) -> CgroupInterval {
    let mut g = group("/workload.service", Some(some_us), None, None, events(None, None), window_ns);
    g.memory_stat = stat(Some(pages[0]), Some(pages[1]), Some(pages[2]), Some(pages[3]));
    if let Some(p) = g.memory_pressure.value.as_mut() {
        p.full_total_usec = full_us;
    }
    g
}

#[test]
fn cgroup_memory_stat_labels_possible_thrashing_without_creating_pressure() {
    let five = 5 * SECOND_NS;
    let material = 5_120;
    let thrash = observation(vec![thrash_group(1_000_000, Some(100_000), five, [material; 4])], five);
    let finding = finding_for(&thrash, CgroupResourceKind::Memory);
    assert_eq!(finding.kind, CgroupAssessmentKind::Pressure);
    assert_eq!(finding.severity, Severity::High);
    assert_eq!(finding.mechanism, Some(CgroupMechanism::PossibleThrashing));
    assert_eq!(finding.mechanism_confidence, Some(Confidence::Medium));
    assert!(finding
        .qualifiers
        .iter()
        .any(|q| q.kind == "cgroup_possible_thrashing_heuristic"));

    let slower = observation(
        vec![thrash_group(1_000_000, Some(100_000), five, [material; 4])],
        10 * SECOND_NS,
    );
    assert_eq!(
        finding_for(&slower, CgroupResourceKind::Memory).mechanism,
        Some(CgroupMechanism::Swap),
        "page rates use the observation interval"
    );

    let short = observation(
        vec![thrash_group(400_000, Some(40_000), 2 * SECOND_NS, [material; 4])],
        2 * SECOND_NS,
    );
    assert_eq!(finding_for(&short, CgroupResourceKind::Memory).mechanism, Some(CgroupMechanism::Swap));

    let moderate = observation(
        vec![thrash_group(800_000, Some(200_000), 10 * SECOND_NS, [10_240; 4])],
        10 * SECOND_NS,
    );
    assert_eq!(finding_for(&moderate, CgroupResourceKind::Memory).mechanism, Some(CgroupMechanism::Swap));

    let missing_full = observation(vec![thrash_group(1_000_000, None, five, [material; 4])], five);
    assert_eq!(
        finding_for(&missing_full, CgroupResourceKind::Memory).mechanism,
        Some(CgroupMechanism::Swap)
    );

    let mut invalid_full = observation(vec![thrash_group(1_000_000, Some(100_000), five, [material; 4])], five);
    invalid_full.groups[0].memory_pressure.value.as_mut().unwrap().state =
        CgroupPsiIntervalState::FullExceedsSome;
    let finding = finding_for(&invalid_full, CgroupResourceKind::Memory);
    assert_eq!(finding.mechanism, Some(CgroupMechanism::Swap));
    assert!(finding.qualifiers.iter().any(|q| q.kind == "cgroup_full_partial"));

    let scan_only = observation(
        vec![thrash_group(1_000_000, Some(100_000), five, [material, 0, material, material])],
        five,
    );
    assert_eq!(finding_for(&scan_only, CgroupResourceKind::Memory).mechanism, Some(CgroupMechanism::Swap));

    let healthy = observation(vec![thrash_group(5_000, Some(100_000), five, [material; 4])], five);
    assert!(findings_of(&healthy).iter().all(|f| f.kind != CgroupAssessmentKind::Pressure));
}

#[test]
fn cgroup_cpu_stat_labels_quota_throttle_without_creating_pressure() {
    let elapsed = 10 * SECOND_NS;
    let mut throttled = group("/workload.service", None, None, Some(800_000), events(None, None), elapsed);
    throttled.cpu = cpu(Some(250_000));
    let finding = finding_for(&observation(vec![throttled], elapsed), CgroupResourceKind::Cpu);
    assert_eq!(finding.kind, CgroupAssessmentKind::Pressure);
    assert_eq!(finding.mechanism, Some(CgroupMechanism::CpuQuotaThrottle));
    assert_eq!(finding.mechanism_confidence, Some(Confidence::Low));
    assert!(finding
        .qualifiers
        .iter()
        .any(|q| q.kind == "cgroup_cpu_quota_throttle_same_window_correlation"));

    let mut count_only = group("/workload.service", None, None, Some(800_000), events(None, None), elapsed);
    count_only.cpu = cpu(Some(0));
    let finding = finding_for(&observation(vec![count_only], elapsed), CgroupResourceKind::Cpu);
    assert_eq!(finding.kind, CgroupAssessmentKind::Pressure);
    assert_eq!(finding.mechanism, None);

    let mut healthy = group("/workload.service", None, None, Some(5_000), events(None, None), elapsed);
    healthy.cpu = cpu(Some(250_000));
    assert!(findings_of(&observation(vec![healthy], elapsed))
        .iter()
        .all(|f| f.kind != CgroupAssessmentKind::Pressure));
}

fn member(pid: u32, path: &str) -> CgroupProcessMember {
    CgroupProcessMember {
        key: ProcessKey {
            pid,
            start_time_ticks: 1,
        },
        name: format!("p{pid}"),
        cgroup_path: path.to_string(),
    }
}

#[test]
fn scoped_members_are_direct_or_descendant_and_bounded() {
    let members = vec![
        member(1, "/other"),
        member(2, "/workload"),
        member(3, "/workload/child"),
        member(4, "/workload-other"),
        member(5, "/workload"),
        member(6, "/workload/a"),
        member(7, "/workload/b"),
        member(8, "/workload/c"),
    ];
    let listed = members_in_scope(&members, "/workload");
    let pids: Vec<u32> = listed.iter().map(|m| m.key.pid).collect();
    assert_eq!(pids, vec![2, 3, 5, 6, 7]);
    assert_eq!(listed[0].label, "stable_direct_cgroup_member");
    assert_eq!(listed[1].label, "stable_descendant_cgroup_member");
    assert_eq!(listed[1].name, "p3");

    let root = members_in_scope(&members, "/");
    assert_eq!(root.len(), 5);
    assert_eq!(root[0].key.pid, 1);
}

#[test]
fn scoped_membership_and_collection_limits_are_qualified() {
    let mut o = observation(
        vec![group("/w", None, None, Some(100_000), missing(), SECOND_NS)],
        SECOND_NS,
    );
    o.issues.members_moved = 1;
    o.issues.process_limit_reached = true;
    let finding = finding_for(&o, CgroupResourceKind::Cpu);
    assert!(finding.qualifiers.iter().any(|q| q.kind == "cgroup_membership_changed"));
    assert!(finding.qualifiers.iter().any(|q| q.kind == "cgroup_collection_partial"));
}

fn chains_of(o: &CgroupObservation) -> Vec<stallhunt::cgroup_analysis::EvidenceChain> {
    analyze_cgroup_memory_io_chains(&select_cgroup_findings(findings_of(o)))
}

#[test]
fn same_cgroup_memory_and_io_pressure_form_a_non_causal_chain() {
    let elapsed = 10 * SECOND_NS;
    let o = observation(
        vec![group("/workload.service", Some(800_000), Some(800_000), None, events(Some(3), Some(0)), elapsed)],
        elapsed,
    );
    let chains = chains_of(&o);
    assert_eq!(chains.len(), 1);
    assert_eq!(chains[0].kind, ChainKind::CgroupMemoryConsistentWithIo);
    assert_eq!(chains[0].relation, ChainRelation::ConsistentWith);
    assert_eq!(chains[0].confidence, Confidence::Low);
    assert_ne!(chains[0].confidence, Confidence::High);
    assert!(matches!(
        &chains[0].from,
        ChainEndpoint::CgroupMemory { path, kind: CgroupAssessmentKind::Pressure } if path == "/workload.service"
    ));
    assert!(matches!(
        &chains[0].to,
        ChainEndpoint::CgroupIo { path, kind: CgroupAssessmentKind::Pressure } if path == "/workload.service"
    ));
    assert_eq!(chains[0].evidence.path.as_deref(), Some("/workload.service"));
    assert_eq!(chains[0].evidence.high_events, Some(3));
    assert_eq!(chains[0].evidence.memory_psi_some_total_us, 800_000);
    assert_eq!(chains[0].evidence.io_psi_window_ns, elapsed);
    assert!(chains[0].qualifiers.iter().any(|q| q.kind == "chain_not_causal"));
    assert!(chains[0].qualifiers.iter().any(|q| q.kind == "same_cgroup_scope_only"));
    assert!(!chains[0].summary.to_lowercase().contains("cause"));
    assert_eq!(
        chains[0].summary,
        "Scoped memory pressure in /workload.service is consistent with scoped I/O pressure in the same cgroup."
    );

    let max_only = observation(
        vec![group("/workload.service", Some(800_000), Some(800_000), None, events(Some(0), Some(2)), elapsed)],
        elapsed,
    );
    let chains = chains_of(&max_only);
    assert_eq!(chains.len(), 1);
    assert_eq!(chains[0].evidence.max_events, Some(2));
    assert_eq!(chains[0].evidence.high_events, None);

    let nested = observation(
        vec![
            group("/parent.scope", Some(1_500_000), Some(1_500_000), None, events(Some(1), Some(0)), elapsed),
            group("/parent.scope/child.service", Some(800_000), Some(800_000), None, events(Some(2), Some(0)), elapsed),
        ],
        elapsed,
    );
    let chains = chains_of(&nested);
    assert_eq!(chains.len(), 2);
    assert_eq!(chains[0].evidence.path.as_deref(), Some("/parent.scope"));
    assert_eq!(chains[1].evidence.path.as_deref(), Some("/parent.scope/child.service"));
    assert!(chains.iter().all(|chain| match (&chain.from, &chain.to) {
        (ChainEndpoint::CgroupMemory { path: from, .. }, ChainEndpoint::CgroupIo { path: to, .. }) => from == to,
        _ => false,
    }));
}

#[test]
fn evidence_chain_truncation_keeps_ranked_prefix_and_deterministic_order() {
    let elapsed = 10 * SECOND_NS;
    let mut groups = Vec::new();
    for index in 0..(MAX_CGROUP_EVIDENCE_CHAINS + 2) {
        let some_us = if index < MAX_CGROUP_EVIDENCE_CHAINS { 500_000 } else { 150_000 };
        groups.push(group(
            &format!("/slice/group-{index:02}.service"),
            Some(some_us),
            Some(some_us),
            None,
            events(Some(1), Some(0)),
            elapsed,
        ));
    }
    let o = observation(groups, elapsed);
    let findings = select_cgroup_findings(findings_of(&o));
    assert_eq!(
        findings
            .iter()
            .filter(|finding| finding.kind == CgroupAssessmentKind::Pressure)
            .count(),
        2 * (MAX_CGROUP_EVIDENCE_CHAINS + 2),
        "every fixture group must produce eligible memory and I/O pressure findings"
    );
    let chains = analyze_cgroup_memory_io_chains(&findings);
    assert_eq!(chains.len(), MAX_CGROUP_EVIDENCE_CHAINS);
    for (position, chain) in chains.iter().enumerate() {
        assert_eq!(
            chain.evidence.path.as_deref(),
            Some(format!("/slice/group-{position:02}.service").as_str()),
            "chain at position {position} must follow the documented rank-then-path order"
        );
    }
}

#[test]
fn chains_rank_the_same_for_any_finding_order() {
    let elapsed = 10 * SECOND_NS;
    let mut groups = Vec::new();
    for index in (0..(MAX_CGROUP_EVIDENCE_CHAINS + 2)).rev() {
        let some_us = if index < MAX_CGROUP_EVIDENCE_CHAINS { 500_000 } else { 150_000 };
        groups.push(group(
            &format!("/slice/group-{index:02}.service"),
            Some(some_us),
            Some(some_us),
            None,
            events(Some(1), Some(0)),
            elapsed,
        ));
    }
    let o = observation(groups, elapsed);
    let chains = chains_of(&o);
    assert_eq!(chains.len(), MAX_CGROUP_EVIDENCE_CHAINS);
    for (position, chain) in chains.iter().enumerate() {
        assert_eq!(
            chain.evidence.path.as_deref(),
            Some(format!("/slice/group-{position:02}.service").as_str())
        );
    }
}

#[test]
fn cgroup_memory_stat_direct_reclaim_or_swap_in_forms_a_chain() {
    let elapsed = 10 * SECOND_NS;
    let mut reclaim = group("/workload.service", Some(800_000), Some(800_000), None, events(None, None), elapsed);
    reclaim.memory_stat = stat(Some(12), Some(8), Some(0), Some(0));
    let chains = chains_of(&observation(vec![reclaim], elapsed));
    assert_eq!(chains.len(), 1);
    assert_eq!(chains[0].kind, ChainKind::CgroupMemoryConsistentWithIo);
    assert_eq!(chains[0].confidence, Confidence::Low);
    assert_eq!(chains[0].evidence.scan_direct_pages, Some(12));
    assert_eq!(chains[0].evidence.steal_direct_pages, Some(8));
    assert_eq!(chains[0].evidence.high_events, None);

    let mut swap = group("/workload.service", Some(800_000), Some(800_000), None, events(Some(0), Some(0)), elapsed);
    swap.memory_stat = stat(Some(0), Some(0), Some(5), Some(2));
    let chains = chains_of(&observation(vec![swap], elapsed));
    assert_eq!(chains.len(), 1);
    assert_eq!(chains[0].evidence.swap_in_pages, Some(5));
    assert_eq!(chains[0].evidence.swap_out_pages, Some(2));
}

#[test]
fn cgroup_coincident_or_cross_scope_pressure_does_not_form_a_chain() {
    let elapsed = 10 * SECOND_NS;
    let coincident = group("/workload.service", Some(800_000), Some(800_000), None, events(Some(0), Some(0)), elapsed);
    assert!(chains_of(&observation(vec![coincident], elapsed)).is_empty());

    let mut scan_without_steal =
        group("/workload.service", Some(800_000), Some(800_000), None, events(Some(0), Some(0)), elapsed);
    scan_without_steal.memory_stat = stat(Some(12), Some(0), Some(0), Some(0));
    assert!(chains_of(&observation(vec![scan_without_steal], elapsed)).is_empty());

    let io_healthy = group("/workload.service", Some(800_000), Some(5_000), None, events(Some(3), Some(0)), elapsed);
    assert!(chains_of(&observation(vec![io_healthy], elapsed)).is_empty());

    let cpu_and_io = group("/workload.service", None, Some(800_000), Some(800_000), events(Some(3), Some(0)), elapsed);
    assert!(chains_of(&observation(vec![cpu_and_io], elapsed)).is_empty());

    let cross = observation(
        vec![
            group("/parent.scope", Some(800_000), None, None, events(Some(3), Some(0)), elapsed),
            group("/parent.scope/child.service", None, Some(800_000), None, events(None, None), elapsed),
        ],
        elapsed,
    );
    assert!(chains_of(&cross).is_empty());

    let o = observation(
        vec![group("/a", Some(800_000), Some(800_000), None, events(Some(3), Some(0)), elapsed)],
        elapsed,
    );
    let findings = findings_of(&o);
    let memory = findings.iter().find(|f| f.resource == CgroupResourceKind::Memory).unwrap();
    let other = observation(
        vec![group("/b", Some(800_000), Some(800_000), None, events(Some(3), Some(0)), elapsed)],
        elapsed,
    );
    let other_findings = findings_of(&other);
    let io = other_findings.iter().find(|f| f.resource == CgroupResourceKind::Io).unwrap();
    assert!(cgroup_memory_io_chain(memory, io).is_none());
}

#[test]
fn reported_findings_are_pressure_first_or_one_summary() {
    let elapsed = 10 * SECOND_NS;
    let pressured = observation(
        vec![group("/w", Some(800_000), Some(5_000), None, missing(), elapsed)],
        elapsed,
    );
    let reported = select_cgroup_findings(findings_of(&pressured));
    assert_eq!(reported.len(), 1);
    assert_eq!(reported[0].resource, CgroupResourceKind::Memory);
    assert_eq!(reported[0].kind, CgroupAssessmentKind::Pressure);

    let calm = observation(vec![group("/w", Some(5_000), Some(5_000), None, missing(), elapsed)], elapsed);
    let all = findings_of(&calm);
    let first_resource = all[0].resource;
    let reported = select_cgroup_findings(all);
    assert_eq!(reported.len(), 1);
    assert_eq!(reported[0].resource, first_resource);
    assert_ne!(reported[0].kind, CgroupAssessmentKind::Pressure);

    assert!(select_cgroup_findings(Vec::new()).is_empty());

    let many: Vec<CgroupInterval> = (0..30)
        .map(|i| group(&format!("/g{i:02}"), Some(800_000), Some(800_000), Some(800_000), missing(), elapsed))
        .collect();
    let reported = select_cgroup_findings(findings_of(&observation(many, elapsed)));
    assert_eq!(reported.len(), 64);
}
