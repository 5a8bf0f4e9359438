use stallhunt::analysis::{
    candidate_confidence, cgroup_contains_path, cgroup_mechanism_label,
    cgroup_membership_complete, cgroup_resource_rank, confidence_rank, in_scope,
    io_device_candidates, io_process_suspects, no_io_victim_attribution_qualifier,
    no_memory_attribution_qualifier, page_rate_at_least, severity_rank, CgroupAssessmentKind,
    CgroupMechanism, CgroupResourceKind, Confidence, Severity, MAX_IO_CANDIDATES,
};
use stallhunt::cgroup::{
    CgroupCollectionIssues, CgroupCpuInterval, CgroupFileState, CgroupInterval,
    CgroupMemoryStatRaw, CgroupObservation, CgroupResource,
};
use stallhunt::io::{
    BlockDeviceKey, DiskstatsInterval, DiskstatsIntervalIssues, DiskstatsObservation,
    IoCapability, ProcessIoCollectionIssues, ProcessIoInterval, ProcessIoObservation,
};
use stallhunt::process::ProcessKey;

fn group(memory_stat: Option<CgroupMemoryStatRaw>, throttled: Option<u64>) -> CgroupInterval {
    CgroupInterval {
        path: "/x".into(),
        cpu: CgroupResource::available(CgroupCpuInterval {
            usage_usec: Some(1),
            user_usec: None,
            system_usec: None,
            nr_periods: None,
            nr_throttled: None,
            throttled_usec: throttled,
        }),
        memory_current_end: CgroupResource::failed(CgroupFileState::Missing),
        memory_events: CgroupResource::failed(CgroupFileState::Missing),
        memory_stat: match memory_stat {
            Some(stat) => CgroupResource::available(stat),
            None => CgroupResource::failed(CgroupFileState::Missing),
        },
        io: CgroupResource::failed(CgroupFileState::Missing),
        cpu_pressure: CgroupResource::failed(CgroupFileState::Missing),
        memory_pressure: CgroupResource::failed(CgroupFileState::Missing),
        io_pressure: CgroupResource::failed(CgroupFileState::Missing),
        systemd_unit_candidate: None,
    }
}

fn device(minor: u32, io_ticks: Option<u64>, sectors: Option<u64>, in_flight: u64) -> DiskstatsInterval {
    DiskstatsInterval {
        key: BlockDeviceKey { major: 8, minor },
        name: format!("d{minor}"),
        reads_completed: Some(0),
        sectors_read_512: sectors,
        writes_completed: Some(0),
        sectors_written_512: Some(0),
        io_ticks_ms: io_ticks,
        weighted_io_ticks_ms: Some(0),
        end_in_flight: in_flight,
    }
}

fn disk_observation(devices: Vec<DiskstatsInterval>, capability: IoCapability) -> DiskstatsObservation {
    DiskstatsObservation {
        elapsed_ns: 1_000_000_000,
        capability,
        devices,
        issues: DiskstatsIntervalIssues {
            start_error: None,
            end_error: None,
            appeared: vec![],
            exited: vec![],
            identity_changed: vec![],
            regressed: vec![],
            limit_reached: false,
        },
    }
}

fn process(pid: u32, read: Option<u64>, write: Option<u64>) -> ProcessIoInterval {
    ProcessIoInterval {
        key: ProcessKey {
            pid,
            start_time_ticks: 1,
        },
        name: format!("p{pid}"),
        read_bytes: read,
        write_bytes: write,
        cancelled_write_bytes: None,
        rchar: None,
        wchar: None,
    }
}

#[test]
fn ranks_follow_strength() {
    assert_eq!(severity_rank(Severity::Negligible), 0);
    assert_eq!(severity_rank(Severity::Severe), 4);
    assert_eq!(confidence_rank(Confidence::Low), 0);
    assert_eq!(cgroup_resource_rank(CgroupResourceKind::Io), 2);
}

#[test]
fn page_rates_compare_exactly() {
    assert!(page_rate_at_least(Some(1_024), 1_000_000_000, 1_024));
    assert!(!page_rate_at_least(Some(1_023), 1_000_000_000, 1_024));
    assert!(page_rate_at_least(Some(2_048), 2_000_000_000, 1_024));
    assert!(!page_rate_at_least(None, 1_000_000_000, 1));
    assert!(!page_rate_at_least(Some(5), 0, 0));
}

#[test]
fn scope_paths_and_membership() {
    assert!(cgroup_contains_path("/", "/a"));
    assert!(cgroup_contains_path("/a", "/a"));
    assert!(cgroup_contains_path("/a", "/a/b"));
    assert!(!cgroup_contains_path("/a", "/ab"));
    let mut observation = CgroupObservation {
        elapsed_ns: 1,
        groups: vec![],
        members: vec![],
        issues: CgroupCollectionIssues::default(),
    };
    assert!(cgroup_membership_complete(&observation));
    observation.issues.members_moved = 1;
    assert!(!cgroup_membership_complete(&observation));
    let key = ProcessKey {
        pid: 3,
        start_time_ticks: 9,
    };
    assert!(in_scope(key, None));
    assert!(in_scope(key, Some(&vec![key])));
    assert!(!in_scope(key, Some(&vec![])));
}

#[test]
fn candidate_confidence_is_capped_by_evidence() {
    assert_eq!(candidate_confidence(Confidence::High, true, true), Confidence::Low);
    assert_eq!(candidate_confidence(Confidence::High, true, false), Confidence::High);
    assert_eq!(candidate_confidence(Confidence::High, false, false), Confidence::Medium);
    assert_eq!(candidate_confidence(Confidence::Low, false, false), Confidence::Low);
}

#[test]
fn mechanisms_need_pressure_and_positive_counters() {
    let swap = CgroupMemoryStatRaw {
        pgscan_direct: Some(1),
        pgsteal_direct: Some(1),
        pswpin: Some(2),
        pswpout: None,
    };
    let reclaim = CgroupMemoryStatRaw {
        pswpin: Some(0),
        ..swap
    };
    assert_eq!(
        cgroup_mechanism_label(CgroupResourceKind::Memory, CgroupAssessmentKind::Pressure, &group(Some(swap), None)),
        (Some(CgroupMechanism::Swap), Some(Confidence::Low))
    );
    assert_eq!(
        cgroup_mechanism_label(CgroupResourceKind::Memory, CgroupAssessmentKind::Pressure, &group(Some(reclaim), None)),
        (Some(CgroupMechanism::Reclaim), Some(Confidence::Low))
    );
    assert_eq!(
        cgroup_mechanism_label(CgroupResourceKind::Memory, CgroupAssessmentKind::NoMeaningfulPressure, &group(Some(swap), None)),
        (None, None)
    );
    assert_eq!(
        cgroup_mechanism_label(CgroupResourceKind::Cpu, CgroupAssessmentKind::Pressure, &group(None, Some(3))),
        (Some(CgroupMechanism::CpuQuotaThrottle), Some(Confidence::Low))
    );
    assert_eq!(
        cgroup_mechanism_label(CgroupResourceKind::Io, CgroupAssessmentKind::Pressure, &group(Some(swap), Some(3))),
        (None, None)
    );
}

#[test]
fn device_candidates_are_active_ranked_and_bounded() {
    let mut qualifiers = vec![];
    assert!(io_device_candidates(None, &mut qualifiers).is_empty());
    assert!(qualifiers.is_empty());
    let mut devices: Vec<DiskstatsInterval> = (0..7).map(|minor| device(minor, Some(minor as u64), None, 0)).collect();
    devices.push(device(20, None, None, 0));
    let observation = disk_observation(devices, IoCapability::Available);
    let candidates = io_device_candidates(Some(&observation), &mut qualifiers);
    assert_eq!(candidates.len(), MAX_IO_CANDIDATES);
    let minors: Vec<u32> = candidates.iter().map(|c| c.key.minor).collect();
    assert_eq!(minors, vec![6, 5, 4, 3, 2]);
    assert_eq!(candidates[0].confidence, Confidence::Medium);
    assert_eq!(candidates[0].label, "same_window_block_device_activity");
    assert_eq!(qualifiers.len(), 1);
    assert_eq!(qualifiers[0].kind, "device_activity_same_window_correlation");
}

#[test]
fn device_ties_fall_back_to_flight_and_identity() {
    let mut qualifiers = vec![];
    let observation = disk_observation(
        vec![device(2, Some(1), Some(5), 0), device(1, Some(1), Some(5), 0), device(3, Some(1), Some(5), 4)],
        IoCapability::Partial,
    );
    let candidates = io_device_candidates(Some(&observation), &mut qualifiers);
    let minors: Vec<u32> = candidates.iter().map(|c| c.key.minor).collect();
    assert_eq!(minors, vec![3, 1, 2]);
    assert_eq!(candidates[0].confidence, Confidence::Low);
}

#[test]
fn process_suspects_need_accounted_bytes() {
    let mut qualifiers = vec![];
    let observation = ProcessIoObservation {
        elapsed_ns: 1_000_000_000,
        capability: IoCapability::Available,
        processes: vec![process(1, Some(0), Some(0)), process(2, Some(10), None), process(3, None, Some(20)), process(4, Some(5), Some(5))],
        issues: ProcessIoCollectionIssues::default(),
        regressed: vec![],
    };
    let suspects = io_process_suspects(Some(&observation), &mut qualifiers);
    let pids: Vec<u32> = suspects.iter().map(|s| s.key.pid).collect();
    assert_eq!(pids, vec![3, 2, 4]);
    assert_eq!(suspects[0].known_accounted_bytes, 20);
    assert_eq!(qualifiers.len(), 1);
    assert_eq!(qualifiers[0].kind, "process_io_same_window_correlation");
}

#[test]
fn attribution_qualifiers_are_fixed() {
    assert_eq!(no_memory_attribution_qualifier().kind, "no_process_attribution");
    assert_eq!(no_io_victim_attribution_qualifier().kind, "no_affected_workload_attribution");
}
