use stallhunt::cgroup::{
    CgroupCollectionIssues, CgroupCpuInterval, CgroupError, CgroupFileState, CgroupInterval,
    CgroupObservation, CgroupPsiInterval, CgroupPsiIntervalState, CgroupResource,
};
use stallhunt::cgroup::CgroupProcessMember;
use stallhunt::io::{
    BlockDeviceKey, DiskstatsInterval, DiskstatsIntervalIssues, DiskstatsObservation, IoCapability,
    ProcessIoCollectionIssues, ProcessIoInterval, ProcessIoObservation,
};
use stallhunt::process::ProcessKey;
use stallhunt::record::{
    cgroup_from_recorded, cgroup_interval_from_recorded, device_placeholder, duration_us,
    from_micros, process_placeholder, record_cgroup, record_cgroup_interval, redact_diskstats_names,
    redact_process_io_names, redact_recorded_cgroup, redacted_unit, Collected, PathRedactor,
    RecordedCgroup, record_diskstats, diskstats_from_recorded, record_process_io,
    process_io_from_recorded, record_memory_context, memory_context_from_recorded,
};
use stallhunt::memory::{MemoryContextCapability, MemoryContextObservation, VmstatCounter, VmstatIntervalIssues};

fn interval(elapsed_ns: Option<u64>) -> CgroupInterval {
    CgroupInterval {
        path: "/system.slice/a.service".into(),
        cpu: CgroupResource::available(CgroupCpuInterval {
            usage_usec: Some(5),
            user_usec: None,
            system_usec: Some(1),
            nr_periods: None,
            nr_throttled: None,
            throttled_usec: None,
        }),
        memory_current_end: CgroupResource::available(7),
        memory_events: CgroupResource::failed(CgroupFileState::Missing),
        memory_stat: CgroupResource::failed(CgroupFileState::PermissionDenied),
        io: CgroupResource::available(vec![]),
        cpu_pressure: CgroupResource::available(CgroupPsiInterval {
            elapsed_ns,
            some_total_usec: Some(3),
            full_total_usec: None,
            state: CgroupPsiIntervalState::Available,
        }),
        memory_pressure: CgroupResource::failed(CgroupFileState::Missing),
        io_pressure: CgroupResource::failed(CgroupFileState::Partial),
        systemd_unit_candidate: Some("a.service".into()),
    }
}

#[test]
fn recorded_cgroup_intervals_round_trip_at_microsecond_precision() {
    let exact = interval(Some(2_000_000_000));
    assert_eq!(cgroup_interval_from_recorded(&record_cgroup_interval(&exact)), exact);
    let fine = interval(Some(1_234_567));
    let replayed = cgroup_interval_from_recorded(&record_cgroup_interval(&fine));
    assert_eq!(replayed.cpu_pressure.value.unwrap().elapsed_ns, Some(1_234_000));
    assert_eq!(replayed.path, fine.path);
}

#[test]
fn recorded_cgroup_observations_keep_errors_and_members() {
    let observation = CgroupObservation {
        elapsed_ns: 3_000_000_000,
        groups: vec![interval(None)],
        members: vec![],
        issues: CgroupCollectionIssues {
            members_moved: 2,
            ..Default::default()
        },
    };
    let recorded = record_cgroup(&Ok(observation.clone()));
    match &recorded {
        Collected::Observed { value } => assert_eq!(value.elapsed_us, 3_000_000),
        Collected::Unavailable { .. } => panic!("expected an observation"),
    }
    assert_eq!(cgroup_from_recorded(&recorded), Ok(observation));
    let failed = record_cgroup(&Err(CgroupError::PermissionDenied));
    assert_eq!(failed, Collected::Unavailable { error: CgroupError::PermissionDenied });
    assert_eq!(cgroup_from_recorded(&failed), Err(CgroupError::PermissionDenied));
}

#[test]
fn placeholders_and_units_hide_identifiers() {
    assert_eq!(process_placeholder(4812), "pid-4812");
    assert_eq!(process_placeholder(0), "pid-0");
    assert_eq!(device_placeholder(259, 0), "dev-259-0");
    assert_eq!(redacted_unit("postgres.service"), Some("redacted.service".into()));
    assert_eq!(redacted_unit("x.slice"), Some("redacted.slice".into()));
    assert_eq!(redacted_unit("x.socket"), None);
    assert_eq!(redacted_unit("plain"), None);
}

#[test]
fn path_redaction_reuses_tokens_per_component() {
    let mut redactor = PathRedactor::new();
    assert_eq!(redactor.path("/"), "/");
    assert_eq!(redactor.path("/system.slice/a.service"), "/c0/c1");
    assert_eq!(redactor.path("/system.slice/b.service"), "/c0/c2");
    assert_eq!(redactor.path("//"), "/");
    assert_eq!(redactor.path("/a.service/system.slice"), "/c1/c0");
}

#[test]
fn microsecond_conversions_truncate_and_saturate() {
    assert_eq!(duration_us(1_999), 1);
    assert_eq!(from_micros(3), 3_000);
    assert_eq!(from_micros(u64::MAX), u64::MAX);
}

#[test]
fn diskstats_and_process_names_are_replaced_and_counters_kept() {
    let mut disks = DiskstatsObservation {
        elapsed_ns: 10,
        capability: IoCapability::Available,
        devices: vec![DiskstatsInterval {
            key: BlockDeviceKey { major: 259, minor: 0 },
            name: "nvme0n1".into(),
            reads_completed: Some(4),
            sectors_read_512: Some(8),
            writes_completed: None,
            sectors_written_512: Some(2),
            io_ticks_ms: Some(1),
            weighted_io_ticks_ms: None,
            end_in_flight: 3,
        }],
        issues: DiskstatsIntervalIssues {
            start_error: None,
            end_error: None,
            appeared: vec![],
            exited: vec![],
            identity_changed: vec![],
            regressed: vec![],
            limit_reached: false,
        },
    };
    redact_diskstats_names(&mut disks);
    assert_eq!(disks.devices[0].name, "dev-259-0");
    assert_eq!(disks.devices[0].sectors_read_512, Some(8));
    assert_eq!(disks.devices[0].end_in_flight, 3);

    let mut processes = ProcessIoObservation {
        elapsed_ns: 10,
        capability: IoCapability::Partial,
        processes: vec![ProcessIoInterval {
            key: ProcessKey { pid: 42, start_time_ticks: 7 },
            name: "postgres".into(),
            read_bytes: Some(100),
            write_bytes: None,
            cancelled_write_bytes: Some(1),
            rchar: None,
            wchar: Some(5),
        }],
        issues: ProcessIoCollectionIssues::default(),
        regressed: vec![],
    };
    redact_process_io_names(&mut processes);
    assert_eq!(processes.processes[0].name, "pid-42");
    assert_eq!(processes.processes[0].read_bytes, Some(100));
    assert_eq!(processes.capability, IoCapability::Partial);
}

#[test]
fn recorded_cgroup_paths_share_tokens_between_groups_and_members() {
    let group = record_cgroup_interval(&interval(Some(1_000)));
    let mut child = record_cgroup_interval(&interval(Some(1_000)));
    child.path = "/system.slice".into();
    child.systemd_unit_candidate = Some("system.slice".into());
    let mut cgroup = RecordedCgroup {
        elapsed_us: 9,
        groups: vec![group, child],
        members: vec![CgroupProcessMember {
            key: ProcessKey { pid: 12, start_time_ticks: 1 },
            name: "worker".into(),
            cgroup_path: "/system.slice/a.service".into(),
        }],
        issues: CgroupCollectionIssues::default(),
    };
    let mut paths = PathRedactor::new();
    redact_recorded_cgroup(&mut cgroup, &mut paths);
    assert_eq!(cgroup.groups[0].path, "/c0/c1");
    assert_eq!(cgroup.groups[1].path, "/c0");
    assert_eq!(cgroup.groups[1].systemd_unit_candidate.as_deref(), Some("redacted.slice"));
    assert_eq!(cgroup.members[0].name, "pid-12");
    assert_eq!(cgroup.members[0].cgroup_path, cgroup.groups[0].path);
    assert_eq!(cgroup.elapsed_us, 9);
    assert_eq!(cgroup.groups[0].memory_current_end, CgroupResource::available(7));
}

#[test]
fn recorded_observations_replay_at_microsecond_precision() {
    let disks = DiskstatsObservation {
        elapsed_ns: 10_000_001_999,
        capability: IoCapability::Partial,
        devices: vec![DiskstatsInterval {
            key: BlockDeviceKey { major: 8, minor: 0 },
            name: "sda".into(),
            reads_completed: Some(1),
            sectors_read_512: None,
            writes_completed: Some(2),
            sectors_written_512: Some(3),
            io_ticks_ms: Some(4),
            weighted_io_ticks_ms: Some(5),
            end_in_flight: 6,
        }],
        issues: DiskstatsIntervalIssues {
            start_error: None,
            end_error: None,
            appeared: vec![BlockDeviceKey { major: 8, minor: 16 }],
            exited: vec![],
            identity_changed: vec![],
            regressed: vec![],
            limit_reached: true,
        },
    };
    let recorded = record_diskstats(&disks);
    assert_eq!(recorded.elapsed_us, 10_000_001);
    let replayed = diskstats_from_recorded(&recorded);
    assert_eq!(replayed.elapsed_ns, 10_000_001_000);
    assert_eq!(DiskstatsObservation { elapsed_ns: disks.elapsed_ns, ..replayed }, disks);

    let processes = ProcessIoObservation {
        elapsed_ns: 1_500,
        capability: IoCapability::Available,
        processes: vec![ProcessIoInterval {
            key: ProcessKey { pid: 3, start_time_ticks: 9 },
            name: "dd".into(),
            read_bytes: Some(1),
            write_bytes: Some(2),
            cancelled_write_bytes: None,
            rchar: Some(3),
            wchar: None,
        }],
        issues: ProcessIoCollectionIssues::default(),
        regressed: vec![],
    };
    let replayed = process_io_from_recorded(&record_process_io(&processes));
    assert_eq!(replayed.elapsed_ns, 1_000);
    assert_eq!(ProcessIoObservation { elapsed_ns: processes.elapsed_ns, ..replayed }, processes);

    let memory = MemoryContextObservation {
        elapsed_ns: 999,
        end_meminfo: None,
        meminfo_capability: MemoryContextCapability::Failed,
        vmstat_capability: MemoryContextCapability::Partial,
        vmstat_deltas: vec![(VmstatCounter::ScanDirect, 10)],
        vmstat_issues: VmstatIntervalIssues { missing: vec![VmstatCounter::StealDirect], regressed: vec![] },
    };
    let recorded = record_memory_context(&memory);
    assert_eq!(recorded.elapsed_us, 0);
    let replayed = memory_context_from_recorded(&recorded);
    assert_eq!(replayed.elapsed_ns, 0);
    assert_eq!(MemoryContextObservation { elapsed_ns: memory.elapsed_ns, ..replayed }, memory);
}
