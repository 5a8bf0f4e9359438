use stallhunt::io::{diskstats_probe_capability, DiskstatsSnapshot};
use stallhunt::io::{
    classify_diskstats_error, count_u32, diskstats_interval_from_snapshots, insert_lowest_device,
    merge_process_issues, parse_diskstats, parse_process_io, process_io_capability,
    process_io_interval_from_snapshots, BlockDeviceKey, DiskstatsCollectionIssues,
    DiskstatsCounter, DiskstatsCounterRegression, DiskstatsError, DiskstatsRaw, IoCapability,
    ProcessIoCollectionIssues, ProcessIoCounter, ProcessIoRaw, ProcessIoSample,
    ProcessIoSnapshot, MAX_DEVICES,
};
use stallhunt::process::ProcessKey;
use stallhunt::read_error::ReadErrorKind;

const DISKSTATS: &str = "   8       0 sda 120 3 2400 50 80 2 1600 40 0 60 90\n 259       0 nvme0n1 4 0 30 1 5 0 40 2 7 10 20 0 0 0 0\n";
const PROCESS_IO: &str = "rchar: 100\nwchar: 200\nsyscr: 5\nsyscw: 6\nread_bytes: 30\nwrite_bytes: 40\ncancelled_write_bytes: 1\n";
const SECOND_NS: u64 = 1_000_000_000;

fn key(pid: u32, start_time_ticks: u64) -> ProcessKey {
    ProcessKey {
        pid,
        start_time_ticks,
    }
}

fn process_snapshot(entries: Vec<(ProcessKey, ProcessIoRaw)>) -> ProcessIoSnapshot {
    ProcessIoSnapshot {
        processes: entries
            .into_iter()
            .map(|(key, counters)| {
                (
                    key,
                    ProcessIoSample {
                        name: format!("process-{}", key.pid),
                        counters,
                    },
                )
            })
            .collect(),
        issues: ProcessIoCollectionIssues::default(),
    }
}

fn device_mut(devices: &mut [DiskstatsRaw], key: BlockDeviceKey) -> &mut DiskstatsRaw {
    devices.iter_mut().find(|device| device.key == key).unwrap()
}

fn blank_device(key: BlockDeviceKey, name: &str) -> DiskstatsRaw {
    DiskstatsRaw {
        key,
        name: name.into(),
        reads_completed: 0,
        sectors_read_512: 0,
        writes_completed: 0,
        sectors_written_512: 0,
        io_ticks_ms: 0,
        weighted_io_ticks_ms: 0,
        in_flight: 0,
    }
}

#[test]
fn parses_strict_diskstats_fixture_and_keeps_sector_units_raw() {
    let parsed = parse_diskstats(DISKSTATS).unwrap();
    let disk = parsed
        .devices
        .iter()
        .find(|device| {
            device.key
                == BlockDeviceKey {
                    major: 259,
                    minor: 0,
                }
        })
        .unwrap();
    assert_eq!(disk.name, "nvme0n1");
    assert_eq!(disk.sectors_read_512, 30);
    assert_eq!(disk.in_flight, 7);
    for invalid in [
        "8 0 sda 1 2\n",
        "8 x sda 1 0 2 3 0 4 5 6 7 8 9\n",
        "8 0 sda 1 0 2 3 0 4 5 6 7 8 9\n8 0 dup 1 0 2 3 0 4 5 6 7 8 9\n",
    ] {
        assert_eq!(parse_diskstats(invalid), Err(DiskstatsError::Malformed));
    }
}

#[test]
fn diskstats_selector_keeps_lowest_device_keys_under_the_cap() {
    let mut devices = Vec::new();
    let mut issues = DiskstatsCollectionIssues::default();
    for minor in (0..=MAX_DEVICES as u32).rev() {
        let key = BlockDeviceKey { major: 8, minor };
        insert_lowest_device(&mut devices, blank_device(key, &format!("d{minor}")), &mut issues);
    }
    assert_eq!(devices.len(), MAX_DEVICES);
    assert_eq!(devices.first().unwrap().key.minor, 0);
    assert_eq!(devices.last().unwrap().key.minor, MAX_DEVICES as u32 - 1);
    assert!(issues.limit_reached);
}

#[test]
fn disk_interval_marks_lifecycle_and_regression_without_inventing_deltas() {
    let start = parse_diskstats(DISKSTATS).unwrap();
    let mut end = start.clone();
    let key = BlockDeviceKey {
        major: 259,
        minor: 0,
    };
    device_mut(&mut end.devices, key).reads_completed += 2;
    device_mut(&mut end.devices, key).sectors_read_512 += 8;
    device_mut(&mut end.devices, key).io_ticks_ms -= 1;
    end.devices.insert(
        1,
        blank_device(
            BlockDeviceKey {
                major: 8,
                minor: 16,
            },
            "sdb",
        ),
    );
    let observed = diskstats_interval_from_snapshots(Ok(start), Ok(end), SECOND_NS).unwrap();
    assert_eq!(observed.devices.len(), 2);
    assert_eq!(observed.devices[0].key, BlockDeviceKey { major: 8, minor: 0 });
    let nvme = observed
        .devices
        .iter()
        .find(|device| device.key == key)
        .unwrap();
    assert_eq!(nvme.reads_completed, Some(2));
    assert_eq!(nvme.io_ticks_ms, None);
    assert_eq!(
        observed.issues.regressed,
        vec![DiskstatsCounterRegression {
            key,
            counter: DiskstatsCounter::IoTicksMs,
        }]
    );
    assert_eq!(
        observed.issues.appeared,
        vec![BlockDeviceKey {
            major: 8,
            minor: 16
        }]
    );
    assert_eq!(observed.capability, IoCapability::Partial);
}

#[test]
fn disk_name_change_does_not_merge_reused_major_minor_identity() {
    let start = parse_diskstats(DISKSTATS).unwrap();
    let mut end = start.clone();
    let key = BlockDeviceKey { major: 8, minor: 0 };
    device_mut(&mut end.devices, key).name = "replacement".into();
    let observed = diskstats_interval_from_snapshots(Ok(start), Ok(end), SECOND_NS).unwrap();
    assert!(!observed.devices.iter().any(|device| device.key == key));
    assert_eq!(observed.issues.identity_changed, vec![key]);
    assert_eq!(observed.capability, IoCapability::Partial);
}

#[test]
fn diskstats_interval_retains_endpoint_failure_reasons() {
    let snapshot = parse_diskstats(DISKSTATS).unwrap();
    let partial = diskstats_interval_from_snapshots(
        Ok(snapshot.clone()),
        Err(DiskstatsError::PermissionDenied),
        SECOND_NS,
    )
    .unwrap();
    assert_eq!(partial.capability, IoCapability::Partial);
    assert_eq!(
        partial.issues.end_error,
        Some(DiskstatsError::PermissionDenied)
    );

    let unsupported = diskstats_interval_from_snapshots(
        Err(DiskstatsError::Unsupported),
        Err(DiskstatsError::Unsupported),
        SECOND_NS,
    )
    .unwrap();
    assert_eq!(unsupported.capability, IoCapability::Unsupported);
    assert_eq!(
        unsupported.issues.start_error,
        Some(DiskstatsError::Unsupported)
    );

    let mixed = diskstats_interval_from_snapshots(
        Err(DiskstatsError::Malformed),
        Err(DiskstatsError::PermissionDenied),
        SECOND_NS,
    )
    .unwrap();
    assert_eq!(mixed.capability, IoCapability::Failed);
    assert_eq!(mixed.issues.start_error, Some(DiskstatsError::Malformed));
    assert_eq!(
        mixed.issues.end_error,
        Some(DiskstatsError::PermissionDenied)
    );
}

#[test]
fn parses_process_io_and_requires_read_write_byte_fields() {
    let parsed = parse_process_io(PROCESS_IO).unwrap();
    assert_eq!(parsed.read_bytes, 30);
    assert_eq!(parsed.cancelled_write_bytes, Some(1));
    assert_eq!(parsed.rchar, Some(100));
    for invalid in [
        "read_bytes: 1\n",
        "read_bytes: 1\nwrite_bytes: x\n",
        "read_bytes: 1\nread_bytes: 2\nwrite_bytes: 3\n",
    ] {
        assert_eq!(parse_process_io(invalid), Err(DiskstatsError::Malformed));
    }
}

#[test]
fn torn_counter_width_disables_process_io_attribution() {
    let issues = ProcessIoCollectionIssues {
        counter_width_unsupported: true,
        ..Default::default()
    };
    assert_eq!(
        process_io_capability(&issues, false),
        IoCapability::Unsupported
    );
}

#[test]
fn process_interval_retains_other_fields_when_one_counter_regresses_and_detects_reuse() {
    let process = key(7, 10);
    let start = process_snapshot(vec![(
        process,
        ProcessIoRaw {
            read_bytes: 10,
            write_bytes: 20,
            cancelled_write_bytes: Some(1),
            rchar: Some(30),
            wchar: Some(40),
        },
    )]);
    let end = process_snapshot(vec![
        (
            process,
            ProcessIoRaw {
                read_bytes: 15,
                write_bytes: 19,
                cancelled_write_bytes: Some(3),
                rchar: Some(35),
                wchar: Some(45),
            },
        ),
        (
            key(8, 20),
            ProcessIoRaw {
                read_bytes: 0,
                write_bytes: 0,
                cancelled_write_bytes: None,
                rchar: None,
                wchar: None,
            },
        ),
    ]);
    let observed = process_io_interval_from_snapshots(start, end, SECOND_NS).unwrap();
    assert_eq!(observed.processes[0].read_bytes, Some(5));
    assert_eq!(observed.processes[0].write_bytes, None);
    assert_eq!(observed.processes[0].cancelled_write_bytes, Some(2));
    assert_eq!(observed.processes[0].rchar, Some(5));
    assert_eq!(observed.regressed[0].counter, ProcessIoCounter::WriteBytes);
    assert_eq!(observed.issues.appeared, 1);
    assert_eq!(observed.capability, IoCapability::Partial);
}

#[test]
fn process_intervals_are_ranked_by_read_plus_write_then_key() {
    let raw = |read, write| ProcessIoRaw {
        read_bytes: read,
        write_bytes: write,
        cancelled_write_bytes: None,
        rchar: None,
        wchar: None,
    };
    let start = process_snapshot(vec![
        (key(1, 1), raw(0, 0)),
        (key(2, 1), raw(0, 0)),
        (key(3, 1), raw(0, 0)),
    ]);
    let end = process_snapshot(vec![
        (key(1, 1), raw(5, 5)),
        (key(2, 1), raw(100, 0)),
        (key(3, 1), raw(0, 10)),
    ]);
    let observed = process_io_interval_from_snapshots(start, end, SECOND_NS).unwrap();
    let order: Vec<u32> = observed.processes.iter().map(|p| p.key.pid).collect();
    assert_eq!(order, vec![2, 1, 3]);
    assert_eq!(observed.capability, IoCapability::Available);
    assert!(observed.regressed.is_empty());
}

#[test]
fn zero_elapsed_intervals_are_rejected() {
    let snapshot = parse_diskstats(DISKSTATS).unwrap();
    assert_eq!(
        diskstats_interval_from_snapshots(Ok(snapshot.clone()), Ok(snapshot), 0),
        Err(DiskstatsError::EmptyInterval)
    );
    assert_eq!(
        process_io_interval_from_snapshots(process_snapshot(vec![]), process_snapshot(vec![]), 0),
        Err(DiskstatsError::EmptyInterval)
    );
}

#[test]
fn identical_diskstats_reads_give_zero_deltas_and_available_capability() {
    let snapshot = parse_diskstats(DISKSTATS).unwrap();
    let observed =
        diskstats_interval_from_snapshots(Ok(snapshot.clone()), Ok(snapshot), SECOND_NS).unwrap();
    assert_eq!(observed.capability, IoCapability::Available);
    assert_eq!(observed.devices.len(), 2);
    for device in &observed.devices {
        assert_eq!(device.reads_completed, Some(0));
        assert_eq!(device.weighted_io_ticks_ms, Some(0));
    }
    assert!(observed.issues.exited.is_empty());
}

#[test]
fn device_exit_is_recorded_in_start_order() {
    let start = parse_diskstats(DISKSTATS).unwrap();
    let mut end = start.clone();
    end.devices.remove(0);
    let observed = diskstats_interval_from_snapshots(Ok(start), Ok(end), SECOND_NS).unwrap();
    assert_eq!(observed.issues.exited, vec![BlockDeviceKey { major: 8, minor: 0 }]);
    assert_eq!(observed.capability, IoCapability::Partial);
}

#[test]
fn process_io_values_must_be_plain_digits() {
    assert_eq!(
        parse_process_io("read_bytes: +1\nwrite_bytes: 2\n"),
        Err(DiskstatsError::Malformed)
    );
    assert_eq!(
        parse_process_io("read_bytes 1\nwrite_bytes: 2\n"),
        Err(DiskstatsError::Malformed)
    );
    assert_eq!(
        parse_process_io("read_bytes: 18446744073709551616\nwrite_bytes: 2\n"),
        Err(DiskstatsError::Malformed)
    );
    let parsed = parse_process_io("write_bytes:   9 \nread_bytes:1\nunknown: x\n").unwrap();
    assert_eq!(parsed.read_bytes, 1);
    assert_eq!(parsed.write_bytes, 9);
    assert_eq!(parsed.wchar, None);
}

#[test]
fn capability_prefers_the_dominant_failure_when_nothing_was_read() {
    let denied = ProcessIoCollectionIssues {
        permission_denied: 2,
        ..Default::default()
    };
    assert_eq!(process_io_capability(&denied, false), IoCapability::PermissionDenied);
    assert_eq!(process_io_capability(&denied, true), IoCapability::Partial);
    let unsupported = ProcessIoCollectionIssues {
        unsupported: 1,
        ..Default::default()
    };
    assert_eq!(process_io_capability(&unsupported, false), IoCapability::Unsupported);
    let failed = ProcessIoCollectionIssues {
        enumeration_failed: true,
        ..Default::default()
    };
    assert_eq!(process_io_capability(&failed, true), IoCapability::Failed);
    assert_eq!(
        process_io_capability(&ProcessIoCollectionIssues::default(), true),
        IoCapability::Available
    );
    assert_eq!(
        process_io_capability(&ProcessIoCollectionIssues::default(), false),
        IoCapability::Failed
    );
}

#[test]
fn merged_process_issues_saturate_and_reset_interval_counts() {
    let start = ProcessIoCollectionIssues {
        disappeared: u32::MAX,
        appeared: 9,
        limit_reached: true,
        ..Default::default()
    };
    let end = ProcessIoCollectionIssues {
        disappeared: 3,
        malformed: 2,
        ..Default::default()
    };
    let merged = merge_process_issues(start, end);
    assert_eq!(merged.disappeared, u32::MAX);
    assert_eq!(merged.malformed, 2);
    assert_eq!(merged.appeared, 0);
    assert!(merged.limit_reached);
}

#[test]
fn read_errors_and_counts_map_as_documented() {
    assert_eq!(classify_diskstats_error(ReadErrorKind::NotFound), DiskstatsError::Unsupported);
    assert_eq!(
        classify_diskstats_error(ReadErrorKind::PermissionDenied),
        DiskstatsError::PermissionDenied
    );
    assert_eq!(classify_diskstats_error(ReadErrorKind::Other), DiskstatsError::Unreadable);
    assert_eq!(DiskstatsError::EmptyInterval.capability(), IoCapability::Failed);
    assert_eq!(IoCapability::PermissionDenied.as_str(), "permission_denied");
    assert_eq!(count_u32(7), 7);
    assert_eq!(count_u32(usize::MAX), u32::MAX);
}

#[test]
fn diskstats_probe_reports_partial_available_or_the_error() {
    let full = Ok(DiskstatsSnapshot { devices: vec![], issues: DiskstatsCollectionIssues { limit_reached: false } });
    assert_eq!(diskstats_probe_capability(&full), IoCapability::Available);
    let bounded = Ok(DiskstatsSnapshot { devices: vec![], issues: DiskstatsCollectionIssues { limit_reached: true } });
    assert_eq!(diskstats_probe_capability(&bounded), IoCapability::Partial);
    assert_eq!(diskstats_probe_capability(&Err(DiskstatsError::PermissionDenied)), IoCapability::PermissionDenied);
    assert_eq!(diskstats_probe_capability(&Err(DiskstatsError::Unsupported)), IoCapability::Unsupported);
    assert_eq!(diskstats_probe_capability(&Err(DiskstatsError::Malformed)), IoCapability::Failed);
}

#[test]
fn disk_regressions_come_in_identity_then_counter_order() {
    let start = parse_diskstats(DISKSTATS).unwrap();
    let mut end = start.clone();
    let sda = BlockDeviceKey { major: 8, minor: 0 };
    let nvme = BlockDeviceKey {
        major: 259,
        minor: 0,
    };
    device_mut(&mut end.devices, nvme).weighted_io_ticks_ms -= 1;
    device_mut(&mut end.devices, nvme).reads_completed -= 1;
    device_mut(&mut end.devices, sda).sectors_written_512 -= 1;
    let observed = diskstats_interval_from_snapshots(Ok(start), Ok(end), SECOND_NS).unwrap();
    assert_eq!(
        observed.issues.regressed,
        vec![
            DiskstatsCounterRegression {
                key: sda,
                counter: DiskstatsCounter::SectorsWritten512,
            },
            DiskstatsCounterRegression {
                key: nvme,
                counter: DiskstatsCounter::ReadsCompleted,
            },
            DiskstatsCounterRegression {
                key: nvme,
                counter: DiskstatsCounter::WeightedIoTicksMs,
            },
        ]
    );
    let keys: Vec<BlockDeviceKey> = observed.devices.iter().map(|d| d.key).collect();
    assert_eq!(keys, vec![sda, nvme]);
    assert_eq!(observed.capability, IoCapability::Partial);
}

#[test]
fn process_reuse_counts_end_keys_whose_pid_another_process_held() {
    let raw = |read, write| ProcessIoRaw {
        read_bytes: read,
        write_bytes: write,
        cancelled_write_bytes: None,
        rchar: None,
        wchar: None,
    };
    let start = process_snapshot(vec![(key(4, 1), raw(0, 0)), (key(9, 1), raw(1, 1))]);
    let end = process_snapshot(vec![
        (key(4, 2), raw(3, 0)),
        (key(5, 1), raw(1, 0)),
        (key(9, 1), raw(1, 1)),
    ]);
    let observed = process_io_interval_from_snapshots(start, end, SECOND_NS).unwrap();
    assert_eq!(observed.issues.reused, 1);
    assert_eq!(observed.issues.appeared, 2);
    assert_eq!(observed.issues.exited, 1);
    let keys: Vec<ProcessKey> = observed.processes.iter().map(|p| p.key).collect();
    assert_eq!(keys, vec![key(9, 1)]);
    assert_eq!(observed.processes[0].read_bytes, Some(0));
}

#[test]
fn process_io_accepts_exactly_well_formed_selected_fields() {
    assert_eq!(
        parse_process_io("read_bytes: 1\nwrite_bytes: 2\nsyscr: x\n"),
        Ok(ProcessIoRaw {
            read_bytes: 1,
            write_bytes: 2,
            cancelled_write_bytes: None,
            rchar: None,
            wchar: None,
        })
    );
    for invalid in [
        "read_bytes: 1\n",
        "read_bytes: 1\nwrite_bytes: 2\nread_bytes: 3\n",
        "read_bytes: 1\nwrite_bytes: 2\nno colon here\n",
        "read_bytes: 1\nwrite_bytes: -2\n",
        "read_bytes: 1\nwrite_bytes: 18446744073709551616\n",
        "read_bytes: 1\nwrite_bytes: 2\nrchar:\n",
    ] {
        assert_eq!(parse_process_io(invalid), Err(DiskstatsError::Malformed), "{invalid:?}");
    }
}
