use stallhunt::memory::{
    classify_read_error, interval_from_snapshots, parse_meminfo, parse_vmstat,
    snapshot_capability, vmstat_snapshot_capability, MeminfoRaw, MemoryContextCapability,
    MemoryContextError, MemoryContextSnapshot, VmstatCounter, VmstatRaw,
};
use stallhunt::read_error::ReadErrorKind;

const MEMINFO: &str = "MemTotal:       16384 kB\nMemFree:         1024 kB\nMemAvailable:    4096 kB\nBuffers:          128 kB\nCached:           512 kB\nSwapTotal:       2048 kB\nSwapFree:        1536 kB\nAnonPages:        256 kB\nSReclaimable:      64 kB\n";
const VMSTAT: &str = "nr_free_pages 12\npgfault 100\npgmajfault 5\npswpin 1\npswpout 2\npgscan_kswapd 30\npgscan_direct 4\npgsteal_kswapd 20\npgsteal_direct 3\n";

fn snapshot(
    meminfo: Result<MeminfoRaw, MemoryContextError>,
    vmstat: Result<VmstatRaw, MemoryContextError>,
) -> MemoryContextSnapshot {
    MemoryContextSnapshot { meminfo, vmstat }
}

fn delta(deltas: &[(VmstatCounter, u64)], counter: VmstatCounter) -> Option<u64> {
    deltas.iter().find(|(c, _)| *c == counter).map(|(_, v)| *v)
}

#[test]
fn parses_meminfo_fixture_with_checked_kibibytes() {
    let parsed = parse_meminfo(MEMINFO).unwrap();
    assert_eq!(parsed.mem_total_bytes, 16_384 * 1024);
    assert_eq!(parsed.mem_available_bytes, 4_096 * 1024);
    assert_eq!(parsed.cached_bytes, Some(512 * 1024));
}

#[test]
fn meminfo_rejects_missing_duplicate_bad_units_overflow_and_inconsistent_gauges() {
    for invalid in [
        "MemTotal: 1 kB\nMemAvailable: 1 kB\nSwapTotal: 1 kB\n",
        "MemTotal: 1 kB\nMemTotal: 1 kB\nMemAvailable: 1 kB\nSwapTotal: 1 kB\nSwapFree: 1 kB\n",
        "MemTotal: 1 MB\nMemAvailable: 1 kB\nSwapTotal: 1 kB\nSwapFree: 1 kB\n",
        "MemTotal: 18446744073709551615 kB\nMemAvailable: 1 kB\nSwapTotal: 1 kB\nSwapFree: 1 kB\n",
        "MemTotal: 1 kB\nMemAvailable: 2 kB\nSwapTotal: 1 kB\nSwapFree: 1 kB\n",
        "MemTotal: 1 kB\nMemAvailable: 1 kB\nSwapTotal: 1 kB\nSwapFree: 2 kB\n",
        "MemTotal: 0 kB\nMemAvailable: 0 kB\nSwapTotal: 0 kB\nSwapFree: 0 kB\n",
    ] {
        assert_eq!(parse_meminfo(invalid), Err(MemoryContextError::Malformed));
    }
}

#[test]
fn vmstat_retains_missing_counters_and_rejects_bad_selected_lines() {
    let parsed = parse_vmstat("pgfault 7\npswpout 9\nunknown nonsense\n").unwrap();
    assert_eq!(delta(&parsed.counters, VmstatCounter::PageFaults), Some(7));
    assert!(parsed.missing.contains(&VmstatCounter::MajorPageFaults));
    for invalid in [
        "pgfault not-a-number\n",
        "pgfault 1\npgfault 2\n",
        "pgfault 1 extra\n",
    ] {
        assert_eq!(parse_vmstat(invalid), Err(MemoryContextError::Malformed));
    }
}

#[test]
fn normalizes_each_vm_counter_independently_and_marks_regressions() {
    let start_vm = parse_vmstat(VMSTAT).unwrap();
    let mut end_vm = start_vm.clone();
    for entry in end_vm.counters.iter_mut() {
        if entry.0 == VmstatCounter::PageFaults {
            entry.1 = 110;
        }
        if entry.0 == VmstatCounter::MajorPageFaults {
            entry.1 = 3;
        }
    }
    let observation = interval_from_snapshots(
        snapshot(Ok(parse_meminfo(MEMINFO).unwrap()), Ok(start_vm)),
        snapshot(Ok(parse_meminfo(MEMINFO).unwrap()), Ok(end_vm)),
        2_000_000_000,
    )
    .unwrap();
    assert_eq!(delta(&observation.vmstat_deltas, VmstatCounter::PageFaults), Some(10));
    assert_eq!(delta(&observation.vmstat_deltas, VmstatCounter::MajorPageFaults), None);
    assert_eq!(
        observation.vmstat_issues.regressed,
        vec![VmstatCounter::MajorPageFaults]
    );
    assert_eq!(
        observation.vmstat_capability,
        MemoryContextCapability::Partial
    );
}

#[test]
fn end_gauge_survives_a_missing_start_and_capability_is_partial() {
    let observation = interval_from_snapshots(
        snapshot(
            Err(MemoryContextError::Unsupported),
            Ok(parse_vmstat(VMSTAT).unwrap()),
        ),
        snapshot(
            Ok(parse_meminfo(MEMINFO).unwrap()),
            Ok(parse_vmstat(VMSTAT).unwrap()),
        ),
        1_000_000_000,
    )
    .unwrap();
    assert!(observation.end_meminfo.is_some());
    assert_eq!(
        observation.meminfo_capability,
        MemoryContextCapability::Partial
    );
}

#[test]
fn interval_capabilities_preserve_terminal_errors_and_mixed_failures() {
    let vmstat: Result<VmstatRaw, MemoryContextError> = Ok(parse_vmstat(VMSTAT).unwrap());
    let unsupported = interval_from_snapshots(
        snapshot(Err(MemoryContextError::Unsupported), vmstat.clone()),
        snapshot(Err(MemoryContextError::Unsupported), vmstat.clone()),
        1_000_000_000,
    )
    .unwrap();
    assert_eq!(
        unsupported.meminfo_capability,
        MemoryContextCapability::Unsupported
    );

    let denied = interval_from_snapshots(
        snapshot(Err(MemoryContextError::PermissionDenied), vmstat.clone()),
        snapshot(Err(MemoryContextError::PermissionDenied), vmstat.clone()),
        1_000_000_000,
    )
    .unwrap();
    assert_eq!(
        denied.meminfo_capability,
        MemoryContextCapability::PermissionDenied
    );

    let mixed = interval_from_snapshots(
        snapshot(Err(MemoryContextError::Unsupported), vmstat.clone()),
        snapshot(Err(MemoryContextError::Malformed), vmstat),
        1_000_000_000,
    )
    .unwrap();
    assert_eq!(mixed.meminfo_capability, MemoryContextCapability::Failed);
}

#[test]
fn identical_memory_snapshots_give_zero_deltas_and_available_capabilities() {
    let observation = interval_from_snapshots(
        snapshot(Ok(parse_meminfo(MEMINFO).unwrap()), Ok(parse_vmstat(VMSTAT).unwrap())),
        snapshot(Ok(parse_meminfo(MEMINFO).unwrap()), Ok(parse_vmstat(VMSTAT).unwrap())),
        1_000_000_000,
    )
    .unwrap();
    assert_eq!(observation.vmstat_deltas.len(), 8);
    assert!(observation.vmstat_deltas.iter().all(|(_, v)| *v == 0));
    assert_eq!(observation.meminfo_capability, MemoryContextCapability::Available);
    assert_eq!(observation.vmstat_capability, MemoryContextCapability::Available);
}

#[test]
fn zero_elapsed_memory_interval_is_rejected() {
    let result = interval_from_snapshots(
        snapshot(Ok(parse_meminfo(MEMINFO).unwrap()), Ok(parse_vmstat(VMSTAT).unwrap())),
        snapshot(Ok(parse_meminfo(MEMINFO).unwrap()), Ok(parse_vmstat(VMSTAT).unwrap())),
        0,
    );
    assert_eq!(result, Err(MemoryContextError::EmptyInterval));
}

#[test]
fn meminfo_keeps_optional_context_and_exact_bytes() {
    let parsed = parse_meminfo(MEMINFO).unwrap();
    assert_eq!(parsed.swap_total_bytes, 2048 * 1024);
    assert_eq!(parsed.swap_free_bytes, 1536 * 1024);
    assert_eq!(parsed.anon_pages_bytes, Some(256 * 1024));
    assert_eq!(parsed.sreclaimable_bytes, Some(64 * 1024));
    let bare = parse_meminfo("MemTotal: 2 kB\nMemAvailable: 1 kB\nSwapTotal: 0 kB\nSwapFree: 0 kB\n")
        .unwrap();
    assert_eq!(bare.cached_bytes, None);
    assert_eq!(bare.mem_total_bytes, 2048);
}

#[test]
fn snapshot_capabilities_follow_errors_and_missing_counters() {
    let ok: Result<MeminfoRaw, MemoryContextError> = Ok(parse_meminfo(MEMINFO).unwrap());
    assert_eq!(snapshot_capability(&ok), MemoryContextCapability::Available);
    let denied: Result<MeminfoRaw, MemoryContextError> = Err(MemoryContextError::PermissionDenied);
    assert_eq!(snapshot_capability(&denied), MemoryContextCapability::PermissionDenied);
    let partial = Ok(parse_vmstat("pgfault 7\n").unwrap());
    assert_eq!(vmstat_snapshot_capability(&partial), MemoryContextCapability::Partial);
    let full = Ok(parse_vmstat(VMSTAT).unwrap());
    assert_eq!(vmstat_snapshot_capability(&full), MemoryContextCapability::Available);
    assert_eq!(classify_read_error(ReadErrorKind::NotFound), MemoryContextError::Unsupported);
    assert_eq!(classify_read_error(ReadErrorKind::Other), MemoryContextError::Unreadable);
    assert_eq!(MemoryContextCapability::Partial.as_str(), "partial");
}
