use stallhunt::cgroup::cgroup_probe_capability;
use stallhunt::cgroup::{
    active_paths, cgroup_capability_from_observation, cgroup_capability_from_snapshot,
    cgroup_interval_from_snapshots, collection_is_partial, interval_cpu, interval_events,
    interval_io, interval_memory_stat, interval_psi, is_below_mount_root, merge_issues,
    normalize_cgroup_path, parent_cgroup_path, parse_cgroup2_mountinfo, parse_cgroup_psi,
    parse_cpu_stat, parse_io_stat, parse_memory_events, parse_memory_stat,
    parse_unified_cgroup, systemd_unit_candidate, Cgroup2Mount, CgroupCapability,
    CgroupCollectionIssues, CgroupCpuRaw, CgroupError, CgroupFileState, CgroupIoDevice,
    CgroupIoRaw, CgroupMemoryEventsRaw, CgroupMemoryStatRaw, CgroupProcessMember, CgroupPsiRaw,
    CgroupPsiIntervalState, CgroupRaw, CgroupResource, CgroupSnapshot, MAX_CGROUPS,
};
use stallhunt::process::ProcessKey;

const CPU_STAT: &str = "usage_usec 100\nuser_usec 70\nsystem_usec 30\nnr_periods 4\nnr_throttled 1\nthrottled_usec 5\n";
const IO_STAT: &str = "8:0 rbytes=1024 wbytes=2048 rios=3 wios=4 dbytes=0 dios=0\n259:0 rbytes=1 wbytes=2 rios=1 wios=1 dbytes=0 dios=0\n";
const PRESSURE: &str = "some avg10=0.00 avg60=0.00 avg300=0.00 total=123\nfull avg10=0.00 avg60=0.00 avg300=0.00 total=45\n";
const MEMORY_EVENTS: &str = "low 0\nhigh 2\nmax 1\noom 0\noom_kill 0\noom_group_kill 0\n";
const MEMORY_STAT: &str = "anon 4096\nfile 8192\npgscan_direct 12\npgsteal_direct 8\npswpin 3\npswpout 4\n";

const SECOND_NS: u64 = 1_000_000_000;

fn mount(name: &str) -> Cgroup2Mount {
    Cgroup2Mount {
        root: "/".into(),
        mount_point: name.into(),
    }
}

fn member(pid: u32, start: u64, path: &str) -> CgroupProcessMember {
    CgroupProcessMember {
        key: ProcessKey {
            pid,
            start_time_ticks: start,
        },
        name: "task".into(),
        cgroup_path: path.into(),
    }
}

fn raw(path: &str, psi: Option<CgroupPsiRaw>) -> CgroupRaw {
    CgroupRaw {
        path: path.into(),
        cpu: CgroupResource::failed(CgroupFileState::Missing),
        memory_current: CgroupResource::failed(CgroupFileState::Missing),
        memory_events: CgroupResource::failed(CgroupFileState::Missing),
        memory_stat: CgroupResource::failed(CgroupFileState::Missing),
        io: CgroupResource::failed(CgroupFileState::Missing),
        cpu_pressure: match psi {
            Some(value) => CgroupResource::available(value),
            None => CgroupResource::failed(CgroupFileState::Missing),
        },
        memory_pressure: CgroupResource::failed(CgroupFileState::Missing),
        io_pressure: CgroupResource::failed(CgroupFileState::Missing),
        cpu_pressure_at: psi.map(|_| 0),
        memory_pressure_at: None,
        io_pressure_at: None,
        systemd_unit_candidate: None,
    }
}

fn snapshot(
    mount: Cgroup2Mount,
    members: Vec<CgroupProcessMember>,
    psi: Option<CgroupPsiRaw>,
) -> CgroupSnapshot {
    let mut members = members;
    members.sort_by(|left, right| left.key.cmp(&right.key));
    CgroupSnapshot {
        mount,
        members,
        groups: vec![raw("/x", psi)],
        issues: CgroupCollectionIssues::default(),
    }
}

fn psi_between(start: CgroupPsiRaw, end: CgroupPsiRaw, window_ns: u64) -> stallhunt::cgroup::CgroupPsiInterval {
    interval_psi(
        &CgroupResource::available(start),
        &CgroupResource::available(end),
        Some(5),
        Some(5 + window_ns),
    )
    .value
    .unwrap()
}

#[test]
fn mountinfo_decodes_and_rejects_unsafe_paths() {
    let mount =
        parse_cgroup2_mountinfo("29 23 0:26 /my\\040root /sys/fs/cgroup rw - cgroup2 cgroup rw\n")
            .unwrap();
    assert_eq!(mount.root, "/my root");
    assert_eq!(mount.mount_point, "/sys/fs/cgroup");
    assert_eq!(
        parse_cgroup2_mountinfo(
            "1 0 0:1 / /x rw - cgroup2 cgroup rw\n2 0 0:2 / /y rw - cgroup2 cgroup rw\n"
        ),
        Err(CgroupError::AmbiguousMount)
    );
    assert!(parse_cgroup2_mountinfo("1 0 0:1 /../x /x rw - cgroup2 cgroup rw\n").is_err());
    assert!(parse_cgroup2_mountinfo("1 0 0:1 /bad\\999 /x rw - cgroup2 cgroup rw\n").is_err());
}

#[test]
fn unified_path_is_strict() {
    assert_eq!(
        parse_unified_cgroup("0::/system.slice/a.service\n").unwrap(),
        "/system.slice/a.service"
    );
    assert!(parse_unified_cgroup("0::/a/../b\n").is_err());
    assert!(parse_unified_cgroup("1:cpu:/x\n").is_err());
}

#[test]
fn parsers_preserve_optional_counters() {
    let cpu = parse_cpu_stat(CPU_STAT).unwrap();
    assert_eq!(cpu.usage_usec, 100);
    assert_eq!(cpu.system_usec, Some(30));
    let io = parse_io_stat(IO_STAT).unwrap();
    let sda = io
        .iter()
        .find(|(device, _)| *device == CgroupIoDevice { major: 8, minor: 0 })
        .unwrap()
        .1;
    assert_eq!(sda.rbytes, Some(1024));
    assert_eq!(sda.wbytes, Some(2048));
    assert_eq!(parse_cgroup_psi(PRESSURE).unwrap().some_total_usec, 123);
    assert_eq!(parse_memory_events(MEMORY_EVENTS).unwrap().high, Some(2));
    let stat = parse_memory_stat(MEMORY_STAT).unwrap();
    assert_eq!(stat.pgscan_direct, Some(12));
    assert_eq!(stat.pgsteal_direct, Some(8));
    assert_eq!(stat.pswpin, Some(3));
    assert_eq!(stat.pswpout, Some(4));
}

#[test]
fn paths_collect_ancestors_and_bound_count() {
    let mount = Cgroup2Mount {
        root: "/".into(),
        mount_point: "/x".into(),
    };
    let mut issues = CgroupCollectionIssues::default();
    let got = active_paths(&mount, &vec!["/a/b/c".to_string()], &mut issues);
    assert!(got.contains(&"/".to_string()));
    assert!(got.contains(&"/a/b".to_string()));
    let mut too_many = String::from("/");
    for n in 0..65 {
        too_many.push_str(&format!("a{n}/"));
    }
    assert!(normalize_cgroup_path(&too_many).is_err());
}

#[test]
fn interval_omits_regression_and_pid_move_is_not_matched() {
    let mount = Cgroup2Mount {
        root: "/".into(),
        mount_point: "/x".into(),
    };
    let raw = |usage| CgroupRaw {
        path: "/x".into(),
        cpu: CgroupResource::available(CgroupCpuRaw {
            usage_usec: usage,
            user_usec: None,
            system_usec: None,
            nr_periods: None,
            nr_throttled: None,
            throttled_usec: None,
        }),
        memory_current: CgroupResource::failed(CgroupFileState::Missing),
        memory_events: CgroupResource::failed(CgroupFileState::Missing),
        memory_stat: CgroupResource::failed(CgroupFileState::Missing),
        io: CgroupResource::failed(CgroupFileState::Missing),
        cpu_pressure: CgroupResource::failed(CgroupFileState::Missing),
        memory_pressure: CgroupResource::failed(CgroupFileState::Missing),
        io_pressure: CgroupResource::failed(CgroupFileState::Missing),
        cpu_pressure_at: None,
        memory_pressure_at: None,
        io_pressure_at: None,
        systemd_unit_candidate: None,
    };
    let start = CgroupSnapshot {
        mount: mount.clone(),
        members: vec![],
        groups: vec![raw(9)],
        issues: CgroupCollectionIssues::default(),
    };
    let end = CgroupSnapshot {
        mount,
        members: vec![],
        groups: vec![raw(3)],
        issues: CgroupCollectionIssues::default(),
    };
    let observation = cgroup_interval_from_snapshots(start, end, SECOND_NS).unwrap();
    assert_eq!(
        observation.groups[0].cpu.value.as_ref().unwrap().usage_usec,
        None
    );
}

#[test]
fn membership_interval_retains_stable_path_and_excludes_moves_and_reuse() {
    let stable = member(1, 10, "/x");
    let observed = cgroup_interval_from_snapshots(
        snapshot(mount("/cg"), vec![stable.clone()], None),
        snapshot(mount("/cg"), vec![stable.clone()], None),
        SECOND_NS,
    )
    .unwrap();
    assert_eq!(observed.members, vec![stable.clone()]);
    let moved = member(1, 10, "/y");
    let observed = cgroup_interval_from_snapshots(
        snapshot(mount("/cg"), vec![stable], None),
        snapshot(mount("/cg"), vec![moved], None),
        SECOND_NS,
    )
    .unwrap();
    assert!(observed.members.is_empty());
    assert_eq!(observed.issues.members_moved, 1);
    let observed = cgroup_interval_from_snapshots(
        snapshot(mount("/cg"), vec![member(1, 10, "/x")], None),
        snapshot(mount("/cg"), vec![member(1, 11, "/x")], None),
        SECOND_NS,
    )
    .unwrap();
    assert!(observed.members.is_empty());
    assert_eq!(observed.issues.members_reused, 1);
    assert_eq!(observed.issues.members_appeared, 1);
    assert_eq!(observed.issues.members_exited, 1);
}

#[test]
fn rejects_mount_change_before_normalization() {
    assert_eq!(
        cgroup_interval_from_snapshots(
            snapshot(mount("/one"), vec![], None),
            snapshot(mount("/two"), vec![], None),
            SECOND_NS
        ),
        Err(CgroupError::MountChanged)
    );
}

#[test]
fn mount_points_compare_as_paths() {
    assert!(cgroup_interval_from_snapshots(
        snapshot(mount("/sys/fs/cgroup"), vec![], None),
        snapshot(mount("/sys/fs//cgroup/"), vec![], None),
        SECOND_NS
    )
    .is_ok());
    assert!(cgroup_interval_from_snapshots(
        snapshot(mount("/sys/./fs/cgroup"), vec![], None),
        snapshot(mount("/sys/fs/cgroup"), vec![], None),
        SECOND_NS
    )
    .is_ok());
    assert_eq!(
        cgroup_interval_from_snapshots(
            snapshot(mount("/sys/fs/cgroup"), vec![], None),
            snapshot(mount("sys/fs/cgroup"), vec![], None),
            SECOND_NS
        ),
        Err(CgroupError::MountChanged)
    );
    assert_eq!(
        cgroup_interval_from_snapshots(
            snapshot(mount("/sys/fs/cgroup"), vec![], None),
            snapshot(mount("/sys/fs/cgroup/unified"), vec![], None),
            SECOND_NS
        ),
        Err(CgroupError::MountChanged)
    );
}

#[test]
fn psi_interval_preserves_valid_some_and_qualifies_full_anomalies() {
    let some_regressed = psi_between(
        CgroupPsiRaw {
            some_total_usec: 10,
            full_total_usec: Some(1),
        },
        CgroupPsiRaw {
            some_total_usec: 9,
            full_total_usec: Some(2),
        },
        SECOND_NS,
    );
    assert_eq!(some_regressed.state, CgroupPsiIntervalState::SomeRegressed);
    let full_regressed = psi_between(
        CgroupPsiRaw {
            some_total_usec: 10,
            full_total_usec: Some(5),
        },
        CgroupPsiRaw {
            some_total_usec: 20,
            full_total_usec: Some(4),
        },
        SECOND_NS,
    );
    assert_eq!(full_regressed.some_total_usec, Some(10));
    assert_eq!(full_regressed.full_total_usec, None);
    assert_eq!(full_regressed.state, CgroupPsiIntervalState::Partial);
    let exceeds = psi_between(
        CgroupPsiRaw {
            some_total_usec: 10,
            full_total_usec: Some(1),
        },
        CgroupPsiRaw {
            some_total_usec: 12,
            full_total_usec: Some(5),
        },
        SECOND_NS,
    );
    assert_eq!(exceeds.some_total_usec, Some(2));
    assert_eq!(exceeds.full_total_usec, None);
    assert_eq!(exceeds.state, CgroupPsiIntervalState::FullExceedsSome);
    assert_eq!(
        parse_cgroup_psi("some total=4\nfull total=5\n"),
        Err(CgroupError::Malformed)
    );
}

#[test]
fn psi_some_delta_must_fit_the_measured_interval() {
    let observe = |end_total| {
        psi_between(
            CgroupPsiRaw {
                some_total_usec: 0,
                full_total_usec: Some(0),
            },
            CgroupPsiRaw {
                some_total_usec: end_total,
                full_total_usec: Some(0),
            },
            10_000,
        )
    };
    let exact = observe(10);
    assert_eq!(exact.some_total_usec, Some(10));
    assert_eq!(exact.state, CgroupPsiIntervalState::Available);
    let excessive = observe(11);
    assert_eq!(excessive.some_total_usec, None);
    assert_eq!(excessive.full_total_usec, None);
    assert_eq!(excessive.state, CgroupPsiIntervalState::SomeExceedsElapsed);
}

#[test]
fn interval_missing_endpoint_is_never_marked_available() {
    let missing_cpu = CgroupResource::failed(CgroupFileState::Missing);
    let cpu = CgroupResource::available(CgroupCpuRaw {
        usage_usec: 1,
        user_usec: None,
        system_usec: None,
        nr_periods: None,
        nr_throttled: None,
        throttled_usec: None,
    });
    assert_eq!(interval_cpu(&missing_cpu, &cpu).state, CgroupFileState::Partial);
    assert_eq!(interval_cpu(&cpu, &missing_cpu).state, CgroupFileState::Partial);
    let missing_events = CgroupResource::failed(CgroupFileState::Missing);
    let events = CgroupResource::available(CgroupMemoryEventsRaw {
        low: None,
        high: None,
        max: None,
        oom: None,
        oom_kill: None,
        oom_group_kill: None,
    });
    assert_eq!(
        interval_events(&missing_events, &events).state,
        CgroupFileState::Partial
    );
    assert_eq!(
        interval_events(&events, &missing_events).state,
        CgroupFileState::Partial
    );
    let missing_stat = CgroupResource::failed(CgroupFileState::Missing);
    let stat = CgroupResource::available(CgroupMemoryStatRaw {
        pgscan_direct: Some(1),
        pgsteal_direct: Some(1),
        pswpin: Some(0),
        pswpout: Some(0),
    });
    assert_eq!(
        interval_memory_stat(&missing_stat, &stat).state,
        CgroupFileState::Partial
    );
    assert_eq!(
        interval_memory_stat(&stat, &missing_stat).state,
        CgroupFileState::Partial
    );
    let missing_io = CgroupResource::failed(CgroupFileState::Missing);
    let io = CgroupResource::available(Vec::<(CgroupIoDevice, CgroupIoRaw)>::new());
    assert_eq!(interval_io(&missing_io, &io).state, CgroupFileState::Partial);
    assert_eq!(interval_io(&io, &missing_io).state, CgroupFileState::Partial);
    let missing_psi = CgroupResource::failed(CgroupFileState::Missing);
    let psi = CgroupResource::available(CgroupPsiRaw {
        some_total_usec: 1,
        full_total_usec: None,
    });
    assert_eq!(
        interval_psi(&missing_psi, &psi, None, Some(7)).state,
        CgroupFileState::Partial
    );
    assert_eq!(
        interval_psi(&psi, &missing_psi, Some(7), None).state,
        CgroupFileState::Partial
    );
}

#[test]
fn active_path_cap_keeps_every_leaf_before_ancestors() {
    let leaves: Vec<String> = (0..MAX_CGROUPS)
        .map(|index| format!("/leaf-{index}/child"))
        .collect();
    let mut issues = CgroupCollectionIssues::default();
    let result = active_paths(&mount("/cg"), &leaves, &mut issues);
    assert!(issues.cgroup_limit_reached);
    assert_eq!(result.len(), MAX_CGROUPS);
    assert!(leaves.iter().all(|leaf| result.contains(leaf)));
}

#[test]
fn systemd_candidates_are_conservative() {
    assert_eq!(
        systemd_unit_candidate("/a/foo.service"),
        Some("foo.service".into())
    );
    assert_eq!(systemd_unit_candidate("/a/foo.socket"), None);
}

#[test]
fn completeness_assessment_marks_limits_permissions_and_missing_resources_partial() {
    let base = CgroupCollectionIssues::default();
    assert!(!collection_is_partial(&base));
    let mutations: [fn(&mut CgroupCollectionIssues); 7] = [
        |issues| issues.process_limit_reached = true,
        |issues| issues.cgroup_limit_reached = true,
        |issues| issues.budget_exhausted = true,
        |issues| issues.process_permission_denied = 1,
        |issues| issues.cgroup_permission_denied = 1,
        |issues| issues.cgroup_unreadable = 1,
        |issues| issues.members_moved = 1,
    ];
    for mutate in mutations {
        let mut issues = CgroupCollectionIssues::default();
        mutate(&mut issues);
        assert!(collection_is_partial(&issues));
    }
    let snapshot = CgroupSnapshot {
        mount: mount("/cg"),
        members: vec![],
        groups: vec![raw("/x", None)],
        issues: CgroupCollectionIssues::default(),
    };
    assert_eq!(
        cgroup_capability_from_snapshot(&snapshot),
        CgroupCapability::Partial
    );
}

#[test]
fn issue_merge_includes_both_endpoint_costs_and_budget_exhaustion() {
    let start = CgroupCollectionIssues {
        budget_exhausted: false,
        read_attempts: 4,
        bytes_read: 10,
        ..CgroupCollectionIssues::default()
    };
    let end = CgroupCollectionIssues {
        budget_exhausted: true,
        read_attempts: 7,
        bytes_read: 20,
        ..CgroupCollectionIssues::default()
    };
    let merged = merge_issues(start, end);
    assert!(merged.budget_exhausted);
    assert_eq!(merged.read_attempts, 11);
    assert_eq!(merged.bytes_read, 30);

    let merged = merge_issues(
        CgroupCollectionIssues {
            read_attempts: u32::MAX,
            bytes_read: u64::MAX,
            ..CgroupCollectionIssues::default()
        },
        CgroupCollectionIssues {
            read_attempts: 1,
            bytes_read: 1,
            ..CgroupCollectionIssues::default()
        },
    );
    assert_eq!(merged.read_attempts, u32::MAX);
    assert_eq!(merged.bytes_read, u64::MAX);
}

#[test]
fn active_paths_reject_paths_outside_the_mount_root() {
    let mount = Cgroup2Mount {
        root: "/kube".into(),
        mount_point: "/sys/fs/cgroup".into(),
    };
    let mut issues = CgroupCollectionIssues::default();
    let got = active_paths(
        &mount,
        &vec![
            "/kube/pod/a".to_string(),
            "/other".to_string(),
            "/kubelet".to_string(),
        ],
        &mut issues,
    );
    assert_eq!(got, vec!["/kube".to_string(), "/kube/pod".to_string(), "/kube/pod/a".to_string()]);
    assert_eq!(issues.path_rejected, 2);
    assert!(!issues.cgroup_limit_reached);
}

#[test]
fn active_paths_past_the_cap_keep_the_lowest_leaves() {
    let leaves: Vec<String> = (0..MAX_CGROUPS + 3)
        .map(|index| format!("/g{index:04}"))
        .collect();
    let mut issues = CgroupCollectionIssues::default();
    let result = active_paths(&mount("/cg"), &leaves, &mut issues);
    assert!(issues.cgroup_limit_reached);
    assert_eq!(result.len(), MAX_CGROUPS);
    assert_eq!(result[0], "/g0000");
    assert!(!result.contains(&format!("/g{:04}", MAX_CGROUPS)));
}

#[test]
fn parent_paths_and_root_membership() {
    assert_eq!(parent_cgroup_path("/a/b"), Some("/a".to_string()));
    assert_eq!(parent_cgroup_path("/a"), Some("/".to_string()));
    assert_eq!(parent_cgroup_path("a"), None);
    assert!(is_below_mount_root("/a/b", "/a"));
    assert!(is_below_mount_root("/a", "/a"));
    assert!(!is_below_mount_root("/ab", "/a"));
    assert!(is_below_mount_root("/anything", "/"));
}

#[test]
fn normalization_collapses_separators_and_rejects_dots() {
    assert_eq!(normalize_cgroup_path("//a///b/").unwrap(), "/a/b");
    assert_eq!(normalize_cgroup_path("/").unwrap(), "/");
    assert_eq!(normalize_cgroup_path("a/b"), Err(CgroupError::Malformed));
    assert_eq!(normalize_cgroup_path("/a/./b"), Err(CgroupError::Malformed));
}

#[test]
fn equal_snapshots_give_available_capability_and_zero_deltas() {
    let psi = CgroupPsiRaw {
        some_total_usec: 50,
        full_total_usec: Some(20),
    };
    let start = snapshot(mount("/cg"), vec![member(4, 1, "/x")], Some(psi));
    let end = start.clone();
    let observed = cgroup_interval_from_snapshots(start, end, SECOND_NS).unwrap();
    assert_eq!(observed.groups.len(), 1);
    let pressure = observed.groups[0].cpu_pressure.value.unwrap();
    assert_eq!(pressure.some_total_usec, Some(0));
    assert_eq!(pressure.full_total_usec, Some(0));
    assert_eq!(observed.issues.members_appeared, 0);
    assert_eq!(observed.members.len(), 1);
    assert_eq!(
        cgroup_capability_from_observation(&observed),
        CgroupCapability::Partial
    );
}

#[test]
fn zero_elapsed_interval_is_rejected() {
    assert_eq!(
        cgroup_interval_from_snapshots(
            snapshot(mount("/cg"), vec![], None),
            snapshot(mount("/cg"), vec![], None),
            0
        ),
        Err(CgroupError::EmptyInterval)
    );
}

#[test]
fn cgroup_probe_reports_the_snapshot_or_the_error() {
    let empty = Ok(CgroupSnapshot {
        mount: Cgroup2Mount { root: "/".to_string(), mount_point: "/sys/fs/cgroup".to_string() },
        members: vec![],
        groups: vec![],
        issues: CgroupCollectionIssues::default(),
    });
    assert_eq!(cgroup_probe_capability(&empty), CgroupCapability::Partial);
    assert_eq!(cgroup_probe_capability(&Err(CgroupError::Unsupported)), CgroupCapability::Unsupported);
    assert_eq!(cgroup_probe_capability(&Err(CgroupError::PermissionDenied)), CgroupCapability::PermissionDenied);
    assert_eq!(cgroup_probe_capability(&Err(CgroupError::AmbiguousMount)), CgroupCapability::Failed);
}

#[test]
fn interval_groups_are_the_paths_both_reads_hold_in_path_order() {
    let mount = Cgroup2Mount {
        root: "/".into(),
        mount_point: "/x".into(),
    };
    let start = CgroupSnapshot {
        mount: mount.clone(),
        members: vec![],
        groups: vec![raw("/a", None), raw("/c", None), raw("/d", None)],
        issues: CgroupCollectionIssues::default(),
    };
    let end = CgroupSnapshot {
        mount,
        members: vec![],
        groups: vec![raw("/a", None), raw("/b", None), raw("/d", None)],
        issues: CgroupCollectionIssues::default(),
    };
    let observation = cgroup_interval_from_snapshots(start, end, SECOND_NS).unwrap();
    let paths: Vec<&str> = observation.groups.iter().map(|g| g.path.as_str()).collect();
    assert_eq!(paths, vec!["/a", "/d"]);
}

#[test]
fn pressure_file_accepts_exactly_one_total_per_kind() {
    assert_eq!(
        parse_cgroup_psi("some avg10=1.00 total=7\n\nfull total=7\n"),
        Ok(CgroupPsiRaw {
            some_total_usec: 7,
            full_total_usec: Some(7),
        })
    );
    assert_eq!(
        parse_cgroup_psi("some total=7\n"),
        Ok(CgroupPsiRaw {
            some_total_usec: 7,
            full_total_usec: None,
        })
    );
    for invalid in [
        "full total=1\n",
        "some total=1\nsome total=2\n",
        "some total=1 total=1\n",
        "some avg10 total=1\n",
        "some avg10=0.00\n",
        "other total=1\n",
        "some total=x\n",
    ] {
        assert_eq!(parse_cgroup_psi(invalid), Err(CgroupError::Malformed), "{invalid:?}");
    }
}
