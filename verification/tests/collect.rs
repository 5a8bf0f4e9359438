use stallhunt::cgroup::{Cgroup2Mount, CgroupCollectionIssues, CgroupError, CgroupFileState};
use stallhunt::cgroup_collect::{
    cgroup_directory, check_mount_root, member_step, note_group_error, plan_group,
    resource_from_read, GroupPlan, MemberEvent, MemberStep, SnapshotBudget,
};
use stallhunt::io::{
    insert_lowest_pid, keep_lowest, process_io_step, stat_event, ProcessIoCollectionIssues,
    ProcessIoEvent, ProcessIoStep, ProcessReadError, MAX_PROCESSES,
};
use stallhunt::process::{parse_process_stat, ProcessKey};
use stallhunt::read_error::ReadErrorKind;

const STAT: &str = "123 (test process) R 1 2 3 4 5 6 7 8 9 10 42 7 13 14 15 16 17 18 987 20 21 22 23 24 25 26 27 28 29 30 31 32 33 34 35 36 37 38 39 40\n";

#[test]
fn process_stat_yields_identity_and_name() {
    let stat = parse_process_stat(STAT).unwrap();
    assert_eq!(
        stat.key,
        ProcessKey {
            pid: 123,
            start_time_ticks: 987
        }
    );
    assert_eq!(stat.comm, "test process");
    let tricky = parse_process_stat("7 (a) b (c)) S 1 2 3 4 5 6 7 8 9 10 11 12 13 14 15 16 17 18 55\n").unwrap();
    assert_eq!(tricky.comm, "a) b (c)");
    assert_eq!(tricky.key.start_time_ticks, 55);
    assert!(parse_process_stat("x (y) R 1\n").is_none());
    assert!(parse_process_stat("no parens at all").is_none());
}

#[test]
fn process_sampling_confirms_identity_around_the_io_read() {
    let mut issues = ProcessIoCollectionIssues::default();
    let mut processes = Vec::new();
    let first = stat_event(Ok(STAT.to_string())).unwrap();
    let step = process_io_step(
        ProcessIoStep::FirstStat { pid: 123 },
        ProcessIoEvent::Stat(Ok(first.clone())),
        &mut issues,
        &mut processes,
    );
    assert_eq!(step, ProcessIoStep::Io { first: first.key });
    let step = process_io_step(
        step,
        ProcessIoEvent::Io(Ok("read_bytes: 30\nwrite_bytes: 40\n".to_string())),
        &mut issues,
        &mut processes,
    );
    assert!(matches!(step, ProcessIoStep::SecondStat { .. }));
    let step = process_io_step(step, ProcessIoEvent::Stat(Ok(first.clone())), &mut issues, &mut processes);
    assert_eq!(step, ProcessIoStep::Done);
    assert_eq!(processes.len(), 1);
    assert_eq!(processes[0].1.counters.read_bytes, 30);
    assert_eq!(processes[0].1.name, "test process");
    assert_eq!(issues, ProcessIoCollectionIssues::default());
}

#[test]
fn process_sampling_counts_each_way_of_losing_a_process() {
    let mut issues = ProcessIoCollectionIssues::default();
    let mut processes = Vec::new();
    let first = stat_event(Ok(STAT.to_string())).unwrap();
    let step = process_io_step(
        ProcessIoStep::FirstStat { pid: 124 },
        ProcessIoEvent::Stat(Ok(first.clone())),
        &mut issues,
        &mut processes,
    );
    assert_eq!(step, ProcessIoStep::Done);
    assert_eq!(issues.identity_changed, 1);
    let step = process_io_step(
        ProcessIoStep::Io { first: first.key },
        ProcessIoEvent::Io(Err(ReadErrorKind::NotFound)),
        &mut issues,
        &mut processes,
    );
    assert_eq!(step, ProcessIoStep::Recheck { first: first.key });
    let step = process_io_step(step, ProcessIoEvent::Stat(Ok(first.clone())), &mut issues, &mut processes);
    assert_eq!(step, ProcessIoStep::Done);
    assert_eq!(issues.unsupported, 1);
    process_io_step(
        ProcessIoStep::Io { first: first.key },
        ProcessIoEvent::Io(Err(ReadErrorKind::PermissionDenied)),
        &mut issues,
        &mut processes,
    );
    assert_eq!(issues.permission_denied, 1);
    process_io_step(
        ProcessIoStep::FirstStat { pid: 1 },
        ProcessIoEvent::Stat(Err(ProcessReadError::Disappeared)),
        &mut issues,
        &mut processes,
    );
    assert_eq!(issues.disappeared, 1);
    process_io_step(
        ProcessIoStep::Io { first: first.key },
        ProcessIoEvent::Io(Ok("garbage".to_string())),
        &mut issues,
        &mut processes,
    );
    assert_eq!(issues.malformed, 1);
    assert!(processes.is_empty());
    assert_eq!(stat_event(Err(ReadErrorKind::NotFound)), Err(ProcessReadError::Disappeared));
    assert_eq!(stat_event(Ok("junk".to_string())), Err(ProcessReadError::Other));
}

#[test]
fn lowest_pids_are_kept_in_order() {
    let mut pids = Vec::new();
    let mut issues = ProcessIoCollectionIssues::default();
    for pid in (0..(MAX_PROCESSES as u32 + 10)).rev() {
        insert_lowest_pid(&mut pids, pid, &mut issues);
    }
    assert_eq!(pids.len(), MAX_PROCESSES);
    assert_eq!(pids[0], 0);
    assert_eq!(*pids.last().unwrap(), MAX_PROCESSES as u32 - 1);
    assert!(issues.limit_reached);
    let mut small = vec![];
    assert!(!keep_lowest(&mut small, 5, 2));
    assert!(!keep_lowest(&mut small, 3, 2));
    assert!(keep_lowest(&mut small, 9, 2));
    assert_eq!(small, vec![3, 5]);
    assert!(keep_lowest(&mut small, 1, 2));
    assert_eq!(small, vec![1, 3]);
}

#[test]
fn snapshot_budget_bounds_reads_and_bytes() {
    let mut budget = SnapshotBudget::new();
    assert!(budget.permit());
    assert_eq!(budget.reads, 1);
    budget.add_bytes(8_388_608 - 65_536);
    assert!(budget.permit());
    budget.add_bytes(1);
    assert!(!budget.permit());
    assert!(budget.exhausted);
    let mut full = SnapshotBudget::new();
    full.add_bytes(u64::MAX);
    assert_eq!(full.bytes, u64::MAX);
    assert!(full.exhausted);
}

#[test]
fn cgroup_directories_join_below_the_mount_point() {
    let mount = Cgroup2Mount {
        root: "/".into(),
        mount_point: "/sys/fs/cgroup".into(),
    };
    assert_eq!(cgroup_directory(&mount, "/").unwrap(), "/sys/fs/cgroup");
    assert_eq!(
        cgroup_directory(&mount, "/system.slice/a.service").unwrap(),
        "/sys/fs/cgroup/system.slice/a.service"
    );
    let nested = Cgroup2Mount {
        root: "/kube".into(),
        mount_point: "/mnt/".into(),
    };
    assert_eq!(cgroup_directory(&nested, "/kube/pod").unwrap(), "/mnt/pod");
    assert_eq!(cgroup_directory(&nested, "/other"), Err(CgroupError::Malformed));
}

#[test]
fn membership_is_kept_only_for_a_confirmed_identity() {
    let mut issues = CgroupCollectionIssues::default();
    let mut members = Vec::new();
    let stat = parse_process_stat(STAT).unwrap();
    let step = member_step(MemberStep::FirstStat, MemberEvent::Stat(Ok(stat.clone())), &mut issues, &mut members);
    assert_eq!(step, MemberStep::Cgroup { first: stat.key });
    let step = member_step(step, MemberEvent::Cgroup(Ok("0::/a/b\n".to_string())), &mut issues, &mut members);
    assert_eq!(
        step,
        MemberStep::SecondStat {
            first: stat.key,
            path: "/a/b".to_string()
        }
    );
    let step = member_step(step, MemberEvent::Stat(Ok(stat.clone())), &mut issues, &mut members);
    assert_eq!(step, MemberStep::Done);
    assert_eq!(members.len(), 1);
    assert_eq!(members[0].cgroup_path, "/a/b");
    let step = member_step(MemberStep::FirstStat, MemberEvent::NoBudget, &mut issues, &mut members);
    assert_eq!(step, MemberStep::Stop);
    assert!(issues.budget_exhausted);
    member_step(
        MemberStep::Cgroup { first: stat.key },
        MemberEvent::Cgroup(Ok("1:cpu:/x\n".to_string())),
        &mut issues,
        &mut members,
    );
    assert_eq!(issues.process_malformed, 1);
    note_group_error(&mut issues, CgroupFileState::PermissionDenied);
    assert_eq!(issues.cgroup_permission_denied, 1);
    let resource = resource_from_read::<u64>(Err(CgroupFileState::Missing));
    assert_eq!(resource.state, CgroupFileState::Missing);
    let resource = resource_from_read::<u64>(Ok(Err(CgroupError::Malformed)));
    assert_eq!(resource.state, CgroupFileState::Malformed);
    assert_eq!(resource_from_read(Ok(Ok(7u64))).value, Some(7));
}

#[test]
fn group_walk_skips_foreign_paths_and_stops_on_spent_budget() {
    let mount = Cgroup2Mount { root: "/".into(), mount_point: "/sys/fs/cgroup".into() };
    let mut issues = CgroupCollectionIssues::default();
    let budget = SnapshotBudget::new();
    assert_eq!(
        plan_group(&mount, "/system.slice/a.service", &budget, &mut issues),
        GroupPlan::Read { directory: "/sys/fs/cgroup/system.slice/a.service".into() }
    );
    assert_eq!(issues, CgroupCollectionIssues::default());

    let scoped = Cgroup2Mount { root: "/user.slice".into(), mount_point: "/mnt/cg".into() };
    assert_eq!(plan_group(&scoped, "/system.slice", &budget, &mut issues), GroupPlan::Skip);
    assert_eq!(issues.path_rejected, 1);

    let mut spent = SnapshotBudget::new();
    spent.exhausted = true;
    assert_eq!(plan_group(&mount, "/", &spent, &mut issues), GroupPlan::Stop);
    assert!(issues.budget_exhausted);
    assert_eq!(issues.path_rejected, 1);
}

#[test]
fn snapshot_needs_a_mount_root() {
    let empty = Cgroup2Mount { root: "".into(), mount_point: "/sys/fs/cgroup".into() };
    assert_eq!(check_mount_root(&empty), Err(CgroupError::Malformed));
    let mount = Cgroup2Mount { root: "/".into(), mount_point: "/sys/fs/cgroup".into() };
    assert_eq!(check_mount_root(&mount), Ok(()));
}

fn sample(issues: &mut ProcessIoCollectionIssues, processes: &mut Vec<(ProcessKey, stallhunt::io::ProcessIoSample)>, stat: &str, io: &str) {
    let s = stat_event(Ok(stat.to_string())).unwrap();
    let step = process_io_step(
        ProcessIoStep::FirstStat { pid: s.key.pid },
        ProcessIoEvent::Stat(Ok(s.clone())),
        issues,
        processes,
    );
    let step = process_io_step(step, ProcessIoEvent::Io(Ok(io.to_string())), issues, processes);
    process_io_step(step, ProcessIoEvent::Stat(Ok(s)), issues, processes);
}

#[test]
fn stored_samples_stay_ordered_by_key_without_repeats() {
    let mut issues = ProcessIoCollectionIssues::default();
    let mut processes = Vec::new();
    let later = "200 (b) R 1 2 3 4 5 6 7 8 9 10 42 7 13 14 15 16 17 18 5 20\n";
    let earlier = "100 (a) R 1 2 3 4 5 6 7 8 9 10 42 7 13 14 15 16 17 18 5 20\n";
    sample(&mut issues, &mut processes, later, "read_bytes: 1\nwrite_bytes: 2\n");
    sample(&mut issues, &mut processes, earlier, "read_bytes: 3\nwrite_bytes: 4\n");
    sample(&mut issues, &mut processes, later, "read_bytes: 9\nwrite_bytes: 9\n");
    let pids: Vec<u32> = processes.iter().map(|(k, _)| k.pid).collect();
    assert_eq!(pids, vec![100, 200]);
    assert_eq!(processes[1].1.counters.read_bytes, 9);
}
