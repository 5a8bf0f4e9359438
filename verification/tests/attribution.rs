use stallhunt::analysis::{
    Confidence, ProcessCandidateAvailability, ProcessRole, ProcessRoleCompleteness,
};
use stallhunt::attribution::{
    cpu_victims, io_suspects_role, ProcessSchedulerDelayInterval, io_victims, memory_suspects, memory_victims, DelayAccountingState,
    ProcessResourceCapability, ProcessCandidateEvidence, ProcessCollectionIssues,
    ProcessName, ProcessResourceInterval, ProcessTelemetry, TaskstatsCapability,
    TaskstatsFieldSupport, TaskstatsInterval,
};
use stallhunt::io::{IoCapability, ProcessIoCollectionIssues, ProcessIoInterval, ProcessIoObservation};
use stallhunt::process::ProcessKey;

fn key(pid: u32) -> ProcessKey {
    ProcessKey { pid, start_time_ticks: 1 }
}

fn all_fields() -> TaskstatsFieldSupport {
    TaskstatsFieldSupport {
        cpu_delay: true,
        block_io_delay: true,
        swapin_delay: true,
        reclaim_delay: true,
        thrashing_delay: true,
        compaction_delay: true,
        write_protect_copy_delay: true,
    }
}

fn delays(pid: u32, swapin: u64, reclaim: u64, thrashing: u64) -> TaskstatsInterval {
    TaskstatsInterval {
        key: key(pid),
        cpu_delay_ns: None,
        block_io_delay_ns: Some(0),
        swapin_delay_ns: Some(swapin),
        reclaim_delay_ns: Some(reclaim),
        thrashing_delay_ns: Some(thrashing),
        compaction_delay_ns: Some(0),
        write_protect_copy_delay_ns: None,
        field_support: all_fields(),
    }
}

fn resource(pid: u32, name: &str, major_faults: Option<u64>) -> ProcessResourceInterval {
    ProcessResourceInterval {
        key: key(pid),
        name: name.into(),
        major_faults,
        rss_growth_bytes: None,
        block_io_delay_ticks: Some(0),
    }
}

fn telemetry() -> ProcessTelemetry {
    ProcessTelemetry {
        resource_capability: ProcessResourceCapability::Available,
        task_stat_capability: TaskstatsCapability::Available,
        taskstats_capability: TaskstatsCapability::Available,
        delay_accounting: DelayAccountingState::Enabled,
        taskstats: vec![
            delays(10, 5, 0, 0),
            delays(11, 0, 0, 0),
            delays(12, 100, 300, 300),
            delays(13, 0, 300, 0),
        ],
        process_resource_evidence: vec![
            resource(10, "ten", Some(50)),
            resource(20, "twenty", Some(7)),
            resource(21, "twenty-one", Some(0)),
            resource(22, "twenty-two", Some(9)),
        ],
        collection_issues: ProcessCollectionIssues::default(),
        processes: vec![ProcessName { key: key(12), name: "db".into() }],
        scheduler_delay_candidates: vec![],
        schedstat_capability: TaskstatsCapability::Available,
    }
}

#[test]
fn memory_victims_rank_direct_delay_before_fault_hints() {
    let t = telemetry();
    let r = memory_victims(Some(&t), Some(Confidence::High), None);
    assert_eq!(r.role, ProcessRole::MemoryVictim);
    assert_eq!(r.availability, ProcessCandidateAvailability::Available);
    assert_eq!(r.completeness, ProcessRoleCompleteness::Complete);
    assert!(!r.stale);
    let keys: Vec<u32> = r.candidates.iter().map(|c| c.key.pid).collect();
    assert_eq!(keys, vec![12, 13, 10, 22, 20]);
    let first = &r.candidates[0];
    assert_eq!(first.name, "db");
    assert_eq!(first.confidence, Confidence::High);
    assert_eq!(first.label, "observed_taskstats_memory_delay_victim_candidate");
    match first.evidence {
        ProcessCandidateEvidence::MemoryDelay { largest_component, largest_delay_ns, .. } => {
            assert_eq!(largest_component, "thrashing");
            assert_eq!(largest_delay_ns, 300);
        }
        _ => panic!("direct evidence expected"),
    }
    assert_eq!(r.candidates[1].name, "pid-13");
    assert_eq!(r.candidates[2].name, "ten");
    assert_eq!(r.candidates[3].confidence, Confidence::Low);
    assert_eq!(r.candidates[3].label, "major_fault_memory_victim_candidate");
    assert_eq!(
        r.candidates[3].evidence,
        ProcessCandidateEvidence::MajorFaults { major_faults: 9 }
    );
}

#[test]
fn memory_victims_respect_scope_and_completeness() {
    let mut t = telemetry();
    let allowed = vec![key(10), key(20)];
    let r = memory_victims(Some(&t), Some(Confidence::Medium), Some(&allowed));
    let keys: Vec<u32> = r.candidates.iter().map(|c| c.key.pid).collect();
    assert_eq!(keys, vec![10, 20]);
    assert_eq!(r.candidates[0].confidence, Confidence::Medium);

    t.delay_accounting = DelayAccountingState::Unknown;
    let r = memory_victims(Some(&t), Some(Confidence::Medium), None);
    assert_eq!(r.availability, ProcessCandidateAvailability::UnavailableOrIncomplete);
    assert_eq!(r.completeness, ProcessRoleCompleteness::Partial);
    assert_eq!(r.candidates.len(), 5);

    let r = memory_victims(Some(&t), None, None);
    assert_eq!(r.availability, ProcessCandidateAvailability::NotAssessed);
    assert!(r.candidates.is_empty());
}

#[test]
fn missing_memory_telemetry_is_unavailable_only_under_pressure() {
    let r = memory_victims(None, Some(Confidence::High), None);
    assert_eq!(r.availability, ProcessCandidateAvailability::UnavailableOrIncomplete);
    assert_eq!(r.completeness, ProcessRoleCompleteness::Unavailable);
    let r = memory_victims(None, None, None);
    assert_eq!(r.availability, ProcessCandidateAvailability::NotAssessed);

    let mut t = telemetry();
    t.taskstats_capability = TaskstatsCapability::Unavailable;
    t.process_resource_evidence.clear();
    let r = memory_victims(Some(&t), Some(Confidence::Low), None);
    assert_eq!(r.completeness, ProcessRoleCompleteness::Unavailable);
    assert!(r.candidates.is_empty());
}

fn io_process(pid: u32, name: &str, read: Option<u64>, write: Option<u64>) -> ProcessIoInterval {
    ProcessIoInterval {
        key: key(pid),
        name: name.into(),
        read_bytes: read,
        write_bytes: write,
        cancelled_write_bytes: Some(0),
        rchar: None,
        wchar: None,
    }
}

fn process_io() -> ProcessIoObservation {
    ProcessIoObservation {
        elapsed_ns: 10_000_000_000,
        capability: IoCapability::Available,
        processes: vec![
            io_process(2, "writer", Some(1), Some(900)),
            io_process(1, "reader", Some(1_000), Some(0)),
            io_process(3, "idle", Some(0), None),
            io_process(4, "twin", None, Some(901)),
        ],
        issues: ProcessIoCollectionIssues::default(),
        regressed: vec![],
    }
}

#[test]
fn io_suspects_rank_known_bytes_then_key() {
    let o = process_io();
    let r = io_suspects_role(Some(&o), Some(Confidence::High), None);
    assert_eq!(r.role, ProcessRole::IoSuspect);
    assert_eq!(r.completeness, ProcessRoleCompleteness::Complete);
    let names: Vec<&str> = r.candidates.iter().map(|c| c.name.as_str()).collect();
    assert_eq!(names, vec!["reader", "writer", "twin"]);
    assert!(r.candidates.iter().all(|c| c.confidence == Confidence::Medium));
    assert_eq!(r.candidates[0].label, "same_window_process_io_activity_suspect");
    assert_eq!(
        r.candidates[2].evidence,
        ProcessCandidateEvidence::IoActivity {
            read_bytes: None,
            write_bytes: Some(901),
            cancelled_write_bytes: Some(0),
            known_accounted_bytes: 901,
        }
    );

    let low = io_suspects_role(Some(&o), Some(Confidence::Low), Some(&vec![key(2)]));
    assert_eq!(low.candidates.len(), 1);
    assert_eq!(low.candidates[0].confidence, Confidence::Low);

    let mut partial = process_io();
    partial.capability = IoCapability::Partial;
    let r = io_suspects_role(Some(&partial), Some(Confidence::Medium), None);
    assert_eq!(r.completeness, ProcessRoleCompleteness::Partial);
    assert_eq!(r.availability, ProcessCandidateAvailability::UnavailableOrIncomplete);

    assert_eq!(
        io_suspects_role(None, Some(Confidence::High), None).availability,
        ProcessCandidateAvailability::UnavailableOrIncomplete
    );
    assert_eq!(
        io_suspects_role(Some(&o), None, None).availability,
        ProcessCandidateAvailability::NotAssessed
    );
}

fn grown(pid: u32, name: &str, rss: Option<u64>) -> ProcessResourceInterval {
    ProcessResourceInterval {
        key: key(pid),
        name: name.into(),
        major_faults: Some(0),
        rss_growth_bytes: rss,
        block_io_delay_ticks: Some(0),
    }
}

#[test]
fn memory_suspects_rank_growth_and_ignore_static_or_unknown_rss() {
    let mut t = telemetry();
    t.process_resource_evidence = vec![
        grown(5, "five", Some(10)),
        grown(3, "three", Some(4_096)),
        grown(4, "four", Some(10)),
        grown(6, "six", Some(0)),
    ];
    let r = memory_suspects(Some(&t), Some(Confidence::High), None);
    assert_eq!(r.role, ProcessRole::MemorySuspect);
    assert_eq!(r.completeness, ProcessRoleCompleteness::Complete);
    let names: Vec<&str> = r.candidates.iter().map(|c| c.name.as_str()).collect();
    assert_eq!(names, vec!["three", "four", "five"]);
    assert!(r.candidates.iter().all(|c| c.confidence == Confidence::Low));
    assert_eq!(r.candidates[0].label, "rss_growth_memory_suspect");
    assert_eq!(r.candidates[0].evidence, ProcessCandidateEvidence::RssGrowth { rss_growth_bytes: 4_096 });

    t.process_resource_evidence.push(grown(7, "seven", None));
    let r = memory_suspects(Some(&t), Some(Confidence::High), None);
    assert_eq!(r.completeness, ProcessRoleCompleteness::Partial);

    t.resource_capability = ProcessResourceCapability::NotRecorded;
    let r = memory_suspects(Some(&t), Some(Confidence::High), None);
    assert_eq!(r.completeness, ProcessRoleCompleteness::Unavailable);
    assert!(r.candidates.is_empty());
    assert_eq!(
        memory_suspects(Some(&t), None, None).availability,
        ProcessCandidateAvailability::NotAssessed
    );
}

#[test]
fn rss_cap_is_partial() {
    let mut t = telemetry();
    t.collection_issues.limit_reached = true;
    t.process_resource_evidence = vec![grown(1, "one", Some(0))];
    assert_eq!(
        memory_suspects(Some(&t), Some(Confidence::Low), None).completeness,
        ProcessRoleCompleteness::Partial
    );
}

fn empty_telemetry() -> ProcessTelemetry {
    ProcessTelemetry {
        resource_capability: ProcessResourceCapability::Available,
        task_stat_capability: TaskstatsCapability::Unavailable,
        taskstats_capability: TaskstatsCapability::Unavailable,
        delay_accounting: DelayAccountingState::Unknown,
        taskstats: vec![],
        process_resource_evidence: vec![],
        collection_issues: ProcessCollectionIssues::default(),
        processes: vec![],
        scheduler_delay_candidates: vec![],
        schedstat_capability: TaskstatsCapability::Available,
    }
}

#[test]
fn taskstats_only_io_victim_is_retained_without_procfs_key() {
    let mut t = empty_telemetry();
    t.taskstats_capability = TaskstatsCapability::Partial;
    t.taskstats.push(TaskstatsInterval {
        key: key(7),
        cpu_delay_ns: None,
        block_io_delay_ns: Some(4),
        swapin_delay_ns: None,
        reclaim_delay_ns: None,
        thrashing_delay_ns: None,
        compaction_delay_ns: None,
        write_protect_copy_delay_ns: None,
        field_support: TaskstatsFieldSupport { block_io_delay: true, ..Default::default() },
    });
    let io = io_victims(Some(&t), Some(Confidence::Medium), None);
    assert_eq!(io.candidates[0].key, key(7));
    assert_eq!(io.completeness, ProcessRoleCompleteness::Partial);
}

#[test]
fn missing_procfs_block_delay_cannot_complete_io_negative() {
    let mut t = empty_telemetry();
    t.delay_accounting = DelayAccountingState::Enabled;
    t.task_stat_capability = TaskstatsCapability::Available;
    t.process_resource_evidence = vec![ProcessResourceInterval {
        key: key(1),
        name: "p1".into(),
        major_faults: Some(0),
        rss_growth_bytes: Some(0),
        block_io_delay_ticks: None,
    }];
    assert_eq!(
        io_victims(Some(&t), Some(Confidence::Low), None).completeness,
        ProcessRoleCompleteness::Partial
    );
    t.process_resource_evidence[0].block_io_delay_ticks = Some(0);
    let complete = io_victims(Some(&t), Some(Confidence::Low), None);
    assert_eq!(complete.completeness, ProcessRoleCompleteness::Complete);
    assert!(complete.candidates.is_empty());
}

#[test]
fn io_victims_rank_taskstats_delay_before_procfs_delay() {
    let mut t = empty_telemetry();
    t.taskstats_capability = TaskstatsCapability::Available;
    let block = |pid: u32, ns: u64| TaskstatsInterval {
        key: key(pid),
        cpu_delay_ns: None,
        block_io_delay_ns: Some(ns),
        swapin_delay_ns: None,
        reclaim_delay_ns: None,
        thrashing_delay_ns: None,
        compaction_delay_ns: None,
        write_protect_copy_delay_ns: None,
        field_support: TaskstatsFieldSupport { block_io_delay: true, ..Default::default() },
    };
    t.taskstats = vec![block(3, 10), block(2, 50), block(2, 5)];
    t.process_resource_evidence = vec![
        ProcessResourceInterval { key: key(9), name: "nine".into(), major_faults: None, rss_growth_bytes: None, block_io_delay_ticks: Some(900) },
        ProcessResourceInterval { key: key(3), name: "three".into(), major_faults: None, rss_growth_bytes: None, block_io_delay_ticks: Some(1) },
    ];
    let r = io_victims(Some(&t), Some(Confidence::High), None);
    let pids: Vec<u32> = r.candidates.iter().map(|c| c.key.pid).collect();
    assert_eq!(pids, vec![3, 2, 9]);
    assert_eq!(r.candidates[0].confidence, Confidence::High);
    assert_eq!(r.candidates[0].name, "three");
    assert_eq!(r.candidates[0].label, "observed_taskstats_block_io_delay_victim_candidate");
    assert_eq!(
        r.candidates[1].evidence,
        ProcessCandidateEvidence::BlockIoDelay { block_io_delay_ns: Some(5), procfs_block_io_delay_ticks: None }
    );
    assert_eq!(r.candidates[2].confidence, Confidence::Medium);
    assert_eq!(r.candidates[2].label, "observed_procfs_block_io_delay_victim_candidate");
    assert_eq!(r.candidates[1].name, "pid-2");
}

fn delay(pid: u32, wait: u64) -> ProcessSchedulerDelayInterval {
    ProcessSchedulerDelayInterval { key: key(pid), name: format!("p{pid}"), runnable_wait_ns: wait, task_count: 1 }
}

fn cpu_delay(pid: u32, ns: u64) -> TaskstatsInterval {
    TaskstatsInterval {
        key: key(pid),
        cpu_delay_ns: Some(ns),
        block_io_delay_ns: None,
        swapin_delay_ns: None,
        reclaim_delay_ns: None,
        thrashing_delay_ns: None,
        compaction_delay_ns: None,
        write_protect_copy_delay_ns: None,
        field_support: TaskstatsFieldSupport { cpu_delay: true, ..Default::default() },
    }
}

#[test]
fn cpu_victims_rank_schedstat_waits_then_taskstats_delays() {
    let mut t = empty_telemetry();
    t.schedstat_capability = TaskstatsCapability::Available;
    t.scheduler_delay_candidates = (1..=6).rev().map(|pid| delay(pid, 100)).collect();
    let r = cpu_victims(Some(&t), Some(Confidence::High), None);
    let pids: Vec<u32> = r.candidates.iter().map(|c| c.key.pid).collect();
    assert_eq!(pids, vec![1, 2, 3, 4, 5]);
    assert_eq!(r.completeness, ProcessRoleCompleteness::Complete);
    assert_eq!(r.candidates[0].label, "observed_runnable_delay_victim_candidate");

    let mut t = empty_telemetry();
    t.schedstat_capability = TaskstatsCapability::Partial;
    t.taskstats_capability = TaskstatsCapability::Partial;
    t.scheduler_delay_candidates = vec![delay(2, 100), delay(1, 100), delay(3, 0)];
    t.taskstats = vec![cpu_delay(2, 7), cpu_delay(9, 5_000), cpu_delay(1, 0)];
    let r = cpu_victims(Some(&t), Some(Confidence::Medium), None);
    let pids: Vec<u32> = r.candidates.iter().map(|c| c.key.pid).collect();
    assert_eq!(pids, vec![1, 2, 9]);
    assert_eq!(r.completeness, ProcessRoleCompleteness::Partial);
    assert_eq!(
        r.candidates[1].evidence,
        ProcessCandidateEvidence::RunnableDelay { runnable_wait_ns: 100, stable_task_count: 1, taskstats_cpu_delay_ns: Some(7) }
    );
    assert_eq!(r.candidates[2].label, "observed_taskstats_cpu_delay_victim_candidate");
    assert_eq!(r.candidates[2].name, "pid-9");
    assert!(r.candidates.iter().all(|c| c.confidence == Confidence::Medium));

    assert_eq!(
        cpu_victims(None, Some(Confidence::Low), None).availability,
        ProcessCandidateAvailability::UnavailableOrIncomplete
    );
}
