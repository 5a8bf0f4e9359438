use stallhunt::analysis::{IoAssessmentKind, Severity};
use stallhunt::cgroup::{
    CgroupCollectionIssues, CgroupFileState, CgroupInterval, CgroupObservation,
    CgroupProcessMember, CgroupPsiInterval, CgroupPsiIntervalState, CgroupResource,
};
use stallhunt::cgroup_analysis::PsiGrade;
use stallhunt::host_analysis::{analyze_io, io_pressure_confidence, FullStall, StallEvidence};
use stallhunt::io::{
    BlockDeviceKey, DiskstatsInterval, DiskstatsIntervalIssues, DiskstatsObservation,
    IoCapability, ProcessIoCollectionIssues, ProcessIoInterval, ProcessIoObservation,
};
use stallhunt::memory::{
    MeminfoRaw, MemoryContextCapability, MemoryContextObservation, VmstatCounter,
    VmstatIntervalIssues,
};
use stallhunt::observe::{HuntObservation, IoHuntObservation, MemoryHuntObservation};
use stallhunt::process::ProcessKey;
use stallhunt::record::{
    observation_from_recording, recording_from_observation, validate_header, within_decode_limit,
    Redaction, MAX_RECORDING_BYTES, RECORDING_KIND, RECORDING_SCHEMA_VERSION,
};

const ELAPSED_NS: u64 = 10_000_000_000;

#[derive(Debug, Clone, Copy, PartialEq)]
struct CpuSample {
    some_fraction: f64,
}

fn missing<T>() -> CgroupResource<T> {
    CgroupResource {
        state: CgroupFileState::Missing,
        value: None,
    }
}

fn sample_observation() -> HuntObservation<CpuSample> {
    let stall = |full| StallEvidence {
        requested_ns: ELAPSED_NS,
        elapsed_ns: ELAPSED_NS,
        some_total_delta_us: 1_500_000,
        full,
    };
    HuntObservation {
        psi: Ok(CpuSample { some_fraction: 0.2 }),
        memory: MemoryHuntObservation {
            psi: Some(stall(FullStall::Missing)),
            context: Ok(MemoryContextObservation {
                elapsed_ns: ELAPSED_NS,
                end_meminfo: Some(MeminfoRaw {
                    mem_total_bytes: 8_000_000,
                    mem_available_bytes: 4_000_000,
                    swap_total_bytes: 0,
                    swap_free_bytes: 0,
                    cached_bytes: None,
                    sreclaimable_bytes: None,
                    anon_pages_bytes: None,
                }),
                meminfo_capability: MemoryContextCapability::Available,
                vmstat_capability: MemoryContextCapability::Available,
                vmstat_deltas: vec![(VmstatCounter::PageFaults, 0)],
                vmstat_issues: VmstatIntervalIssues::default(),
            }),
        },
        io: IoHuntObservation {
            psi: Some(stall(FullStall::Available {
                total_delta_us: 100_000,
            })),
            diskstats: Ok(DiskstatsObservation {
                elapsed_ns: ELAPSED_NS,
                capability: IoCapability::Available,
                devices: vec![DiskstatsInterval {
                    key: BlockDeviceKey { major: 8, minor: 0 },
                    name: "sda".into(),
                    reads_completed: Some(10),
                    sectors_read_512: Some(8_192),
                    writes_completed: Some(20),
                    sectors_written_512: Some(16_384),
                    io_ticks_ms: Some(400),
                    weighted_io_ticks_ms: Some(500),
                    end_in_flight: 1,
                }],
                issues: DiskstatsIntervalIssues {
                    start_error: None,
                    end_error: None,
                    appeared: vec![],
                    exited: vec![],
                    identity_changed: vec![],
                    regressed: vec![],
                    limit_reached: false,
                },
            }),
            processes: Ok(ProcessIoObservation {
                elapsed_ns: ELAPSED_NS,
                capability: IoCapability::Available,
                processes: vec![ProcessIoInterval {
                    key: ProcessKey {
                        pid: 7,
                        start_time_ticks: 3,
                    },
                    name: "restic".into(),
                    read_bytes: Some(100),
                    write_bytes: Some(200),
                    cancelled_write_bytes: None,
                    rchar: None,
                    wchar: None,
                }],
                issues: ProcessIoCollectionIssues::default(),
                regressed: vec![],
            }),
        },
        cgroup: Ok(CgroupObservation {
            elapsed_ns: ELAPSED_NS,
            members: vec![CgroupProcessMember {
                key: ProcessKey {
                    pid: 42,
                    start_time_ticks: 7,
                },
                name: "secret-worker".into(),
                cgroup_path: "/user.slice/app.service".into(),
            }],
            issues: CgroupCollectionIssues::default(),
            groups: vec![CgroupInterval {
                path: "/user.slice/app.service".into(),
                cpu: missing(),
                memory_current_end: missing(),
                memory_events: missing(),
                memory_stat: missing(),
                io: missing(),
                cpu_pressure: CgroupResource {
                    state: CgroupFileState::Available,
                    value: Some(CgroupPsiInterval {
                        elapsed_ns: Some(ELAPSED_NS),
                        some_total_usec: Some(2_000_000),
                        full_total_usec: None,
                        state: CgroupPsiIntervalState::Available,
                    }),
                },
                memory_pressure: missing(),
                io_pressure: missing(),
                systemd_unit_candidate: Some("app.service".into()),
            }],
        }),
    }
}

fn io_grade() -> PsiGrade {
    PsiGrade {
        some_severity: Severity::Moderate,
        full_material: false,
    }
}

fn io_findings(observation: &HuntObservation<CpuSample>) -> stallhunt::host_analysis::IoAnalysisResult {
    analyze_io(
        observation.io.psi.as_ref(),
        io_grade(),
        observation.io.diskstats.as_ref().ok(),
        observation.io.processes.as_ref().ok(),
    )
}

#[test]
fn round_trip_preserves_analysis() {
    let original = sample_observation();
    let recording = recording_from_observation(
        &original,
        10_000,
        Redaction::Unredacted,
        "0.1.0".into(),
        Some(1),
    )
    .expect("encode");
    let restored = observation_from_recording(&recording).expect("decode");
    let original_io = io_findings(&original);
    let restored_io = io_findings(&restored);
    assert!(!original_io.findings.is_empty());
    assert_eq!(original_io.findings, restored_io.findings);
    assert_eq!(restored.psi, Ok(CpuSample { some_fraction: 0.2 }));
    let cgroup = restored.cgroup.as_ref().unwrap();
    assert_eq!(cgroup.members[0].name, "secret-worker");
    assert_eq!(
        cgroup.groups[0].cpu_pressure.value.as_ref().unwrap().elapsed_ns,
        Some(ELAPSED_NS)
    );
    assert_eq!(
        restored.memory.context.as_ref().unwrap().elapsed_ns,
        ELAPSED_NS
    );
    assert_eq!(restored, original);
}

#[test]
fn redaction_replaces_identifiers_without_changing_verdicts() {
    let original = sample_observation();
    let recording = recording_from_observation(
        &original,
        10_000,
        Redaction::Identifiers,
        "0.1.0".into(),
        None,
    )
    .expect("encode");
    let restored = observation_from_recording(&recording).expect("decode");
    let original_io = &io_findings(&original).findings[0];
    let restored_io = &io_findings(&restored).findings[0];
    assert_eq!(recording.redaction, Redaction::Identifiers);
    assert_eq!(original_io.kind, restored_io.kind);
    assert_eq!(original_io.severity, restored_io.severity);
    assert_eq!(
        restored.io.processes.as_ref().unwrap().processes[0].name,
        "pid-7"
    );
    assert_eq!(
        restored.io.diskstats.as_ref().unwrap().devices[0].name,
        "dev-8-0"
    );
    let cgroup = restored.cgroup.as_ref().unwrap();
    assert_eq!(cgroup.groups[0].path, "/c0/c1");
    assert_eq!(cgroup.members[0].cgroup_path, "/c0/c1");
    assert_eq!(cgroup.members[0].name, "pid-42");
    assert_eq!(
        cgroup.groups[0].systemd_unit_candidate.as_deref(),
        Some("redacted.service")
    );
    assert!(!format!("{recording:?}").contains("secret-worker"));
    assert!(!format!("{recording:?}").contains("restic"));
}

#[test]
fn unknown_schema_is_rejected() {
    let mut recording = recording_from_observation(
        &sample_observation(),
        10_000,
        Redaction::Unredacted,
        "0.1.0".into(),
        None,
    )
    .expect("encode");
    assert!(validate_header(&recording).is_ok());
    recording.schema_version = 99;
    let error = validate_header(&recording).unwrap_err();
    assert!(error.message().contains("unsupported recording schema_version"));
    assert_eq!(
        error.message(),
        "unsupported recording schema_version 99; this tool reads version 1"
    );
    assert!(observation_from_recording(&recording).is_err());
}

#[test]
fn foreign_kind_is_rejected_before_the_version() {
    let mut recording = recording_from_observation(
        &sample_observation(),
        10_000,
        Redaction::Unredacted,
        "0.1.0".into(),
        None,
    )
    .expect("encode");
    assert_eq!(recording.kind, RECORDING_KIND);
    assert_eq!(recording.schema_version, RECORDING_SCHEMA_VERSION);
    recording.kind = "hunt".into();
    recording.schema_version = 7;
    assert_eq!(
        validate_header(&recording).unwrap_err().message(),
        "unsupported recording kind 'hunt'; expected 'bottleneck.recording'"
    );
}

#[test]
fn attribution_relies_only_on_established_io_pressure() {
    let pressured = io_findings(&sample_observation());
    assert_eq!(pressured.findings[0].kind, IoAssessmentKind::Pressure);
    assert_eq!(
        io_pressure_confidence(&pressured),
        Some(pressured.findings[0].resource_confidence)
    );
    let calm = analyze_io(
        None,
        PsiGrade {
            some_severity: Severity::Negligible,
            full_material: false,
        },
        None,
        None,
    );
    assert_eq!(io_pressure_confidence(&calm), None);
}

#[test]
fn recordings_beyond_the_decode_limit_are_refused() {
    assert!(within_decode_limit(MAX_RECORDING_BYTES));
    assert!(!within_decode_limit(MAX_RECORDING_BYTES + 1));
    assert_eq!(MAX_RECORDING_BYTES, 32 * 1024 * 1024);
}
