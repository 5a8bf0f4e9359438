use stallhunt::psi::cpu_psi_probe_capability;
use stallhunt::psi::{
    classify_read_error, cpu_psi_total_delta, parse_cpu_psi_fields, CpuPsiCapability, CpuPsiError,
};
use stallhunt::read_error::ReadErrorKind;

#[test]
fn read_errors_map_to_explicit_capability_states() {
    assert_eq!(
        classify_read_error(ReadErrorKind::NotFound),
        CpuPsiError::Unsupported
    );
    assert_eq!(
        classify_read_error(ReadErrorKind::PermissionDenied),
        CpuPsiError::PermissionDenied
    );
    assert_eq!(
        classify_read_error(ReadErrorKind::Other),
        CpuPsiError::Unreadable
    );
}

#[test]
fn psi_errors_name_their_capability() {
    assert_eq!(CpuPsiError::Malformed.capability(), CpuPsiCapability::Failed);
    assert_eq!(CpuPsiError::CounterRegressed.capability(), CpuPsiCapability::Available);
    assert_eq!(CpuPsiCapability::PermissionDenied.as_str(), "permission_denied");
    assert_eq!(
        CpuPsiError::DeltaExceedsElapsed.explanation(),
        "CPU PSI cumulative delta exceeded the measured observation interval."
    );
}

#[test]
fn cpu_psi_delta_is_checked_against_the_window() {
    assert_eq!(cpu_psi_total_delta(100, 2_100, 10_000), Ok(2_000));
    assert_eq!(cpu_psi_total_delta(100, 99, 10_000), Err(CpuPsiError::CounterRegressed));
    assert_eq!(cpu_psi_total_delta(0, 10_001, 10_000), Err(CpuPsiError::DeltaExceedsElapsed));
    assert_eq!(cpu_psi_total_delta(0, 0, 0), Err(CpuPsiError::EmptyInterval));
}

#[test]
fn cpu_psi_structure_keeps_average_text_and_total() {
    let fields = parse_cpu_psi_fields(
        "some avg10=1.50 avg60=0.25 avg300=0.00 total=123456 extra=1\nfull avg10=0.00 avg60=0.00 avg300=0.00 total=0\n",
    )
    .unwrap();
    assert_eq!(fields.avg10, "1.50");
    assert_eq!(fields.avg300, "0.00");
    assert_eq!(fields.total_us, 123456);
    for invalid in [
        "",
        "full avg10=0 avg60=0 avg300=0 total=0\n",
        "some avg10=0 avg60=0 avg300=0\n",
        "some avg10=0 avg10=0 avg60=0 avg300=0 total=1\n",
        "some avg10=0 avg60=0 avg300=0 total=x\n",
        "some avg10 avg60=0 avg300=0 total=1\n",
        "some avg10=0 avg60=0 avg300=0 total=1\nsome avg10=0 avg60=0 avg300=0 total=1\n",
        "some avg10=0 avg60=0 avg300=0 total=1\nfull total=0\nfull total=0\n",
        "other avg10=0\n",
    ] {
        assert_eq!(parse_cpu_psi_fields(invalid), Err(CpuPsiError::Malformed));
    }
}

#[test]
fn cpu_psi_probe_reports_available_or_the_error() {
    assert_eq!(cpu_psi_probe_capability::<u64>(&Ok(1)), CpuPsiCapability::Available);
    assert_eq!(cpu_psi_probe_capability::<u64>(&Err(CpuPsiError::Unsupported)), CpuPsiCapability::Unsupported);
    assert_eq!(cpu_psi_probe_capability::<u64>(&Err(CpuPsiError::PermissionDenied)), CpuPsiCapability::PermissionDenied);
    assert_eq!(cpu_psi_probe_capability::<u64>(&Err(CpuPsiError::Malformed)), CpuPsiCapability::Failed);
}
