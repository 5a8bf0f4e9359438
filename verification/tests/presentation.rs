use stallhunt::analysis::{CgroupMechanism, Confidence, Severity};
use stallhunt::presentation::{
    confidence_name, confidence_rank, mechanism_label, severity_name, severity_rank,
    terminal_text, OverallStatus, ResourceState,
};

#[test]
fn labels_and_names_are_stable() {
    assert_eq!(OverallStatus::Healthy.label(), "HEALTHY");
    assert_eq!(OverallStatus::Incomplete.label(), "INCOMPLETE");
    assert_eq!(ResourceState::Inconclusive.label(), "inconclusive");
    assert_eq!(severity_name(Severity::Negligible), "none");
    assert_eq!(severity_name(Severity::Severe), "severe");
    assert_eq!(confidence_name(Confidence::Medium), "medium");
    assert_eq!(mechanism_label(CgroupMechanism::CpuQuotaThrottle), "CPU quota throttle");
    assert_eq!(severity_rank(Severity::High), 3);
    assert_eq!(confidence_rank(Confidence::High), 2);
}

#[test]
fn terminal_text_truncates_and_replaces_controls() {
    assert_eq!(terminal_text("abc", 10), "abc");
    assert_eq!(terminal_text("abcdef", 3), "abc…");
    assert_eq!(terminal_text("a\u{7}b\u{85}", 10), "a\u{fffd}b\u{fffd}");
    assert_eq!(terminal_text("", 10), "<unnamed>");
    assert_eq!(terminal_text("xyz", 0), "…");
}
