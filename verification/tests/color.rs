use stallhunt::analysis::Severity;
use stallhunt::color::{paint_with, resolve_with, ColorPolicy};

#[test]
fn no_color_flag_and_env_both_force_never() {
    assert_eq!(resolve_with(false, false), ColorPolicy::Auto);
    assert_eq!(resolve_with(true, false), ColorPolicy::Never);
    assert_eq!(resolve_with(false, true), ColorPolicy::Never);
    assert_eq!(resolve_with(true, true), ColorPolicy::Never);
}

#[test]
fn forced_on_paints_and_never_stays_plain() {
    assert_eq!(
        ColorPolicy::ForcedOn.severity(Severity::High, "high"),
        "\u{1b}[31mhigh\u{1b}[0m"
    );
    assert_eq!(
        ColorPolicy::ForcedOn.severity(Severity::Moderate, "moderate"),
        "\u{1b}[33mmoderate\u{1b}[0m"
    );
    assert_eq!(
        ColorPolicy::ForcedOn.severity(Severity::Low, "low"),
        "\u{1b}[36mlow\u{1b}[0m"
    );
    assert_eq!(
        ColorPolicy::ForcedOn.severity(Severity::Negligible, "healthy"),
        "\u{1b}[32mhealthy\u{1b}[0m"
    );
    assert_eq!(ColorPolicy::Never.severity(Severity::High, "high"), "high");
    assert_eq!(ColorPolicy::ForcedOn.bold("x"), "\u{1b}[1mx\u{1b}[0m");
    assert_eq!(ColorPolicy::Never.bold("x"), "x");
}

#[test]
fn painting_wraps_only_when_enabled() {
    assert_eq!(paint_with(true, "<", "text"), "<text\u{1b}[0m");
    assert_eq!(paint_with(false, "<", "text"), "text");
    assert_eq!(ColorPolicy::ForcedOn.severity(Severity::Severe, ""), "\u{1b}[31m\u{1b}[0m");
    assert!(!ColorPolicy::Never.enabled());
    assert!(ColorPolicy::ForcedOn.enabled());
}
