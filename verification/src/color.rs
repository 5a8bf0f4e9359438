//! Color policy for human-readable text output.
//!
//! Color is decorative only: status and severity words remain in the text, so
//! color is never the only carrier of meaning.

use vstd::prelude::*;
use crate::analysis::Severity;
use crate::text::append_str;

verus! {

pub const BOLD: &'static str = "\u{1b}[1m";
pub const RED: &'static str = "\u{1b}[31m";
pub const YELLOW: &'static str = "\u{1b}[33m";
pub const GREEN: &'static str = "\u{1b}[32m";
pub const CYAN: &'static str = "\u{1b}[36m";
pub const RESET: &'static str = "\u{1b}[0m";

/// When text output may carry ANSI color.
#[derive(Debug, Clone, Copy, PartialEq, Eq, Structural)]
pub enum ColorPolicy {
    /// Color only when stdout is a terminal.
    Auto,
    /// Never color.
    Never,
    /// Always color, regardless of the terminal.
    ForcedOn,
}

/// Whether standard output is a terminal (`IsTerminal::is_terminal` on
/// `std::io::stdout()`).  Nothing is promised of the answer: it depends on
/// how the process was started.
#[verifier::external_body]
fn stdout_is_terminal() -> bool {
    std::io::IsTerminal::is_terminal(&std::io::stdout())
}

/// `text` wrapped in `code` and the reset sequence when `enabled`, else the
/// text itself.
pub fn paint_with(enabled: bool, code: &str, text: &str) -> (s: String)
    ensures
        s@ == if enabled {
            code@ + text@ + RESET@
        } else {
            text@
        },
{
    let mut out = String::new();
    if enabled {
        append_str(&mut out, code);
        append_str(&mut out, text);
        append_str(&mut out, RESET);
    } else {
        append_str(&mut out, text);
    }
    out
}

/// The color of a severity: severe and high red, moderate yellow, low cyan,
/// none green.
pub open spec fn severity_code(severity: Severity) -> &'static str {
    match severity {
        Severity::Severe | Severity::High => RED,
        Severity::Moderate => YELLOW,
        Severity::Low => CYAN,
        Severity::Negligible => GREEN,
    }
}

impl ColorPolicy {
    /// Whether this policy colors: `Never` does not, `ForcedOn` does, and
    /// `Auto` does exactly when stdout is a terminal.
    pub fn enabled(self) -> (b: bool)
        ensures
            self == ColorPolicy::Never ==> !b,
            self == ColorPolicy::ForcedOn ==> b,
    {
        match self {
            ColorPolicy::Auto => stdout_is_terminal(),
            ColorPolicy::Never => false,
            ColorPolicy::ForcedOn => true,
        }
    }

    /// Wraps `text` in an ANSI `code` when the policy allows color.
    pub fn paint(self, code: &str, text: &str) -> (s: String)
        ensures
            self == ColorPolicy::Never ==> s@ == text@,
            self == ColorPolicy::ForcedOn ==> s@ == code@ + text@ + RESET@,
            s@ == text@ || s@ == code@ + text@ + RESET@,
    {
        paint_with(self.enabled(), code, text)
    }

    pub fn bold(self, text: &str) -> (s: String)
        ensures
            self == ColorPolicy::Never ==> s@ == text@,
            self == ColorPolicy::ForcedOn ==> s@ == BOLD@ + text@ + RESET@,
            s@ == text@ || s@ == BOLD@ + text@ + RESET@,
    {
        self.paint(BOLD, text)
    }

    /// Colors text by severity.
    pub fn severity(self, severity: Severity, text: &str) -> (s: String)
        ensures
            self == ColorPolicy::Never ==> s@ == text@,
            self == ColorPolicy::ForcedOn ==> s@ == severity_code(severity)@ + text@ + RESET@,
            s@ == text@ || s@ == severity_code(severity)@ + text@ + RESET@,
    {
        let code = match severity {
            Severity::Severe | Severity::High => RED,
            Severity::Moderate => YELLOW,
            Severity::Low => CYAN,
            Severity::Negligible => GREEN,
        };
        self.paint(code, text)
    }
}

/// The policy for one invocation: `--no-color` or a `NO_COLOR` environment
/// variable with any value disables color; otherwise color is automatic and
/// limited to terminals.
pub fn resolve_with(no_color_flag: bool, no_color_env: bool) -> (p: ColorPolicy)
    ensures
        p == if no_color_flag || no_color_env {
            ColorPolicy::Never
        } else {
            ColorPolicy::Auto
        },
{
    if no_color_flag || no_color_env {
        ColorPolicy::Never
    } else {
        ColorPolicy::Auto
    }
}

} // verus!
