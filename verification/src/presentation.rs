//! Presentation vocabulary shared by compact text and the watch view: status
//! and state labels, severity and confidence names, and terminal-safe text.
//! Nothing here collects telemetry or makes a new inference.

use vstd::prelude::*;
use crate::analysis::{CgroupMechanism, Confidence, Severity};
use crate::text::{chars_of, push_char, string_of};

verus! {

#[derive(Debug, Clone, Copy, PartialEq, Eq, Structural)]
pub enum OverallStatus {
    Healthy,
    Degraded,
    Incomplete,
}

impl OverallStatus {
    pub fn label(self) -> (s: &'static str)
        ensures
            s@ == match self {
                OverallStatus::Healthy => "HEALTHY"@,
                OverallStatus::Degraded => "DEGRADED"@,
                OverallStatus::Incomplete => "INCOMPLETE"@,
            },
    {
        match self {
            OverallStatus::Healthy => "HEALTHY",
            OverallStatus::Degraded => "DEGRADED",
            OverallStatus::Incomplete => "INCOMPLETE",
        }
    }
}

#[derive(Debug, Clone, Copy, PartialEq, Eq, Structural)]
pub enum ResourceState {
    Healthy,
    Pressure,
    Inconclusive,
    Unavailable,
}

impl ResourceState {
    pub fn label(self) -> (s: &'static str)
        ensures
            s@ == match self {
                ResourceState::Healthy => "healthy"@,
                ResourceState::Pressure => "pressure"@,
                ResourceState::Inconclusive => "inconclusive"@,
                ResourceState::Unavailable => "unavailable"@,
            },
    {
        match self {
            ResourceState::Healthy => "healthy",
            ResourceState::Pressure => "pressure",
            ResourceState::Inconclusive => "inconclusive",
            ResourceState::Unavailable => "unavailable",
        }
    }
}

#[derive(Debug, Clone, PartialEq, Eq)]
pub struct CandidateView {
    pub name: String,
    pub metric: String,
    pub confidence: Confidence,
}

#[derive(Debug, Clone, PartialEq, Eq)]
pub struct ChainView {
    pub summary: String,
    pub confidence: Confidence,
}

pub fn mechanism_label(mechanism: CgroupMechanism) -> (s: &'static str)
    ensures
        s@ == match mechanism {
            CgroupMechanism::Reclaim => "reclaim"@,
            CgroupMechanism::Swap => "swap"@,
            CgroupMechanism::PossibleThrashing => "possible thrashing"@,
            CgroupMechanism::CpuQuotaThrottle => "CPU quota throttle"@,
        },
{
    match mechanism {
        CgroupMechanism::Reclaim => "reclaim",
        CgroupMechanism::Swap => "swap",
        CgroupMechanism::PossibleThrashing => "possible thrashing",
        CgroupMechanism::CpuQuotaThrottle => "CPU quota throttle",
    }
}

pub fn severity_name(severity: Severity) -> (s: &'static str)
    ensures
        s@ == match severity {
            Severity::Negligible => "none"@,
            Severity::Low => "low"@,
            Severity::Moderate => "moderate"@,
            Severity::High => "high"@,
            Severity::Severe => "severe"@,
        },
{
    match severity {
        Severity::Negligible => "none",
        Severity::Low => "low",
        Severity::Moderate => "moderate",
        Severity::High => "high",
        Severity::Severe => "severe",
    }
}

pub fn confidence_name(confidence: Confidence) -> (s: &'static str)
    ensures
        s@ == match confidence {
            Confidence::Low => "low"@,
            Confidence::Medium => "medium"@,
            Confidence::High => "high"@,
        },
{
    match confidence {
        Confidence::Low => "low",
        Confidence::Medium => "medium",
        Confidence::High => "high",
    }
}

pub fn severity_rank(severity: Severity) -> (r: u8)
    ensures
        r == crate::analysis::severity_level(severity),
{
    crate::analysis::severity_rank(severity)
}

pub fn confidence_rank(confidence: Confidence) -> (r: u8)
    ensures
        r == crate::analysis::confidence_level(confidence),
{
    crate::analysis::confidence_rank(confidence)
}

/// `char::is_control`: the Unicode general category Cc, that is U+0000 to
/// U+001F and U+007F to U+009F.
pub open spec fn is_control(c: char) -> bool {
    (c as u32) <= 0x1F || (0x7F <= (c as u32) && (c as u32) <= 0x9F)
}

pub open spec fn visible(c: char) -> char {
    if is_control(c) {
        '\u{fffd}'
    } else {
        c
    }
}

/// At most `max_chars` characters with control characters replaced, an
/// ellipsis when characters were cut, and `<unnamed>` for nothing at all.
pub open spec fn terminal_form(value: Seq<char>, max_chars: nat) -> Seq<char> {
    let kept = if value.len() > max_chars {
        value.take(max_chars as int)
    } else {
        value
    };
    let shown = kept.map_values(|c: char| visible(c)) + if value.len() > max_chars {
        seq!['…']
    } else {
        Seq::empty()
    };
    if shown.len() == 0 {
        "<unnamed>"@
    } else {
        shown
    }
}

pub fn terminal_text(value: &str, max_chars: usize) -> (s: String)
    ensures
        s@ == terminal_form(value@, max_chars as nat),
{
    let chars = chars_of(value);
    let limit = if chars.len() > max_chars {
        max_chars
    } else {
        chars.len()
    };
    let mut rendered = String::new();
    let mut i: usize = 0;
    while i < limit
        invariant
            i <= limit <= chars@.len(),
            rendered@ == chars@.take(i as int).map_values(|c: char| visible(c)),
        decreases limit - i,
    {
        let c = chars[i];
        let v = c as u32;
        let shown = if v <= 0x1F || (0x7F <= v && v <= 0x9F) {
            '\u{fffd}'
        } else {
            c
        };
        push_char(&mut rendered, shown);
        assert(chars@.take(i + 1).map_values(|c: char| visible(c)) =~= chars@.take(
            i as int,
        ).map_values(|c: char| visible(c)).push(visible(chars@[i as int])));
        i += 1;
    }
    if chars.len() > max_chars {
        push_char(&mut rendered, '…');
    }
    proof {
        if chars@.len() <= max_chars {
            assert(chars@.take(i as int) =~= chars@);
        }
        assert(chars@ == value@);
    }
    if chars.len() == 0 {
        let mut unnamed = String::new();
        crate::text::append_str(&mut unnamed, "<unnamed>");
        return unnamed;
    }
    rendered
}


/// Terminal text never holds a control character and never exceeds the
/// limit by more than the ellipsis (or is the `<unnamed>` placeholder).
pub proof fn lemma_terminal_form_is_safe(value: Seq<char>, max_chars: nat)
    ensures
        forall|i: int|
            0 <= i < terminal_form(value, max_chars).len() ==> !is_control(
                #[trigger] terminal_form(value, max_chars)[i],
            ),
        terminal_form(value, max_chars).len() <= max_chars + 1 || terminal_form(value, max_chars)
            == "<unnamed>"@,
{
    reveal_strlit("<unnamed>");
    let kept = if value.len() > max_chars {
        value.take(max_chars as int)
    } else {
        value
    };
    let shown = kept.map_values(|c: char| visible(c)) + if value.len() > max_chars {
        seq!['…']
    } else {
        Seq::empty()
    };
    assert forall|i: int| 0 <= i < shown.len() implies !is_control(#[trigger] shown[i]) by {
        if i < kept.len() {
            assert(shown[i] == visible(kept[i]));
        }
    }
}

} // verus!
