//! Threshold classification: compares the latest sample against warning and
//! critical levels and selects the color signal and exit code for the bar host.

use vstd::prelude::*;

verus! {

/// Exit code reserved to signal a critical threshold breach to the bar host.
pub const CRITICAL_EXIT_CODE: i32 = 33;

/// Alert level for the latest sample; `Critical` takes precedence over
/// `Warning` when both thresholds are crossed.
#[derive(Clone, Copy, Debug, PartialEq, Eq, Structural)]
pub enum Alert {
    Normal,
    Warning,
    Critical,
}

/// Alert level owed for `value` given the two thresholds, in thousandths.
pub open spec fn spec_classify(value: i64, warn: i64, crit: i64) -> Alert {
    if value >= crit {
        Alert::Critical
    } else if value >= warn {
        Alert::Warning
    } else {
        Alert::Normal
    }
}

/// Classifies the latest sample `value` against the `warn` and `crit`
/// thresholds; all three are fixed-point values in thousandths.
pub fn classify(value: i64, warn: i64, crit: i64) -> (r: Alert)
    ensures
        r == spec_classify(value, warn, crit),
{
    if value >= crit {
        Alert::Critical
    } else if value >= warn {
        Alert::Warning
    } else {
        Alert::Normal
    }
}

/// Hex color line for an alert level, or `None` when no color line is owed.
pub fn alert_color(a: Alert) -> (r: Option<&'static str>)
    ensures
        a == Alert::Critical ==> (r matches Some(c) && c@ == "#FF0000"@),
        a == Alert::Warning ==> (r matches Some(c) && c@ == "#FFFC00"@),
        a == Alert::Normal ==> r is None,
{
    match a {
        Alert::Critical => Some("#FF0000"),
        Alert::Warning => Some("#FFFC00"),
        Alert::Normal => None,
    }
}

/// Whether the process must exit with [`CRITICAL_EXIT_CODE`].
pub fn is_critical(a: Alert) -> (r: bool)
    ensures
        r == (a == Alert::Critical),
{
    match a {
        Alert::Critical => true,
        _ => false,
    }
}

} // verus!
