//! Mapping of user-facing chart intervals to the data source's interval names.

use crate::text::str_eq;
use vstd::prelude::*;

verus! {

/// The data-source interval name for a user-facing interval string.
pub open spec fn interval_constant(s: Seq<char>) -> Seq<char> {
    if s == "1m"@ || s == "5m"@ || s == "15m"@ || s == "30m"@ {
        "ONE_MINUTE"@
    } else if s == "1H"@ || s == "2H"@ || s == "4H"@ {
        "ONE_HOUR"@
    } else if s == "1D"@ || s == "2D"@ || s == "3D"@ {
        "ONE_DAY"@
    } else if s == "1W"@ || s == "2W"@ || s == "1M"@ {
        "ONE_WEEK"@
    } else {
        "ONE_DAY"@
    }
}

/// Converts an interval such as "5m", "4H", "1D" or "1W" to the interval
/// constant the quote endpoint expects; anything unknown means one day.
pub fn interval_to_constant(interval: &str) -> (r: &'static str)
    ensures
        r@ == interval_constant(interval@),
{
    if str_eq(interval, "1m") || str_eq(interval, "5m") || str_eq(interval, "15m") || str_eq(
        interval,
        "30m",
    ) {
        "ONE_MINUTE"
    } else if str_eq(interval, "1H") || str_eq(interval, "2H") || str_eq(interval, "4H") {
        "ONE_HOUR"
    } else if str_eq(interval, "1D") || str_eq(interval, "2D") || str_eq(interval, "3D") {
        "ONE_DAY"
    } else if str_eq(interval, "1W") || str_eq(interval, "2W") || str_eq(interval, "1M") {
        "ONE_WEEK"
    } else {
        "ONE_DAY"
    }
}

} // verus!
