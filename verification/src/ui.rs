//! Small pure helpers used by the interactive views: cyclic list
//! navigation and report-period cycling.

use vstd::prelude::*;

use crate::domain::ReportPeriod;

verus! {

/// The period shown before `period` in the report cycle
/// Today -> Week -> Month -> Today.
pub fn report_period_prev(period: ReportPeriod) -> (r: ReportPeriod)
    ensures
        period == ReportPeriod::Today ==> r == ReportPeriod::Month,
        period == ReportPeriod::Week ==> r == ReportPeriod::Today,
        period == ReportPeriod::Month ==> r == ReportPeriod::Week,
{
    match period {
        ReportPeriod::Today => ReportPeriod::Month,
        ReportPeriod::Week => ReportPeriod::Today,
        ReportPeriod::Month => ReportPeriod::Week,
    }
}

/// The period shown after `period` in the report cycle
/// Today -> Week -> Month -> Today.
pub fn report_period_next(period: ReportPeriod) -> (r: ReportPeriod)
    ensures
        period == ReportPeriod::Today ==> r == ReportPeriod::Week,
        period == ReportPeriod::Week ==> r == ReportPeriod::Month,
        period == ReportPeriod::Month ==> r == ReportPeriod::Today,
{
    match period {
        ReportPeriod::Today => ReportPeriod::Week,
        ReportPeriod::Week => ReportPeriod::Month,
        ReportPeriod::Month => ReportPeriod::Today,
    }
}

/// The index before `current` in a cyclic list of `len` entries;
/// 0 when the list is empty.
pub fn wrap_prev_index(current: usize, len: usize) -> (r: usize)
    ensures
        len == 0 ==> r == 0,
        len > 0 && current == 0 ==> r == len - 1,
        len > 0 && current > 0 ==> r == current - 1,
{
    if len == 0 {
        0
    } else if current == 0 {
        len - 1
    } else {
        current - 1
    }
}

/// The index after `current` in a cyclic list of `len` entries;
/// 0 when the list is empty or `current` is at (or past) the end.
pub fn wrap_next_index(current: usize, len: usize) -> (r: usize)
    ensures
        len == 0 ==> r == 0,
        len > 0 && current + 1 >= len ==> r == 0,
        len > 0 && current + 1 < len ==> r == current + 1,
{
    if len == 0 {
        0
    } else if current >= len - 1 {
        0
    } else {
        current + 1
    }
}

} // verus!
