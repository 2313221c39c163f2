use strata::domain::ReportPeriod;
use strata::ui::{report_period_next, report_period_prev, wrap_next_index, wrap_prev_index};

#[test]
fn test_wrap_prev_index_wraps_to_end() {
    assert_eq!(wrap_prev_index(0, 5), 4);
    assert_eq!(wrap_prev_index(3, 5), 2);
    assert_eq!(wrap_prev_index(0, 0), 0);
}

#[test]
fn test_wrap_next_index_wraps_to_start() {
    assert_eq!(wrap_next_index(4, 5), 0);
    assert_eq!(wrap_next_index(1, 5), 2);
    assert_eq!(wrap_next_index(0, 0), 0);
}

#[test]
fn report_period_cycles_forward() {
    assert_eq!(report_period_next(ReportPeriod::Today), ReportPeriod::Week);
    assert_eq!(report_period_next(ReportPeriod::Week), ReportPeriod::Month);
    assert_eq!(report_period_next(ReportPeriod::Month), ReportPeriod::Today);
}

#[test]
fn report_period_cycles_backward() {
    assert_eq!(report_period_prev(ReportPeriod::Today), ReportPeriod::Month);
    assert_eq!(report_period_prev(ReportPeriod::Week), ReportPeriod::Today);
    assert_eq!(report_period_prev(ReportPeriod::Month), ReportPeriod::Week);
}

#[test]
fn report_period_prev_undoes_next() {
    for period in [ReportPeriod::Today, ReportPeriod::Week, ReportPeriod::Month] {
        assert_eq!(report_period_prev(report_period_next(period)), period);
    }
}
