//! Core identifiers and record types of the time-tracking domain.

use vstd::prelude::*;

verus! {

/// Stable, externally assigned handle for a work category.
///
/// Id 0 is reserved for the "no category" sentinel and is never treated
/// as a real work category.
#[derive(Clone, Copy, PartialEq, Eq, Hash, Debug, Structural)]
pub struct CategoryId(pub u64);

impl CategoryId {
    pub fn new(id: u64) -> (r: Self)
        ensures
            r == CategoryId(id),
    {
        CategoryId(id)
    }
}

/// One recorded tracking session, aggregated per category and day.
#[derive(Clone, Debug)]
pub struct Session {
    pub id: usize,
    pub date: String,
    pub category_id: CategoryId,
    pub description: String,
    pub start_time: String,
    pub end_time: String,
    pub elapsed_seconds: usize,
}

/// A single line of a plain time report.
#[derive(Debug, Clone)]
pub struct ReportEntry {
    pub category_name: String,
    pub elapsed_seconds: usize,
}

/// A plain time report for one date or date range.
#[derive(Debug, Clone)]
pub struct ReportSummary {
    pub date: String,
    pub entries: Vec<ReportEntry>,
    pub total_seconds: usize,
}

/// The time window a report covers.
#[derive(Clone, Copy, Debug, PartialEq, Eq, Structural)]
pub enum ReportPeriod {
    Today,
    Week,
    Month,
}

} // verus!
