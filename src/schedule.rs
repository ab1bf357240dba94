//! The reaper's schedule: a single recurring wake, created at most once.

use vstd::prelude::*;

verus! {

/// How often the reaper wakes: every second, in microseconds.
pub const CLEANUP_INTERVAL_MICROS: i64 = 1_000_000;

/// A recurring wake of the reaper.
#[derive(Clone, Copy, Debug, PartialEq, Eq, Structural)]
pub struct CleanupSchedule {
    /// The record's identifier; 0 leaves the choice to the store that keeps it.
    pub scheduled_id: u64,
    /// The time between two wakes, in microseconds.
    pub interval_micros: i64,
}

/// The record that initialization creates.
pub open spec fn initial_schedule() -> CleanupSchedule {
    CleanupSchedule { scheduled_id: 0, interval_micros: CLEANUP_INTERVAL_MICROS }
}

/// The schedule records that exist.
pub struct ScheduleTable {
    rows: Vec<CleanupSchedule>,
}

impl ScheduleTable {
    /// The records, in the order they were added.
    pub closed spec fn records(&self) -> Seq<CleanupSchedule> {
        self.rows@
    }

    /// A table that holds `rows`.
    pub fn from_rows(rows: Vec<CleanupSchedule>) -> (r: ScheduleTable)
        ensures
            r.records() == rows@,
    {
        ScheduleTable { rows }
    }

    /// The number of records.
    pub fn count(&self) -> (r: usize)
        ensures
            r == self.records().len(),
    {
        self.rows.len()
    }

    /// Creates the recurring wake unless a record already exists. Returns the
    /// record it created, or `None` where it left the table as it was.
    pub fn init(&mut self) -> (r: Option<CleanupSchedule>)
        ensures
            r is Some <==> old(self).records().len() == 0,
            r matches Some(s) ==> s == initial_schedule() && final(self).records() == seq![s],
            r is None ==> final(self).records() == old(self).records(),
    {
        if self.rows.len() > 0 {
            return None;
        }
        let s = CleanupSchedule { scheduled_id: 0, interval_micros: CLEANUP_INTERVAL_MICROS };
        self.rows.push(s);
        assert(self.rows@ =~= seq![s]);
        Some(s)
    }
}

} // verus!
