//! The background loudness-analysis job: its counters, how each measured
//! track moves them, and when a finished run warns the user.

use vstd::prelude::*;
use crate::commands::{append_int, int_text};

verus! {

/// Progress of the loudness-analysis job.
pub struct AnalysisJob {
    pub running: bool,
    pub total: i64,
    pub completed: i64,
    pub failed: i64,
    pub done: bool,
}

impl AnalysisJob {
    /// A job over `count` tracks: running when there is anything to measure,
    /// done at once when there is not.
    pub fn start(count: i64) -> (r: AnalysisJob)
        ensures
            r.running == (count > 0),
            r.total == count,
            r.completed == 0,
            r.failed == 0,
            r.done == (count == 0),
    {
        AnalysisJob { running: count > 0, total: count, completed: 0, failed: 0, done: count == 0 }
    }

    /// Count one track: completed when its gain was measured and stored,
    /// failed otherwise.
    pub fn record(&mut self, stored: bool)
        requires
            stored ==> old(self).completed < i64::MAX,
            !stored ==> old(self).failed < i64::MAX,
        ensures
            final(self).running == old(self).running,
            final(self).total == old(self).total,
            final(self).done == old(self).done,
            final(self).completed == old(self).completed + if stored {
                1int
            } else {
                0int
            },
            final(self).failed == old(self).failed + if stored {
                0int
            } else {
                1int
            },
    {
        if stored {
            self.completed = self.completed + 1;
        } else {
            self.failed = self.failed + 1;
        }
    }

    /// The job has ended: no longer running, and done.
    pub fn finish(&mut self)
        ensures
            !final(self).running,
            final(self).done,
            final(self).total == old(self).total,
            final(self).completed == old(self).completed,
            final(self).failed == old(self).failed,
    {
        self.running = false;
        self.done = true;
    }
}

/// A run warns when a meaningful share failed: at least 3 tracks and at
/// least a quarter of the run.
pub open spec fn should_warn_spec(failed: int, total: int) -> bool {
    failed >= 3 && total > 0 && failed * 4 >= total
}

pub fn should_warn(failed: i64, total: i64) -> (r: bool)
    ensures
        r == should_warn_spec(failed as int, total as int),
{
    failed >= 3 && total > 0 && (failed as i128) * 4 >= total as i128
}

/// The warning shown after a run in which many tracks failed, if any.
pub fn analysis_warning(failed: i64, total: i64) -> (r: Option<String>)
    ensures
        match r {
            Some(m) => should_warn_spec(failed as int, total as int) && m@ == "Loudness analysis finished, but "@
                + int_text(failed as int) + " of "@ + int_text(total as int)
                + " beats couldn't be analyzed — some files may be missing or unreadable."@,
            None => !should_warn_spec(failed as int, total as int),
        },
{
    if !should_warn(failed, total) {
        return None;
    }
    let mut m = String::from_str("Loudness analysis finished, but ");
    append_int(&mut m, failed);
    m.append(" of ");
    append_int(&mut m, total);
    m.append(" beats couldn't be analyzed — some files may be missing or unreadable.");
    Some(m)
}

} // verus!
