use crate::{Optimization, Status};
use vstd::prelude::*;

verus! {

/// Running totals over the files of one run.
#[derive(Clone, Copy, Debug, PartialEq, Eq, Structural)]
pub struct Summary {
    pub optimized: usize,
    pub unchanged: usize,
    pub failed: usize,
    pub bytes_saved: u64,
}

impl Default for Summary {
    /// No file counted yet.
    fn default() -> (empty: Summary)
        ensures
            empty == (Summary { optimized: 0, unchanged: 0, failed: 0, bytes_saved: 0 }),
    {
        Summary { optimized: 0, unchanged: 0, failed: 0, bytes_saved: 0 }
    }
}

impl Summary {
    /// Whether one more outcome fits in the counters.
    pub open spec fn can_record(self, outcome: Option<Optimization>) -> bool {
        match outcome {
            None => self.failed < usize::MAX,
            Some(o) => match o.status {
                Status::Optimized => self.optimized < usize::MAX && self.bytes_saved + o.saved()
                    <= u64::MAX,
                Status::Unchanged => self.unchanged < usize::MAX,
            },
        }
    }

    /// The totals once `outcome` is counted: a failure (`None`), an optimised
    /// file with the bytes it saved, or an unchanged file.
    pub open spec fn recorded(self, outcome: Option<Optimization>) -> Summary {
        match outcome {
            None => Summary { failed: (self.failed + 1) as usize, ..self },
            Some(o) => match o.status {
                Status::Optimized => Summary {
                    optimized: (self.optimized + 1) as usize,
                    bytes_saved: (self.bytes_saved + o.saved()) as u64,
                    ..self
                },
                Status::Unchanged => Summary { unchanged: (self.unchanged + 1) as usize, ..self },
            },
        }
    }

    /// Reports whether one more outcome fits in the counters.
    pub fn has_room_for(&self, outcome: Option<Optimization>) -> (room: bool)
        ensures
            room == self.can_record(outcome),
    {
        match outcome {
            None => self.failed < usize::MAX,
            Some(o) => match o.status {
                Status::Optimized => self.optimized < usize::MAX && o.bytes_saved() <= u64::MAX
                    - self.bytes_saved,
                Status::Unchanged => self.unchanged < usize::MAX,
            },
        }
    }

    /// Counts the outcome of one file: `None` for a file that failed.
    pub fn record(&mut self, outcome: Option<Optimization>)
        requires
            old(self).can_record(outcome),
        ensures
            *final(self) == old(self).recorded(outcome),
    {
        match outcome {
            None => {
                self.failed = self.failed + 1;
            },
            Some(o) => match o.status {
                Status::Optimized => {
                    self.optimized = self.optimized + 1;
                    self.bytes_saved = self.bytes_saved + o.bytes_saved();
                },
                Status::Unchanged => {
                    self.unchanged = self.unchanged + 1;
                },
            },
        }
    }

    /// The run has had no failure.
    pub open spec fn succeeded_spec(self) -> bool {
        self.failed == 0
    }

    /// The run succeeded when no file and no path failed.
    pub fn succeeded(&self) -> (ok: bool)
        ensures
            ok == self.succeeded_spec(),
    {
        self.failed == 0
    }

    /// The number of files counted so far.
    pub open spec fn counted(self) -> int {
        self.optimized + self.unchanged + self.failed
    }
}

/// Each outcome counted adds one to its own counter and leaves the others:
/// a failure to `failed`; an optimised file to `optimized`, with what it saved
/// added to the bytes saved (nothing for a file that grew); an unchanged file
/// to `unchanged`.
pub proof fn law_each_outcome_counts_once(summary: Summary, outcome: Option<Optimization>)
    requires
        summary.can_record(outcome),
    ensures
        summary.recorded(outcome).counted() == summary.counted() + 1,
        outcome is None ==> summary.recorded(outcome) == (Summary {
            failed: (summary.failed + 1) as usize,
            ..summary
        }),
        outcome matches Some(o) ==> o.status == Status::Optimized ==> summary.recorded(outcome)
            == (Summary {
            optimized: (summary.optimized + 1) as usize,
            bytes_saved: (summary.bytes_saved + (if o.final_size <= o.original_size {
                o.original_size - o.final_size
            } else {
                0
            })) as u64,
            ..summary
        }),
        outcome matches Some(o) ==> o.status == Status::Unchanged ==> summary.recorded(outcome)
            == (Summary { unchanged: (summary.unchanged + 1) as usize, ..summary }),
        summary.recorded(outcome).succeeded_spec() == (summary.succeeded_spec() && outcome is Some),
{
}

/// Every outcome fits while its counter is below its maximum; an optimised
/// file also needs the byte total to take what it saved, and fits whether it
/// shrank or grew.
pub proof fn law_room_for_outcomes(summary: Summary, o: Optimization)
    ensures
        summary.failed < usize::MAX ==> summary.can_record(None),
        o.status == Status::Unchanged && summary.unchanged < usize::MAX ==> summary.can_record(
            Some(o),
        ),
        o.status == Status::Optimized && summary.optimized < usize::MAX && o.final_size
            > o.original_size ==> summary.can_record(Some(o)),
        o.status == Status::Optimized && summary.optimized < usize::MAX && o.final_size
            <= o.original_size && summary.bytes_saved + (o.original_size - o.final_size)
            <= u64::MAX ==> summary.can_record(Some(o)),
{
}

/// A run with a failure counted never succeeds, and an empty run does.
pub proof fn law_failures_fail_the_run(summary: Summary)
    ensures
        summary.failed > 0 ==> !summary.succeeded_spec(),
        summary.failed == 0 ==> summary.succeeded_spec(),
{
}

/// The totals after counting `outcomes` in turn, starting from `start`.
pub open spec fn tally(start: Summary, outcomes: Seq<Option<Optimization>>) -> Summary
    decreases outcomes.len(),
{
    if outcomes.len() == 0 {
        start
    } else {
        tally(start, outcomes.drop_last()).recorded(outcomes.last())
    }
}

/// Every outcome of a run fits in the counters when it comes.
pub open spec fn tally_fits(start: Summary, outcomes: Seq<Option<Optimization>>) -> bool {
    forall|k: int|
        0 <= k < outcomes.len() ==> #[trigger] tally(start, outcomes.take(k)).can_record(
            outcomes[k],
        )
}

/// Over a whole run, every outcome is counted once, and the run succeeds
/// exactly when it started without failures and every file succeeded.
pub proof fn law_run_succeeds_without_failures(start: Summary, outcomes: Seq<Option<Optimization>>)
    requires
        tally_fits(start, outcomes),
    ensures
        tally(start, outcomes).counted() == start.counted() + outcomes.len(),
        tally(start, outcomes).succeeded_spec() <==> (start.succeeded_spec() && forall|k: int|
            0 <= k < outcomes.len() ==> #[trigger] outcomes[k] is Some),
    decreases outcomes.len(),
{
    if outcomes.len() > 0 {
        let front = outcomes.drop_last();
        assert forall|k: int| 0 <= k < front.len() implies #[trigger] tally(
            start,
            front.take(k),
        ).can_record(front[k]) by {
            assert(front.take(k) =~= outcomes.take(k));
            assert(tally(start, outcomes.take(k)).can_record(outcomes[k]));
        }
        law_run_succeeds_without_failures(start, front);
        let last = outcomes.len() - 1;
        assert(outcomes.take(last) =~= front);
        assert(tally(start, outcomes.take(last)).can_record(outcomes[last]));
        law_each_outcome_counts_once(tally(start, front), outcomes.last());
        if forall|k: int| 0 <= k < outcomes.len() ==> #[trigger] outcomes[k] is Some {
            assert forall|k: int| 0 <= k < front.len() implies #[trigger] front[k] is Some by {
                assert(front[k] == outcomes[k]);
            }
        }
        if forall|k: int| 0 <= k < front.len() ==> #[trigger] front[k] is Some {
            if outcomes.last() is Some {
                assert forall|k: int| 0 <= k < outcomes.len() implies #[trigger] outcomes[k] is Some by {
                    if k < front.len() {
                        assert(front[k] == outcomes[k]);
                    }
                }
            }
        }
    }
}

/// How the size of an optimised file moved.
#[derive(Clone, Copy, Debug, PartialEq, Eq, Structural)]
pub enum SizeChange {
    /// The file did not grow; the bytes saved.
    Shrunk(u64),
    /// The file grew (its metadata was removed all the same); by how much.
    Grew(u64),
}

/// Whether an optimised file shrank or grew, and by how many bytes.
pub fn size_change(outcome: Optimization) -> (change: SizeChange)
    ensures
        outcome.final_size <= outcome.original_size ==> change == SizeChange::Shrunk(
            (outcome.original_size - outcome.final_size) as u64,
        ),
        outcome.final_size > outcome.original_size ==> change == SizeChange::Grew(
            (outcome.final_size - outcome.original_size) as u64,
        ),
{
    if outcome.final_size <= outcome.original_size {
        SizeChange::Shrunk(outcome.bytes_saved())
    } else {
        SizeChange::Grew(outcome.final_size - outcome.original_size)
    }
}

} // verus!
