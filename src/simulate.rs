//! Running a trial budget and aggregating match counts, sequentially or as
//! statically partitioned worker chunks.

use crate::sample::{run_trial, DAYS_IN_YEAR};
use vstd::prelude::*;

verus! {

/// Trials in one run of the reference configuration.
pub const TRIAL_BUDGET: usize = 100000;

/// Workers of a parallel run in the reference configuration.
pub const WORKER_COUNT: usize = 10;

/// Trials between two progress notifications of a sequential run.
pub const PROGRESS_INTERVAL: usize = 10000;

/// What every outcome of `trials` trials on groups of `set_size` satisfies:
/// no more matches than trials, every trial matching once the group is larger
/// than the year, and none with fewer than two people.
pub open spec fn count_bounds(set_size: u16, trials: nat, matches: nat) -> bool {
    &&& matches <= trials
    &&& set_size > DAYS_IN_YEAR ==> matches == trials
    &&& set_size <= 1 ==> matches == 0
}

/// Runs `trials` independent trials and counts those with a repeated birthday.
pub fn run_trials(set_size: u16, trials: usize) -> (r: usize)
    ensures
        count_bounds(set_size, trials as nat, r as nat),
{
    let mut matches: usize = 0;
    let mut i: usize = 0;
    while i < trials
        invariant
            i <= trials,
            count_bounds(set_size, i as nat, matches as nat),
        decreases trials - i,
    {
        if run_trial(set_size) {
            matches = matches + 1;
        }
        i = i + 1;
    }
    matches
}

/// Runs the whole trial budget on one control flow and returns the number of
/// trials with a repeated birthday.
pub fn run_sequential(set_size: u16, trial_budget: usize) -> (r: usize)
    ensures
        count_bounds(set_size, trial_budget as nat, r as nat),
{
    let mut run = SequentialRun::new(set_size, trial_budget);
    run.advance(trial_budget);
    run.match_count()
}

/// A sequential run in progress, advanced in steps so that progress can be
/// reported between them.
pub struct SequentialRun {
    set_size: u16,
    trial_budget: usize,
    trials_done: usize,
    matches: usize,
}

impl SequentialRun {
    pub closed spec fn spec_set_size(&self) -> u16 {
        self.set_size
    }

    pub closed spec fn spec_trial_budget(&self) -> nat {
        self.trial_budget as nat
    }

    pub closed spec fn spec_trials_done(&self) -> nat {
        self.trials_done as nat
    }

    pub closed spec fn spec_matches(&self) -> nat {
        self.matches as nat
    }

    pub closed spec fn wf(&self) -> bool {
        &&& self.trials_done <= self.trial_budget
        &&& count_bounds(self.set_size, self.trials_done as nat, self.matches as nat)
    }

    /// A run of `trial_budget` trials on groups of `set_size`, none run yet.
    pub fn new(set_size: u16, trial_budget: usize) -> (r: Self)
        ensures
            r.wf(),
            r.spec_set_size() == set_size,
            r.spec_trial_budget() == trial_budget,
            r.spec_trials_done() == 0,
            r.spec_matches() == 0,
    {
        SequentialRun { set_size, trial_budget, trials_done: 0, matches: 0 }
    }

    /// Runs the next `max_trials` trials, or fewer where the budget ends
    /// first, and returns how many ran.
    pub fn advance(&mut self, max_trials: usize) -> (ran: usize)
        requires
            old(self).wf(),
        ensures
            final(self).wf(),
            final(self).spec_set_size() == old(self).spec_set_size(),
            final(self).spec_trial_budget() == old(self).spec_trial_budget(),
            ran == if max_trials <= old(self).spec_trial_budget() - old(self).spec_trials_done() {
                max_trials as nat
            } else {
                (old(self).spec_trial_budget() - old(self).spec_trials_done()) as nat
            },
            final(self).spec_trials_done() == old(self).spec_trials_done() + ran,
            count_bounds(
                old(self).spec_set_size(),
                ran as nat,
                (final(self).spec_matches() - old(self).spec_matches()) as nat,
            ),
            old(self).spec_matches() <= final(self).spec_matches(),
    {
        let left = self.trial_budget - self.trials_done;
        let ran = if max_trials <= left {
            max_trials
        } else {
            left
        };
        let found = run_trials(self.set_size, ran);
        self.trials_done = self.trials_done + ran;
        self.matches = self.matches + found;
        ran
    }

    /// Whether the whole budget has run.
    pub fn is_finished(&self) -> (r: bool)
        requires
            self.wf(),
        ensures
            r == (self.spec_trials_done() == self.spec_trial_budget()),
    {
        self.trials_done == self.trial_budget
    }

    /// Trials run so far.
    pub fn trials_done(&self) -> (r: usize)
        ensures
            r == self.spec_trials_done(),
    {
        self.trials_done
    }

    /// Trials with a repeated birthday so far.
    pub fn match_count(&self) -> (r: usize)
        requires
            self.wf(),
        ensures
            r == self.spec_matches(),
            count_bounds(self.spec_set_size(), self.spec_trials_done(), r as nat),
    {
        self.matches
    }
}

/// Sum of a sequence of counts.
pub open spec fn total(counts: Seq<usize>) -> nat
    decreases counts.len(),
{
    if counts.len() == 0 {
        0
    } else {
        total(counts.drop_last()) + counts.last() as nat
    }
}

/// Counts that each stay within `chunk` add up to at most `chunk` per count.
pub proof fn lemma_total_at_most(counts: Seq<usize>, chunk: nat)
    requires
        forall|i: int| 0 <= i < counts.len() ==> #[trigger] counts[i] <= chunk,
    ensures
        total(counts) <= counts.len() * chunk,
    decreases counts.len(),
{
    if counts.len() > 0 {
        let t = counts.drop_last();
        assert forall|i: int| 0 <= i < t.len() implies #[trigger] t[i] <= chunk by {
            assert(t[i] == counts[i]);
        }
        lemma_total_at_most(t, chunk);
        assert(counts.len() * chunk == t.len() * chunk + chunk) by (nonlinear_arith)
            requires
                counts.len() == t.len() + 1,
        ;
    }
}

/// Splitting a budget into worker chunks changes none of the outcomes that
/// are certain: when every worker's count satisfies the bounds of its chunk,
/// their sum satisfies the bounds of the whole budget.
pub proof fn lemma_worker_counts_combine(set_size: u16, chunk: nat, counts: Seq<usize>)
    requires
        forall|i: int| 0 <= i < counts.len() ==> count_bounds(set_size, chunk, #[trigger] counts[i] as nat),
    ensures
        count_bounds(set_size, counts.len() * chunk, total(counts)),
    decreases counts.len(),
{
    if counts.len() > 0 {
        let t = counts.drop_last();
        assert forall|i: int| 0 <= i < t.len() implies count_bounds(set_size, chunk, #[trigger] t[i] as nat) by {
            assert(t[i] == counts[i]);
        }
        lemma_worker_counts_combine(set_size, chunk, t);
        assert(count_bounds(set_size, chunk, counts[counts.len() - 1] as nat));
        assert(counts.len() * chunk == t.len() * chunk + chunk) by (nonlinear_arith)
            requires
                counts.len() == t.len() + 1,
        ;
    } else {
        assert(counts.len() * chunk == 0) by (nonlinear_arith)
            requires
                counts.len() == 0,
        ;
    }
}

/// The aggregate of a parallel run: the budget is split into equal chunks,
/// one per worker, and each finished worker adds its own match count.
pub struct ParallelTally {
    chunk: usize,
    worker_count: usize,
    completed: usize,
    matches: usize,
    counts: Ghost<Seq<usize>>,
}

impl ParallelTally {
    /// The match counts recorded so far, one per finished worker.
    pub closed spec fn spec_counts(&self) -> Seq<usize> {
        self.counts@
    }

    pub closed spec fn spec_chunk(&self) -> nat {
        self.chunk as nat
    }

    pub closed spec fn spec_worker_count(&self) -> nat {
        self.worker_count as nat
    }

    pub closed spec fn wf(&self) -> bool {
        &&& self.chunk * self.worker_count <= usize::MAX
        &&& self.completed == self.counts@.len()
        &&& self.completed <= self.worker_count
        &&& self.matches == total(self.counts@)
        &&& forall|i: int| 0 <= i < self.counts@.len() ==> #[trigger] self.counts@[i] <= self.chunk
    }

    /// A tally for `trial_budget` trials shared evenly by `worker_count` workers.
    pub fn new(trial_budget: usize, worker_count: usize) -> (r: Self)
        requires
            worker_count > 0,
            trial_budget % worker_count == 0,
        ensures
            r.wf(),
            r.spec_chunk() * r.spec_worker_count() == trial_budget,
            r.spec_worker_count() == worker_count,
            r.spec_counts() == Seq::<usize>::empty(),
    {
        let chunk = trial_budget / worker_count;
        assert(chunk * worker_count == trial_budget) by (nonlinear_arith)
            requires
                worker_count > 0,
                trial_budget % worker_count == 0,
                chunk == trial_budget / worker_count,
        ;
        ParallelTally { chunk, worker_count, completed: 0, matches: 0, counts: Ghost(Seq::empty()) }
    }

    /// Trials that each worker runs.
    pub fn chunk_size(&self) -> (r: usize)
        ensures
            r == self.spec_chunk(),
    {
        self.chunk
    }

    /// Workers that have finished and been recorded.
    pub fn completed_workers(&self) -> (r: usize)
        requires
            self.wf(),
        ensures
            r == self.spec_counts().len(),
    {
        self.completed
    }

    /// Adds the match count of one finished worker.
    pub fn record_worker(&mut self, local_matches: usize)
        requires
            old(self).wf(),
            old(self).spec_counts().len() < old(self).spec_worker_count(),
            local_matches <= old(self).spec_chunk(),
        ensures
            final(self).wf(),
            final(self).spec_chunk() == old(self).spec_chunk(),
            final(self).spec_worker_count() == old(self).spec_worker_count(),
            final(self).spec_counts() == old(self).spec_counts().push(local_matches),
    {
        let ghost before = self.counts@;
        let ghost after = before.push(local_matches);
        proof {
            assert(after.drop_last() =~= before);
            lemma_total_at_most(after, self.chunk as nat);
            assert(after.len() * self.chunk <= self.worker_count * self.chunk) by (nonlinear_arith)
                requires
                    after.len() <= self.worker_count,
            ;
        }
        self.matches = self.matches + local_matches;
        self.completed = self.completed + 1;
        self.counts = Ghost(after);
        assert(forall|i: int| 0 <= i < after.len() - 1 ==> after[i] == before[i]);
    }

    /// The aggregate match count: the sum of the counts that the finished
    /// workers recorded.
    pub fn match_count(&self) -> (r: usize)
        requires
            self.wf(),
        ensures
            r == total(self.spec_counts()),
            r <= self.spec_counts().len() * self.spec_chunk(),
    {
        proof {
            lemma_total_at_most(self.counts@, self.chunk as nat);
        }
        self.matches
    }
}

} // verus!
