use vstd::prelude::*;

verus! {

/// How far a run has come: `points` valid history entries out of `total`, and
/// whether it is still running.
pub struct Progress {
    pub points: nat,
    pub total: nat,
    pub simulating: bool,
}

impl Progress {
    /// Never more entries than the run holds; a running simulation has room
    /// for at least one more, and has its initial entry.
    pub open spec fn valid(self) -> bool {
        &&& self.points <= self.total
        &&& self.simulating ==> 1 <= self.points < self.total
    }

    /// The progress right after a start on `total` entries: nothing changes
    /// for an empty run; otherwise the initial entry is there, and the run
    /// goes on while there is room for more.
    pub open spec fn started(self, total: nat) -> Progress {
        if total == 0 {
            self
        } else {
            Progress { points: 1, total, simulating: total > 1 }
        }
    }

    /// The progress after one `step` call that may make `budget` integrator
    /// steps: a stopped run stays as it is; a running one gains entries up to
    /// the budget or up to the end, and stops when it reaches the end.
    pub open spec fn after_frame(self, budget: nat) -> Progress {
        if !self.simulating {
            self
        } else if self.points + budget < self.total {
            Progress { points: self.points + budget, ..self }
        } else {
            Progress { points: self.total, simulating: false, ..self }
        }
    }

    /// The progress after `k` successive `step` calls with the same budget.
    pub open spec fn after_frames(self, budget: nat, k: nat) -> Progress
        decreases k,
    {
        if k == 0 {
            self
        } else {
            self.after_frame(budget).after_frames(budget, (k - 1) as nat)
        }
    }
}

/// A stopped run stays as it is, whatever number of `step` calls follow.
pub proof fn lemma_stopped_is_fixed(p: Progress, budget: nat, k: nat)
    requires
        !p.simulating,
    ensures
        p.after_frames(budget, k) == p,
    decreases k,
{
    if k > 0 {
        lemma_stopped_is_fixed(p.after_frame(budget), budget, (k - 1) as nat);
    }
}

/// The progress of a running simulation after `k` calls, in closed form: it
/// gains `k * budget` entries, unless that reaches the end, where it stops.
pub proof fn lemma_after_frames_closed_form(p: Progress, budget: nat, k: nat)
    requires
        p.valid(),
        p.simulating,
    ensures
        p.after_frames(budget, k) == (if p.points + k * budget < p.total {
            Progress { points: p.points + k * budget, ..p }
        } else {
            Progress { points: p.total, simulating: false, ..p }
        }),
    decreases k,
{
    if k == 0 {
        assert(p.points + k * budget == p.points);
    } else {
        let q = p.after_frame(budget);
        assert(k * budget == budget + (k - 1) * budget) by (nonlinear_arith)
            requires
                k > 0,
        ;
        if q.simulating {
            lemma_after_frames_closed_form(q, budget, (k - 1) as nat);
        } else {
            lemma_stopped_is_fixed(q, budget, (k - 1) as nat);
        }
    }
}

/// Later progress after more calls: for `j <= k` calls, the run after `k`
/// calls is the run after `j` calls followed by `k - j` more.
pub proof fn lemma_after_frames_split(p: Progress, budget: nat, j: nat, k: nat)
    requires
        j <= k,
    ensures
        p.after_frames(budget, k) == p.after_frames(budget, j).after_frames(budget, (k - j) as nat),
    decreases j,
{
    if j > 0 {
        lemma_after_frames_split(p.after_frame(budget), budget, (j - 1) as nat, (k - 1) as nat);
    }
}

/// One `step` call keeps the progress valid, never removes an entry, and
/// never goes past the run's length.
pub proof fn lemma_frame_monotone(p: Progress, budget: nat)
    requires
        p.valid(),
    ensures
        p.after_frame(budget).valid(),
        p.after_frame(budget).total == p.total,
        p.points <= p.after_frame(budget).points <= p.total,
{
}

/// Whatever sequence of `step` calls a run goes through, its number of valid
/// entries never decreases and never exceeds the run's length: after `j` and
/// then `k >= j` calls, the first count is at most the second, and both are
/// at most `total`.
pub proof fn lemma_points_monotone(p: Progress, budget: nat, j: nat, k: nat)
    requires
        p.valid(),
        j <= k,
    ensures
        p.after_frames(budget, j).valid(),
        p.after_frames(budget, k).valid(),
        p.after_frames(budget, k).total == p.total,
        p.points <= p.after_frames(budget, j).points,
        p.after_frames(budget, j).points <= p.after_frames(budget, k).points,
        p.after_frames(budget, k).points <= p.total,
{
    lemma_points_grow(p, budget, j);
    lemma_after_frames_split(p, budget, j, k);
    lemma_points_grow(p.after_frames(budget, j), budget, (k - j) as nat);
}

proof fn lemma_points_grow(p: Progress, budget: nat, k: nat)
    requires
        p.valid(),
    ensures
        p.after_frames(budget, k).valid(),
        p.after_frames(budget, k).total == p.total,
        p.points <= p.after_frames(budget, k).points <= p.total,
    decreases k,
{
    if k > 0 {
        lemma_frame_monotone(p, budget);
        lemma_points_grow(p.after_frame(budget), budget, (k - 1) as nat);
    }
}

/// A run started on `total >= 1` entries, driven with a budget of at least
/// one step per call, is complete after any `k` calls with
/// `k >= ceil(total / budget)` (that is, `k * budget >= total`): it holds all
/// `total` entries and is no longer running, and every further call leaves
/// it as it is.
pub proof fn lemma_termination(p: Progress, total: nat, budget: nat, k: nat)
    requires
        total >= 1,
        budget >= 1,
        k * budget >= total,
    ensures
        p.started(total).after_frames(budget, k) == (Progress { points: total, total, simulating: false }),
        forall|more: nat|
            #[trigger] p.started(total).after_frames(budget, k).after_frames(budget, more)
                == p.started(total).after_frames(budget, k),
{
    let s = p.started(total);
    if s.simulating {
        lemma_after_frames_closed_form(s, budget, k);
    } else {
        lemma_stopped_is_fixed(s, budget, k);
    }
    assert forall|more: nat|
        #[trigger] s.after_frames(budget, k).after_frames(budget, more) == s.after_frames(budget, k) by {
        lemma_stopped_is_fixed(s.after_frames(budget, k), budget, more);
    }
}

} // verus!
