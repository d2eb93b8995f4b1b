use vstd::prelude::*;

use crate::progress::Progress;
use crate::setup::Setup;

verus! {

/// Entry `i` of `history` is a result of `advance` on `setup`, entry `i - 1`
/// and the index `i`.
pub open spec fn advanced_at<N, T, F: Fn(&Setup<N>, &T, usize) -> T>(
    advance: F,
    setup: Setup<N>,
    history: Seq<T>,
    i: int,
) -> bool {
    call_ensures(advance, (&setup, &history[i - 1], i as usize), history[i])
}

/// A history that extends one produced by `advance` with entries that
/// `advance` produced is produced by `advance` as a whole.
proof fn lemma_extended_history<N, T, F: Fn(&Setup<N>, &T, usize) -> T>(
    advance: F,
    setup: Setup<N>,
    prefix: Seq<T>,
    history: Seq<T>,
)
    requires
        prefix.len() <= history.len(),
        forall|i: int| 0 <= i < prefix.len() ==> history[i] == prefix[i],
        forall|i: int| 1 <= i < prefix.len() ==> #[trigger] advanced_at(advance, setup, prefix, i),
        forall|i: int|
            prefix.len() <= i < history.len() ==> #[trigger] advanced_at(advance, setup, history, i),
    ensures
        forall|i: int| 1 <= i < history.len() ==> #[trigger] advanced_at(advance, setup, history, i),
{
    assert forall|i: int| 1 <= i < history.len() implies #[trigger] advanced_at(
        advance,
        setup,
        history,
        i,
    ) by {
        if i < prefix.len() {
            assert(history[i] == prefix[i]);
            assert(history[i - 1] == prefix[i - 1]);
            assert(advanced_at(advance, setup, prefix, i));
        }
    }
}

/// What a [`State`] holds, as mathematical values.
pub struct StateView<N, T> {
    pub setup: Setup<N>,
    /// The valid entries of the history, in order of simulated time.
    pub history: Seq<T>,
    pub total_steps: nat,
    pub simulating: bool,
}

impl<N, T> StateView<N, T> {
    pub open spec fn progress(self) -> Progress {
        Progress { points: self.history.len(), total: self.total_steps, simulating: self.simulating }
    }

    /// Each entry after the first is one result of `advance` on the setup, the
    /// entry before it and its own index.
    pub open spec fn produced_by<F: Fn(&Setup<N>, &T, usize) -> T>(self, advance: F) -> bool {
        forall|i: int|
            1 <= i < self.history.len() ==> #[trigger] advanced_at(
                advance,
                self.setup,
                self.history,
                i,
            )
    }
}

/// A simulation run driven in chunks.
///
/// Uninitialized (nothing simulated yet), running, or completed. `init`
/// starts a run from an initial entry; each `step` call then appends at most
/// `steps_per_frame` entries, each computed from the one before it, so that a
/// caller that calls `step` once per frame does a bounded amount of work per
/// frame. Only the entries simulated so far are held, so `points_avail` is the
/// length of the history.
pub struct State<N, T> {
    setup: Setup<N>,
    simulating: bool,
    total_steps: usize,
    history: Vec<T>,
}

impl<N, T> View for State<N, T> {
    type V = StateView<N, T>;

    closed spec fn view(&self) -> StateView<N, T> {
        StateView {
            setup: self.setup,
            history: self.history@,
            total_steps: self.total_steps as nat,
            simulating: self.simulating,
        }
    }
}

impl<N, T> State<N, T> {
    /// The history never holds more than `total_steps` entries, and a running
    /// simulation holds its initial entry and has room for one more.
    pub open spec fn wf(&self) -> bool {
        self@.progress().valid()
    }

    /// An uninitialized run with the given setup: no history, not running.
    pub fn new(setup: Setup<N>) -> (r: Self)
        ensures
            r.wf(),
            r@.setup == setup,
            r@.history.len() == 0,
            r@.total_steps == 0,
            !r@.simulating,
    {
        State { setup, simulating: false, total_steps: 0, history: Vec::new() }
    }

    /// Starts a run of `total_steps` entries whose first entry is `first`.
    ///
    /// An empty run (`total_steps == 0`) is refused silently: nothing changes.
    /// Otherwise any earlier history is dropped, `first` becomes entry 0, and
    /// the run is running unless that single entry already completes it.
    pub fn init(&mut self, total_steps: usize, first: T)
        requires
            old(self).wf(),
        ensures
            final(self).wf(),
            final(self)@.progress() == old(self)@.progress().started(total_steps as nat),
            final(self)@.setup == old(self)@.setup,
            total_steps == 0 ==> final(self)@ == old(self)@,
            total_steps > 0 ==> final(self)@.history == seq![first],
    {
        if total_steps == 0 {
            return;
        }
        let mut history: Vec<T> = Vec::new();
        history.push(first);
        self.history = history;
        self.total_steps = total_steps;
        self.simulating = total_steps > 1;
        proof {
            assert(self@.history =~= seq![first]);
        }
    }

    /// Advances a running simulation by at most `steps_per_frame` entries.
    ///
    /// Each new entry at index `i` is `advance(setup, entry i - 1, i)`. The
    /// run completes as soon as it holds all `total_steps` entries. On a run
    /// that is not running this does nothing.
    pub fn step<F>(&mut self, advance: F)
        where
            F: Fn(&Setup<N>, &T, usize) -> T,
        requires
            old(self).wf(),
            forall|s: &Setup<N>, x: &T, i: usize| #[trigger] advance.requires((s, x, i)),
        ensures
            final(self).wf(),
            final(self)@.progress() == old(self)@.progress().after_frame(
                old(self)@.setup.steps_per_frame as nat,
            ),
            final(self)@.setup == old(self)@.setup,
            final(self)@.total_steps == old(self)@.total_steps,
            !old(self)@.simulating ==> final(self)@ == old(self)@,
            forall|i: int|
                0 <= i < old(self)@.history.len() ==> #[trigger] final(self)@.history[i]
                    == old(self)@.history[i],
            old(self)@.produced_by(advance) ==> final(self)@.produced_by(advance),
            forall|i: int|
                old(self)@.history.len() <= i < final(self)@.history.len() ==> #[trigger] advanced_at(
                    advance,
                    final(self)@.setup,
                    final(self)@.history,
                    i,
                ),
    {
        if !self.simulating {
            return;
        }
        let budget = self.setup.steps_per_frame;
        let ghost start = self.history@;
        assert(1 <= start.len() < self.total_steps);
        let mut k: usize = 0;
        while k < budget
            invariant
                self.simulating,
                old(self).simulating,
                1 <= self.history@.len() < self.total_steps,
                self.setup == old(self).setup,
                self.total_steps == old(self).total_steps,
                budget == self.setup.steps_per_frame,
                start == old(self).history@,
                1 <= start.len(),
                k <= budget,
                self.history@.len() == start.len() + k,
                forall|i: int| 0 <= i < start.len() ==> #[trigger] self.history@[i] == start[i],
                forall|s: &Setup<N>, x: &T, i: usize| #[trigger] advance.requires((s, x, i)),
                forall|i: int|
                    start.len() <= i < self.history@.len() ==> #[trigger] advanced_at(
                        advance,
                        self.setup,
                        self.history@,
                        i,
                    ),
            decreases budget - k,
        {
            let points = self.history.len();
            let ghost old_history = self.history@;
            let next = advance(&self.setup, &self.history[points - 1], points);
            self.history.push(next);
            proof {
                assert forall|i: int| start.len() <= i < self.history@.len() implies #[trigger] advanced_at(
                    advance,
                    self.setup,
                    self.history@,
                    i,
                ) by {
                    if i < self.history@.len() - 1 {
                        assert(self.history@[i] == old_history[i]);
                        assert(self.history@[i - 1] == old_history[i - 1]);
                        assert(advanced_at(advance, self.setup, old_history, i));
                    }
                }
            }
            k = k + 1;
            if self.history.len() == self.total_steps {
                self.simulating = false;
                proof {
                    if old(self)@.produced_by(advance) {
                        assert(old(self)@.history == start);
                        assert(old(self)@.setup == self.setup);
                        lemma_extended_history(advance, self.setup, start, self.history@);
                    }
                }
                return;
            }
        }
        proof {
            if old(self)@.produced_by(advance) {
                assert(old(self)@.history == start);
                assert(old(self)@.setup == self.setup);
                lemma_extended_history(advance, self.setup, start, self.history@);
            }
        }
    }

    /// Whether the run is in progress.
    pub fn simulating(&self) -> (r: bool)
        ensures
            r == self@.simulating,
    {
        self.simulating
    }

    /// The number of valid history entries.
    pub fn points_avail(&self) -> (r: usize)
        ensures
            r == self@.history.len(),
    {
        self.history.len()
    }

    /// The number of entries the current (or last) run holds when complete.
    pub fn total_steps(&self) -> (r: usize)
        ensures
            r == self@.total_steps,
    {
        self.total_steps
    }

    /// The valid history entries, oldest first.
    pub fn history(&self) -> (r: &[T])
        ensures
            r@ == self@.history,
    {
        self.history.as_slice()
    }

    /// The setup of the run.
    pub fn setup(&self) -> (r: &Setup<N>)
        ensures
            *r == self@.setup,
    {
        &self.setup
    }

    /// Replaces the setup, unless a run is in progress: a setup is never
    /// changed under a running simulation. Returns whether it was replaced.
    pub fn set_setup(&mut self, setup: Setup<N>) -> (r: bool)
        requires
            old(self).wf(),
        ensures
            final(self).wf(),
            r == !old(self)@.simulating,
            r ==> final(self)@ == (StateView { setup, ..old(self)@ }),
            !r ==> final(self)@ == old(self)@,
    {
        if self.simulating {
            return false;
        }
        self.setup = setup;
        true
    }
}

/// `advance` gives one result for each argument.
pub open spec fn deterministic<N, T, F: Fn(&Setup<N>, &T, usize) -> T>(advance: F) -> bool {
    forall|s: &Setup<N>, x: &T, i: usize, r1: T, r2: T|
        #[trigger] call_ensures(advance, (s, x, i), r1) && #[trigger] call_ensures(
            advance,
            (s, x, i),
            r2,
        ) ==> r1 == r2
}

/// Runs are reproducible: two histories of the same length and setup that
/// start from the same entry and were both produced by the same deterministic
/// `advance` are identical, entry for entry.
pub proof fn lemma_deterministic_runs<N, T, F: Fn(&Setup<N>, &T, usize) -> T>(
    advance: F,
    a: StateView<N, T>,
    b: StateView<N, T>,
)
    requires
        deterministic(advance),
        a.setup == b.setup,
        a.history.len() == b.history.len(),
        a.history.len() > 0 ==> a.history[0] == b.history[0],
        a.produced_by(advance),
        b.produced_by(advance),
    ensures
        a.history == b.history,
{
    lemma_equal_prefix(advance, a, b, a.history.len());
    assert(a.history =~= b.history);
}

proof fn lemma_equal_prefix<N, T, F: Fn(&Setup<N>, &T, usize) -> T>(
    advance: F,
    a: StateView<N, T>,
    b: StateView<N, T>,
    n: nat,
)
    requires
        deterministic(advance),
        a.setup == b.setup,
        n <= a.history.len() == b.history.len(),
        a.history.len() > 0 ==> a.history[0] == b.history[0],
        a.produced_by(advance),
        b.produced_by(advance),
    ensures
        forall|i: int| 0 <= i < n ==> a.history[i] == b.history[i],
    decreases n,
{
    if n > 1 {
        lemma_equal_prefix(advance, a, b, (n - 1) as nat);
        let i = n - 1;
        assert(advanced_at(advance, a.setup, a.history, i));
        assert(advanced_at(advance, b.setup, b.history, i));
        assert(a.history[i - 1] == b.history[i - 1]);
    }
}

} // verus!
