use hodgkin_huxley::{Pulse, Setup, State};

fn setup(steps_per_frame: usize) -> Setup<f64> {
    Setup {
        v0: 0.0,
        end: 10.0,
        dt: 0.01,
        steps_per_frame,
        pulse: Pulse { start: 0.0, end: 1.0, magnitude: 10.0 },
    }
}

/// Each new entry records the index it was computed for and the entry before it.
fn indexed(_s: &Setup<f64>, prev: &(usize, f64), i: usize) -> (usize, f64) {
    (i, prev.1 + 1.0)
}

#[test]
fn new_state_is_uninitialized() {
    let s: State<f64, (usize, f64)> = State::new(setup(5));
    assert!(!s.simulating());
    assert_eq!(s.points_avail(), 0);
    assert_eq!(s.total_steps(), 0);
    assert!(s.history().is_empty());
}

#[test]
fn init_sets_first_entry_exactly() {
    let mut s = State::new(setup(5));
    let first = [0.0, 0.052932, 0.596121, 0.317677];
    s.init(1000, first);
    assert!(s.simulating());
    assert_eq!(s.points_avail(), 1);
    assert_eq!(s.total_steps(), 1000);
    assert_eq!(s.history()[0].map(f64::to_bits), first.map(f64::to_bits));
}

#[test]
fn init_with_zero_steps_is_a_no_op() {
    let mut s = State::new(setup(5));
    s.init(0, (0usize, 0.0));
    assert!(!s.simulating());
    assert_eq!(s.points_avail(), 0);
    assert_eq!(s.total_steps(), 0);
}

#[test]
fn init_with_one_step_is_already_complete() {
    let mut s = State::new(setup(5));
    s.init(1, (0usize, 3.0));
    assert!(!s.simulating());
    assert_eq!(s.points_avail(), 1);
    s.step(indexed);
    assert_eq!(s.points_avail(), 1);
    assert_eq!(s.history(), &[(0usize, 3.0)]);
}

#[test]
fn step_before_init_does_nothing() {
    let mut s: State<f64, (usize, f64)> = State::new(setup(5));
    s.step(indexed);
    assert!(!s.simulating());
    assert_eq!(s.points_avail(), 0);
}

#[test]
fn step_appends_at_most_the_budget() {
    let mut s = State::new(setup(4));
    s.init(10, (0usize, 0.0));
    s.step(indexed);
    assert_eq!(s.points_avail(), 5);
    assert!(s.simulating());
    assert_eq!(
        s.history(),
        &[(0usize, 0.0), (1, 1.0), (2, 2.0), (3, 3.0), (4, 4.0)]
    );
}

#[test]
fn points_never_decrease_nor_exceed_total() {
    let mut s = State::new(setup(3));
    s.init(11, (0usize, 0.0));
    let mut last = s.points_avail();
    for _ in 0..10 {
        s.step(indexed);
        assert!(s.points_avail() >= last);
        assert!(s.points_avail() <= s.total_steps());
        last = s.points_avail();
    }
    assert_eq!(last, 11);
}

#[test]
fn run_completes_after_ceil_total_over_budget_calls() {
    // 10 entries, 3 per call: ceil(10 / 3) = 4 calls are enough.
    let mut s = State::new(setup(3));
    s.init(10, (0usize, 0.0));
    for _ in 0..4 {
        s.step(indexed);
    }
    assert!(!s.simulating());
    assert_eq!(s.points_avail(), 10);
    let done: Vec<(usize, f64)> = s.history().to_vec();
    for _ in 0..3 {
        s.step(indexed);
    }
    assert_eq!(s.points_avail(), 10);
    assert_eq!(s.history(), done.as_slice());
    for (i, e) in done.iter().enumerate() {
        assert_eq!(e.0, i);
    }
}

#[test]
fn run_completes_within_the_call_that_fills_it() {
    let mut s = State::new(setup(1000));
    s.init(10, (0usize, 0.0));
    s.step(indexed);
    assert!(!s.simulating());
    assert_eq!(s.points_avail(), 10);
    assert_eq!(s.history()[9], (9usize, 9.0));
}

#[test]
fn zero_budget_makes_no_progress() {
    let mut s = State::new(setup(0));
    s.init(10, (0usize, 0.0));
    s.step(indexed);
    assert!(s.simulating());
    assert_eq!(s.points_avail(), 1);
}

#[test]
fn first_entry_is_never_overwritten() {
    let mut s = State::new(setup(2));
    s.init(7, (0usize, 42.0));
    for _ in 0..5 {
        s.step(indexed);
        assert_eq!(s.history()[0], (0usize, 42.0));
    }
}

#[test]
fn advance_receives_the_setup() {
    let mut s = State::new(setup(10));
    s.init(4, 0.0);
    s.step(|st: &Setup<f64>, prev: &f64, _i: usize| prev + st.dt);
    assert_eq!(s.history(), &[0.0, 0.01, 0.02, 0.03]);
}

#[test]
fn identical_runs_give_identical_histories() {
    let growth = |st: &Setup<f64>, prev: &f64, i: usize| prev * (1.0 + st.dt) + (i as f64).sin();
    let mut a = State::new(setup(7));
    let mut b = State::new(setup(7));
    a.init(50, 1.0);
    b.init(50, 1.0);
    while a.simulating() {
        a.step(growth);
    }
    while b.simulating() {
        b.step(growth);
    }
    let bits = |h: &[f64]| h.iter().map(|x| x.to_bits()).collect::<Vec<u64>>();
    assert_eq!(a.points_avail(), 50);
    assert_eq!(bits(a.history()), bits(b.history()));
}

#[test]
fn setup_is_locked_while_running() {
    let mut s = State::new(setup(2));
    let mut changed = setup(2);
    changed.dt = 0.5;
    assert!(s.set_setup(changed));
    assert_eq!(s.setup().dt, 0.5);
    s.init(5, 0.0);
    assert!(!s.set_setup(setup(2)));
    assert_eq!(s.setup().dt, 0.5);
    s.step(|st: &Setup<f64>, prev: &f64, _i: usize| prev + st.dt);
    s.step(|st: &Setup<f64>, prev: &f64, _i: usize| prev + st.dt);
    assert!(!s.simulating());
    assert!(s.set_setup(setup(2)));
    assert_eq!(s.setup().dt, 0.01);
    assert_eq!(s.history(), &[0.0, 0.5, 1.0, 1.5, 2.0]);
}

#[test]
fn init_restarts_a_finished_run() {
    let mut s = State::new(setup(10));
    s.init(3, (0usize, 0.0));
    s.step(indexed);
    assert!(!s.simulating());
    s.init(6, (0usize, 5.0));
    assert!(s.simulating());
    assert_eq!(s.points_avail(), 1);
    assert_eq!(s.total_steps(), 6);
    assert_eq!(s.history(), &[(0usize, 5.0)]);
}
