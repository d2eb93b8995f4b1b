use vstd::prelude::*;

verus! {

/// A rectangular current pulse: `magnitude` is injected during `[start, end)`
/// and nothing outside it.
///
/// The number type `N` is left to the caller; the library stores it and never
/// computes with it.
#[derive(Clone, Copy, Debug)]
pub struct Pulse<N> {
    pub start: N,
    pub end: N,
    pub magnitude: N,
}

/// The configuration of one run: initial voltage, simulated duration, time
/// step, the number of integrator steps one `step` call may make, and the
/// stimulus.
#[derive(Clone, Copy, Debug)]
pub struct Setup<N> {
    pub v0: N,
    pub end: N,
    pub dt: N,
    pub steps_per_frame: usize,
    pub pulse: Pulse<N>,
}

} // verus!
