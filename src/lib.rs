//! Incremental, resumable stepping of a fixed-step simulation: the setup of a
//! run, the history it fills and the state machine that advances it a bounded
//! amount of work per call.
pub mod progress;
pub mod setup;
pub mod state;

pub use progress::Progress;
pub use setup::{Pulse, Setup};
pub use state::{State, StateView};
