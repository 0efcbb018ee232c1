//! A tick-driven scheduler: external input values are fed, one per tick,
//! through a set of registered preprocessors (stateful transforms), and the
//! derived values each preprocessor produces are dispatched to the systems
//! (stateful consumers) that declared a dependency on them. The run ends when
//! the input is exhausted or every system has stopped itself.

use vstd::prelude::*;

mod dispatch;
mod filtering;
mod key;
mod sched;
mod systems;

pub use dispatch::gather_inputs;
pub use dispatch::has_key;
pub use dispatch::lookup_bytes;
pub use filtering::distinct_seq;
pub use filtering::disjoint_seqs;
pub use filtering::select_where;
pub use filtering::strictly_increasing;
pub use key::RegistrationKey;
pub use sched::deps_of;
pub use sched::deps_registered;
pub use sched::regs_of;
pub use sched::ConfigError;
pub use sched::Step;
pub use sched::SystemSlot;
pub use systems::StopAfter;

verus! {

/// Outcome of one tick, both for a single system and for the scheduler as a
/// whole: `Running` to keep going, `Stopped` to terminate.
#[derive(Debug, Clone, Copy, PartialEq, Eq, Structural)]
pub enum State {
    Running,
    Stopped,
}

/// A stateful consumer. Once per tick it receives the derived values named by
/// its dependency keys, in declaration order, and decides whether to stay
/// alive (`Running`) or to retire (`Stopped`).
pub trait System {
    fn step(&mut self, values: &Vec<Vec<u8>>) -> State;
}

/// A stateful transform. Once per tick it turns the current input value into
/// one owned derived buffer; it may carry internal state across ticks.
pub trait Preprocessor<In> {
    fn preprocess(&mut self, value: &In) -> Vec<u8>;
}

} // verus!
