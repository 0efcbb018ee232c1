//! End-to-end tests of the tick-driven scheduler: registration, dispatch,
//! termination, and result ordering.

use lock_step::{ConfigError, Preprocessor, State, Step, StopAfter, System};

/// Emits the input value plus one, big-endian.
#[derive(Hash)]
struct AddOne;

impl Preprocessor<i32> for AddOne {
    fn preprocess(&mut self, value: &i32) -> Vec<u8> {
        (value + 1).to_be_bytes().to_vec()
    }
}

/// A stateless preprocessor used where the systems under test ignore their
/// inputs anyway.
#[derive(Hash)]
struct Discard;

impl Preprocessor<i32> for Discard {
    fn preprocess(&mut self, _value: &i32) -> Vec<u8> {
        Vec::new()
    }
}

#[test]
fn three_counting_systems_stop_counts_preserved() {
    // Three systems stopping after 3, 5 and 2 ticks, fed far more input than
    // the run will use.
    let stream: Vec<i32> = (0..50).collect();
    let mut step: Step<i32, Discard, StopAfter> = Step::new();
    step.add_system(StopAfter::new(3), &[]).unwrap();
    step.add_system(StopAfter::new(5), &[]).unwrap();
    step.add_system(StopAfter::new(2), &[]).unwrap();

    let slots = step.run(stream);

    // All three stopped, and each received exactly as many ticks as its
    // limit allows.
    assert_eq!(slots.len(), 3);
    for slot in &slots {
        assert_eq!(slot.system().count(), slot.system().limit());
    }
    // No system is left alive, so the result lists the dead collection in
    // the order the systems stopped: after 2, after 3, after 5 ticks.
    let limits: Vec<u32> = slots.iter().map(|s| s.system().limit()).collect();
    assert_eq!(limits, vec![2, 3, 5]);
}

#[test]
fn run_consumes_exactly_five_inputs() {
    // Driven tick by tick from an unbounded counter: the scheduler reports
    // `Stopped` on the fifth tick, so a run consumes exactly five values.
    let mut step: Step<i32, Discard, StopAfter> = Step::new();
    step.add_system(StopAfter::new(3), &[]).unwrap();
    step.add_system(StopAfter::new(5), &[]).unwrap();
    step.add_system(StopAfter::new(2), &[]).unwrap();

    let mut consumed = 0;
    for value in 0.. {
        consumed += 1;
        if step.step(value) == State::Stopped {
            break;
        }
    }
    assert_eq!(consumed, 5);
}

#[test]
fn missing_dependency_rejected_before_run() {
    // A key from a different scheduler instance was never registered here:
    // the configuration error arrives at registration, before any run.
    let mut other: Step<i32, AddOne, StopAfter> = Step::new();
    let foreign_key = other.add_preprocessor(AddOne).unwrap();

    let mut step: Step<i32, AddOne, StopAfter> = Step::new();
    let result = step.add_system(StopAfter::new(1), &[foreign_key]);
    assert_eq!(result, Err(ConfigError::MissingDependency(foreign_key)));

    // The rejected system is not registered: a run consumes one tick and
    // stops with no system to serve.
    let slots = step.run(vec![1, 2, 3]);
    assert_eq!(slots.len(), 0);
}

#[test]
fn duplicate_identity_key_rejected() {
    // Two instances of the same preprocessor type with equal state derive
    // the same identity key; the second registration is refused.
    let mut step: Step<i32, AddOne, StopAfter> = Step::new();
    let key = step.add_preprocessor(AddOne).unwrap();
    let result = step.add_preprocessor(AddOne);
    assert_eq!(result, Err(ConfigError::DuplicateKey(key)));
}

#[test]
fn stopped_system_not_stepped_again() {
    // The first system stops on tick one; its count stays frozen while the
    // other system keeps being stepped.
    let mut step: Step<i32, Discard, StopAfter> = Step::new();
    step.add_system(StopAfter::new(1), &[]).unwrap();
    step.add_system(StopAfter::new(4), &[]).unwrap();

    assert_eq!(step.step(0), State::Running);
    assert_eq!(step.step(1), State::Running);
    assert_eq!(step.step(2), State::Running);
    assert_eq!(step.step(3), State::Stopped);

    let slots = step.run(Vec::new());
    let counts: Vec<u32> = slots.iter().map(|s| s.system().count()).collect();
    // Stop order: the one-tick system first, frozen at one received tick.
    assert_eq!(counts, vec![1, 4]);
}

#[test]
fn run_with_empty_stream_returns_alive_in_order() {
    // No input, no tick: every system is still alive, in registration
    // order, and never received a step.
    let mut step: Step<i32, Discard, StopAfter> = Step::new();
    step.add_system(StopAfter::new(7), &[]).unwrap();
    step.add_system(StopAfter::new(9), &[]).unwrap();

    let slots = step.run(Vec::new());
    let limits: Vec<u32> = slots.iter().map(|s| s.system().limit()).collect();
    assert_eq!(limits, vec![7, 9]);
    for slot in &slots {
        assert_eq!(slot.system().count(), 0);
    }
}

#[test]
fn result_lists_alive_in_registration_order_then_dead() {
    // Input runs out after three ticks: two systems are still alive, in
    // registration order, and the one that stopped comes after them.
    let mut step: Step<i32, Discard, StopAfter> = Step::new();
    step.add_system(StopAfter::new(9), &[]).unwrap();
    step.add_system(StopAfter::new(1), &[]).unwrap();
    step.add_system(StopAfter::new(7), &[]).unwrap();

    let slots = step.run(vec![10, 20, 30]);
    let limits: Vec<u32> = slots.iter().map(|s| s.system().limit()).collect();
    assert_eq!(limits, vec![9, 7, 1]);
    let counts: Vec<u32> = slots.iter().map(|s| s.system().count()).collect();
    assert_eq!(counts, vec![3, 3, 1]);
}

#[test]
fn run_without_systems_stops_after_one_tick() {
    // With nothing alive the first tick already reports `Stopped`: one
    // input value is consumed, the rest is left untouched.
    let mut step: Step<i32, Discard, StopAfter> = Step::new();
    step.add_preprocessor(Discard).unwrap();
    assert_eq!(step.step(41), State::Stopped);
    let slots = step.run(vec![1, 2, 3]);
    assert_eq!(slots.len(), 0);
}
