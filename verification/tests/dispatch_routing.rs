//! Tests of per-tick value routing: a system depending on one preprocessor
//! key receives that preprocessor's derived value and nothing else.

use lock_step::{gather_inputs, Preprocessor, State, Step, System, SystemSlot};

/// Emits the input value plus one, big-endian.
#[derive(Hash)]
struct AddOne;

/// Emits the decimal text of the input value.
#[derive(Hash)]
struct Stringify;

/// The preprocessors of the demo pipeline behind one registrable type.
#[derive(Hash)]
enum DemoPre {
    AddOne(AddOne),
    Stringify(Stringify),
    Offset(i32),
}

impl Preprocessor<i32> for DemoPre {
    fn preprocess(&mut self, value: &i32) -> Vec<u8> {
        match self {
            DemoPre::AddOne(_) => (value + 1).to_be_bytes().to_vec(),
            DemoPre::Stringify(_) => value.to_string().into_bytes(),
            DemoPre::Offset(n) => (value + *n).to_be_bytes().to_vec(),
        }
    }
}

/// Records every batch of derived values it is handed; never stops.
struct Recorder {
    seen: Vec<Vec<Vec<u8>>>,
}

impl System for Recorder {
    fn step(&mut self, values: &Vec<Vec<u8>>) -> State {
        self.seen.push(values.clone());
        State::Running
    }
}

#[test]
fn system_receives_only_declared_dependencies() {
    // Two preprocessors derive "value plus one" and "text of value"; a
    // system depending only on the first sees only the incremented integer
    // form, tick by tick, never the text form.
    let mut step: Step<i32, DemoPre, Recorder> = Step::new();
    let adder_key = step.add_preprocessor(DemoPre::AddOne(AddOne)).unwrap();
    let stringer_key = step.add_preprocessor(DemoPre::Stringify(Stringify)).unwrap();
    assert_ne!(adder_key, stringer_key);

    step.add_system(Recorder { seen: Vec::new() }, &[adder_key]).unwrap();

    let inputs: Vec<i32> = vec![0, 1, 2, 3, 4];
    let slots: Vec<SystemSlot<Recorder>> = step.run(inputs);

    assert_eq!(slots.len(), 1);
    let recorder = slots[0].system();
    assert_eq!(slots[0].dependencies(), &vec![adder_key]);
    assert_eq!(recorder.seen.len(), 5);
    for (tick, batch) in recorder.seen.iter().enumerate() {
        let expected = (tick as i32 + 1).to_be_bytes().to_vec();
        assert_eq!(batch, &vec![expected]);
        assert_ne!(batch[0], tick.to_string().into_bytes());
    }
}

#[test]
fn both_dependencies_arrive_in_declared_order() {
    // A system naming both keys receives both derived values, ordered as
    // the keys were declared, not as the preprocessors were registered.
    let mut step: Step<i32, DemoPre, Recorder> = Step::new();
    let adder_key = step.add_preprocessor(DemoPre::AddOne(AddOne)).unwrap();
    let stringer_key = step.add_preprocessor(DemoPre::Stringify(Stringify)).unwrap();

    step.add_system(Recorder { seen: Vec::new() }, &[stringer_key, adder_key]).unwrap();

    let slots = step.run(vec![7]);
    let recorder = slots[0].system();
    assert_eq!(recorder.seen.len(), 1);
    let batch = &recorder.seen[0];
    assert_eq!(batch.len(), 2);
    assert_eq!(batch[0], b"7".to_vec());
    assert_eq!(batch[1], 8i32.to_be_bytes().to_vec());
}

#[test]
fn gather_inputs_routes_by_key() {
    // The dispatch routine itself: it picks, per dependency key, the bytes
    // published under that key, and fails only on a key with no entry.
    let mut step: Step<i32, DemoPre, Recorder> = Step::new();
    let adder_key = step.add_preprocessor(DemoPre::AddOne(AddOne)).unwrap();
    let stringer_key = step.add_preprocessor(DemoPre::Stringify(Stringify)).unwrap();
    let mut other: Step<i32, DemoPre, Recorder> = Step::new();
    let foreign_key = other.add_preprocessor(DemoPre::Offset(99)).unwrap();

    let table = vec![(adder_key, vec![1u8, 2]), (stringer_key, vec![3u8])];

    let gathered = gather_inputs(&table, &vec![stringer_key, adder_key]);
    assert_eq!(gathered, Some(vec![vec![3u8], vec![1u8, 2]]));

    let missing = gather_inputs(&table, &vec![adder_key, foreign_key]);
    assert_eq!(missing, None);
}
