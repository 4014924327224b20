use spell_combinator::effect::{Damage, Effect, Move};
use spell_combinator::spellang::{example_circuit, CircuitError, Node, Output, State, Value};
use spell_combinator::types::Position;

fn example_state(player: u64) -> State {
    State { player, enemies: vec![20, 21] }
}

#[test]
fn test_spellang() {
    // Running the sample two-node circuit to completion walks the
    // player's target to (42, 42), one fired node per call.
    let s = example_state(10);
    let mut circuit = example_circuit();
    let first = circuit.execute_next_spell(&s).expect("the player node fires first");
    assert!(first.is_empty());
    let second = circuit.execute_next_spell(&s).expect("the walk node fires second");
    assert_eq!(
        second,
        vec![(10, Effect::Move(Move::new(Position { x: 42, y: 42 })))]
    );
    assert!(circuit.execute_next_spell(&s).is_none());
}

#[test]
fn execute_evaluates_the_designated_result() {
    let s = example_state(3);
    let mut circuit = example_circuit();
    assert_eq!(circuit.execute(&s), Ok(Value::Empty));
    // Evaluation memoized both spells, so stepwise execution finds no
    // remaining work.
    assert_eq!(circuit.spells[0].outputs, Some(vec![Value::Target(3)]));
    assert_eq!(circuit.spells[1].outputs, Some(vec![Value::Empty]));
    assert!(circuit.execute_next_spell(&s).is_none());
}

#[test]
fn execute_replays_memoized_values() {
    let s = example_state(3);
    let mut circuit = example_circuit();
    assert_eq!(circuit.execute(&s), Ok(Value::Empty));
    assert_eq!(circuit.execute(&s), Ok(Value::Empty));
}

#[test]
fn execute_reports_an_out_of_range_output_slot() {
    let s = example_state(3);
    let mut circuit = example_circuit();
    // An externally authored pointer may ask for a slot the node never
    // declared; that is recoverable, not fatal.
    circuit.output = Output::new(1, 5);
    assert_eq!(
        circuit.execute(&s),
        Err(CircuitError::MissingOutput(Output::new(1, 5)))
    );
}

#[test]
fn execute_reports_an_under_wired_node() {
    let s = example_state(3);
    let mut circuit = example_circuit();
    // Strip the walk node of its one input: its spell still declares one.
    circuit.nodes[1] = Node { inputs: vec![], spell_idx: 1 };
    assert_eq!(circuit.execute(&s), Err(CircuitError::MissingInputs(1)));
}

#[test]
fn stepwise_execution_reaches_the_same_memo_as_full_evaluation() {
    let s = example_state(5);
    let mut stepped = example_circuit();
    while stepped.execute_next_spell(&s).is_some() {}
    let mut evaluated = example_circuit();
    evaluated.execute(&s).unwrap();
    assert_eq!(stepped.spells[0].outputs, evaluated.spells[0].outputs);
    assert_eq!(stepped.spells[1].outputs, evaluated.spells[1].outputs);
}

#[test]
fn punch_effects_carry_the_target() {
    // A punch wired the same way as the sample circuit's walk node.
    let s = example_state(10);
    let mut circuit = example_circuit();
    circuit.spells[1] = spell_combinator::spellang::Spell::new(
        1,
        1,
        spell_combinator::spellang::Routine::Punch,
    );
    circuit.execute_next_spell(&s).unwrap();
    let second = circuit.execute_next_spell(&s).unwrap();
    assert_eq!(second, vec![(10, Effect::Damage(Damage::new(69)))]);
}

#[test]
fn next_to_cast_walks_the_firing_order() {
    let s = example_state(10);
    let mut circuit = example_circuit();
    assert_eq!(circuit.next_to_cast(), Some(0));
    assert!(circuit.can_cast(&s));
    circuit.execute_next_spell(&s).unwrap();
    assert_eq!(circuit.next_to_cast(), Some(1));
    assert!(circuit.can_cast(&s));
    circuit.execute_next_spell(&s).unwrap();
    assert_eq!(circuit.next_to_cast(), None);
    assert!(circuit.can_cast(&s));
}
