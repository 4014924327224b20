use spell_combinator::spell::Spell;
use spell_combinator::spellbuilder::{CircuitBuilder, SpellInput};
use spell_combinator::spellcircuit::Output;

#[test]
fn from_spells_leaves_every_slot_unset() {
    let builder = CircuitBuilder::from_spells(vec![Spell::player(), Spell::punch()]);
    assert_eq!(builder.nodes.len(), 2);
    assert!(builder.output.is_none());
    assert_eq!(builder.nodes[0].inputs.len(), 0);
    assert_eq!(builder.nodes[1].inputs.len(), 1);
    assert!(builder.nodes[1].inputs[0].is_none());
}

#[test]
fn compile_yields_nothing_while_a_slot_is_unset() {
    let mut builder = CircuitBuilder::from_spells(vec![Spell::player(), Spell::punch()]);
    // No wiring at all: the punch input and the result are unset.
    assert!(builder.compile().is_none());
    // Result set, but the punch input still dangles.
    builder.connect_io(SpellInput::CircuitOutput, Output::new(1, 0));
    assert!(builder.compile().is_none());
}

#[test]
fn compile_yields_nothing_while_the_result_is_unset() {
    let mut builder = CircuitBuilder::from_spells(vec![Spell::player(), Spell::punch()]);
    builder.connect_io(SpellInput::new(1, 0), Output::new(0, 0));
    assert!(builder.compile().is_none());
}

#[test]
fn compile_freezes_a_fully_wired_builder() {
    let mut builder = CircuitBuilder::from_spells(vec![Spell::player(), Spell::punch()]);
    builder.connect_io(SpellInput::new(1, 0), Output::new(0, 0));
    builder.connect_io(SpellInput::CircuitOutput, Output::new(1, 0));
    let circuit = builder.compile().expect("a fully wired builder compiles");
    assert_eq!(circuit.nodes.len(), builder.nodes.len());
    assert_eq!(circuit.output, Output::new(1, 0));
    assert!(circuit.nodes[0].outputs.is_none());
    assert!(circuit.nodes[1].outputs.is_none());
    assert_eq!(circuit.nodes[1].inputs, vec![Output::new(0, 0)]);
}

#[test]
fn compile_rejects_cyclic_wiring() {
    let mut builder = CircuitBuilder::from_spells(vec![Spell::punch(), Spell::punch()]);
    builder.connect_io(SpellInput::new(0, 0), Output::new(1, 0));
    builder.connect_io(SpellInput::new(1, 0), Output::new(0, 0));
    builder.connect_io(SpellInput::CircuitOutput, Output::new(0, 0));
    assert!(builder.compile().is_none());
}

#[test]
fn compile_rejects_a_self_loop() {
    let mut builder = CircuitBuilder::from_spells(vec![Spell::constrict()]);
    builder.connect_io(SpellInput::new(0, 0), Output::new(0, 0));
    builder.connect_io(SpellInput::CircuitOutput, Output::new(0, 0));
    assert!(builder.compile().is_none());
}

#[test]
fn check_input_validates_slot_ranges() {
    let builder = CircuitBuilder::from_spells(vec![Spell::player(), Spell::punch()]);
    assert!(builder.check_input(&SpellInput::new(1, 0)));
    // The player spell declares no inputs at all.
    assert!(!builder.check_input(&SpellInput::new(0, 0)));
    assert!(!builder.check_input(&SpellInput::new(1, 1)));
    assert!(!builder.check_input(&SpellInput::new(2, 0)));
    assert!(builder.check_input(&SpellInput::CircuitOutput));
}

#[test]
fn check_output_validates_slot_ranges() {
    let builder = CircuitBuilder::from_spells(vec![Spell::player(), Spell::punch()]);
    assert!(builder.check_output(&Output::new(0, 0)));
    assert!(builder.check_output(&Output::new(1, 0)));
    assert!(!builder.check_output(&Output::new(0, 1)));
    assert!(!builder.check_output(&Output::new(2, 0)));
}

#[test]
fn rewiring_a_slot_keeps_the_last_wire() {
    let mut builder =
        CircuitBuilder::from_spells(vec![Spell::player(), Spell::introspection(), Spell::punch()]);
    builder.connect_io(SpellInput::new(2, 0), Output::new(0, 0));
    builder.connect_io(SpellInput::new(2, 0), Output::new(1, 0));
    builder.connect_io(SpellInput::CircuitOutput, Output::new(2, 0));
    let circuit = builder.compile();
    // Node 0 is left dangling but the graph is still complete: every slot
    // that exists is wired.
    let circuit = circuit.expect("complete graph with an unused node compiles");
    assert_eq!(circuit.nodes[2].inputs, vec![Output::new(1, 0)]);
}

#[test]
fn spell_constructors_declare_their_arities() {
    assert_eq!((Spell::player().num_inputs, Spell::player().num_outputs), (0, 1));
    assert_eq!((Spell::punch().num_inputs, Spell::punch().num_outputs), (1, 1));
    assert_eq!((Spell::introspection().num_inputs, Spell::introspection().num_outputs), (0, 1));
    assert_eq!((Spell::air().num_inputs, Spell::air().num_outputs), (0, 1));
    assert_eq!((Spell::constrict().num_inputs, Spell::constrict().num_outputs), (1, 1));
    assert_eq!((Spell::draw_life().num_inputs, Spell::draw_life().num_outputs), (1, 1));
    assert_eq!((Spell::scout().num_inputs, Spell::scout().num_outputs), (0, 1));
    assert_eq!((Spell::spawn_cobold().num_inputs, Spell::spawn_cobold().num_outputs), (1, 1));
}
