use std::collections::HashMap;

use spell_combinator::effect::{Damage, Effect, Effects};
use spell_combinator::spell::{Spell, SpellState, UnitInfo};
use spell_combinator::spellbuilder::{CircuitBuilder, SpellInput};
use spell_combinator::spellcircuit::{effects_done, execute_if_ready, Output, SpellCircuit};
use spell_combinator::types::Position;

fn scenario_circuit() -> SpellCircuit {
    let mut builder = CircuitBuilder::from_spells(vec![Spell::player(), Spell::punch()]);
    builder.connect_io(SpellInput::new(1, 0), Output::new(0, 0));
    builder.connect_io(SpellInput::CircuitOutput, Output::new(1, 0));
    builder.compile().unwrap()
}

fn scenario_state(player: u64) -> SpellState {
    let mut units: HashMap<u64, UnitInfo> = HashMap::new();
    units.insert(player, UnitInfo { health: Some(30), position: Position { x: 0, y: 0 } });
    SpellState { output: Output::new(0, 0), player, units }
}

#[test]
fn effects_done_requires_empty_queues_and_no_markers() {
    let empty = Effects::new();
    let mut busy = Effects::new();
    busy.0.push_back(Effect::Damage(Damage::new(1)));

    assert!(effects_done(&vec![], 0));
    assert!(effects_done(&vec![empty], 0));
    let empty = Effects::new();
    assert!(!effects_done(&vec![empty, busy], 0));
    let empty = Effects::new();
    assert!(!effects_done(&vec![empty], 1));
}

#[test]
fn a_busy_queue_blocks_firing() {
    let s = scenario_state(7);
    let mut circuit = scenario_circuit();
    let mut busy = Effects::new();
    busy.0.push_back(Effect::Damage(Damage::new(1)));
    let queues = vec![busy];
    // The source node is structurally ready, yet nothing may fire.
    assert_eq!(circuit.next_to_fire(), Some(Output::new(0, 0)));
    assert!(execute_if_ready(&mut circuit, &s, &queues, 0).is_none());
    assert_eq!(circuit.next_to_fire(), Some(Output::new(0, 0)));
    assert!(circuit.nodes[0].outputs.is_none());
}

#[test]
fn an_outstanding_marker_blocks_firing() {
    let s = scenario_state(7);
    let mut circuit = scenario_circuit();
    let queues = vec![Effects::new()];
    assert!(execute_if_ready(&mut circuit, &s, &queues, 1).is_none());
    assert!(circuit.nodes[0].outputs.is_none());
}

#[test]
fn an_open_barrier_lets_one_node_fire() {
    let s = scenario_state(7);
    let mut circuit = scenario_circuit();
    let queues = vec![Effects::new()];
    let (effects, globals) =
        execute_if_ready(&mut circuit, &s, &queues, 0).expect("the barrier is open");
    assert!(effects.is_empty());
    assert!(globals.is_empty());
    assert!(circuit.nodes[0].outputs.is_some());
    assert!(circuit.nodes[1].outputs.is_none());
}
