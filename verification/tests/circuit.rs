use std::collections::HashMap;

use spell_combinator::effect::{Damage, Effect};
use spell_combinator::global_effect::GlobalEffect;
use spell_combinator::spell::{Spell, SpellState, UnitInfo, Value};
use spell_combinator::spellbuilder::{CircuitBuilder, SpellInput};
use spell_combinator::spellcircuit::{example_circuit, Output};
use spell_combinator::types::{Health, Position, UnitType};
use spell_combinator::unit::Unit;

fn state_with(player: u64, units: &[(u64, Option<i32>, (i64, i64))]) -> SpellState {
    let mut map: HashMap<u64, UnitInfo> = HashMap::new();
    for &(id, health, (x, y)) in units {
        map.insert(id, UnitInfo { health, position: Position { x, y } });
    }
    SpellState { output: Output::new(0, 0), player, units: map }
}

#[test]
fn two_node_scenario_runs_to_completion() {
    let player_id: u64 = 7;
    let s = state_with(player_id, &[(player_id, Some(30), (0, 0))]);
    let mut builder = CircuitBuilder::from_spells(vec![Spell::player(), Spell::punch()]);
    builder.connect_io(SpellInput::new(1, 0), Output::new(0, 0));
    builder.connect_io(SpellInput::CircuitOutput, Output::new(1, 0));
    let mut circuit = builder.compile().expect("the scenario circuit compiles");

    // First step: the source node fires, producing no effects.
    assert_eq!(circuit.next_to_fire(), Some(Output::new(0, 0)));
    assert!(circuit.can_fire(&s));
    let (effects, globals) = circuit.execute_next_spell(&s).expect("the source fires");
    assert!(effects.is_empty());
    assert!(globals.is_empty());
    assert!(!circuit.is_complete());
    assert_eq!(circuit.nodes[0].outputs, Some(vec![Value::Target(player_id)]));

    // Second step: the sink fires, queueing one blow against the player.
    assert_eq!(circuit.next_to_fire(), Some(Output::new(1, 0)));
    assert!(circuit.can_fire(&s));
    let (effects, globals) = circuit.execute_next_spell(&s).expect("the sink fires");
    assert_eq!(effects, vec![(player_id, Effect::Damage(Damage::new(69)))]);
    assert!(globals.is_empty());
    assert!(circuit.is_complete());
    assert_eq!(circuit.nodes[1].outputs, Some(vec![Value::Empty]));
}

#[test]
fn completed_circuit_reports_no_work_and_stays_unchanged() {
    let player_id: u64 = 7;
    let s = state_with(player_id, &[(player_id, Some(30), (0, 0))]);
    let mut builder = CircuitBuilder::from_spells(vec![Spell::player(), Spell::punch()]);
    builder.connect_io(SpellInput::new(1, 0), Output::new(0, 0));
    builder.connect_io(SpellInput::CircuitOutput, Output::new(1, 0));
    let mut circuit = builder.compile().unwrap();
    assert!(circuit.execute_next_spell(&s).is_some());
    assert!(circuit.execute_next_spell(&s).is_some());
    assert!(circuit.is_complete());
    // Further calls never report work and never change the memoized values.
    for _ in 0..3 {
        assert!(circuit.next_to_fire().is_none());
        assert!(circuit.execute_next_spell(&s).is_none());
        assert!(circuit.is_complete());
        assert_eq!(circuit.nodes[0].outputs, Some(vec![Value::Target(player_id)]));
        assert_eq!(circuit.nodes[1].outputs, Some(vec![Value::Empty]));
    }
}

#[test]
fn chain_fires_depth_first_from_the_deepest_node() {
    let player_id: u64 = 3;
    let s = state_with(player_id, &[(player_id, Some(50), (1, 1))]);
    let mut builder =
        CircuitBuilder::from_spells(vec![Spell::player(), Spell::constrict(), Spell::punch()]);
    builder.connect_io(SpellInput::new(1, 0), Output::new(0, 0));
    builder.connect_io(SpellInput::new(2, 0), Output::new(1, 0));
    builder.connect_io(SpellInput::CircuitOutput, Output::new(2, 0));
    let mut circuit = builder.compile().unwrap();

    assert_eq!(circuit.next_to_fire(), Some(Output::new(0, 0)));
    let (effects, _) = circuit.execute_next_spell(&s).unwrap();
    assert!(effects.is_empty());

    assert_eq!(circuit.next_to_fire(), Some(Output::new(1, 0)));
    let (effects, _) = circuit.execute_next_spell(&s).unwrap();
    assert_eq!(effects, vec![(player_id, Effect::Damage(Damage::new(3)))]);
    // Constrict passes its target through.
    assert_eq!(circuit.nodes[1].outputs, Some(vec![Value::Target(player_id)]));

    assert_eq!(circuit.next_to_fire(), Some(Output::new(2, 0)));
    let (effects, _) = circuit.execute_next_spell(&s).unwrap();
    assert_eq!(effects, vec![(player_id, Effect::Damage(Damage::new(69)))]);
    assert!(circuit.is_complete());
}

#[test]
fn repeated_runs_fire_identically() {
    let player_id: u64 = 3;
    let s = state_with(player_id, &[(player_id, Some(50), (1, 1))]);
    let mut log_one: Vec<(Option<Output>, Vec<(u64, Effect)>)> = Vec::new();
    let mut log_two: Vec<(Option<Output>, Vec<(u64, Effect)>)> = Vec::new();
    for log in [&mut log_one, &mut log_two] {
        let mut builder =
            CircuitBuilder::from_spells(vec![Spell::player(), Spell::constrict(), Spell::punch()]);
        builder.connect_io(SpellInput::new(1, 0), Output::new(0, 0));
        builder.connect_io(SpellInput::new(2, 0), Output::new(1, 0));
        builder.connect_io(SpellInput::CircuitOutput, Output::new(2, 0));
        let mut circuit = builder.compile().unwrap();
        while !circuit.is_complete() {
            let fired = circuit.next_to_fire();
            let (effects, _) = circuit.execute_next_spell(&s).unwrap();
            log.push((fired, effects));
        }
    }
    assert_eq!(log_one, log_two);
    // No node fired twice within a run.
    let fired: Vec<Option<Output>> = log_one.iter().map(|(f, _)| *f).collect();
    for a in 0..fired.len() {
        for b in (a + 1)..fired.len() {
            assert_ne!(fired[a].unwrap().node, fired[b].unwrap().node);
        }
    }
}

#[test]
fn draw_life_drains_a_tenth_of_the_targets_vitality() {
    let player_id: u64 = 4;
    let s = state_with(player_id, &[(player_id, Some(25), (0, 0))]);
    let mut builder = CircuitBuilder::from_spells(vec![Spell::player(), Spell::draw_life()]);
    builder.connect_io(SpellInput::new(1, 0), Output::new(0, 0));
    builder.connect_io(SpellInput::CircuitOutput, Output::new(1, 0));
    let mut circuit = builder.compile().unwrap();
    circuit.execute_next_spell(&s).unwrap();
    let (effects, _) = circuit.execute_next_spell(&s).unwrap();
    assert_eq!(effects, vec![(player_id, Effect::Damage(Damage::new(2)))]);
    assert_eq!(circuit.nodes[1].outputs, Some(vec![Value::Power(2)]));
}

#[test]
fn draw_life_on_a_non_vital_target_drains_nothing() {
    let player_id: u64 = 4;
    let s = state_with(player_id, &[(player_id, None, (0, 0))]);
    let mut builder = CircuitBuilder::from_spells(vec![Spell::player(), Spell::draw_life()]);
    builder.connect_io(SpellInput::new(1, 0), Output::new(0, 0));
    builder.connect_io(SpellInput::CircuitOutput, Output::new(1, 0));
    let mut circuit = builder.compile().unwrap();
    circuit.execute_next_spell(&s).unwrap();
    let (effects, _) = circuit.execute_next_spell(&s).unwrap();
    assert_eq!(effects, vec![(player_id, Effect::Damage(Damage::new(0)))]);
    assert_eq!(circuit.nodes[1].outputs, Some(vec![Value::Power(0)]));
}

#[test]
fn draw_life_never_drains_negative_vitality() {
    let player_id: u64 = 4;
    let s = state_with(player_id, &[(player_id, Some(-37), (0, 0))]);
    let mut builder = CircuitBuilder::from_spells(vec![Spell::player(), Spell::draw_life()]);
    builder.connect_io(SpellInput::new(1, 0), Output::new(0, 0));
    builder.connect_io(SpellInput::CircuitOutput, Output::new(1, 0));
    let mut circuit = builder.compile().unwrap();
    circuit.execute_next_spell(&s).unwrap();
    let (effects, _) = circuit.execute_next_spell(&s).unwrap();
    assert_eq!(effects, vec![(player_id, Effect::Damage(Damage::new(0)))]);
}

#[test]
fn introspection_memoizes_more_outputs_than_it_declares() {
    let player_id: u64 = 9;
    let s = state_with(player_id, &[(player_id, Some(10), (0, 0))]);
    let mut builder = CircuitBuilder::from_spells(vec![Spell::introspection()]);
    builder.connect_io(SpellInput::CircuitOutput, Output::new(0, 0));
    let mut circuit = builder.compile().unwrap();
    let (effects, globals) = circuit.execute_next_spell(&s).unwrap();
    assert!(effects.is_empty());
    assert!(globals.is_empty());
    assert!(circuit.is_complete());
    assert_eq!(
        circuit.nodes[0].outputs,
        Some(vec![Value::Target(player_id), Value::Power(2)])
    );
}

#[test]
fn air_produces_zero_power() {
    let s = state_with(1, &[(1, Some(10), (0, 0))]);
    let mut builder = CircuitBuilder::from_spells(vec![Spell::air()]);
    builder.connect_io(SpellInput::CircuitOutput, Output::new(0, 0));
    let mut circuit = builder.compile().unwrap();
    circuit.execute_next_spell(&s).unwrap();
    assert_eq!(circuit.nodes[0].outputs, Some(vec![Value::Power(0)]));
}

#[test]
fn can_fire_rejects_a_sink_fed_a_non_target() {
    let s = state_with(1, &[(1, Some(10), (0, 0))]);
    let mut builder = CircuitBuilder::from_spells(vec![Spell::air(), Spell::punch()]);
    builder.connect_io(SpellInput::new(1, 0), Output::new(0, 0));
    builder.connect_io(SpellInput::CircuitOutput, Output::new(1, 0));
    let mut circuit = builder.compile().unwrap();
    assert!(circuit.can_fire(&s));
    circuit.execute_next_spell(&s).unwrap();
    // The punch node is structurally ready but was handed raw power, not
    // a target: firing it would be a content-authoring fault.
    assert_eq!(circuit.next_to_fire(), Some(Output::new(1, 0)));
    assert!(!circuit.can_fire(&s));
}

#[test]
fn can_fire_rejects_a_missing_target() {
    let player_id: u64 = 4;
    // The player is known but carries no entry in the unit map.
    let s = state_with(player_id, &[]);
    let mut builder = CircuitBuilder::from_spells(vec![Spell::player(), Spell::draw_life()]);
    builder.connect_io(SpellInput::new(1, 0), Output::new(0, 0));
    builder.connect_io(SpellInput::CircuitOutput, Output::new(1, 0));
    let mut circuit = builder.compile().unwrap();
    assert!(circuit.can_fire(&s));
    circuit.execute_next_spell(&s).unwrap();
    assert!(!circuit.can_fire(&s));
}

#[test]
fn scout_and_resolution_drive_the_example_circuit() {
    let player_id: u64 = 1;
    let rubble_id: u64 = 99;
    let s = state_with(player_id, &[(player_id, Some(30), (0, 0))]);
    let mut circuit = example_circuit();
    assert!(!circuit.is_complete());

    // The scout fires first, publishing a selection marker that remembers
    // the output slot it was reached under.
    let (effects, globals) = circuit.execute_next_spell(&s).unwrap();
    assert!(effects.is_empty());
    assert_eq!(globals.len(), 1);
    let select = match &globals[0] {
        GlobalEffect::Select(select) => *select,
        other => panic!("expected a selection marker, got {:?}", other),
    };
    assert_eq!(select.output, Output::new(0, 0));
    assert_eq!(circuit.nodes[0].outputs, Some(vec![Value::Empty]));

    // Until the click resolves the marker, the spawn node cannot fire: its
    // input is still the scout's empty placeholder.
    assert!(!circuit.can_fire(&s));

    // The click lands: the clicked spot became rubble, and the marked slot
    // is force-written with a reference to it.
    circuit.resolve_select(&select, rubble_id);
    assert_eq!(circuit.nodes[0].outputs, Some(vec![Value::Target(rubble_id)]));

    // Now the spawn node fires and asks for a kobold at the rubble's spot.
    let s = state_with(
        player_id,
        &[(player_id, Some(30), (0, 0)), (rubble_id, None, (5, -2))],
    );
    assert!(circuit.can_fire(&s));
    let (effects, globals) = circuit.execute_next_spell(&s).unwrap();
    assert!(effects.is_empty());
    assert_eq!(
        globals,
        vec![GlobalEffect::Spawn(spell_combinator::global_effect::SpawnUnit::new(Unit {
            health: Health(10),
            position: Position { x: 5, y: -2 },
            unit_type: UnitType::Kobold,
        }))]
    );
    assert!(circuit.is_complete());
}
