use vstd::prelude::*;
use crate::effect::{Damage, Effect};
use crate::global_effect::{GlobalEffect, SelectRubble, SpawnUnit};
use crate::spellcircuit::Output;
use crate::types::{Health, Position, UnitType};
use crate::unit::Unit;
use std::collections::HashMap;

verus! {

broadcast use vstd::std_specs::hash::group_hash_axioms;

/// A datum flowing along a circuit edge.  A `Target` carries the identifier
/// of a live entity.
#[derive(Clone, Copy, Debug, PartialEq, Eq, Structural)]
pub enum Value {
    Target(u64),
    Power(u32),
    Empty,
}

/// What the engine knows about one live entity at the moment a node fires:
/// its vitality, absent for non-vital scenery such as rubble, and its
/// position on the grid.
#[derive(Clone, Copy, Debug)]
pub struct UnitInfo {
    pub health: Option<i32>,
    pub position: Position,
}

/// The context snapshot a spell receives when it fires: the output pointer
/// under which its node was reached, the primary entity, and a map from
/// every live entity to its current state.
pub struct SpellState {
    pub output: Output,
    pub player: u64,
    pub units: HashMap<u64, UnitInfo>,
}

/// The mathematical content of a [`SpellState`].
pub struct StateView {
    pub output: Output,
    pub player: u64,
    pub units: Map<u64, UnitInfo>,
}

impl View for SpellState {
    type V = StateView;

    open spec fn view(&self) -> StateView {
        StateView { output: self.output, player: self.player, units: self.units@ }
    }
}

impl SpellState {
    /// The same snapshot readdressed to another output pointer; the
    /// evaluator hands each fired node the pointer it was reached under.
    pub fn readdress(&self, output: Output) -> (s: SpellState)
        ensures
            s@ == with_output(self@, output),
    {
        SpellState { output, player: self.player, units: self.units.clone() }
    }
}

/// `s` readdressed to the pointer `p`.
pub open spec fn with_output(s: StateView, p: Output) -> StateView {
    StateView { output: p, player: s.player, units: s.units }
}

/// The behaviour of a spell, drawn from the game's fixed repertoire.
#[derive(Clone, Copy, Debug, PartialEq, Eq, Structural)]
pub enum SpellKind {
    /// No inputs; outputs a reference to the primary entity.
    Player,
    /// Consumes a target; deals it a fixed large blow.
    Punch,
    /// No inputs; outputs the primary entity and a small power.
    Introspection,
    /// No inputs; outputs zero power.
    Air,
    /// Consumes a target; deals it a small blow and passes the target on.
    Constrict,
    /// Consumes a target; drains a tenth of its vitality as damage and
    /// outputs the drained amount as power.
    DrawLife,
    /// No inputs; requests an interactive target selection.
    Scout,
    /// Consumes a target; requests a kobold spawned at the target's spot.
    SpawnCobold,
}

/// How many inputs a spell of kind `k` consumes.
pub open spec fn kind_num_inputs(k: SpellKind) -> nat {
    match k {
        SpellKind::Player => 0,
        SpellKind::Punch => 1,
        SpellKind::Introspection => 0,
        SpellKind::Air => 0,
        SpellKind::Constrict => 1,
        SpellKind::DrawLife => 1,
        SpellKind::Scout => 0,
        SpellKind::SpawnCobold => 1,
    }
}

/// How many output values a spell of kind `k` produces.
pub open spec fn kind_num_outputs(k: SpellKind) -> nat {
    match k {
        SpellKind::Introspection => 2,
        _ => 1,
    }
}

/// What the drain computes from a target's vitality: a tenth of it, never
/// below zero, and zero for a non-vital target.
pub open spec fn draw_life_damage(health: Option<i32>) -> int {
    let h = match health {
        Some(h) => h as int,
        None => 0,
    };
    if h >= 0 {
        h / 10
    } else {
        0
    }
}

/// The inputs a spell of kind `k` can fire on: the arity matches, a spell
/// that consumes a target really receives one, and a spell that reads the
/// target's state finds the target in the context.
pub open spec fn cast_pre(k: SpellKind, s: StateView, inputs: Seq<Value>) -> bool {
    &&& inputs.len() == kind_num_inputs(k)
    &&& match k {
        SpellKind::Punch | SpellKind::Constrict => inputs[0] is Target,
        SpellKind::DrawLife | SpellKind::SpawnCobold => inputs[0] matches Value::Target(e)
            && s.units.contains_key(e),
        _ => true,
    }
}

/// The output values a firing of kind `k` produces.
pub open spec fn cast_outputs(k: SpellKind, s: StateView, inputs: Seq<Value>) -> Seq<Value> {
    match k {
        SpellKind::Player => seq![Value::Target(s.player)],
        SpellKind::Punch => seq![Value::Empty],
        SpellKind::Introspection => seq![Value::Target(s.player), Value::Power(2)],
        SpellKind::Air => seq![Value::Power(0)],
        SpellKind::Constrict => seq![inputs[0]],
        SpellKind::DrawLife => {
            let e = inputs[0]->Target_0;
            seq![Value::Power(draw_life_damage(s.units[e].health) as u32)]
        },
        SpellKind::Scout => seq![Value::Empty],
        SpellKind::SpawnCobold => seq![Value::Empty],
    }
}

/// The per-target effects a firing of kind `k` queues.
pub open spec fn cast_effects(k: SpellKind, s: StateView, inputs: Seq<Value>) -> Seq<(u64, Effect)> {
    match k {
        SpellKind::Punch => {
            let e = inputs[0]->Target_0;
            seq![(e, Effect::Damage(Damage { damage: 69 }))]
        },
        SpellKind::Constrict => {
            let e = inputs[0]->Target_0;
            seq![(e, Effect::Damage(Damage { damage: 3 }))]
        },
        SpellKind::DrawLife => {
            let e = inputs[0]->Target_0;
            seq![(e, Effect::Damage(Damage { damage: draw_life_damage(s.units[e].health) as i32 }))]
        },
        _ => Seq::empty(),
    }
}

/// The global effects a firing of kind `k` publishes.
pub open spec fn cast_globals(k: SpellKind, s: StateView, inputs: Seq<Value>) -> Seq<GlobalEffect> {
    match k {
        SpellKind::Scout => seq![GlobalEffect::Select(SelectRubble { output: s.output })],
        SpellKind::SpawnCobold => {
            let e = inputs[0]->Target_0;
            let unit = Unit {
                health: Health(10),
                position: s.units[e].position,
                unit_type: UnitType::Kobold,
            };
            seq![GlobalEffect::Spawn(SpawnUnit { unit })]
        },
        _ => Seq::empty(),
    }
}

/// A firing always produces exactly as many output values as its kind
/// declares.
pub proof fn lemma_cast_outputs_len(k: SpellKind, s: StateView, inputs: Seq<Value>)
    ensures
        cast_outputs(k, s, inputs).len() == kind_num_outputs(k),
{
}

/// A pure, fixed-arity computation unit: its declared arities and its
/// behaviour.  A spell may declare fewer outputs than its behaviour
/// produces; only declared slots are addressable.
#[derive(Clone, Copy, Debug, PartialEq, Eq, Structural)]
pub struct Spell {
    pub num_inputs: usize,
    pub num_outputs: usize,
    pub kind: SpellKind,
}

impl Spell {
    pub open spec fn wf(self) -> bool {
        &&& self.num_inputs == kind_num_inputs(self.kind)
        &&& 1 <= self.num_outputs <= kind_num_outputs(self.kind)
    }

    pub fn new(num_inputs: usize, num_outputs: usize, kind: SpellKind) -> (sp: Spell)
        requires
            num_inputs == kind_num_inputs(kind),
            1 <= num_outputs <= kind_num_outputs(kind),
        ensures
            sp == (Spell { num_inputs, num_outputs, kind }),
            sp.wf(),
    {
        Spell { num_inputs, num_outputs, kind }
    }

    /// Fire this spell on the given context and inputs, yielding its output
    /// values, its per-target effects, and its global effects.
    pub fn cast(&self, s: &SpellState, inputs: &Vec<Value>) -> (r: (
        Vec<Value>,
        Vec<(u64, Effect)>,
        Vec<GlobalEffect>,
    ))
        requires
            cast_pre(self.kind, s@, inputs@),
        ensures
            r.0@ == cast_outputs(self.kind, s@, inputs@),
            r.1@ == cast_effects(self.kind, s@, inputs@),
            r.2@ == cast_globals(self.kind, s@, inputs@),
            r.0@.len() == kind_num_outputs(self.kind),
    {
        match self.kind {
            SpellKind::Player => {
                let outputs = vec![Value::Target(s.player)];
                proof {
                    assert(outputs@ =~= cast_outputs(self.kind, s@, inputs@));
                    assert(Seq::<(u64, Effect)>::empty() =~= cast_effects(self.kind, s@, inputs@));
                    assert(Seq::<GlobalEffect>::empty() =~= cast_globals(self.kind, s@, inputs@));
                }
                (outputs, Vec::new(), Vec::new())
            },
            SpellKind::Punch => {
                let e = match inputs[0] {
                    Value::Target(e) => e,
                    _ => vstd::pervasive::unreached(),
                };
                let outputs = vec![Value::Empty];
                let effects = vec![(e, Effect::Damage(Damage::new(69)))];
                proof {
                    assert(outputs@ =~= cast_outputs(self.kind, s@, inputs@));
                    assert(effects@ =~= cast_effects(self.kind, s@, inputs@));
                    assert(Seq::<GlobalEffect>::empty() =~= cast_globals(self.kind, s@, inputs@));
                }
                (outputs, effects, Vec::new())
            },
            SpellKind::Introspection => {
                let outputs = vec![Value::Target(s.player), Value::Power(2)];
                proof {
                    assert(outputs@ =~= cast_outputs(self.kind, s@, inputs@));
                    assert(Seq::<(u64, Effect)>::empty() =~= cast_effects(self.kind, s@, inputs@));
                    assert(Seq::<GlobalEffect>::empty() =~= cast_globals(self.kind, s@, inputs@));
                }
                (outputs, Vec::new(), Vec::new())
            },
            SpellKind::Air => {
                let outputs = vec![Value::Power(0)];
                proof {
                    assert(outputs@ =~= cast_outputs(self.kind, s@, inputs@));
                    assert(Seq::<(u64, Effect)>::empty() =~= cast_effects(self.kind, s@, inputs@));
                    assert(Seq::<GlobalEffect>::empty() =~= cast_globals(self.kind, s@, inputs@));
                }
                (outputs, Vec::new(), Vec::new())
            },
            SpellKind::Constrict => {
                let e = match inputs[0] {
                    Value::Target(e) => e,
                    _ => vstd::pervasive::unreached(),
                };
                let outputs = vec![Value::Target(e)];
                let effects = vec![(e, Effect::Damage(Damage::new(3)))];
                proof {
                    assert(outputs@ =~= cast_outputs(self.kind, s@, inputs@));
                    assert(effects@ =~= cast_effects(self.kind, s@, inputs@));
                    assert(Seq::<GlobalEffect>::empty() =~= cast_globals(self.kind, s@, inputs@));
                }
                (outputs, effects, Vec::new())
            },
            SpellKind::DrawLife => {
                let e = match inputs[0] {
                    Value::Target(e) => e,
                    _ => vstd::pervasive::unreached(),
                };
                let info = match s.units.get(&e) {
                    Some(info) => *info,
                    None => vstd::pervasive::unreached(),
                };
                let h = info.health.unwrap_or(0);
                let damage: i32 = if h >= 0 {
                    h / 10
                } else {
                    0
                };
                let outputs = vec![Value::Power(damage as u32)];
                let effects = vec![(e, Effect::Damage(Damage::new(damage)))];
                proof {
                    assert(outputs@ =~= cast_outputs(self.kind, s@, inputs@));
                    assert(effects@ =~= cast_effects(self.kind, s@, inputs@));
                    assert(Seq::<GlobalEffect>::empty() =~= cast_globals(self.kind, s@, inputs@));
                }
                (outputs, effects, Vec::new())
            },
            SpellKind::Scout => {
                let outputs = vec![Value::Empty];
                let globals = vec![GlobalEffect::Select(SelectRubble::new(s.output))];
                proof {
                    assert(outputs@ =~= cast_outputs(self.kind, s@, inputs@));
                    assert(Seq::<(u64, Effect)>::empty() =~= cast_effects(self.kind, s@, inputs@));
                    assert(globals@ =~= cast_globals(self.kind, s@, inputs@));
                }
                (outputs, Vec::new(), globals)
            },
            SpellKind::SpawnCobold => {
                let e = match inputs[0] {
                    Value::Target(e) => e,
                    _ => vstd::pervasive::unreached(),
                };
                let info = match s.units.get(&e) {
                    Some(info) => *info,
                    None => vstd::pervasive::unreached(),
                };
                let cobold = Unit {
                    health: Health(10),
                    position: info.position,
                    unit_type: UnitType::Kobold,
                };
                let outputs = vec![Value::Empty];
                let globals = vec![GlobalEffect::Spawn(SpawnUnit::new(cobold))];
                proof {
                    assert(outputs@ =~= cast_outputs(self.kind, s@, inputs@));
                    assert(Seq::<(u64, Effect)>::empty() =~= cast_effects(self.kind, s@, inputs@));
                    assert(globals@ =~= cast_globals(self.kind, s@, inputs@));
                }
                (outputs, Vec::new(), globals)
            },
        }
    }

    pub fn player() -> (sp: Spell)
        ensures
            sp == (Spell { num_inputs: 0, num_outputs: 1, kind: SpellKind::Player }),
    {
        Spell::new(0, 1, SpellKind::Player)
    }

    pub fn punch() -> (sp: Spell)
        ensures
            sp == (Spell { num_inputs: 1, num_outputs: 1, kind: SpellKind::Punch }),
    {
        Spell::new(1, 1, SpellKind::Punch)
    }

    pub fn introspection() -> (sp: Spell)
        ensures
            sp == (Spell { num_inputs: 0, num_outputs: 1, kind: SpellKind::Introspection }),
    {
        Spell::new(0, 1, SpellKind::Introspection)
    }

    pub fn air() -> (sp: Spell)
        ensures
            sp == (Spell { num_inputs: 0, num_outputs: 1, kind: SpellKind::Air }),
    {
        Spell::new(0, 1, SpellKind::Air)
    }

    pub fn constrict() -> (sp: Spell)
        ensures
            sp == (Spell { num_inputs: 1, num_outputs: 1, kind: SpellKind::Constrict }),
    {
        Spell::new(1, 1, SpellKind::Constrict)
    }

    pub fn draw_life() -> (sp: Spell)
        ensures
            sp == (Spell { num_inputs: 1, num_outputs: 1, kind: SpellKind::DrawLife }),
    {
        Spell::new(1, 1, SpellKind::DrawLife)
    }

    pub fn scout() -> (sp: Spell)
        ensures
            sp == (Spell { num_inputs: 0, num_outputs: 1, kind: SpellKind::Scout }),
    {
        Spell::new(0, 1, SpellKind::Scout)
    }

    pub fn spawn_cobold() -> (sp: Spell)
        ensures
            sp == (Spell { num_inputs: 1, num_outputs: 1, kind: SpellKind::SpawnCobold }),
    {
        Spell::new(1, 1, SpellKind::SpawnCobold)
    }
}

} // verus!
