use vstd::prelude::*;
use crate::types::{Health, Position};
use std::collections::VecDeque;

verus! {

/// The coordinate reached after one unit step from `from` toward `to`.
pub open spec fn step_coord(from: i64, to: i64) -> int {
    if from < to {
        from + 1
    } else if from > to {
        from - 1
    } else {
        from as int
    }
}

/// Gradual displacement of a unit toward a target point: one grid step per
/// tick along each axis, finished once the unit stands on the target.
#[derive(Clone, Copy, Debug, PartialEq, Eq, Structural)]
pub struct Move {
    pub target: Position,
}

impl Move {
    pub fn new(target: Position) -> (m: Move)
        ensures
            m.target == target,
    {
        Move { target }
    }

    /// Advance `position` one step toward the target, reporting whether the
    /// move has finished.  A move whose target is already reached finishes
    /// immediately without displacing the unit.
    pub fn update(&self, position: &mut Position) -> (done: bool)
        ensures
            done == (*old(position) == self.target),
            done ==> *final(position) == *old(position),
            !done ==> final(position).x == step_coord(old(position).x, self.target.x),
            !done ==> final(position).y == step_coord(old(position).y, self.target.y),
    {
        if position.x == self.target.x && position.y == self.target.y {
            true
        } else {
            let x: i64 = if position.x < self.target.x {
                position.x + 1
            } else if position.x > self.target.x {
                position.x - 1
            } else {
                position.x
            };
            let y: i64 = if position.y < self.target.y {
                position.y + 1
            } else if position.y > self.target.y {
                position.y - 1
            } else {
                position.y
            };
            *position = Position { x, y };
            false
        }
    }
}

/// Pending selection of a unit and a destination for a manual move order.
#[derive(Clone, Copy, Debug, PartialEq, Eq, Structural)]
pub struct MovePrep {
    pub unit: Option<u64>,
    pub target: Option<Position>,
}

impl MovePrep {
    pub fn new() -> (p: MovePrep)
        ensures
            p.unit is None,
            p.target is None,
    {
        MovePrep { unit: None, target: None }
    }

    /// A move order is ready as soon as a target has been picked.
    pub fn compile(&self) -> (m: Option<Move>)
        ensures
            m matches Some(mv) ==> self.target == Some(mv.target),
            m is Some <==> self.target is Some,
    {
        match self.target {
            Some(t) => Some(Move::new(t)),
            None => None,
        }
    }
}

/// An instantaneous loss of health; always finishes in a single tick.
#[derive(Clone, Copy, Debug, PartialEq, Eq, Structural)]
pub struct Damage {
    pub damage: i32,
}

impl Damage {
    pub fn new(damage: i32) -> (d: Damage)
        ensures
            d.damage == damage,
    {
        Damage { damage }
    }

    pub fn update(&self, health: &mut Health) -> (done: bool)
        requires
            i32::MIN <= old(health).0 - self.damage <= i32::MAX,
        ensures
            final(health).0 == old(health).0 - self.damage,
            done,
    {
        health.0 = health.0 - self.damage;
        true
    }
}

/// One queued mutation of a single unit, applied incrementally over ticks.
#[derive(Clone, Copy, Debug, PartialEq, Eq, Structural)]
pub enum Effect {
    Move(Move),
    Damage(Damage),
}

impl Effect {
    /// Apply one tick of this effect to a unit, reporting completion.
    pub fn update(&self, health: &mut Health, position: &mut Position) -> (done: bool)
        requires
            self matches Effect::Damage(d) ==> i32::MIN <= old(health).0 - d.damage <= i32::MAX,
        ensures
            match *self {
                Effect::Move(m) => {
                    &&& *final(health) == *old(health)
                    &&& done == (*old(position) == m.target)
                    &&& done ==> *final(position) == *old(position)
                    &&& !done ==> final(position).x == step_coord(old(position).x, m.target.x)
                    &&& !done ==> final(position).y == step_coord(old(position).y, m.target.y)
                },
                Effect::Damage(d) => {
                    &&& *final(position) == *old(position)
                    &&& final(health).0 == old(health).0 - d.damage
                    &&& done
                },
            },
    {
        match self {
            Effect::Move(m) => m.update(position),
            Effect::Damage(d) => d.update(health),
        }
    }
}

/// A unit's FIFO queue of pending effects.
pub struct Effects(pub VecDeque<Effect>);

impl Effects {
    pub fn new() -> (e: Effects)
        ensures
            e.0@.len() == 0,
    {
        Effects(VecDeque::new())
    }
}

/// Advance a unit's effect queue by at most one step: apply the front
/// effect for one tick and pop it once it reports completion.
pub fn update_effect(health: &mut Health, position: &mut Position, effects: &mut Effects)
    requires
        old(effects).0@.len() > 0 ==> (old(effects).0@[0] matches Effect::Damage(d)
            ==> i32::MIN <= old(health).0 - d.damage <= i32::MAX),
    ensures
        old(effects).0@.len() == 0 ==> {
            &&& *final(health) == *old(health)
            &&& *final(position) == *old(position)
            &&& final(effects).0@ == old(effects).0@
        },
        old(effects).0@.len() > 0 ==> match old(effects).0@[0] {
            Effect::Damage(d) => {
                &&& final(health).0 == old(health).0 - d.damage
                &&& *final(position) == *old(position)
                &&& final(effects).0@ == old(effects).0@.drop_first()
            },
            Effect::Move(m) => {
                &&& *final(health) == *old(health)
                &&& (*old(position) == m.target ==> *final(position) == *old(position)
                    && final(effects).0@ == old(effects).0@.drop_first())
                &&& (*old(position) != m.target ==> {
                    &&& final(position).x == step_coord(old(position).x, m.target.x)
                    &&& final(position).y == step_coord(old(position).y, m.target.y)
                    &&& final(effects).0@ == old(effects).0@
                })
            },
        },
{
    if effects.0.len() > 0 {
        let effect = effects.0[0];
        if effect.update(health, position) {
            effects.0.pop_front();
        }
    }
}

} // verus!
