use vstd::prelude::*;

verus! {

/// A point on the integer world grid.
#[derive(Clone, Copy, Debug, PartialEq, Eq, Structural)]
pub struct Position {
    pub x: i64,
    pub y: i64,
}

/// A unit's remaining vitality.
#[derive(Clone, Copy, Debug, PartialEq, Eq, Structural)]
pub struct Health(pub i32);

/// The kinds of units that can stand on the field.
#[derive(Clone, Copy, Debug, Hash, PartialEq, Eq, Structural)]
pub enum UnitType {
    Player,
    Kobold,
}

} // verus!
