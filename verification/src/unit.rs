use vstd::prelude::*;
use crate::types::{Health, Position, UnitType};

verus! {

/// Everything needed to instantiate a unit on the field.
#[derive(Clone, Copy, Debug, PartialEq, Eq, Structural)]
pub struct Unit {
    pub health: Health,
    pub position: Position,
    pub unit_type: UnitType,
}

} // verus!
