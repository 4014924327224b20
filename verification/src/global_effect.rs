use vstd::prelude::*;
use crate::spellcircuit::Output;
use crate::unit::Unit;

verus! {

/// A pending interactive target selection: once the player clicks a world
/// location, the clicked spot becomes a rubble entity whose reference is
/// force-written into the output slot this marker points at.
#[derive(Clone, Copy, Debug, PartialEq, Eq, Structural)]
pub struct SelectRubble {
    pub output: Output,
}

impl SelectRubble {
    pub fn new(output: Output) -> (s: SelectRubble)
        ensures
            s.output == output,
    {
        SelectRubble { output }
    }
}

/// A request to instantiate a new unit from the carried specification.
#[derive(Clone, Copy, Debug, PartialEq, Eq, Structural)]
pub struct SpawnUnit {
    pub unit: Unit,
}

impl SpawnUnit {
    pub fn new(unit: Unit) -> (s: SpawnUnit)
        ensures
            s.unit == unit,
    {
        SpawnUnit { unit }
    }
}

/// A side effect not addressed to a single unit's queue; it is materialized
/// as a transient marker that an external collaborator resolves.
#[derive(Clone, Copy, Debug, PartialEq, Eq, Structural)]
pub enum GlobalEffect {
    Select(SelectRubble),
    Spawn(SpawnUnit),
}

} // verus!
