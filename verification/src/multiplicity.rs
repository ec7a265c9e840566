//! How often a value may be used, and the numbering of a system's variables.
use vstd::prelude::*;

verus! {

#[derive(Debug, Clone, Copy, PartialEq, Eq, Hash, Structural)]
pub enum Multiplicity {
    Linear,
    Unrestricted,
}

impl Default for Multiplicity {
    fn default() -> (r: Multiplicity)
        ensures
            r == Multiplicity::Unrestricted,
    {
        Multiplicity::Unrestricted
    }
}

/// The position of a variable among those a system declares.
#[derive(Debug, Clone, Copy, PartialEq, Eq, Hash, Structural)]
pub struct VariableId(u32);

impl VariableId {
    pub closed spec fn index(self) -> nat {
        self.0 as nat
    }

    pub fn from_index(index: usize) -> (r: VariableId)
        requires
            index <= u32::MAX,
        ensures
            r.index() == index,
    {
        VariableId(index as u32)
    }
}

/// Two positions share an id only where they are the same position.
pub proof fn variable_ids_are_distinct(a: VariableId, b: VariableId)
    requires
        a.index() == b.index(),
    ensures
        a == b,
{
}

} // verus!
