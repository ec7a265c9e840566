//! Element types of variables.
use vstd::prelude::*;

verus! {

#[derive(Debug, Clone, Copy, PartialEq, Eq, Hash, Structural)]
pub enum ElementType {
    Unspecified,
    Bool,
    Int,
    Real,
    Qubit,
}

impl Default for ElementType {
    fn default() -> (r: ElementType)
        ensures
            r == ElementType::Unspecified,
    {
        ElementType::Unspecified
    }
}

/// An element type as a declaration writes it.
#[derive(Debug, Clone, Copy, PartialEq, Eq, Hash, Structural)]
pub enum DeclaredType {
    Bool,
    Int,
    Real,
    Qubit,
}

impl ElementType {
    pub open spec fn of_declared(t: DeclaredType) -> ElementType {
        match t {
            DeclaredType::Bool => ElementType::Bool,
            DeclaredType::Int => ElementType::Int,
            DeclaredType::Real => ElementType::Real,
            DeclaredType::Qubit => ElementType::Qubit,
        }
    }
}

impl From<DeclaredType> for ElementType {
    fn from(t: DeclaredType) -> (r: ElementType) {
        match t {
            DeclaredType::Bool => ElementType::Bool,
            DeclaredType::Int => ElementType::Int,
            DeclaredType::Real => ElementType::Real,
            DeclaredType::Qubit => ElementType::Qubit,
        }
    }
}

impl vstd::std_specs::convert::FromSpecImpl<DeclaredType> for ElementType {
    open spec fn obeys_from_spec() -> bool {
        true
    }

    open spec fn from_spec(t: DeclaredType) -> ElementType {
        ElementType::of_declared(t)
    }
}

} // verus!
