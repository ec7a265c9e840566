//! What can go wrong while generating code.
use crate::text::cat2;
use vstd::prelude::*;

verus! {

/// A failed operation on polyhedral sets, with the message it failed with.
#[derive(Debug)]
pub struct IslError {
    pub message: String,
}

impl Clone for IslError {
    fn clone(&self) -> (r: IslError)
        ensures
            r == *self,
    {
        IslError { message: self.message.clone() }
    }
}

#[derive(Debug)]
pub enum CodegenError {
    Isl(IslError),
    /// A construct that no generator handles.
    Unsupported(String),
    /// A target mapping that does not parse, or that is not a schedule of the system's statements.
    InvalidSchedule(String),
    /// A schedule that reorders a dependence.
    IllegalSchedule(String),
    Specialization(String),
    Realization(String),
    Hugr(String),
}

/// A [`CodegenError`] with its text as a sequence of characters.
pub enum Failure {
    Isl(Seq<char>),
    Unsupported(Seq<char>),
    InvalidSchedule(Seq<char>),
    IllegalSchedule(Seq<char>),
    Specialization(Seq<char>),
    Realization(Seq<char>),
    Hugr(Seq<char>),
}

impl View for CodegenError {
    type V = Failure;

    open spec fn view(&self) -> Failure {
        match *self {
            CodegenError::Isl(e) => Failure::Isl(e.message@),
            CodegenError::Unsupported(m) => Failure::Unsupported(m@),
            CodegenError::InvalidSchedule(m) => Failure::InvalidSchedule(m@),
            CodegenError::IllegalSchedule(m) => Failure::IllegalSchedule(m@),
            CodegenError::Specialization(m) => Failure::Specialization(m@),
            CodegenError::Realization(m) => Failure::Realization(m@),
            CodegenError::Hugr(m) => Failure::Hugr(m@),
        }
    }
}

impl Failure {
    /// The message shown to a user.
    pub open spec fn message(self) -> Seq<char> {
        match self {
            Failure::Isl(m) => "isl error: "@ + m,
            Failure::Unsupported(m) => "unsupported: "@ + m,
            Failure::InvalidSchedule(m) => "invalid target mapping: "@ + m,
            Failure::IllegalSchedule(m) => "illegal schedule: "@ + m,
            Failure::Specialization(m) => "specialization failed: "@ + m,
            Failure::Realization(m) => "realization failed: "@ + m,
            Failure::Hugr(m) => "HUGR generation failed: "@ + m,
        }
    }
}

impl CodegenError {
    pub fn to_text(&self) -> (r: String)
        ensures
            r@ == self@.message(),
    {
        match self {
            CodegenError::Isl(e) => cat2("isl error: ", e.message.as_str()),
            CodegenError::Unsupported(m) => cat2("unsupported: ", m.as_str()),
            CodegenError::InvalidSchedule(m) => cat2("invalid target mapping: ", m.as_str()),
            CodegenError::IllegalSchedule(m) => cat2("illegal schedule: ", m.as_str()),
            CodegenError::Specialization(m) => cat2("specialization failed: ", m.as_str()),
            CodegenError::Realization(m) => cat2("realization failed: ", m.as_str()),
            CodegenError::Hugr(m) => cat2("HUGR generation failed: ", m.as_str()),
        }
    }
}

impl Clone for CodegenError {
    fn clone(&self) -> (r: CodegenError)
        ensures
            r@ == self@,
    {
        match self {
            CodegenError::Isl(e) => CodegenError::Isl(e.clone()),
            CodegenError::Unsupported(m) => CodegenError::Unsupported(m.clone()),
            CodegenError::InvalidSchedule(m) => CodegenError::InvalidSchedule(m.clone()),
            CodegenError::IllegalSchedule(m) => CodegenError::IllegalSchedule(m.clone()),
            CodegenError::Specialization(m) => CodegenError::Specialization(m.clone()),
            CodegenError::Realization(m) => CodegenError::Realization(m.clone()),
            CodegenError::Hugr(m) => CodegenError::Hugr(m.clone()),
        }
    }
}

pub fn unsupported(message: &str) -> (r: CodegenError)
    ensures
        r@ == Failure::Unsupported(message@),
{
    CodegenError::Unsupported(message.to_owned())
}

pub type Result<T> = core::result::Result<T, CodegenError>;

} // verus!
