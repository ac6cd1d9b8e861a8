//! Types shared by the projection and query layers.
use vstd::prelude::*;

verus! {

/// Direction in which edges are followed.
#[derive(Debug, Clone, Copy, PartialEq, Eq, Structural, Hash)]
pub enum TraversalDirection {
    /// Either direction.
    Any,
    /// From source to target.
    Out,
    /// From target to source.
    In,
}

/// A floating-point number: its IEEE 754 binary64 bits, by which it is ordered, and
/// its text in JSON, by which it is printed.
#[derive(Debug, Clone, PartialEq, Eq)]
pub struct Binary64 {
    pub bits: u64,
    pub text: String,
}

/// What a floating-point number holds.
#[verifier::ext_equal]
pub struct Binary64View {
    pub bits: u64,
    pub text: Seq<char>,
}

impl View for Binary64 {
    type V = Binary64View;

    open spec fn view(&self) -> Binary64View {
        Binary64View { bits: self.bits, text: self.text@ }
    }
}

impl Binary64 {
    /// A copy of the number.
    pub fn duplicate(&self) -> (copy: Binary64)
        ensures
            copy@ == self@,
    {
        Binary64 { bits: self.bits, text: self.text.clone() }
    }
}

} // verus!
