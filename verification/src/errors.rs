//! Why a tree cannot be made.

use vstd::prelude::*;

verus! {

/// A degree setting that the tree cannot work with.
#[derive(Debug, Clone, Copy, PartialEq, Eq, Structural)]
pub enum BTreeCreateError {
    /// A leaf must be able to hold at least one entry.
    ZeroLeafNodeDegree,
    /// An internal node must be able to hold at least two keys.
    WrongCommonNodeDegree,
}

impl BTreeCreateError {
    /// The error in words.
    pub fn message(&self) -> (text: String)
        ensures
            text@ == match self {
                BTreeCreateError::ZeroLeafNodeDegree => "The leaf node degree could not be equal to 0"@,
                BTreeCreateError::WrongCommonNodeDegree => "The common node degree should be greater than 1"@,
            },
    {
        match self {
            BTreeCreateError::ZeroLeafNodeDegree => String::from_str(
                "The leaf node degree could not be equal to 0",
            ),
            BTreeCreateError::WrongCommonNodeDegree => String::from_str(
                "The common node degree should be greater than 1",
            ),
        }
    }
}

} // verus!
