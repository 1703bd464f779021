//! The ways in which building a multiblock object can fail.

use vstd::prelude::*;

verus! {

/// Why a build was abandoned. Every failure is final for the build in which it occurs.
#[derive(Debug, Clone, Copy, PartialEq, Eq, Structural)]
pub enum BuildError {
    /// The buffer ends before the terminator byte of a varint.
    TruncatedVarint,
    /// A referenced block is absent from the block store.
    BlockNotFound,
    /// The block store holds a directory where a flat block is expected.
    MultiblockNotSupported,
    /// A substructure claims less space than its children occupy, or its
    /// children do not lie one after another inside the buffer.
    InconsistentLength,
    /// A block reference carries no hash of the configured algorithm.
    HashTypeUnavailable,
    /// A length or an offset does not fit in a machine word.
    LengthOverflow,
}

impl BuildError {
    /// The words that describe the failure.
    pub open spec fn description(self) -> Seq<char> {
        match self {
            BuildError::TruncatedVarint => "buffer ends inside a varint"@,
            BuildError::BlockNotFound => "block does not exist in the block registry"@,
            BuildError::MultiblockNotSupported => "multiblock blocks are not supported"@,
            BuildError::InconsistentLength => "block length can't be greater than the total length"@,
            BuildError::HashTypeUnavailable => "no hash of the configured type on the block"@,
            BuildError::LengthOverflow => "length does not fit in a machine word"@,
        }
    }

    /// A short description of the failure.
    pub fn message(&self) -> (text: &'static str)
        ensures
            text@ == self.description(),
    {
        match self {
            BuildError::TruncatedVarint => "buffer ends inside a varint",
            BuildError::BlockNotFound => "block does not exist in the block registry",
            BuildError::MultiblockNotSupported => "multiblock blocks are not supported",
            BuildError::InconsistentLength => "block length can't be greater than the total length",
            BuildError::HashTypeUnavailable => "no hash of the configured type on the block",
            BuildError::LengthOverflow => "length does not fit in a machine word",
        }
    }
}

} // verus!
