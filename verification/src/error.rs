use vstd::prelude::*;

verus! {

/// Why a merge could not be carried out.
///
/// Either kind is fatal for the run: no partial output is produced.
#[derive(Debug, Clone, Copy, PartialEq, Eq, Structural)]
pub enum MergeError {
    /// The partition exponent does not describe a partitioning that can be built.
    InvalidArgument,
    /// A token of an input is not the decimal text of an unsigned 64-bit value.
    Parse,
}

} // verus!
