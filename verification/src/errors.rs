//! What can go wrong while encoding instructions and linking branches.

use vstd::prelude::*;

verus! {

/// Errors of the instruction encoder and the branch linker.
#[derive(Clone, Copy, Debug, PartialEq, Eq, Structural)]
pub enum JitError {
    /// A field value handed to the bit-field packer does not fit its width.
    EncodingOverflow,
    /// The field widths handed to the bit-field packer do not sum to 32.
    EncodingShort,
    /// A link-time branch delta does not fit the branch's immediate width.
    BranchOutOfRange,
    /// A recorded jump site does not decode as a B or B.cond instruction.
    UnknownBranchOpcode,
}

} // verus!
