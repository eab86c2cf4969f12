use vstd::prelude::*;

verus! {

/// Why a justification was refused after it decoded.
#[derive(PartialEq, Eq, Structural, Debug, Clone, Copy)]
pub enum JustificationError {
    /// The commit does not target the block that was claimed final.
    InvalidCommitTarget,
    /// The finality gadget found no supermajority in the commit.
    InvalidCommit,
    /// A precommit carries a signature that does not verify.
    InvalidSignature,
    /// A precommit target does not descend from the commit target.
    InvalidAncestryProof,
    /// The ancestry holds headers that no precommit route uses.
    UnusedHeaders,
}

/// Errors of the bridge module.
#[derive(PartialEq, Eq, Structural, Debug, Clone, Copy)]
pub enum Error {
    /// The storage proof is malformed or does not match the state root.
    InvalidStorageProof,
    /// The storage proof holds no authority set, or cannot decide its key.
    InvalidValidatorSetProof,
    /// The proven authority set differs from the claimed one.
    ValidatorSetMismatch,
    /// The header chain does not link the child to the claimed ancestor.
    AncestorNotFound,
    /// The justification bytes do not decode.
    JustificationDecode,
    /// The justification decodes but does not prove finality.
    BadJustification(JustificationError),
    /// The call does not come from a signed origin.
    BadOrigin,
    /// No bridge has the given id.
    UnknownBridge,
    /// The header is not above the last finalized block.
    StaleHeader,
    /// The authority set is empty or has a zero weight.
    InvalidValidatorSet,
    /// The authority set id cannot be incremented any further.
    SetIdOverflow,
}

} // verus!
