//! Verification core of a bridge that follows the finality of a remote chain:
//! header-chain ancestry, justification checking against an authority set,
//! storage-proof reads of the authority set, and a registry of tracked bridges.

pub mod error;
pub mod primitives;
pub mod ancestry;
pub mod bridge;
pub mod digest;
pub mod justification;
pub mod storage_proof;
pub mod wire;
