//! Failure kinds of the library: decode failures, structural absence of a
//! workchain or shard, invariant violations, and numeric overflow.

use vstd::prelude::*;

verus! {

/// Why an operation on the masterchain state failed.
///
/// Decode and tag errors are fatal to the decode; absence errors name the
/// missing key so the caller can correct its input; invariant and overflow
/// errors are never silently coerced.
#[derive(Clone, Copy, Debug, PartialEq, Eq, Structural)]
pub enum BlockError {
    /// The codec ran out of bits or of child cells while reading.
    CellUnderflow,
    /// A constructor tag did not match any accepted value; carries the tag read.
    InvalidConstructorTag { t: u64 },
    /// Decoded data breaks a structural rule (reserved flag bits set, missing
    /// leaf value, malformed dictionary order).
    InvalidData,
    /// An argument breaks a precondition of the operation.
    InvalidArg,
    /// The named workchain has no entry in the topology.
    WorkchainNotFound { workchain_id: i32 },
    /// The named workchain is already registered.
    WorkchainAlreadyAdded { workchain_id: i32 },
    /// No leaf (or mergeable fork) exists at the given shard prefix.
    ShardNotFound { workchain_id: i32, prefix: u64 },
    /// No indexed masterchain block has the given sequence number.
    BlockNotFound { seq_no: u32 },
    /// The indexed block's root hash differs from the expected one.
    RootHashMismatch,
    /// The indexed block's file hash differs from the expected one.
    FileHashMismatch,
    /// The indexed block's key-block flag differs from the expected one.
    KeyFlagMismatch,
    /// Two features whose encodings exclude one another were both requested.
    UnsupportedCombination,
    /// A numeric aggregate would overflow its representation.
    IntOverflow,
    /// A mempool list holds more entries than the encoding can carry.
    TooManyMempoolNodes,
    /// A required optional field is absent.
    MissingField,
}

} // verus!
