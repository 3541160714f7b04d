//! Masterchain state structures of a sharded blockchain: shard topology as
//! binary tries of shard descriptors, an augmented index of key blocks over
//! the block sequence-number space, decaying block-creator counters, and the
//! bit-exact cell encodings that the rest of a node must honour.

pub mod bintree;
pub mod cells;
pub mod counters;
pub mod descr;
pub mod error;
pub mod extra;
pub mod keyblocks;
pub mod shard;
pub mod topology;
pub mod types;
