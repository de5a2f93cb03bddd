//! SIEVE caches in several concrete representations, each proved against one
//! abstract queue.

pub mod bits;
pub mod bitset;
pub mod experimental;
pub mod gap_store;
pub mod gapped;
pub mod harness;
pub mod hash;
pub mod model;
pub mod needle;
pub mod order;
pub mod routing;
pub mod seqlock;
pub mod shard;
pub mod sharded;
pub mod shift_shard;
pub mod single_shard;
pub mod spelling;
pub mod stats;
pub mod tag;
pub mod text;
pub mod totals;
pub mod workload;
