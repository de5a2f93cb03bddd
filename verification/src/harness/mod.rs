//! What the benchmark programs compute: their arguments, the operations that
//! they make, and the counts that they report.

pub mod args;
pub mod bench;
pub mod bench_concurrent;
pub mod bench_single_shard;
pub mod bench_vtune;
pub mod bench_vtune_concurrent;
pub mod feed;
pub mod replay;
pub mod replay_shards;
pub mod rivals;
pub mod text_rivals;
pub mod value;
pub mod worker;
