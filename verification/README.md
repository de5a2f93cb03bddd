# senba_research

SIEVE caches, and the benchmarks that compare them, as a verified Verus library.

SIEVE keeps its items in insertion order. A hit marks an item; an eviction moves a
hand over the queue, clears marks on its way and takes the first item without one.
`src/model.rs` states this on a queue of items. Every cache of the library is proved
to behave as that queue, whatever its memory looks like: a hash index with a gapped
queue (`sieve_v0`, `sieve_v3`), or shards with packed tags, ids and marks
(`sieve_c9`, `sieve_c10s`, `sieve_c16s`, `sieve_c17s`, `sieve_r3`, `sieve_r4`).
`sieve_c12s` gives the victim's place to the new item and is proved to behave as the
queue that does so.

- `model`, `gapped`, `tag`, `needle`, `bits`, `bitset`, `hash`, `seqlock`, `stats`: what
  the caches are made of
- `gap_store`, `shift_shard`, `shard`, `sharded`: storage, shards, arrays of shards
- `experimental`, `single_shard`: the caches
- `text`, `workload`: reading traces, compressed ones too
- `harness`: arguments, replays, operation mixes and counts of the benchmarks

`app/` holds the programs: files, threads, locks, clocks and the Zipf generator. The
benchmarks `bench` and `bench_vtune` know the names `orig` and `senba` of two caches that
are not linked in; they are measured on `sieve_v0` and on shards of `sieve_c9`, and the
programs say so.
