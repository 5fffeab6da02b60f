# shredstream

A Solana shred listener: it takes UDP packets holding shreds, reassembles
the data shreds of each slot into batches of ledger entries (rebuilding
missing data shreds from Reed-Solomon coding shreds), and hands out the
transactions of each batch as soon as they can be read.

The library under `src/` is written in Verus; every function in it carries a
contract that Verus proves.

- `variant`, `parser` — the shred wire format: variant bytes and headers.
- `pool` — a fixed set of packet buffers, allocated once, handed out by
  index and reused once given back. Only `ShredPool::release` gives a
  buffer back: a handle dropped without it is lost for good and the pool
  shrinks, so every handle taken (by the listener or by `app/`) must be
  released.
- `fec` — erasure sets, shard slicing and Reed-Solomon reconstruction
  (through `reed-solomon-erasure`), with a small cache of codecs.
- `ordered_map` — a map keyed by `u32`, kept sorted, used for the pending
  shreds, the erasure sets and the batch boundaries of a slot.
- `decoder` — batch framing, the streaming entry decoder, and the
  `EntryCodec` trait through which entries are read.
- `sigset` — the signatures handed out in the current batch.
- `accumulator` — one slot: streaming decode, erasure recovery, batch
  finalization on completion or timeout, and tail harvesting.
- `listener` — the live slots, slot plausibility, eviction and blacklisting,
  buffer management and the counters.

`app/` holds what cannot be verified: the UDP socket and its options, thread
pinning, the blocking iterators, and the `EntryCodec` implemented with
`solana-entry` and `wincode`.
