# range-cache

A thread-safe sparse byte-range cache for immutable sources, verified with Verus.

The cache keeps `bytes::Bytes` under keys, merges adjacent and overlapping
ranges, reports gaps, and can hold itself to a payload-byte ceiling by evicting
the least recently used ranges. On top of it stands read-through: reads that
fetch only what is missing, share identical source reads, and keep a global limit
of concurrent source reads.

## Layout

- `src/view.rs`: the mathematical content of a cache and what each operation does
  to it. `src/effect.rs` relates content, arguments and answers.
- `src/store.rs`: `RangeStore`, the cache for one owner at a time. Its contracts
  are exact.
- `src/cache.rs`: `RangeCache`, the store behind a lock.
- `src/plan.rs`, `src/fetch.rs`, `src/reader.rs`: planning a read, sharing source
  reads, and the reader that ties them together.
- `src/model.rs`, `src/differential.rs`: a dense reference model with the same
  contracts, and a replay that runs both side by side.
- `src/laws.rs`, `src/read_laws.rs`, `src/fetch_laws.rs`: what holds of every
  content and every operation.
- `src/payload.rs`, `src/lock.rs`: what the proofs take on trust of `bytes`,
  `parking_lot` and `Arc`. `src/key.rs` takes `==` on `str` on trust.
- `app/`: the asynchronous reader, which awaits and wakes as the library decides.

## Range semantics

- Empty reads return empty bytes, and matching empty inserts change nothing.
- Reversed ranges and payload lengths that do not fit are errors.
- An insert that one cached block contains is ignored.
- Any other insert replaces the bytes of its range and keeps the cached bytes
  outside it.
- A merged block that exceeds the ceiling is refused, and no block changes.
- Counters and byte counts stay at their largest value once they reach it.
