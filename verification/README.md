# trn_sdr

Sparse distributed representations (SDRs) for a prototype-based associative
memory, verified with Verus.

- `src/seqs.rs`: ascending sequences of bit indices and the lemmas about them.
- `src/sdr.rs`: the `SDR` type, `urs` (union of two codes) and `overlap`
  (number of common active bits).
- `src/random.rs`: random codes drawn with a partial Fisher-Yates shuffle.
- `src/prototype.rs`: class centroids, scoring and prediction.
- `src/draw_count.rs`: counting the draw sequences that select each set of positions.
- `src/laws.rs`: laws relating the operations.
- `app/main.rs`: the XOR experiment comparing the prototype memory with a
  small trained floating-point network.
