# padoc

Template-based compression of Chrome-trace events from AI training runs,
with the analyses that run on the compressed form and two baseline
encoders, written in Verus.

- `src/` — the verified library:
  - `event`, `args`, `dict`, `text`, `sort`, `pattern`: event records,
    typed value columns, string interning, byte-order and sorting helpers;
  - `compressor`: template interning, instance columns, per-rank flat
    streams, compaction, merging of per-rank shards into one table, and
    the tree walk that re-emits the events of a compressed trace;
  - `node`, `arena`: the compressed call tree and its flat arena form;
  - `analysis`: interval unions, overlap, GPU bubbles, the attribution of
    kernels to model layers, layer and operator tables;
  - `baselines`: the descriptor (RSD) and bucket encoders, their decoders
    and in-situ analyses;
  - `codec`: zstd and gzip framing.
- `app/` — serialisation, the compression drivers, reports that carry
  floating-point rates, and the bench harness records.
- `tests/` — tests of the library.
