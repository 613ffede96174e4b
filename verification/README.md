# rust_multi_ranking_engine

Fusion of several score axes, bounded candidate admission, selection of a constrained
subset, and an exact account of every rejection, with the selection logic verified by
Verus.

## Layout

- `src/` is the verified library. Every function there carries a `requires`/`ensures`
  contract that Verus proves.
  - `candidate`: identifiers and their total order.
  - `score`, `fuse`: scorer identities, scales and costs; which fusion method accepts which
    scale.
  - `config`: configuration validation (the first fault, in a fixed order), the size of the
    stage-one pool, the choice of the admission axis, the batch-length check.
  - `order`, `pool`: the ranking order (score key, then identifier) and the bounded
    stage-one pool that keeps the best `M` of a stream.
  - `constraint`: unary and set constraints (per-group maximum, overall maximum, closure
    constraints), lower-bound requirements, group counts.
  - `select`: greedy selection under a count limit or a cost budget, requirement repair,
    blocking reasons, rank positions for rank fusion, and the table of guarantees.
  - `matroid`: the optimality of greedy selection under a partition matroid.
  - `evidence`, `audit`, `text`: rejection reasons and exact counts, retention of
    rejection details, and the audit JSON.
- `app/` is ordinary Rust around the library: the `Engine` builder and its two-stage run,
  scorers, normalizers, fusion arithmetic, the tail-mass budget fit and set objectives.
  Scores are `f32`, so everything that computes with them lives there and calls the
  library for every decision that does not.
- `tests/` exercises the library on concrete values.
