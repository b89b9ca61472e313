# routed_turboquant

An IVF-style vector index: vectors are clustered with k-means, stored in
their nearest partitions (fixed multi-assignment or boundary-aware
assignment), scored per partition with TurboQuant, deduplicated, and
optionally reranked with exact inner products.

Layout:

- `src/` — the verified core. Similarities enter as order keys of their
  IEEE-754 bit patterns (`order_key`), and the decisions on them are proved:
  best-first selection of distinct ids (`ranking`), partition selection and
  assignment (`routing`), the partition membership table and candidate
  collection (`partition`), candidate merging and search statistics
  (`search`), the k-means assignment/size/reseed steps (`clustering`), the
  residual sign-bit packing and quantization levels (`qjl_bits`), and the
  build checks and size estimates (`sizing`). `rng` declares the random
  number generator from `rand`.
- `app/` — the floating-point pipeline around it: normalisation, dot
  products, k-means means and k-means++ sampling, TurboQuant scoring
  (`turbovec`), parallel batch search (`rayon`), the QJL rotation and
  correction sums, and the Python bindings (`pyo3`, `numpy`). It also holds
  the short glue between the two: per-partition TurboQuant calls, skipping
  empty partitions, picking the mode and the rerank path, and checking the
  inputs the verified functions require.
- `tests/` — tests of the verified core.
