# fru

A random forest library (classification and regression, out-of-bag votes and
permutation importance) whose core is written in Verus and proved against its
contracts.

Layout:

- `src/` — the verified library: the PCG generator (`rng`), observation masks
  with bagging and shuffling (`mask`), fair tie breaking (`fair_best`), the
  data-set traits (`rfinput`), tree growing, walking and vote casting (`tree`),
  the permuted vote cast behind permutation importance (`importance`), forest
  training, merging and prediction (`forest`), class votes and the
  classification data slice and accuracy-decrease collector (`votes`,
  `classification`), the Fisher-Yates feature sampler (`sampler`), midpoint
  thresholds (`tools`), input checks (`schema`, `codes`).
- `tests/` — tests of the library on concrete values.
- `app/` — the C interface for the host, the data frames whose split scans
  and regression statistics work in floating point, importance statistics,
  multi-threaded training and prediction, and the byte encoding of models.

Split scores are handed to the library as order-preserving integer keys of
the floating-point scores: the choice of the best split among the keys is
verified, while the mapping from scores to keys (in `app/`) is not.

Not included: the Arrow table front end (a `RandomForest` model type that reads
Arrow columns, and its Python binding). Its column reading depends on an Arrow
crate that needs a nightly compiler; the host-column interface in `app/` takes
its place. The library parts it used (parameter and schema checks, training,
prediction, forest walks) are in `src/`.
