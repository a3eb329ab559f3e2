# rinha

Fraud scoring by k nearest neighbours over an IVF (inverted file) index of
labelled reference transactions.

- `src/` is the verified library: the raw data file and the index file
  (readers, writers and their round trips), gzip through `flate2`, the
  k-means bookkeeping that builds the index (random starting centroids,
  grouping by nearest centroid, the cluster-by-cluster image), the selection
  of the smallest keys, and the integer side of a query (probed clusters,
  candidates, neighbours, fraud vote, the adaptive second pass).
- `app/` is the program: the HTTP API (`axum`, `tokio`), the JSON payload and
  its floating-point feature vector, distances, quantization, the k-means
  iteration, and file I/O. `rinha` serves; `rinha build-bin` and
  `rinha build-index` build the data files.

Distances are `f32`; the library orders them by their bit patterns, which for
non-negative, non-NaN values order as the values do.
