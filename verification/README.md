# kmeans_parallel

K-means clustering of a CSV data set, with a parallel fit (E-step over
chunks of rows, M-step over chunks of clusters, one worker thread per
chunk) and a sequential fit that logs the centers of every iteration for
PCA plots.

## Layout

- `src/` — the library, verified with Verus. It holds what decides how the
  clustering is organised; the floating-point work is not part of it.
  - `threads.rs` — the worker thread count (a request of zero or above the
    usable CPUs falls back to the CPU count).
  - `chunks.rs` — the split of rows (E-step) and clusters (M-step) into one
    range per worker, the gathering of the workers' results, and the laws
    that the ranges cover every item once, in order, with no more workers
    than threads.
  - `model.rs` — `KMeans<P>` and `Cluster<P>`, generic over the point type:
    settings, clusters, filing of points into clusters, center updates.
  - `sampling.rs` — the rows that seed the initial centers (a xorshift
    generator with a fixed seed, or the thread-local generator).
  - `records.rs` — the records of a CSV text, up to a row limit.
  - `decimal.rs`, `text.rs` — decimal numbers and byte-level text helpers.
  - `center_log.rs` — writing and reading the center log, and the law that
    a written log reads back as written.
- `tests/` — tests of the library on concrete values.
- `app/` — the program: file I/O, the standard scaler, distances and means
  over `ndarray` arrays, worker threads, timing runs and plots.
