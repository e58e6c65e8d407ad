# torchforge-data (verified)

Streaming data loading for edge ML pipelines, written in Verus.

- `src/dataset.rs` — the `Dataset` trait (items by index) and `MmapDataset`,
  a dataset of fixed 4-byte records held in a `memmap2` memory map.
- `src/sampler.rs` — the `Sampler` trait with `SequentialSampler` and the
  seeded `UniformSampler` (Fisher–Yates shuffle driven by a linear
  congruential generator), plus the proofs that both visit every index
  exactly once.
- `src/loader.rs` — `LoaderConfig` and `DataLoader`, which cuts the sampled
  order into batches, with the proofs that the batches partition the order.
- `src/error.rs` — `DataError`.
- `app/lib.rs` — opening a dataset from a file, error messages, and
  `Iterator` adapters over the library's streams.
