//! # torchforge-data
//!
//! Zero-copy, streaming data loading for edge-native ML pipelines.
//!
//! The crate is organised around three pieces: a [`dataset::Dataset`] that
//! produces items by index (with [`dataset::MmapDataset`] as the memory-mapped
//! implementation), a [`sampler::Sampler`] that decides in which order the
//! indices are visited, and a [`loader::DataLoader`] that groups the sampled
//! indices into batches and fetches the items of each batch.

pub mod dataset;
pub mod error;
pub mod loader;
pub mod sampler;

pub use error::{DataError, Result};
pub use dataset::{Dataset, MmapDataset};
pub use sampler::Sampler;
pub use loader::{DataLoader, LoaderConfig};
