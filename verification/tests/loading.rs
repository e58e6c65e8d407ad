//! The data loader: configuration, batching and error propagation.

use memmap2::MmapMut;
use torchforge_data::dataset::{Dataset, DatasetIter, MmapDataset};
use torchforge_data::sampler::{IndexIter, Sampler, SequentialSampler, UniformSampler};
use torchforge_data::{DataError, DataLoader, LoaderConfig};

fn dataset_of_items(count: usize) -> MmapDataset {
    let mut bytes = Vec::new();
    for i in 0..count {
        bytes.extend_from_slice(&[i as u8; 4]);
    }
    let mut map = MmapMut::map_anon(bytes.len()).expect("Failed to create mapping");
    map.copy_from_slice(&bytes);
    let map = map.make_read_only().expect("Failed to seal mapping");
    MmapDataset::from_mmap(map).expect("Failed to open dataset")
}

/// The first byte of every item of every batch of a full pass.
fn first_bytes<S: Sampler>(loader: &DataLoader<MmapDataset, S>) -> Vec<Vec<u8>> {
    let mut out = Vec::new();
    let mut it = loader.iter().expect("Failed to create iterator");
    while let Some(batch) = it.next() {
        out.push(batch.expect("Failed to get batch").iter().map(|item| item[0]).collect());
    }
    out
}

#[test]
fn default_configuration() {
    let c = LoaderConfig::default();
    assert_eq!(c.batch_size, 32);
    assert!(c.shuffle);
    assert_eq!(c.prefetch, 2);
    assert_eq!(c.seed, 42);
    let n = LoaderConfig::new();
    assert_eq!((n.batch_size, n.shuffle, n.prefetch, n.seed), (32, true, 2, 42));
}

#[test]
fn builders_change_one_field_each() {
    let c = LoaderConfig::new().batch_size(7).shuffle(false).prefetch(9).seed(11);
    assert_eq!((c.batch_size, c.shuffle, c.prefetch, c.seed), (7, false, 9, 11));
    let d = LoaderConfig::new().seed(5);
    assert_eq!((d.batch_size, d.shuffle, d.prefetch, d.seed), (32, true, 2, 5));
}

#[test]
fn sequential_sampler_batches_in_index_order() {
    let loader = DataLoader::with_sampler(
        dataset_of_items(7),
        SequentialSampler::new(),
        LoaderConfig::new().batch_size(3),
    );
    assert_eq!(first_bytes(&loader), vec![vec![0, 1, 2], vec![3, 4, 5], vec![6]]);
}

#[test]
fn unshuffled_loader_keeps_dataset_order() {
    let loader = DataLoader::new(dataset_of_items(5), LoaderConfig::new().batch_size(2).shuffle(false))
        .expect("Failed to create loader");
    assert_eq!(first_bytes(&loader), vec![vec![0, 1], vec![2, 3], vec![4]]);
    let other_seed = DataLoader::new(
        dataset_of_items(5),
        LoaderConfig::new().batch_size(2).shuffle(false).seed(7).prefetch(9),
    )
    .expect("Failed to create loader");
    assert_eq!(first_bytes(&other_seed), first_bytes(&loader));
}

#[test]
fn unshuffled_loader_matches_sequential_sampler() {
    let config = LoaderConfig::new().batch_size(3).shuffle(false);
    let a = DataLoader::new(dataset_of_items(3), config.clone()).expect("Failed to create loader");
    let b = DataLoader::with_sampler(dataset_of_items(3), SequentialSampler::new(), config);
    assert_eq!(first_bytes(&a), vec![vec![0, 1, 2]]);
    assert_eq!(first_bytes(&a), first_bytes(&b));
}

#[test]
fn shuffled_loader_uses_configured_seed() {
    let loader = DataLoader::new(dataset_of_items(5), LoaderConfig::new().batch_size(5).seed(42))
        .expect("Failed to create loader");
    assert_eq!(first_bytes(&loader), vec![vec![1, 2, 3, 4, 0]]);
    let mut order = Vec::new();
    let mut it = UniformSampler::new(42).iter(5);
    while let Some(i) = it.next() {
        order.push(i as u8);
    }
    assert_eq!(first_bytes(&loader)[0], order);
}

#[test]
fn batches_cover_every_item_once() {
    let loader = DataLoader::new(dataset_of_items(23), LoaderConfig::new().batch_size(4))
        .expect("Failed to create loader");
    let batches = first_bytes(&loader);
    assert_eq!(batches.len(), 6);
    for b in &batches[..5] {
        assert_eq!(b.len(), 4);
    }
    assert_eq!(batches[5].len(), 3);
    let mut all: Vec<u8> = batches.concat();
    all.sort();
    assert_eq!(all, (0u8..23).collect::<Vec<u8>>());
}

#[test]
fn zero_batch_size_yields_no_batches() {
    let loader = DataLoader::new(dataset_of_items(5), LoaderConfig::new().batch_size(0))
        .expect("Failed to create loader");
    let mut it = loader.iter().expect("Failed to create iterator");
    assert!(it.next().is_none());
}

/// A dataset whose length cannot be read, or whose item 3 cannot be fetched.
struct Flaky {
    broken_len: bool,
}

impl Dataset for Flaky {
    type Item<'a> = usize;

    fn len_result(&self) -> torchforge_data::Result<usize> {
        unreachable!()
    }

    fn get_ok(&self, _index: usize) -> bool {
        unreachable!()
    }

    fn is_item<'a>(&'a self, _index: usize, _item: usize) -> bool {
        unreachable!()
    }

    fn is_error(&self, _index: usize, _error: DataError) -> bool {
        unreachable!()
    }

    fn len(&self) -> torchforge_data::Result<usize> {
        if self.broken_len {
            Err(DataError::Config("no length".to_string()))
        } else {
            Ok(6)
        }
    }

    fn get(&self, index: usize) -> torchforge_data::Result<usize> {
        if index == 3 {
            Err(DataError::Format("bad item".to_string()))
        } else {
            Ok(index * 10)
        }
    }
}

#[test]
fn a_failing_fetch_fails_its_batch_only() {
    let loader = DataLoader::with_sampler(
        Flaky { broken_len: false },
        SequentialSampler::new(),
        LoaderConfig::new().batch_size(2),
    );
    let mut it = loader.iter().expect("Failed to create iterator");
    assert_eq!(it.next().unwrap().unwrap(), vec![0, 10]);
    match it.next() {
        Some(Err(DataError::Format(msg))) => assert_eq!(msg, "bad item"),
        other => panic!("unexpected batch {:?}", other.map(|r| r.is_ok())),
    }
    assert_eq!(it.next().unwrap().unwrap(), vec![40, 50]);
    assert!(it.next().is_none());
}

#[test]
fn an_unreadable_length_gives_an_empty_pass() {
    let loader = DataLoader::with_sampler(
        Flaky { broken_len: true },
        SequentialSampler::new(),
        LoaderConfig::new(),
    );
    let mut it = loader.iter().expect("Failed to create iterator");
    assert!(it.next().is_none());
    assert!(it.next().is_none());
    match (Flaky { broken_len: true }).is_empty() {
        Err(DataError::Config(msg)) => assert_eq!(msg, "no length"),
        other => panic!("unexpected result {:?}", other.is_ok()),
    }
}

#[test]
fn dataset_iter_of_unreadable_length_is_empty() {
    let d = Flaky { broken_len: true };
    let mut it: DatasetIter<'_, Flaky> = d.iter();
    assert!(it.next().is_none());
    let ok = Flaky { broken_len: false };
    let mut it = ok.iter();
    let mut results = Vec::new();
    while let Some(r) = it.next() {
        results.push(r.ok());
    }
    assert_eq!(results, vec![Some(0), Some(10), Some(20), None, Some(40), Some(50)]);
}

#[test]
fn sampler_order_is_the_stream() {
    let s = SequentialSampler::new();
    let it = s.iter(2);
    assert_eq!(it.size_hint(), (2, Some(2)));
}
