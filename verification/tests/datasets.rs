//! The memory-mapped dataset and the dataset iterator.

use memmap2::MmapMut;
use torchforge_data::dataset::{Dataset, MmapDataset, ITEM_SIZE};
use torchforge_data::DataError;

fn dataset_from_bytes(bytes: &[u8]) -> MmapDataset {
    let mut map = MmapMut::map_anon(bytes.len()).expect("Failed to create mapping");
    map.copy_from_slice(bytes);
    let map = map.make_read_only().expect("Failed to seal mapping");
    MmapDataset::from_mmap(map).expect("Failed to open dataset")
}

#[test]
fn length_counts_whole_items_only() {
    assert_eq!(ITEM_SIZE, 4);
    let bytes: Vec<u8> = (0u8..10).collect();
    let d = dataset_from_bytes(&bytes);
    assert_eq!(d.len().unwrap(), 2);
    assert!(!d.is_empty().unwrap());

    let short = dataset_from_bytes(&[1, 2, 3]);
    assert_eq!(short.len().unwrap(), 0);
    assert!(short.is_empty().unwrap());

    let empty = dataset_from_bytes(&[]);
    assert_eq!(empty.len().unwrap(), 0);
    assert!(empty.is_empty().unwrap());
}

#[test]
fn items_are_consecutive_records() {
    let bytes: Vec<u8> = (0u8..10).collect();
    let d = dataset_from_bytes(&bytes);
    assert_eq!(d.get(0).unwrap(), &[0, 1, 2, 3]);
    assert_eq!(d.get(1).unwrap(), &[4, 5, 6, 7]);
}

#[test]
fn index_past_the_end_is_a_format_error() {
    let bytes: Vec<u8> = (0u8..12).collect();
    let d = dataset_from_bytes(&bytes);
    match d.get(3) {
        Err(DataError::Format(msg)) => {
            assert_eq!(msg, "Index 3 out of bounds for dataset of length 3")
        }
        other => panic!("unexpected result {:?}", other),
    }
    match d.get(usize::MAX) {
        Err(DataError::Format(msg)) => assert_eq!(
            msg,
            format!("Index {} out of bounds for dataset of length 3", usize::MAX)
        ),
        other => panic!("unexpected result {:?}", other),
    }
    match dataset_from_bytes(&[]).get(0) {
        Err(DataError::Format(msg)) => {
            assert_eq!(msg, "Index 0 out of bounds for dataset of length 0")
        }
        other => panic!("unexpected result {:?}", other),
    }
}

#[test]
fn dataset_iter_walks_every_item() {
    let bytes: Vec<u8> = (0u8..14).collect();
    let d = dataset_from_bytes(&bytes);
    let mut it = d.iter();
    assert_eq!(it.size_hint(), (3, Some(3)));
    assert_eq!(it.next().unwrap().unwrap(), &[0, 1, 2, 3]);
    assert_eq!(it.size_hint(), (2, Some(2)));
    assert_eq!(it.next().unwrap().unwrap(), &[4, 5, 6, 7]);
    assert_eq!(it.next().unwrap().unwrap(), &[8, 9, 10, 11]);
    assert!(it.next().is_none());
    assert_eq!(it.size_hint(), (0, Some(0)));
    assert!(it.next().is_none());
}

#[test]
fn io_errors_convert_into_data_errors() {
    let io = std::io::Error::new(std::io::ErrorKind::NotFound, "missing");
    let e: DataError = io.into();
    match e {
        DataError::Io(inner) => assert_eq!(inner.kind(), std::io::ErrorKind::NotFound),
        other => panic!("unexpected error {:?}", other),
    }
}

#[test]
fn malformed_sizes_are_read_safely() {
    for n in 0usize..40 {
        let bytes: Vec<u8> = (0..n).map(|b| b as u8).collect();
        let d = dataset_from_bytes(&bytes);
        let len = d.len().unwrap();
        assert_eq!(len, n / 4);
        if len > 0 {
            for index in [0, len / 4, len / 2, len - 1] {
                let item = d.get(index).unwrap();
                assert_eq!(item, &bytes[index * 4..index * 4 + 4]);
            }
        }
        assert!(d.get(len).is_err());
    }
}
