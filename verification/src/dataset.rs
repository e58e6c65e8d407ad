//! The [`Dataset`] trait and its memory-mapped implementation.
//!
//! A dataset hands out items by index. Items carry the lifetime of the
//! dataset borrow, so an implementation can return borrowed data (such as a
//! slice of a memory-mapped file) without copying it.

use vstd::prelude::*;
use vstd::slice::slice_subrange;

use crate::error::{DataError, Result};

verus! {

/// A source of items addressed by index.
///
/// The spec functions describe what the executable methods report:
/// `len_result` is what `len` returns, `get_ok` says whether `get` succeeds
/// at an index, `is_item` which items it may return there and `is_error`
/// which errors it may return there.
pub trait Dataset {
    /// The type of the items handed out by the dataset.
    type Item<'a> where Self: 'a;

    /// What `len` returns: the number of items, or the error it reports.
    spec fn len_result(&self) -> Result<usize>;

    /// Whether `get(index)` succeeds.
    spec fn get_ok(&self, index: usize) -> bool;

    /// Whether `item` is what a successful `get(index)` may return.
    spec fn is_item<'a>(&'a self, index: usize, item: Self::Item<'a>) -> bool;

    /// Whether `error` is what a failing `get(index)` may return.
    spec fn is_error(&self, index: usize, error: DataError) -> bool;

    /// Returns the number of items in the dataset.
    fn len(&self) -> (r: Result<usize>)
        ensures
            r == self.len_result(),
    ;

    /// Returns `true` if the dataset has no items: `len` mapped through
    /// `== 0`, with the same error when `len` fails.
    fn is_empty(&self) -> (r: Result<bool>)
        ensures
            r == match self.len_result() {
                Ok(n) => Ok(n == 0),
                Err(e) => Err(e),
            },
    {
        match self.len() {
            Ok(l) => Ok(l == 0),
            Err(e) => Err(e),
        }
    }

    /// Returns the item at `index`.
    fn get(&self, index: usize) -> (r: Result<Self::Item<'_>>)
        ensures
            match r {
                Ok(item) => self.get_ok(index) && self.is_item(index, item),
                Err(e) => !self.get_ok(index) && self.is_error(index, e),
            },
    ;

    /// Returns an iterator over the items `0, 1, ..., len - 1`; when `len`
    /// fails the iterator is empty.
    fn iter(&self) -> (it: DatasetIter<'_, Self>) where Self: Sized
        ensures
            it.source() == self,
            it.position() == 0,
            it.end() == match self.len_result() {
                Ok(n) => n,
                Err(_) => 0,
            },
    {
        let len = match self.len() {
            Ok(l) => l,
            Err(_) => 0,
        };
        DatasetIter { dataset: self, index: 0, len }
    }
}

/// The length that a pass over `d` uses: what `len` returns, or 0 when it
/// fails.
pub open spec fn length_or_zero<D: Dataset + ?Sized>(d: &D) -> usize {
    match d.len_result() {
        Ok(n) => n,
        Err(_) => 0,
    }
}

/// `r` is a result that `d.get(index)` may return.
pub open spec fn get_outcome<'a, D: Dataset + ?Sized>(
    d: &'a D,
    index: usize,
    r: Result<D::Item<'a>>,
) -> bool {
    match r {
        Ok(item) => d.get_ok(index) && d.is_item(index, item),
        Err(e) => !d.get_ok(index) && d.is_error(index, e),
    }
}

/// Iterator over the items of a dataset, in index order.
pub struct DatasetIter<'a, D> {
    dataset: &'a D,
    index: usize,
    len: usize,
}

impl<'a, D> DatasetIter<'a, D> {
    /// The dataset being walked.
    pub closed spec fn source(&self) -> &'a D {
        self.dataset
    }

    /// The index of the next item.
    pub closed spec fn position(&self) -> usize {
        self.index
    }

    /// The index at which the walk stops.
    pub closed spec fn end(&self) -> usize {
        self.len
    }
}

impl<'a, D: Dataset> DatasetIter<'a, D> {
    /// Fetches the next item, or returns `None` once the walk is done.
    pub fn next(&mut self) -> (r: Option<Result<D::Item<'a>>>)
        ensures
            final(self).source() == old(self).source(),
            final(self).end() == old(self).end(),
            old(self).position() < old(self).end() ==> {
                &&& r matches Some(res) && get_outcome(old(self).source(), old(self).position(), res)
                &&& final(self).position() == old(self).position() + 1
            },
            old(self).position() >= old(self).end() ==> {
                &&& r is None
                &&& final(self).position() == old(self).position()
            },
    {
        if self.index < self.len {
            let result = self.dataset.get(self.index);
            self.index = self.index + 1;
            Some(result)
        } else {
            None
        }
    }

    /// Bounds on the number of items left; both bounds are exact.
    pub fn size_hint(&self) -> (r: (usize, Option<usize>))
        ensures
            r.0 == if self.position() < self.end() {
                self.end() - self.position()
            } else {
                0
            },
            r.1 == Some(r.0),
    {
        let remaining = self.len.saturating_sub(self.index);
        (remaining, Some(remaining))
    }
}

/// The character of the decimal digit `d`.
pub open spec fn digit_char(d: nat) -> char {
    (48 + d) as char
}

/// The decimal representation of `n`, most significant digit first, with
/// no leading zeros: what `Display` writes for an unsigned integer.
pub open spec fn decimal(n: nat) -> Seq<char>
    decreases n,
{
    if n < 10 {
        seq![digit_char(n)]
    } else {
        decimal(n / 10).push(digit_char(n % 10))
    }
}

/// The message of the error that `MmapDataset::get` reports for an index
/// past the end of a dataset of `len` items.
pub open spec fn out_of_bounds_message(index: usize, len: usize) -> Seq<char> {
    "Index "@ + decimal(index as nat) + " out of bounds for dataset of length "@ + decimal(
        len as nat,
    )
}

/// Formats the out-of-bounds message with `format!`, whose `{}` writes a
/// `usize` in decimal; the contract claims that the string it builds is
/// `out_of_bounds_message(index, len)`.
#[verifier::external_body]
fn format_out_of_bounds(index: usize, len: usize) -> (s: String)
    ensures
        s@ == out_of_bounds_message(index, len),
{
    format!("Index {} out of bounds for dataset of length {}", index, len)
}

/// The memory map of `memmap2`, which holds the bytes of a mapped file.
#[verifier::external_type_specification]
#[verifier::external_body]
pub struct ExMmap(memmap2::Mmap);

/// The bytes that a memory map holds.
pub uninterp spec fn mapped_bytes(map: memmap2::Mmap) -> Seq<u8>;

/// `memmap2::Mmap`'s `AsRef<[u8]>` (its `Deref` to the mapped region).
/// The contract claims that the slice handed out holds exactly
/// `mapped_bytes(*map)`, the same bytes on every call. That holds as long as
/// the mapped file is not modified while the map lives, which is the
/// condition under which `memmap2` lets a file be mapped at all.
#[verifier::external_body]
fn mmap_contents(map: &memmap2::Mmap) -> (bytes: &[u8])
    ensures
        bytes@ == mapped_bytes(*map),
{
    map.as_ref()
}

/// `n / size` whole records of `size` bytes fit in `n` bytes.
proof fn lemma_whole_records_fit(n: int, size: int)
    requires
        n >= 0,
        size > 0,
    ensures
        (n / size) * size <= n,
{
    vstd::arithmetic::div_mod::lemma_fundamental_div_mod(n, size);
    vstd::arithmetic::mul::lemma_mul_is_commutative(size, n / size);
}

/// A memory-mapped dataset has one item for every whole 4-byte record of
/// its mapped bytes: `len` reports `bytes.len() / 4`, and `get(index)`
/// succeeds exactly when the record `4 * index .. 4 * index + 4` lies inside
/// the bytes. (Every dataset built by `from_mmap` meets the `requires`.)
pub proof fn lemma_length_counts_whole_records(d: &MmapDataset, index: usize)
    requires
        d.bytes().len() <= usize::MAX,
    ensures
        d.num_items() as int == d.bytes().len() as int / 4,
        d.len_result() == Ok::<usize, DataError>(d.num_items()),
        d.get_ok(index) <==> 4 * index + 4 <= d.bytes().len(),
{
    let n = d.bytes().len() as int;
    vstd::arithmetic::div_mod::lemma_fundamental_div_mod(n, 4);
    assert(0 <= n / 4 <= n);
}

/// Item `index` of a memory-mapped dataset is the record at byte offset
/// `4 * index`: what a successful `get(index)` returns is exactly the bytes
/// `4 * index .. 4 * index + 4`, so distinct indices give the records at
/// distinct offsets.
pub proof fn lemma_item_is_record_at_offset(d: &MmapDataset, index: usize, item: &[u8])
    requires
        d.bytes().len() <= usize::MAX,
        d.get_ok(index),
    ensures
        d.is_item(index, item) <==> item@ == d.bytes().subrange(4 * index, 4 * index + 4),
{
    lemma_length_counts_whole_records(d, index);
    assert(4 * index + 4 <= d.bytes().len());
}

/// The size in bytes of one item of a [`MmapDataset`].
pub const ITEM_SIZE: usize = 4;

/// A dataset of fixed-size records stored back to back in a memory-mapped
/// file.
///
/// Item `i` is the slice `i * item_size .. (i + 1) * item_size` of the
/// mapped bytes, handed out without copying. Trailing bytes that do not
/// fill a whole item are not part of any item.
pub struct MmapDataset {
    /// The memory-mapped data.
    data: memmap2::Mmap,
    /// The size of one item in bytes.
    item_size: usize,
    /// The number of items.
    len: usize,
}

impl MmapDataset {
    #[verifier::type_invariant]
    spec fn layout_is_consistent(self) -> bool {
        &&& self.item_size == ITEM_SIZE
        &&& mapped_bytes(self.data).len() <= usize::MAX
        &&& self.len == self.num_items()
    }

    /// The mapped bytes.
    pub closed spec fn bytes(&self) -> Seq<u8> {
        mapped_bytes(self.data)
    }

    /// The size of one item in bytes.
    pub open spec fn record_size(&self) -> usize {
        ITEM_SIZE
    }

    /// The number of whole items in the mapped bytes.
    pub open spec fn num_items(&self) -> usize {
        (self.bytes().len() / (ITEM_SIZE as nat)) as usize
    }

    /// The bytes of item `index`.
    pub open spec fn record(&self, index: int) -> Seq<u8> {
        self.bytes().subrange(
            index * self.record_size(),
            (index + 1) * self.record_size(),
        )
    }

    /// Builds a dataset over an existing memory map, with items of
    /// [`ITEM_SIZE`] bytes: the dataset has `map.len() / ITEM_SIZE` items
    /// (see [`MmapDataset::num_items`]). Always succeeds.
    pub fn from_mmap(map: memmap2::Mmap) -> (r: Result<Self>)
        ensures
            r matches Ok(d) && {
                &&& d.bytes() == mapped_bytes(map)
                &&& d.bytes().len() <= usize::MAX
            },
    {
        let item_size = ITEM_SIZE;
        if item_size == 0 {
            return Err(DataError::Config("item_size must be greater than 0".to_string()));
        }
        let len = mmap_contents(&map).len() / item_size;
        Ok(Self { data: map, item_size, len })
    }
}

impl Dataset for MmapDataset {
    type Item<'a> = &'a [u8];

    open spec fn len_result(&self) -> Result<usize> {
        Ok(self.num_items())
    }

    open spec fn get_ok(&self, index: usize) -> bool {
        index < self.num_items()
    }

    open spec fn is_item<'a>(&'a self, index: usize, item: &'a [u8]) -> bool {
        &&& item@.len() == self.record_size()
        &&& item@ == self.record(index as int)
    }

    open spec fn is_error(&self, index: usize, error: DataError) -> bool {
        error matches DataError::Format(msg) && msg@ == out_of_bounds_message(
            index,
            self.num_items(),
        )
    }

    fn len(&self) -> (r: Result<usize>) {
        proof {
            use_type_invariant(self);
        }
        Ok(self.len)
    }

    fn get(&self, index: usize) -> (r: Result<&[u8]>) {
        proof {
            use_type_invariant(self);
            lemma_whole_records_fit(self.bytes().len() as int, self.item_size as int);
        }
        if index >= self.len {
            return Err(DataError::Format(format_out_of_bounds(index, self.len)));
        }
        proof {
            vstd::arithmetic::mul::lemma_mul_inequality(
                index as int + 1,
                self.len as int,
                self.item_size as int,
            );
            vstd::arithmetic::mul::lemma_mul_is_distributive_add_other_way(
                self.item_size as int,
                index as int,
                1,
            );
        }
        let start = match index.checked_mul(self.item_size) {
            Some(s) => s,
            None => {
                return Err(
                    DataError::Format(
                        "Index overflow - multiplication would exceed usize bounds".to_string(),
                    ),
                );
            },
        };
        let end = match start.checked_add(self.item_size) {
            Some(e) => e,
            None => {
                return Err(
                    DataError::Format(
                        "Index overflow - addition would exceed usize bounds".to_string(),
                    ),
                );
            },
        };
        let bytes = mmap_contents(&self.data);
        if end > bytes.len() {
            return Err(
                DataError::Format("Invalid item size would exceed data bounds".to_string()),
            );
        }
        Ok(slice_subrange(bytes, start, end))
    }
}

} // verus!
