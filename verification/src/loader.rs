//! [`DataLoader`] and its configuration.
//!
//! A loader combines a dataset with a sampler: the sampler decides the order
//! in which the dataset's indices are visited, and the loader cuts that
//! order into consecutive batches of `batch_size` indices (the last one may
//! be shorter) and fetches the items of each batch.

use vstd::prelude::*;

use crate::dataset::{length_or_zero, Dataset};
use crate::error::Result;
use crate::sampler::{
    identity_indices, is_index_permutation, shuffled_indices, IndexIter, Sampler, UniformSampler,
};

verus! {

/// How data is loaded and batched.
#[derive(Debug, Clone)]
pub struct LoaderConfig {
    /// The number of items in a batch.
    pub batch_size: usize,
    /// Whether the data is visited in shuffled order.
    pub shuffle: bool,
    /// The number of items to prefetch.
    pub prefetch: usize,
    /// The seed of the shuffle.
    pub seed: u64,
}

impl Default for LoaderConfig {
    /// Batches of 32, shuffled with seed 42, prefetching 2.
    fn default() -> (c: Self)
        ensures
            c == (LoaderConfig { batch_size: 32, shuffle: true, prefetch: 2, seed: 42 }),
    {
        Self { batch_size: 32, shuffle: true, prefetch: 2, seed: 42 }
    }
}

impl LoaderConfig {
    /// Creates the default configuration.
    pub fn new() -> (c: Self)
        ensures
            c == (LoaderConfig { batch_size: 32, shuffle: true, prefetch: 2, seed: 42 }),
    {
        Self::default()
    }

    /// Sets the batch size.
    pub fn batch_size(self, batch_size: usize) -> (c: Self)
        ensures
            c == (LoaderConfig { batch_size, ..self }),
    {
        LoaderConfig { batch_size, ..self }
    }

    /// Sets whether the data is shuffled.
    pub fn shuffle(self, shuffle: bool) -> (c: Self)
        ensures
            c == (LoaderConfig { shuffle, ..self }),
    {
        LoaderConfig { shuffle, ..self }
    }

    /// Sets the number of items to prefetch.
    pub fn prefetch(self, prefetch: usize) -> (c: Self)
        ensures
            c == (LoaderConfig { prefetch, ..self }),
    {
        LoaderConfig { prefetch, ..self }
    }

    /// Sets the seed of the shuffle.
    pub fn seed(self, seed: u64) -> (c: Self)
        ensures
            c == (LoaderConfig { seed, ..self }),
    {
        LoaderConfig { seed, ..self }
    }
}

/// The number of indices in the next batch: `batch_size`, or what is left
/// when fewer remain.
pub open spec fn next_batch_len(pending: Seq<usize>, batch_size: usize) -> nat {
    if pending.len() < batch_size {
        pending.len()
    } else {
        batch_size as nat
    }
}

/// The batches of indices that a loader hands out, in order, for the
/// sampled indices `order`: consecutive runs of `batch_size` indices, the
/// last run possibly shorter. With a batch size of 0 there are none.
pub open spec fn index_batches(order: Seq<usize>, batch_size: usize) -> Seq<Seq<usize>>
    decreases order.len(),
{
    if order.len() == 0 || batch_size == 0 {
        Seq::empty()
    } else {
        let n = next_batch_len(order, batch_size);
        seq![order.take(n as int)] + index_batches(order.skip(n as int), batch_size)
    }
}

/// The concatenation of a sequence of batches.
pub open spec fn concat_batches(batches: Seq<Seq<usize>>) -> Seq<usize>
    decreases batches.len(),
{
    if batches.len() == 0 {
        Seq::empty()
    } else {
        batches[0] + concat_batches(batches.drop_first())
    }
}

/// `result` is what fetching the items at `indices` from `dataset`, in
/// order, may give: all the items when every fetch succeeds, otherwise the
/// error of the first fetch that fails.
pub open spec fn batch_outcome<'a, D: Dataset>(
    dataset: &'a D,
    indices: Seq<usize>,
    result: Result<Vec<D::Item<'a>>>,
) -> bool {
    match result {
        Ok(items) => {
            &&& items@.len() == indices.len()
            &&& forall|k: int|
                0 <= k < indices.len() ==> dataset.get_ok(#[trigger] indices[k]) && dataset.is_item(
                    indices[k],
                    items@[k],
                )
        },
        Err(e) => exists|k: int|
            0 <= k < indices.len() && (forall|j: int| 0 <= j < k ==> dataset.get_ok(#[trigger] indices[j]))
                && !dataset.get_ok(#[trigger] indices[k]) && dataset.is_error(indices[k], e),
    }
}

/// The loader hands out every sampled index exactly once, in the sampled
/// order: the batches, put back together, give the sampled order. With a
/// positive batch size there are `ceil(len / batch_size)` batches, none of
/// them empty or larger than the batch size, and all but the last one full.
pub proof fn lemma_batches_partition(order: Seq<usize>, batch_size: usize)
    requires
        batch_size > 0,
    ensures
        concat_batches(index_batches(order, batch_size)) == order,
        index_batches(order, batch_size).len() == (order.len() + batch_size - 1) / (
        batch_size as int),
        forall|i: int|
            0 <= i < index_batches(order, batch_size).len() ==> 0 < (#[trigger] index_batches(
                order,
                batch_size,
            )[i]).len() <= batch_size,
        forall|i: int|
            0 <= i < index_batches(order, batch_size).len() - 1 ==> (#[trigger] index_batches(
                order,
                batch_size,
            )[i]).len() == batch_size,
    decreases order.len(),
{
    let b = index_batches(order, batch_size);
    let bs = batch_size as int;
    if order.len() == 0 {
        assert(b.len() == 0);
        assert((order.len() + bs - 1) / bs == 0) by {
            vstd::arithmetic::div_mod::lemma_fundamental_div_mod_converse_div(bs - 1, bs, 0, bs - 1);
        }
    } else {
        let n = next_batch_len(order, batch_size);
        let rest = order.skip(n as int);
        lemma_batches_partition(rest, batch_size);
        let rb = index_batches(rest, batch_size);
        assert(b == seq![order.take(n as int)] + rb);
        assert(b.drop_first() == rb);
        assert(order.take(n as int) + rest == order);
        // the count: ceil((m + bs) / bs) == ceil(m / bs) + 1 when a full batch
        // was cut off, and 1 when the rest is empty
        if order.len() < bs {
            assert(rest.len() == 0);
            assert(rb.len() == 0);
            assert((order.len() + bs - 1) / bs == 1) by {
                vstd::arithmetic::div_mod::lemma_fundamental_div_mod_converse_div(
                    order.len() + bs - 1,
                    bs,
                    1,
                    order.len() - 1,
                );
            }
        } else {
            assert(rest.len() == order.len() - bs);
            vstd::arithmetic::div_mod::lemma_div_plus_one(rest.len() as int + bs - 1, bs);
            assert((order.len() + bs - 1) == (rest.len() + bs - 1) + bs);
        }
        assert forall|i: int| 0 <= i < b.len() implies 0 < (#[trigger] b[i]).len() <= batch_size by {
            if i > 0 {
                assert(b[i] == rb[i - 1]);
            }
        }
        assert forall|i: int| 0 <= i < b.len() - 1 implies (#[trigger] b[i]).len() == batch_size by {
            if i > 0 {
                assert(b[i] == rb[i - 1]);
            } else {
                assert(rb.len() > 0);
                assert(rest.len() > 0);
            }
        }
    }
}

/// Cutting off the next batch leaves the batches of what remains: the
/// batches handed out by successive calls of `DataLoaderIter::next` are
/// `index_batches(order, batch_size)`, one per call, in order.
pub proof fn lemma_next_batch_is_first(pending: Seq<usize>, batch_size: usize)
    requires
        next_batch_len(pending, batch_size) > 0,
    ensures
        index_batches(pending, batch_size).len() > 0,
        index_batches(pending, batch_size)[0] == pending.take(
            next_batch_len(pending, batch_size) as int,
        ),
        index_batches(pending, batch_size).drop_first() == index_batches(
            pending.skip(next_batch_len(pending, batch_size) as int),
            batch_size,
        ),
{
    let n = next_batch_len(pending, batch_size);
    let b = index_batches(pending, batch_size);
    assert(b == seq![pending.take(n as int)] + index_batches(pending.skip(n as int), batch_size));
    assert(b.drop_first() == index_batches(pending.skip(n as int), batch_size));
}

/// A pass of a loader with a uniform sampler and a positive batch size
/// visits every index of the dataset exactly once: the indices of its
/// batches, in order, form a permutation of `0..len`.
pub proof fn lemma_uniform_pass_visits_each_index_once(
    sampler: UniformSampler,
    len: usize,
    batch_size: usize,
)
    requires
        batch_size > 0,
    ensures
        is_index_permutation(concat_batches(index_batches(sampler.order(len), batch_size)), len as nat),
{
    crate::sampler::lemma_uniform_order_is_permutation(sampler, sampler, len);
    lemma_batches_partition(sampler.order(len), batch_size);
}

/// Two loaders created by `DataLoader::new` hand out the same batches of
/// indices over datasets of the same length when their configurations agree
/// on the batch size and on shuffling, and, when shuffling, on the seed:
/// a pass is reproducible, and neither `prefetch` nor, without shuffling,
/// `seed` changes it.
pub proof fn lemma_new_loaders_agree<D: Dataset>(
    l1: DataLoader<D, UniformSampler>,
    l2: DataLoader<D, UniformSampler>,
    len: usize,
)
    requires
        l1.sampler().shuffles() == l1.config().shuffle,
        l2.sampler().shuffles() == l2.config().shuffle,
        l1.config().shuffle ==> l1.sampler().seed_value() == l1.config().seed,
        l2.config().shuffle ==> l2.sampler().seed_value() == l2.config().seed,
        l1.config().batch_size == l2.config().batch_size,
        l1.config().shuffle == l2.config().shuffle,
        l1.config().shuffle ==> l1.config().seed == l2.config().seed,
    ensures
        index_batches(l1.sampler().order(len), l1.config().batch_size) == index_batches(
            l2.sampler().order(len),
            l2.config().batch_size,
        ),
{
    crate::sampler::lemma_uniform_order_is_permutation(l1.sampler(), l2.sampler(), len);
}

/// Batch `k` of a pass holds the sampled indices at positions
/// `k * batch_size` up to `min((k + 1) * batch_size, len)`; there are
/// `ceil(len / batch_size)` batches. Without shuffling (or with a
/// sequential sampler) the order is `0, 1, ..., len - 1`, so batch `k`
/// holds exactly those positions as indices.
pub proof fn lemma_kth_batch(order: Seq<usize>, batch_size: usize, k: nat)
    requires
        batch_size > 0,
        k * batch_size < order.len(),
    ensures
        k < index_batches(order, batch_size).len(),
        index_batches(order, batch_size)[k as int] == order.subrange(
            k * batch_size,
            if (k + 1) * batch_size < order.len() {
                (k + 1) * batch_size
            } else {
                order.len() as int
            },
        ),
        index_batches(order, batch_size).skip(k as int) == index_batches(
            order.skip(k * batch_size),
            batch_size,
        ),
    decreases k,
{
    let bs = batch_size as int;
    if k == 0 {
        assert(k * bs == 0 && (k + 1) * bs == bs) by (nonlinear_arith)
            requires
                k == 0,
        ;
        lemma_next_batch_is_first(order, batch_size);
        assert(order.skip(0) =~= order);
        assert(index_batches(order, batch_size).skip(0) =~= index_batches(order, batch_size));
        assert(order.take(next_batch_len(order, batch_size) as int) =~= order.subrange(
            0,
            if bs < order.len() { bs } else { order.len() as int },
        ));
    } else {
        let n = next_batch_len(order, batch_size);
        assert(n == bs) by {
            vstd::arithmetic::mul::lemma_mul_inequality(1, k as int, bs);
        }
        let rest = order.skip(bs);
        assert((k - 1) * bs == k * bs - bs) by {
            vstd::arithmetic::mul::lemma_mul_is_distributive_sub_other_way(bs, k as int, 1);
        }
        assert(k * bs + bs == (k + 1) * bs) by {
            vstd::arithmetic::mul::lemma_mul_is_distributive_add_other_way(bs, k as int, 1);
        }
        lemma_kth_batch(rest, batch_size, (k - 1) as nat);
        lemma_next_batch_is_first(order, batch_size);
        let b = index_batches(order, batch_size);
        let rb = index_batches(rest, batch_size);
        assert(b.drop_first() == rb);
        assert(b[k as int] == rb[k - 1]);
        assert(rest.subrange(
            (k - 1) * bs,
            if k * bs < rest.len() { k * bs } else { rest.len() as int },
        ) =~= order.subrange(
            k * bs,
            if (k + 1) * bs < order.len() { (k + 1) * bs } else { order.len() as int },
        ));
        assert(rest.skip((k - 1) * bs) =~= order.skip(k * bs));
        assert(b.skip(k as int) =~= rb.skip(k - 1));
    }
}

/// Loads batches from a dataset in the order given by a sampler.
pub struct DataLoader<D: Dataset, S: Sampler = UniformSampler> {
    /// The dataset to load from.
    dataset: D,
    /// The sampler deciding the order of the indices.
    sampler: S,
    /// The configuration.
    config: LoaderConfig,
}

impl<D: Dataset> DataLoader<D, UniformSampler> {
    /// Creates a loader over `dataset`. When `config.shuffle` is set, the
    /// indices are visited in the order of a uniform sampler seeded with
    /// `config.seed`; otherwise they are visited in dataset order
    /// `0, 1, ..., len - 1`. Always succeeds.
    pub fn new(dataset: D, config: LoaderConfig) -> (r: Result<Self>)
        ensures
            r matches Ok(l) && {
                &&& l.dataset() == dataset
                &&& l.config() == config
                &&& l.sampler().shuffles() == config.shuffle
                &&& config.shuffle ==> l.sampler().seed_value() == config.seed
                &&& forall|n: usize|
                    #[trigger] l.sampler().order(n) == if config.shuffle {
                        shuffled_indices(n as nat, config.seed)
                    } else {
                        identity_indices(n as nat)
                    }
            },
    {
        let sampler = if config.shuffle {
            UniformSampler::new(config.seed)
        } else {
            UniformSampler::unshuffled()
        };
        Ok(Self { dataset, sampler, config })
    }
}

impl<D: Dataset, S: Sampler> DataLoader<D, S> {
    /// The dataset loaded from.
    pub closed spec fn dataset(&self) -> D {
        self.dataset
    }

    /// The sampler in use.
    pub closed spec fn sampler(&self) -> S {
        self.sampler
    }

    /// The configuration in use.
    pub closed spec fn config(&self) -> LoaderConfig {
        self.config
    }

    /// Creates a loader with the given sampler.
    pub fn with_sampler(dataset: D, sampler: S, config: LoaderConfig) -> (l: Self)
        ensures
            l.dataset() == dataset,
            l.sampler() == sampler,
            l.config() == config,
    {
        Self { dataset, sampler, config }
    }

    /// Starts a pass over the dataset: the indices to visit are the
    /// sampler's order for the dataset's length, where a length that cannot
    /// be read counts as 0 (the pass is then empty). Always succeeds.
    pub fn iter(&self) -> (r: Result<DataLoaderIter<'_, D, S>>)
        ensures
            r matches Ok(it) && {
                &&& it.loader() == self
                &&& it.pending() == self.sampler().order(length_or_zero(&self.dataset()))
            },
    {
        let len = match self.dataset.len() {
            Ok(l) => l,
            Err(_) => 0,
        };
        Ok(DataLoaderIter { loader: self, sampler_iter: self.sampler.iter(len), current_batch: Vec::new() })
    }
}

/// A pass of a [`DataLoader`] over its dataset, batch by batch.
pub struct DataLoaderIter<'a, D: Dataset, S: Sampler> {
    /// The loader.
    loader: &'a DataLoader<D, S>,
    /// The stream of sample indices.
    sampler_iter: S::Iter<'a>,
    /// The indices of the batch being built.
    current_batch: Vec<usize>,
}

impl<'a, D: Dataset, S: Sampler> DataLoaderIter<'a, D, S> {
    /// The loader this pass belongs to.
    pub closed spec fn loader(&self) -> &'a DataLoader<D, S> {
        self.loader
    }

    /// The sample indices not yet handed out, in order.
    pub closed spec fn pending(&self) -> Seq<usize> {
        self.sampler_iter.remaining()
    }

    /// Hands out the next batch: the items of the next
    /// `min(batch_size, pending)` sample indices, in order, or the error of
    /// the first of them that cannot be fetched. Those indices are consumed
    /// either way. Returns `None` when no index is left, or when the batch
    /// size is 0.
    pub fn next(&mut self) -> (r: Option<Result<Vec<D::Item<'a>>>>)
        ensures
            ({
                let n = next_batch_len(old(self).pending(), old(self).loader().config().batch_size);
                &&& final(self).loader() == old(self).loader()
                &&& final(self).pending() == old(self).pending().skip(n as int)
                &&& n == 0 ==> r is None
                &&& n > 0 ==> (r matches Some(res) && batch_outcome(
                    &old(self).loader().dataset(),
                    old(self).pending().take(n as int),
                    res,
                ))
            }),
    {
        let loader = self.loader;
        let batch_size = loader.config.batch_size;
        let ghost start = self.sampler_iter.remaining();
        self.current_batch.clear();
        while self.current_batch.len() < batch_size
            invariant_except_break
                self.current_batch.len() <= batch_size,
                self.current_batch.len() <= start.len(),
                self.current_batch@ == start.take(self.current_batch.len() as int),
                self.sampler_iter.remaining() == start.skip(self.current_batch.len() as int),
                self.loader == loader,
                batch_size == loader.config.batch_size,
            ensures
                self.current_batch.len() == next_batch_len(start, batch_size),
                self.current_batch@ == start.take(self.current_batch.len() as int),
                self.sampler_iter.remaining() == start.skip(self.current_batch.len() as int),
                self.loader == loader,
            decreases batch_size - self.current_batch.len(),
        {
            let ghost k = self.current_batch.len() as int;
            match self.sampler_iter.next() {
                Some(index) => {
                    assert(start.skip(k)[0] == start[k]);
                    assert(start.skip(k).drop_first() =~= start.skip(k + 1));
                    self.current_batch.push(index);
                    assert(self.current_batch@ =~= start.take(k + 1));
                },
                None => {
                    assert(start.skip(k).len() == 0);
                    break;
                },
            }
        }
        if self.current_batch.len() == 0 {
            return None;
        }
        let dataset = &loader.dataset;
        let mut batch: Vec<D::Item<'a>> = Vec::new();
        let mut k: usize = 0;
        while k < self.current_batch.len()
            invariant
                k <= self.current_batch.len(),
                self.current_batch.len() == next_batch_len(start, batch_size),
                self.current_batch@ == start.take(self.current_batch.len() as int),
                self.sampler_iter.remaining() == start.skip(self.current_batch.len() as int),
                self.loader == loader,
                loader == old(self).loader,
                start == old(self).pending(),
                batch_size == loader.config.batch_size,
                dataset == &loader.dataset,
                batch@.len() == k,
                forall|i: int|
                    0 <= i < k ==> dataset.get_ok(#[trigger] self.current_batch@[i])
                        && dataset.is_item(self.current_batch@[i], batch@[i]),
            decreases self.current_batch.len() - k,
        {
            let index = self.current_batch[k];
            match dataset.get(index) {
                Ok(item) => batch.push(item),
                Err(e) => {
                    proof {
                        let indices = start.take(self.current_batch.len() as int);
                        assert(indices == self.current_batch@);
                        assert(forall|j: int| 0 <= j < k ==> dataset.get_ok(#[trigger] indices[j]));
                        assert(!dataset.get_ok(indices[k as int]));
                        assert(dataset.is_error(indices[k as int], e));
                    }
                    return Some(Err(e));
                },
            }
            k = k + 1;
        }
        Some(Ok(batch))
    }
}

} // verus!
