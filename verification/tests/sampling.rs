//! Sampler behaviour: the orders of the sequential and uniform samplers.

use torchforge_data::sampler::{
    IndexIter, Sampler, SequentialSampler, SequentialSamplerIter, UniformSampler,
    UniformSamplerIter,
};

fn drain<I: IndexIter>(mut it: I) -> Vec<usize> {
    let mut out = Vec::new();
    while let Some(i) = it.next() {
        out.push(i);
    }
    out
}

#[test]
fn sequential_sampler_visits_indices_in_order() {
    let sampler = SequentialSampler::new();
    assert_eq!(drain(sampler.iter(5)), vec![0, 1, 2, 3, 4]);
    assert_eq!(drain(SequentialSampler::default().iter(0)), Vec::<usize>::new());
    assert_eq!(drain(SequentialSamplerIter::new(3)), vec![0, 1, 2]);
}

#[test]
fn sequential_iter_size_hint_counts_down() {
    let mut it = SequentialSampler::new().iter(3);
    assert_eq!(it.size_hint(), (3, Some(3)));
    assert_eq!(it.next(), Some(0));
    assert_eq!(it.size_hint(), (2, Some(2)));
    it.next();
    it.next();
    assert_eq!(it.size_hint(), (0, Some(0)));
    assert_eq!(it.next(), None);
    assert_eq!(it.size_hint(), (0, Some(0)));
}

#[test]
fn uniform_sampler_exact_orders() {
    assert_eq!(drain(UniformSampler::new(0).iter(5)), vec![1, 4, 3, 2, 0]);
    assert_eq!(drain(UniformSampler::new(42).iter(5)), vec![1, 2, 3, 4, 0]);
    assert_eq!(
        drain(UniformSampler::new(42).iter(10)),
        vec![6, 9, 0, 4, 7, 3, 2, 8, 1, 5]
    );
    assert_eq!(drain(UniformSamplerIter::new(2, 0)), vec![0, 1]);
}

#[test]
fn uniform_sampler_small_lengths() {
    assert_eq!(drain(UniformSampler::new(7).iter(0)), Vec::<usize>::new());
    assert_eq!(drain(UniformSampler::new(7).iter(1)), vec![0]);
}

#[test]
fn uniform_sampler_is_a_permutation() {
    for seed in [0u64, 1, 42, 12345, u64::MAX] {
        for len in [0usize, 1, 2, 3, 17, 100] {
            let mut order = drain(UniformSampler::new(seed).iter(len));
            assert_eq!(order.len(), len);
            order.sort();
            let expected: Vec<usize> = (0..len).collect();
            assert_eq!(order, expected, "seed {} len {}", seed, len);
        }
    }
}

#[test]
fn uniform_sampler_is_reproducible() {
    let a = drain(UniformSampler::new(99).iter(50));
    let b = drain(UniformSampler::new(99).clone().iter(50));
    assert_eq!(a, b);
    let c = drain(UniformSampler::new(100).iter(50));
    assert_ne!(a, c);
}

#[test]
fn uniform_iter_size_hint_counts_down() {
    let mut it = UniformSampler::new(3).iter(4);
    assert_eq!(it.size_hint(), (4, Some(4)));
    it.next();
    assert_eq!(it.size_hint(), (3, Some(3)));
    while it.next().is_some() {}
    assert_eq!(it.size_hint(), (0, Some(0)));
    assert_eq!(it.next(), None);
}
