//! Sampling strategies: the order in which the indices of a dataset are
//! visited.
//!
//! A [`Sampler`] turns the length of a dataset into a stream of indices
//! ([`IndexIter`]). Two samplers are provided: [`SequentialSampler`], which
//! visits `0, 1, ..., len - 1`, and [`UniformSampler`], which visits every
//! index exactly once in an order shuffled by a seeded linear congruential
//! generator.

use vstd::prelude::*;

verus! {

/// A stream of dataset indices, handed out front to back.
pub trait IndexIter {
    /// The indices that this stream still yields, in the order it yields them.
    spec fn remaining(&self) -> Seq<usize>;

    /// Yields the next index, or `None` once the stream is exhausted.
    fn next(&mut self) -> (r: Option<usize>)
        ensures
            old(self).remaining().len() == 0 ==> {
                &&& r is None
                &&& final(self).remaining() == old(self).remaining()
            },
            old(self).remaining().len() > 0 ==> {
                &&& r == Some(old(self).remaining()[0])
                &&& final(self).remaining() == old(self).remaining().drop_first()
            },
    ;

    /// Bounds on the number of indices left; both bounds are exact.
    fn size_hint(&self) -> (r: (usize, Option<usize>))
        ensures
            r.0 == self.remaining().len(),
            r.1 == Some(r.0),
    ;
}

/// A sampling strategy: decides which indices of a dataset are visited, and
/// in what order.
pub trait Sampler {
    /// The stream of indices produced by this sampler.
    type Iter<'a>: IndexIter where Self: 'a;

    /// The indices visited for a dataset of `len` items, in order.
    spec fn order(&self, len: usize) -> Seq<usize>;

    /// Creates a stream over the sample indices for a dataset of `len` items.
    fn iter(&self, len: usize) -> (it: Self::Iter<'_>)
        ensures
            it.remaining() == self.order(len),
    ;
}

/// The multiplier of the linear congruential generator behind
/// [`UniformSampler`].
pub const LCG_MULTIPLIER: u64 = 1103515245;

/// The increment of the linear congruential generator behind
/// [`UniformSampler`].
pub const LCG_INCREMENT: u64 = 12345;

/// One step of the generator: `state * LCG_MULTIPLIER + LCG_INCREMENT`,
/// modulo 2^64.
#[verifier::opaque]
pub open spec fn lcg_next(state: u64) -> u64 {
    ((state as nat * LCG_MULTIPLIER as nat + LCG_INCREMENT as nat) % 0x1_0000_0000_0000_0000nat) as u64
}

/// The generator's state after `k` steps from `seed`.
pub open spec fn lcg_state(seed: u64, k: nat) -> u64
    decreases k,
{
    if k == 0 {
        seed
    } else {
        lcg_next(lcg_state(seed, (k - 1) as nat))
    }
}

/// The indices `0, 1, ..., len - 1` in increasing order.
pub open spec fn identity_indices(len: nat) -> Seq<usize> {
    Seq::new(len, |k: int| k as usize)
}

/// `s` with the entries at positions `i` and `j` exchanged.
pub open spec fn swap_entries(s: Seq<usize>, i: int, j: int) -> Seq<usize> {
    s.update(i, s[j]).update(j, s[i])
}

/// The position that step `k` (counted from 1) of the shuffle of `len`
/// indices exchanges with position `len - k`.
pub open spec fn shuffle_partner(len: nat, seed: u64, k: nat) -> int {
    ((lcg_state(seed, k) as usize) as int) % ((len - k) + 1)
}

/// The indices after the first `k` steps of the Fisher-Yates shuffle of
/// `0..len`: step `k` draws the next state of the generator and exchanges
/// position `len - k` with position `shuffle_partner(len, seed, k)`.
pub open spec fn shuffle_steps(len: nat, seed: u64, k: nat) -> Seq<usize>
    decreases k,
{
    if k == 0 {
        identity_indices(len)
    } else {
        swap_entries(
            shuffle_steps(len, seed, (k - 1) as nat),
            len - k,
            shuffle_partner(len, seed, k),
        )
    }
}

/// The order in which a [`UniformSampler`] seeded with `seed` visits a
/// dataset of `len` items: the shuffle runs its steps for the positions
/// `len - 1` down to `1`.
pub open spec fn shuffled_indices(len: nat, seed: u64) -> Seq<usize> {
    if len <= 1 {
        identity_indices(len)
    } else {
        shuffle_steps(len, seed, (len - 1) as nat)
    }
}

/// `s` holds each of `0, 1, ..., n - 1` exactly once, and nothing else.
pub open spec fn is_index_permutation(s: Seq<usize>, n: nat) -> bool {
    &&& s.len() == n
    &&& forall|k: int| 0 <= k < n ==> #[trigger] s[k] < n
    &&& s.no_duplicates()
    &&& forall|v: usize| v < n ==> #[trigger] s.contains(v)
}

/// Exchanging two entries of a permutation of `0..n` leaves a permutation.
pub proof fn lemma_swap_keeps_permutation(s: Seq<usize>, n: nat, i: int, j: int)
    requires
        is_index_permutation(s, n),
        0 <= i < n,
        0 <= j < n,
    ensures
        is_index_permutation(swap_entries(s, i, j), n),
{
    let t = swap_entries(s, i, j);
    assert forall|k: int| 0 <= k < n implies #[trigger] t[k] < n by {
        if k == j {
        } else if k == i {
        } else {
        }
    }
    assert forall|a: int, b: int| 0 <= a < t.len() && 0 <= b < t.len() && a != b implies t[a]
        != t[b] by {
        let sa = if a == j { i } else if a == i { j } else { a };
        let sb = if b == j { i } else if b == i { j } else { b };
        assert(t[a] == s[sa]);
        assert(t[b] == s[sb]);
    }
    assert forall|v: usize| v < n implies #[trigger] t.contains(v) by {
        assert(s.contains(v));
        let k = choose|k: int| 0 <= k < s.len() && s[k] == v;
        let w = if k == i { j } else if k == j { i } else { k };
        assert(t[w] == v);
    }
}

/// `0, 1, ..., n - 1` is a permutation of itself.
pub proof fn lemma_identity_is_permutation(n: nat)
    requires
        n <= usize::MAX,
    ensures
        is_index_permutation(identity_indices(n), n),
{
    let s = identity_indices(n);
    assert forall|k: int| 0 <= k < n implies #[trigger] s[k] == k by {}
    assert forall|v: usize| v < n implies #[trigger] s.contains(v) by {
        assert(s[v as int] == v);
    }
}

/// Every prefix of the shuffle's steps is a permutation of `0..len`.
pub proof fn lemma_shuffle_steps_permutation(len: nat, seed: u64, k: nat)
    requires
        k < len,
        len <= usize::MAX,
    ensures
        is_index_permutation(shuffle_steps(len, seed, k), len),
    decreases k,
{
    if k == 0 {
        lemma_identity_is_permutation(len);
    } else {
        lemma_shuffle_steps_permutation(len, seed, (k - 1) as nat);
        assert(0 <= shuffle_partner(len, seed, k) < len);
        lemma_swap_keeps_permutation(
            shuffle_steps(len, seed, (k - 1) as nat),
            len,
            len - k,
            shuffle_partner(len, seed, k),
        );
    }
}

/// A uniform sampler visits every index of the dataset exactly once, in an
/// order that depends on its seed and the dataset's length alone: two
/// shuffling samplers with the same seed visit a dataset in the same order,
/// and two samplers that do not shuffle both visit it in dataset order.
pub proof fn lemma_uniform_order_is_permutation(s1: UniformSampler, s2: UniformSampler, len: usize)
    requires
        s1.shuffles() == s2.shuffles(),
        s1.shuffles() ==> s1.seed_value() == s2.seed_value(),
    ensures
        is_index_permutation(s1.order(len), len as nat),
        s1.order(len) == s2.order(len),
        !s1.shuffles() ==> s1.order(len) == identity_indices(len as nat),
{
    if len <= 1 || !s1.shuffles() {
        lemma_identity_is_permutation(len as nat);
    } else {
        lemma_shuffle_steps_permutation(len as nat, s1.seed_value(), (len - 1) as nat);
    }
}

/// A sequential sampler visits `0, 1, ..., len - 1` in increasing order, so
/// every index exactly once.
pub proof fn lemma_sequential_order_is_permutation(s: SequentialSampler, len: usize)
    ensures
        s.order(len) == identity_indices(len as nat),
        is_index_permutation(s.order(len), len as nat),
{
    lemma_identity_is_permutation(len as nat);
}

/// The Fisher-Yates shuffle of `s`, driven by a linear congruential
/// generator in state `state`, written recursively: draw the next state
/// `state * 1103515245 + 12345 (mod 2^64)`, exchange the last entry with the
/// entry at that state (as a `usize`) modulo the length, keep the last entry
/// where it now is and shuffle the entries before it with the new state.
pub open spec fn fisher_yates(s: Seq<usize>, state: u64) -> Seq<usize>
    decreases s.len(),
{
    if s.len() <= 1 {
        s
    } else {
        let next: u64 = ((state as nat * 1103515245nat + 12345nat) % 0x1_0000_0000_0000_0000nat) as u64;
        let last: int = s.len() - 1;
        let j: int = (next as usize) as int % (s.len() as int);
        let t = s.update(last, s[j]).update(j, s[last]);
        fisher_yates(t.take(last), next).push(t[last])
    }
}

/// The first `k` steps of the shuffle of an arbitrary sequence `s`, with the
/// generator starting in state `st`; step `k` handles position
/// `s.len() - k`.
spec fn steps_from(s: Seq<usize>, st: u64, k: nat) -> Seq<usize>
    decreases k,
{
    if k == 0 {
        s
    } else {
        swap_entries(
            steps_from(s, st, (k - 1) as nat),
            s.len() - k,
            ((lcg_state(st, k) as usize) as int) % ((s.len() - k) + 1),
        )
    }
}

/// Stepping the generator once and then `k` times is stepping it `k + 1`
/// times.
proof fn lemma_lcg_state_shift(st: u64, k: nat)
    ensures
        lcg_state(lcg_next(st), k) == lcg_state(st, k + 1),
    decreases k,
{
    if k > 0 {
        lemma_lcg_state_shift(st, (k - 1) as nat);
        let prev = lcg_state(lcg_next(st), (k - 1) as nat);
        assert(prev == lcg_state(st, k));
        assert(lcg_state(lcg_next(st), k) == lcg_next(prev));
        assert(lcg_state(st, k + 1) == lcg_next(lcg_state(st, k)));
    } else {
        assert(lcg_state(st, 0) == st);
        assert(lcg_state(st, 1) == lcg_next(lcg_state(st, 0)));
        assert(lcg_state(lcg_next(st), 0) == lcg_next(st));
    }
}

/// The steps keep the length of the sequence.
proof fn lemma_steps_from_len(s: Seq<usize>, st: u64, k: nat)
    requires
        k < s.len(),
    ensures
        steps_from(s, st, k).len() == s.len(),
    decreases k,
{
    if k > 0 {
        lemma_steps_from_len(s, st, (k - 1) as nat);
    }
}

/// The shuffle of `0..len` is the shuffle of the sequence `0..len`.
proof fn lemma_shuffle_steps_from_identity(len: nat, seed: u64, k: nat)
    ensures
        shuffle_steps(len, seed, k) == steps_from(identity_indices(len), seed, k),
    decreases k,
{
    if k > 0 {
        lemma_shuffle_steps_from_identity(len, seed, (k - 1) as nat);
    }
}

/// After the first step, the remaining steps only touch the entries before
/// the last one, and run with the generator one step ahead.
proof fn lemma_steps_peel_first(s: Seq<usize>, st: u64, k: nat)
    requires
        s.len() >= 2,
        k <= s.len() - 2,
    ensures
        ({
            let m = s.len() as int;
            let nx = lcg_next(st);
            let t = swap_entries(s, m - 1, ((nx as usize) as int) % m);
            steps_from(s, st, k + 1) == steps_from(t.take(m - 1), nx, k).push(t[m - 1])
        }),
    decreases k,
{
    let m = s.len() as int;
    let nx = lcg_next(st);
    let t = swap_entries(s, m - 1, ((nx as usize) as int) % m);
    let tp = t.take(m - 1);
    assert(0 <= ((nx as usize) as int) % m < m);
    assert(t.len() == m);
    assert(tp.len() == m - 1);
    if k == 0 {
        assert(lcg_state(st, 0) == st);
        assert(lcg_state(st, 1) == lcg_next(lcg_state(st, 0)));
        assert(lcg_state(st, 1) == nx);
        assert(steps_from(s, st, 0) == s);
        assert(steps_from(s, st, 1) == swap_entries(s, m - 1, ((lcg_state(st, 1) as usize) as int) % m));
        assert(steps_from(s, st, 1) == t);
        assert(tp.push(t[m - 1]) =~= t);
        assert(steps_from(tp, nx, 0) == tp);
    } else {
        lemma_steps_peel_first(s, st, (k - 1) as nat);
        lemma_lcg_state_shift(st, k);
        lemma_steps_from_len(tp, nx, (k - 1) as nat);
        let a = steps_from(tp, nx, (k - 1) as nat);
        let x = t[m - 1];
        let p = m - (k + 1);
        let j = ((lcg_state(st, k + 1) as usize) as int) % (m - k);
        assert(0 <= j < m - k);
        assert(steps_from(s, st, k) == a.push(x));
        assert(a.len() == m - 1);
        assert(steps_from(s, st, k + 1) == swap_entries(steps_from(s, st, k), p, j));
        assert(swap_entries(a.push(x), p, j) =~= swap_entries(a, p, j).push(x));
        assert(steps_from(tp, nx, k) == swap_entries(a, (m - 1) - k, ((lcg_state(nx, k) as usize) as int) % ((m - 1 - k) + 1)));
    }
}

/// The step-by-step shuffle of a sequence of length `m` runs `m - 1` steps
/// and gives its recursive Fisher-Yates shuffle.
proof fn lemma_steps_are_fisher_yates(s: Seq<usize>, st: u64)
    requires
        s.len() >= 1,
    ensures
        steps_from(s, st, (s.len() - 1) as nat) == fisher_yates(s, st),
    decreases s.len(),
{
    let m = s.len() as int;
    if m >= 2 {
        let nx = lcg_next(st);
        let t = swap_entries(s, m - 1, ((nx as usize) as int) % m);
        lemma_steps_peel_first(s, st, (m - 2) as nat);
        lemma_steps_are_fisher_yates(t.take(m - 1), nx);
        let j: int = ((nx as usize) as int) % m;
        assert(t == s.update(m - 1, s[j]).update(j, s[m - 1]));
        reveal(lcg_next);
    }
}

/// A shuffling uniform sampler visits the dataset in the order of the
/// Fisher-Yates shuffle of `0..len` whose generator starts at the sampler's
/// seed: every one of the positions `len - 1` down to `1` gets its swap,
/// and the seed decides every swap partner.
pub proof fn lemma_uniform_order_is_fisher_yates(sampler: UniformSampler, len: usize)
    requires
        sampler.shuffles(),
    ensures
        sampler.order(len) == fisher_yates(Seq::new(len as nat, |k: int| k as usize), sampler.seed_value()),
        shuffled_indices(len as nat, sampler.seed_value()) == fisher_yates(
            Seq::new(len as nat, |k: int| k as usize),
            sampler.seed_value(),
        ),
{
    let ident = Seq::new(len as nat, |k: int| k as usize);
    assert(identity_indices(len as nat) =~= ident);
    if len >= 2 {
        lemma_shuffle_steps_from_identity(len as nat, sampler.seed_value(), (len - 1) as nat);
        lemma_steps_are_fisher_yates(ident, sampler.seed_value());
    }
}

/// Without shuffling, samplers visit position `k` of the pass at index `k`:
/// the sequential sampler, and a uniform sampler that does not shuffle,
/// both hand out `0, 1, ..., len - 1` in this order.
pub proof fn lemma_unshuffled_orders_are_dataset_order(
    sequential: SequentialSampler,
    uniform: UniformSampler,
    len: usize,
)
    ensures
        sequential.order(len).len() == len,
        forall|k: int| 0 <= k < len ==> #[trigger] sequential.order(len)[k] == k,
        !uniform.shuffles() ==> uniform.order(len).len() == len,
        !uniform.shuffles() ==> forall|k: int| 0 <= k < len ==> #[trigger] uniform.order(len)[k] == k,
{
}

/// One step of the generator, computed with wrapping arithmetic.
fn lcg_advance(state: u64) -> (r: u64)
    ensures
        r == lcg_next(state),
{
    let m = state.wrapping_mul(LCG_MULTIPLIER);
    let r = m.wrapping_add(LCG_INCREMENT);
    proof {
        reveal(lcg_next);
        let p: int = state as int * LCG_MULTIPLIER as int;
        let c: int = LCG_INCREMENT as int;
        let modulus: int = 0x1_0000_0000_0000_0000int;
        assert(m as int == p % modulus);
        vstd::arithmetic::div_mod::lemma_add_mod_noop(p, c, modulus);
        vstd::arithmetic::div_mod::lemma_small_mod(c as nat, modulus as nat);
        if m as int + c >= modulus {
            let x: int = m as int + c - modulus;
            vstd::arithmetic::div_mod::lemma_small_mod(x as nat, modulus as nat);
            vstd::arithmetic::div_mod::lemma_mod_add_multiples_vanish(x, modulus);
        } else {
            vstd::arithmetic::div_mod::lemma_small_mod((m as int + c) as nat, modulus as nat);
        }
    }
    r
}

/// Uniform random sampler.
///
/// Visits every index exactly once per pass, in an order shuffled by a
/// Fisher-Yates shuffle driven by a deterministic linear congruential
/// generator. The order is reproducible from the seed; it is not suitable
/// for cryptographic purposes or where high-quality randomness is needed.
/// A data loader configured without shuffling holds a sampler of this type
/// with shuffling switched off, which visits the indices in dataset order.
#[derive(Debug, Clone)]
pub struct UniformSampler {
    /// Seed of the random number generator.
    seed: u64,
    /// Whether the indices are shuffled at all.
    shuffle: bool,
}

impl UniformSampler {
    /// The seed this sampler was created with.
    pub closed spec fn seed_value(self) -> u64 {
        self.seed
    }

    /// Whether this sampler shuffles; when it does not, it visits
    /// `0, 1, ..., len - 1` in order.
    pub closed spec fn shuffles(self) -> bool {
        self.shuffle
    }

    /// Creates a new uniform sampler with the given seed.
    pub fn new(seed: u64) -> (s: Self)
        ensures
            s.seed_value() == seed,
            s.shuffles(),
    {
        Self { seed, shuffle: true }
    }

    /// Creates a sampler of this type that does not shuffle: it visits the
    /// indices in dataset order.
    pub(crate) fn unshuffled() -> (s: Self)
        ensures
            !s.shuffles(),
    {
        Self { seed: 0, shuffle: false }
    }
}

impl Sampler for UniformSampler {
    type Iter<'a> = UniformSamplerIter;

    open spec fn order(&self, len: usize) -> Seq<usize> {
        if self.shuffles() {
            shuffled_indices(len as nat, self.seed_value())
        } else {
            identity_indices(len as nat)
        }
    }

    fn iter(&self, len: usize) -> (it: Self::Iter<'_>) {
        if self.shuffle {
            UniformSamplerIter::new(len, self.seed)
        } else {
            UniformSamplerIter::in_order(len)
        }
    }
}

/// The vector `0, 1, ..., len - 1`.
fn identity_vec(len: usize) -> (v: Vec<usize>)
    ensures
        v@ == identity_indices(len as nat),
{
    let mut indices: Vec<usize> = Vec::new();
    let mut k: usize = 0;
    while k < len
        invariant
            k <= len,
            indices@ == identity_indices(len as nat).take(k as int),
        decreases len - k,
    {
        indices.push(k);
        k = k + 1;
    }
    assert(indices@ == identity_indices(len as nat));
    indices
}

/// The stream of indices of a [`UniformSampler`].
pub struct UniformSamplerIter {
    /// The shuffled indices.
    indices: Vec<usize>,
    /// How many of them have been handed out.
    position: usize,
}

impl UniformSamplerIter {
    #[verifier::type_invariant]
    spec fn position_in_range(self) -> bool {
        self.position <= self.indices.len()
    }

    /// Creates the stream for a dataset of `len` items: the indices
    /// `0..len`, shuffled with the generator seeded by `seed`.
    pub fn new(len: usize, seed: u64) -> (it: Self)
        ensures
            it.remaining() == shuffled_indices(len as nat, seed),
    {
        let mut indices = identity_vec(len);
        let mut rng_state: u64 = seed;
        let mut i: usize = len;
        while i > 1
            invariant
                i <= len,
                len > 0 ==> i >= 1,
                indices@ == shuffle_steps(len as nat, seed, (len - i) as nat),
                rng_state == lcg_state(seed, (len - i) as nat),
            decreases i,
        {
            i = i - 1;
            rng_state = lcg_advance(rng_state);
            let j = (rng_state as usize) % (i + 1);
            proof {
                lemma_shuffle_steps_permutation(len as nat, seed, (len - i - 1) as nat);
            }
            let a = indices[i];
            let b = indices[j];
            indices.set(i, b);
            indices.set(j, a);
        }
        Self { indices, position: 0 }
    }

    /// Creates the stream `0, 1, ..., len - 1`, unshuffled.
    pub(crate) fn in_order(len: usize) -> (it: Self)
        ensures
            it.remaining() == identity_indices(len as nat),
    {
        Self { indices: identity_vec(len), position: 0 }
    }
}

impl IndexIter for UniformSamplerIter {
    closed spec fn remaining(&self) -> Seq<usize> {
        self.indices@.skip(self.position as int)
    }

    fn next(&mut self) -> (r: Option<usize>) {
        proof {
            use_type_invariant(&*self);
        }
        if self.position < self.indices.len() {
            let index = self.indices[self.position];
            self.position = self.position + 1;
            Some(index)
        } else {
            None
        }
    }

    fn size_hint(&self) -> (r: (usize, Option<usize>)) {
        proof {
            use_type_invariant(self);
        }
        let remaining = self.indices.len().saturating_sub(self.position);
        (remaining, Some(remaining))
    }
}

/// Sequential sampler: visits `0, 1, ..., len - 1` in order.
///
/// The simplest sampling strategy, for deterministic processing and
/// debugging.
#[derive(Debug, Clone, Copy)]
pub struct SequentialSampler;

impl SequentialSampler {
    /// Creates a new sequential sampler.
    pub fn new() -> (s: Self) {
        Self
    }
}

impl Default for SequentialSampler {
    fn default() -> (s: Self) {
        Self::new()
    }
}

impl Sampler for SequentialSampler {
    type Iter<'a> = SequentialSamplerIter;

    open spec fn order(&self, len: usize) -> Seq<usize> {
        identity_indices(len as nat)
    }

    fn iter(&self, len: usize) -> (it: Self::Iter<'_>) {
        SequentialSamplerIter::new(len)
    }
}

/// The stream of indices of a [`SequentialSampler`].
pub struct SequentialSamplerIter {
    /// The next index to hand out.
    current: usize,
    /// The length of the dataset.
    len: usize,
}

impl SequentialSamplerIter {
    #[verifier::type_invariant]
    spec fn current_in_range(self) -> bool {
        self.current <= self.len
    }

    /// Creates the stream `0, 1, ..., len - 1`.
    pub fn new(len: usize) -> (it: Self)
        ensures
            it.remaining() == identity_indices(len as nat),
    {
        Self { current: 0, len }
    }
}

impl IndexIter for SequentialSamplerIter {
    closed spec fn remaining(&self) -> Seq<usize> {
        Seq::new((self.len - self.current) as nat, |k: int| (self.current + k) as usize)
    }

    fn next(&mut self) -> (r: Option<usize>) {
        proof {
            use_type_invariant(&*self);
        }
        if self.current < self.len {
            let index = self.current;
            self.current = self.current + 1;
            proof {
                assert(self.remaining() =~= old(self).remaining().drop_first());
            }
            Some(index)
        } else {
            None
        }
    }

    fn size_hint(&self) -> (r: (usize, Option<usize>)) {
        proof {
            use_type_invariant(self);
        }
        let remaining = self.len.saturating_sub(self.current);
        (remaining, Some(remaining))
    }
}

} // verus!
