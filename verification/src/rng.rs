//! The seeded random source used by the arbiters.
//!
//! A `SeededRng` wraps a ChaCha generator created from a 64-bit seed. ChaCha
//! is a pure stream cipher: within a target, the values drawn are a function
//! of the seed and of the requests made so far, nothing else. The ghost
//! history records every request, so each draw is pinned as a function of
//! `(seed, history, request)` and two generators with equal seeds and equal
//! histories draw equal values. One portability caveat: the weighted pick
//! samples at the machine's pointer width, so the same seed and history can
//! select a different index on a 32-bit target than on a 64-bit one; the
//! named results speak for the target at hand.

use rand::seq::{IteratorRandom, SliceRandom};
use rand::{Rng, SeedableRng};
use vstd::prelude::*;

verus! {

#[verifier::external_type_specification]
#[verifier::external_body]
pub struct ExChaCha20Rng(rand_chacha::ChaCha20Rng);

/// The sum of a weight vector.
pub open spec fn sum_of(s: Seq<usize>) -> int
    decreases s.len(),
{
    if s.len() == 0 {
        0
    } else {
        s[0] + sum_of(s.drop_first())
    }
}

/// A weight vector as 64-bit values, for the request history.
pub open spec fn weights_as_u64s(s: Seq<usize>) -> Seq<u64> {
    Seq::new(s.len(), |k: int| s[k] as u64)
}

/// The history entry of one uniform choice among `len` items.
pub open spec fn uniform_request(len: u64) -> Seq<u64> {
    seq![0u64, len]
}

/// The history entry of one weighted choice.
pub open spec fn weighted_request(weights: Seq<u64>) -> Seq<u64> {
    seq![1u64].add(weights)
}

/// The index a seeded generator picks uniformly among `len` items after
/// serving the given request history.
pub uninterp spec fn stream_choice(seed: u64, history: Seq<Seq<u64>>, len: u64) -> usize;

/// The index a seeded generator picks in proportion to the given weights
/// after serving the given request history.
pub uninterp spec fn stream_weighted_choice(
    seed: u64,
    history: Seq<Seq<u64>>,
    weights: Seq<u64>,
) -> usize;

/// A ChaCha generator together with the seed it was built from and the ghost
/// history of the requests served so far.
pub struct SeededRng {
    inner: rand_chacha::ChaCha20Rng,
    seed: u64,
    history: Ghost<Seq<Seq<u64>>>,
}

impl SeededRng {
    /// The seed this generator was built from.
    pub closed spec fn seed_spec(self) -> u64 {
        self.seed
    }

    /// The requests served so far.
    pub closed spec fn hist(self) -> Seq<Seq<u64>> {
        self.history@
    }

    /// A generator at the start of the stream for `seed`.
    ///
    /// Relies on rand_chacha's ChaCha20Rng via SeedableRng::seed_from_u64:
    /// the generator's stream is a function of the seed alone.
    #[verifier::external_body]
    pub fn new(seed: u64) -> (r: Self)
        ensures
            r.seed_spec() == seed,
            r.hist() == Seq::<Seq<u64>>::empty(),
    {
        SeededRng {
            inner: rand_chacha::ChaCha20Rng::seed_from_u64(seed),
            seed,
            history: Ghost(Seq::empty()),
        }
    }

    /// The seed this generator was built from.
    pub fn seed(&self) -> (r: u64)
        ensures
            r == self.seed_spec(),
    {
        self.seed
    }

    /// Picks one index below `len`, uniformly.
    ///
    /// Relies on rand's IteratorRandom::choose over an exact-size iterator:
    /// it draws one bounded sample from the generator, so the result is a
    /// function of the seed, the requests served so far, and `len`.
    #[verifier::external_body]
    pub fn pick(&mut self, len: usize) -> (r: usize)
        requires
            len >= 1,
        ensures
            r < len,
            r == stream_choice(old(self).seed_spec(), old(self).hist(), len as u64),
            final(self).seed_spec() == old(self).seed_spec(),
            final(self).hist() == old(self).hist().push(uniform_request(len as u64)),
    {
        (0..len).choose(&mut self.inner).unwrap_or(0)
    }

    /// Picks one index in proportion to the weights; `None` exactly when the
    /// weights sum to zero, and an index of zero weight is never picked.
    ///
    /// Relies on rand's SliceRandom::choose_weighted (WeightedIndex): it
    /// fails exactly on an empty or all-zero weight list, never returns a
    /// zero-weight item, draws one bounded sample from the generator, and so
    /// is a function of the seed, the requests served so far, and the weights.
    /// The sum bound keeps WeightedIndex's accumulation from overflowing.
    #[verifier::external_body]
    pub fn pick_weighted(&mut self, weights: &Vec<usize>) -> (r: Option<usize>)
        requires
            sum_of(weights@) <= usize::MAX,
        ensures
            final(self).seed_spec() == old(self).seed_spec(),
            final(self).hist() == old(self).hist().push(
                weighted_request(weights_as_u64s(weights@)),
            ),
            match r {
                Some(k) => {
                    &&& k < weights@.len()
                    &&& weights@[k as int] > 0
                    &&& k == stream_weighted_choice(
                        old(self).seed_spec(),
                        old(self).hist(),
                        weights_as_u64s(weights@),
                    )
                },
                None => sum_of(weights@) == 0,
            },
            (r is Some) <==> sum_of(weights@) > 0,
    {
        let indexes: Vec<usize> = (0..weights.len()).collect();
        match indexes.as_slice().choose_weighted(&mut self.inner, |i: &usize| weights[*i]) {
            Ok(i) => Some(*i),
            Err(_) => None,
        }
    }
}

/// A seed drawn from the thread-local generator, for unseeded construction.
///
/// Relies on rand::thread_rng; the value depends on the environment, so
/// nothing is promised of it.
#[verifier::external_body]
pub fn fresh_seed() -> u64 {
    rand::thread_rng().gen()
}

} // verus!
