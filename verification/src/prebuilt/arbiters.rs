//! Stock arbiters and adjusters: seeded random and weighted-random cell
//! collapse, placement quotas, and the pairing of an arbiter with a chain of
//! adjusters.

use crate::cells::{removed_value, Cells};
use crate::err::Error;
use crate::rng::{
    fresh_seed, stream_choice, stream_weighted_choice, sum_of, uniform_request, weighted_request,
    weights_as_u64s, SeededRng,
};
use crate::{Adjuster, Arbiter, Shape};
use vstd::prelude::*;

verus! {

/// The selection weights of one cell's candidates, in candidate order.
pub open spec fn shape_weights<S: Shape>(shape: S, cells: Cells, index: int) -> Seq<usize> {
    Seq::new(
        cells.poss(index).len(),
        |k: int| shape.weight_spec(cells.poss(index)[k] as int, index, cells),
    )
}

/// What one uniform designation step does: the cell is the generator's pick
/// from the lowest non-empty bucket, and it ends collapsed to the generator's
/// pick among its own candidates, with both requests recorded.
pub open spec fn uniform_designation(
    pre_rng: SeededRng,
    post_rng: SeededRng,
    pre: Cells,
    post: Cells,
    index: usize,
    e: int,
) -> bool {
    let blen = pre.bucket(e).len();
    let k = stream_choice(pre_rng.seed_spec(), pre_rng.hist(), blen as u64);
    let hist2 = pre_rng.hist().push(uniform_request(blen as u64));
    let plen = pre.poss(index as int).len();
    let kv = stream_choice(pre_rng.seed_spec(), hist2, plen as u64);
    &&& index == pre.bucket(e)[k as int]
    &&& post.poss(index as int) == seq![pre.poss(index as int)[kv as int]]
    &&& post_rng.seed_spec() == pre_rng.seed_spec()
    &&& post_rng.hist() == hist2.push(uniform_request(plen as u64))
}

/// What one weighted designation step does: the cell is the generator's
/// uniform pick from the lowest non-empty bucket, its candidates' weight sum
/// is positive and representable, and it ends collapsed to the generator's
/// weighted pick among those candidates.
pub open spec fn weighted_designation<S: Shape>(
    shape: S,
    pre_rng: SeededRng,
    post_rng: SeededRng,
    pre: Cells,
    post: Cells,
    index: usize,
    e: int,
) -> bool {
    let blen = pre.bucket(e).len();
    let k = stream_choice(pre_rng.seed_spec(), pre_rng.hist(), blen as u64);
    let hist2 = pre_rng.hist().push(uniform_request(blen as u64));
    let ws = shape_weights(shape, pre, index as int);
    let kv = stream_weighted_choice(pre_rng.seed_spec(), hist2, weights_as_u64s(ws));
    &&& index == pre.bucket(e)[k as int]
    &&& 0 < sum_of(ws) <= usize::MAX
    &&& post.poss(index as int) == seq![pre.poss(index as int)[kv as int]]
    &&& post_rng.seed_spec() == pre_rng.seed_spec()
    &&& post_rng.hist() == hist2.push(weighted_request(weights_as_u64s(ws)))
}

/// Why a weighted designation step fails: the picked cell's candidate weights
/// sum to zero or past the machine maximum.
pub open spec fn weighted_designation_fails<S: Shape>(
    shape: S,
    pre_rng: SeededRng,
    pre: Cells,
    e: int,
) -> bool {
    let blen = pre.bucket(e).len();
    let k = stream_choice(pre_rng.seed_spec(), pre_rng.hist(), blen as u64);
    let index = pre.bucket(e)[k as int];
    let ws = shape_weights(shape, pre, index as int);
    sum_of(ws) == 0 || sum_of(ws) > usize::MAX
}

/// A prefix of a weight vector sums to no more than the whole.
proof fn lemma_sum_take_le(s: Seq<usize>, k: int)
    requires
        0 <= k <= s.len(),
    ensures
        sum_of(s.take(k)) <= sum_of(s),
    decreases s.len() - k,
{
    if k < s.len() {
        assert(s.take(k + 1) =~= s.take(k).push(s[k]));
        lemma_sum_push(s.take(k), s[k]);
        lemma_sum_take_le(s, k + 1);
    } else {
        assert(s.take(k) =~= s);
    }
}

/// Collapses a uniformly random cell of lowest entropy to a uniformly random
/// remaining candidate, driven by a seeded generator.
pub struct RandomArbiter {
    /// The seed the generator was built from.
    pub seed: u64,
    /// The seeded generator.
    pub rng: SeededRng,
}

impl RandomArbiter {
    /// A fresh arbiter; without a seed, one is drawn from the environment.
    pub fn new(seed: Option<u64>) -> (r: Self)
        ensures
            match seed {
                Some(s) => r.seed == s,
                None => true,
            },
            r.rng.seed_spec() == r.seed,
            r.rng.hist() == Seq::<Seq<u64>>::empty(),
    {
        let s = match seed {
            Some(s) => s,
            None => fresh_seed(),
        };
        RandomArbiter { seed: s, rng: SeededRng::new(s) }
    }

    /// The seed this arbiter runs on.
    pub fn seed(&self) -> (r: u64)
        ensures
            r == self.seed,
    {
        self.seed
    }
}

impl Adjuster for RandomArbiter {
    fn revise(&mut self, variant: usize, cells: &mut Cells) -> (r: Result<(), Error>) {
        proof {
            Cells::lemma_shrinks_refl(*cells);
        }
        Ok(())
    }
}

impl Arbiter for RandomArbiter {
    fn designate(&mut self, cells: &mut Cells) -> (r: Result<Option<usize>, Error>)
        ensures
            r is Ok,
            old(cells).uncollapsed_count() == 0 ==> r == Ok::<Option<usize>, Error>(None),
            final(self).seed == old(self).seed,
            match r {
                Ok(Some(index)) => exists|e: int|
                    #[trigger] old(cells).lowest_nonempty(e) && uniform_designation(
                        old(self).rng,
                        final(self).rng,
                        *old(cells),
                        *final(cells),
                        index,
                        e,
                    ),
                Ok(None) => *final(self) == *old(self),
                Err(_) => false,
            },
    {
        let ghost e = 0int;
        let index = {
            let bucket = match cells.lowest_entropy_indexes() {
                Some(b) => b,
                None => {
                    proof {
                        Cells::lemma_shrinks_refl(*cells);
                    }
                    return Ok(None);
                },
            };
            proof {
                e = choose|e2: int|
                    #[trigger] cells.lowest_nonempty(e2) && bucket@ == cells.bucket(e2);
            }
            let k = self.rng.pick(bucket.len());
            bucket[k]
        };
        proof {
            assert(cells.cell(index as int).wf(
                index as int,
                cells.size@,
                cells.num_variants as int,
            ));
            assert(!old(cells).is_collapsed(index as int));
            crate::cells::lemma_uncollapsed_zero(old(cells).list@, old(cells).len_spec());
        }
        let plen = cells.list[index].possibilities.len();
        let kv = self.rng.pick(plen);
        let variant = cells.list[index].possibilities[kv];
        proof {
            assert(cells.poss(index as int).contains(variant));
        }
        cells.collapse_to(index, variant);
        proof {
            assert(old(cells).lowest_nonempty(e) && uniform_designation(
                old(self).rng,
                self.rng,
                *old(cells),
                *cells,
                index,
                e,
            ));
        }
        Ok(Some(index))
    }
}

/// Collapses a uniformly random cell of lowest entropy to a candidate drawn
/// in proportion to the weights a shape assigns.
pub struct WeightArbiter<S: Shape> {
    /// The seed the generator was built from.
    pub seed: u64,
    /// The seeded generator.
    pub rng: SeededRng,
    /// Assigns each candidate its selection weight.
    pub shape: S,
}

impl<S: Shape> WeightArbiter<S> {
    /// A fresh arbiter; without a seed, one is drawn from the environment.
    pub fn new(seed: Option<u64>, shape: S) -> (r: Self)
        ensures
            match seed {
                Some(s) => r.seed == s,
                None => true,
            },
            r.rng.seed_spec() == r.seed,
            r.rng.hist() == Seq::<Seq<u64>>::empty(),
            r.shape == shape,
    {
        let s = match seed {
            Some(s) => s,
            None => fresh_seed(),
        };
        WeightArbiter { seed: s, rng: SeededRng::new(s), shape }
    }

    /// The seed this arbiter runs on.
    pub fn seed(&self) -> (r: u64)
        ensures
            r == self.seed,
    {
        self.seed
    }
}

impl<S: Shape> Adjuster for WeightArbiter<S> {
    fn revise(&mut self, variant: usize, cells: &mut Cells) -> (r: Result<(), Error>) {
        proof {
            Cells::lemma_shrinks_refl(*cells);
        }
        Ok(())
    }
}

impl<S: Shape> Arbiter for WeightArbiter<S> {
    fn designate(&mut self, cells: &mut Cells) -> (r: Result<Option<usize>, Error>)
        ensures
            old(cells).uncollapsed_count() == 0 ==> r == Ok::<Option<usize>, Error>(None),
            final(self).seed == old(self).seed,
            final(self).shape == old(self).shape,
            match r {
                Ok(Some(index)) => exists|e: int|
                    #[trigger] old(cells).lowest_nonempty(e) && weighted_designation(
                        old(self).shape,
                        old(self).rng,
                        final(self).rng,
                        *old(cells),
                        *final(cells),
                        index,
                        e,
                    ),
                Ok(None) => *final(self) == *old(self),
                Err(err) => err is NoPossibilities && exists|e: int|
                    #[trigger] old(cells).lowest_nonempty(e) && weighted_designation_fails(
                        old(self).shape,
                        old(self).rng,
                        *old(cells),
                        e,
                    ),
            },
    {
        let ghost e = 0int;
        let index = {
            let bucket = match cells.lowest_entropy_indexes() {
                Some(b) => b,
                None => {
                    proof {
                        Cells::lemma_shrinks_refl(*cells);
                    }
                    return Ok(None);
                },
            };
            proof {
                e = choose|e2: int|
                    #[trigger] cells.lowest_nonempty(e2) && bucket@ == cells.bucket(e2);
            }
            let k = self.rng.pick(bucket.len());
            bucket[k]
        };
        proof {
            assert(cells.cell(index as int).wf(
                index as int,
                cells.size@,
                cells.num_variants as int,
            ));
            assert(!old(cells).is_collapsed(index as int));
            crate::cells::lemma_uncollapsed_zero(old(cells).list@, old(cells).len_spec());
        }
        // Weigh each remaining candidate; an overflowing total is a
        // misconfiguration and reported rather than sampled from.
        let ghost ws = shape_weights(old(self).shape, *old(cells), index as int);
        let ghost hist2 = old(self).rng.hist().push(
            uniform_request(old(cells).bucket(e).len() as u64),
        );
        proof {
            assert(old(cells).uncollapsed_count() != 0) by {
                if old(cells).uncollapsed_count() == 0 {
                    assert(old(cells).list@[index as int].entropy == 0);
                }
            }
        }
        let plen = cells.list[index].possibilities.len();
        let mut weights: Vec<usize> = Vec::new();
        let mut total: usize = 0;
        let mut t: usize = 0;
        while t < plen
            invariant
                0 <= t <= plen,
                cells.wf(),
                *cells == *old(cells),
                old(cells).uncollapsed_count() != 0,
                self.seed == old(self).seed,
                self.shape == old(self).shape,
                self.rng.seed_spec() == old(self).rng.seed_spec(),
                self.rng.hist() == hist2,
                hist2 == old(self).rng.hist().push(
                    uniform_request(old(cells).bucket(e).len() as u64),
                ),
                ws == shape_weights(old(self).shape, *old(cells), index as int),
                old(cells).lowest_nonempty(e),
                index == old(cells).bucket(e)[stream_choice(
                    old(self).rng.seed_spec(),
                    old(self).rng.hist(),
                    old(cells).bucket(e).len() as u64,
                ) as int],
                index < cells.len_spec(),
                plen == cells.poss(index as int).len(),
                weights@.len() == t,
                forall|j: int| 0 <= j < t ==> #[trigger] weights@[j] == ws[j],
                total == sum_of(weights@),
                sum_of(weights@) <= usize::MAX,
            decreases plen - t,
        {
            let v = cells.list[index].possibilities[t];
            let w = self.shape.weight(v, index, cells);
            proof {
                assert(w == ws[t as int]);
            }
            let ghost before = weights@;
            match total.checked_add(w) {
                Some(newtotal) => {
                    total = newtotal;
                },
                None => {
                    proof {
                        Cells::lemma_shrinks_refl(*cells);
                        assert(weights@ =~= ws.take(t as int));
                        assert(ws.take(t as int + 1) =~= ws.take(t as int).push(ws[t as int]));
                        lemma_sum_push(ws.take(t as int), ws[t as int]);
                        lemma_sum_take_le(ws, t as int + 1);
                        assert(sum_of(ws) > usize::MAX);
                        assert(weighted_designation_fails(
                            old(self).shape,
                            old(self).rng,
                            *old(cells),
                            e,
                        ));
                    }
                    return Err(Error::NoPossibilities);
                },
            }
            weights.push(w);
            proof {
                lemma_sum_push(before, w);
            }
            t = t + 1;
        }
        proof {
            assert(weights@ =~= ws);
        }
        let picked = self.rng.pick_weighted(&weights);
        let kv = match picked {
            Some(kv) => kv,
            None => {
                proof {
                    Cells::lemma_shrinks_refl(*cells);
                    assert(sum_of(ws) == 0);
                    assert(weighted_designation_fails(
                        old(self).shape,
                        old(self).rng,
                        *old(cells),
                        e,
                    ));
                }
                return Err(Error::NoPossibilities);
            },
        };
        let variant = cells.list[index].possibilities[kv];
        proof {
            assert(cells.poss(index as int).contains(variant));
        }
        cells.collapse_to(index, variant);
        proof {
            assert(old(cells).lowest_nonempty(e) && weighted_designation(
                old(self).shape,
                old(self).rng,
                self.rng,
                *old(cells),
                *cells,
                index,
                e,
            ));
        }
        Ok(Some(index))
    }
}

/// Appending a weight adds it to the sum.
proof fn lemma_sum_push(s: Seq<usize>, w: usize)
    ensures
        sum_of(s.push(w)) == sum_of(s) + w,
    decreases s.len(),
{
    let p = s.push(w);
    assert(p.len() == s.len() + 1);
    assert(sum_of(p) == p[0] + sum_of(p.drop_first()));
    if s.len() == 0 {
        assert(p[0] == w);
        assert(p.drop_first() =~= Seq::<usize>::empty());
        assert(sum_of(p.drop_first()) == 0);
    } else {
        assert(p[0] == s[0]);
        assert(p.drop_first() =~= s.drop_first().push(w));
        lemma_sum_push(s.drop_first(), w);
        assert(sum_of(s) == s[0] + sum_of(s.drop_first()));
    }
}

/// The position of the first quota entry for a variant, if any.
pub open spec fn limit_slot(limits: Seq<(usize, usize)>, v: usize) -> Option<int>
    decreases limits.len(),
{
    if limits.len() == 0 {
        None
    } else if limits[0].0 == v {
        Some(0)
    } else {
        match limit_slot(limits.drop_first(), v) {
            Some(i) => Some(i + 1),
            None => None,
        }
    }
}

/// The first-match slot is an entry for the variant, and earlier entries are not.
pub proof fn lemma_limit_slot(limits: Seq<(usize, usize)>, v: usize)
    ensures
        match limit_slot(limits, v) {
            Some(p) => {
                &&& 0 <= p < limits.len()
                &&& limits[p].0 == v
                &&& forall|j: int| 0 <= j < p ==> (#[trigger] limits[j]).0 != v
            },
            None => forall|j: int| 0 <= j < limits.len() ==> (#[trigger] limits[j]).0 != v,
        },
    decreases limits.len(),
{
    if limits.len() > 0 {
        lemma_limit_slot(limits.drop_first(), v);
        if limits[0].0 != v {
            assert(forall|j: int|
                1 <= j < limits.len() ==> #[trigger] limits[j] == limits.drop_first()[j - 1]);
        }
    }
}

/// Enforces placement quotas: once a variant has been placed as often as its
/// limit allows, it is removed from every uncollapsed cell.
#[derive(Debug)]
pub struct LimitAdjuster {
    /// `(variant_id, remaining_count)` entries.
    pub limits: Vec<(usize, usize)>,
}

impl LimitAdjuster {
    /// Quotas per variant id; a zero count forbids any further placement.
    pub fn new(limits: Vec<(usize, usize)>) -> (r: Self)
        ensures
            r.limits == limits,
    {
        LimitAdjuster { limits }
    }
}

impl Adjuster for LimitAdjuster {
    fn revise(&mut self, variant: usize, cells: &mut Cells) -> (r: Result<(), Error>)
        ensures
            match limit_slot(old(self).limits@, variant) {
                None => *final(self) == *old(self) && *final(cells) == *old(cells) && r is Ok,
                Some(p) => {
                    let rem0 = old(self).limits@[p].1;
                    let dec: usize = if rem0 > 0 {
                        (rem0 - 1) as usize
                    } else {
                        0
                    };
                    &&& final(self).limits@ == old(self).limits@.update(p, (variant, dec))
                    &&& dec > 0 ==> *final(cells) == *old(cells) && r is Ok
                    &&& dec == 0 ==> {
                        &&& (r is Err <==> exists|i: int|
                            0 <= i < old(cells).len_spec() && !old(cells).is_collapsed(i)
                                && #[trigger] old(cells).poss(i) == seq![variant])
                        &&& r is Ok ==> forall|i: int|
                            0 <= i < old(cells).len_spec() && !(#[trigger] old(
                                cells,
                            ).is_collapsed(i)) ==> final(cells).poss(i) == removed_value(
                                old(cells).poss(i),
                                variant,
                            )
                    }
                },
            },
    {
        proof {
            Cells::lemma_shrinks_refl(*cells);
            lemma_limit_slot(old(self).limits@, variant);
        }
        let n = self.limits.len();
        let mut p: usize = 0;
        while p < n
            invariant_except_break
                0 <= p <= n,
                forall|j: int| 0 <= j < p ==> (#[trigger] old(self).limits@[j]).0 != variant,
            invariant
                n == self.limits@.len(),
                *self == *old(self),
                *cells == *old(cells),
            ensures
                0 <= p <= n,
                p < n ==> old(self).limits@[p as int].0 == variant,
                forall|j: int| 0 <= j < p ==> (#[trigger] old(self).limits@[j]).0 != variant,
                *self == *old(self),
                *cells == *old(cells),
            decreases n - p,
        {
            if self.limits[p].0 == variant {
                break ;
            }
            p = p + 1;
        }
        proof {
            lemma_limit_slot(old(self).limits@, variant);
        }
        if p >= n {
            proof {
                assert(limit_slot(old(self).limits@, variant) is None) by {
                    match limit_slot(old(self).limits@, variant) {
                        Some(q) => {
                            assert(old(self).limits@[q].0 == variant);
                            assert(old(self).limits@[q].0 != variant);
                        },
                        None => {},
                    }
                }
            }
            return Ok(());
        }
        proof {
            assert(limit_slot(old(self).limits@, variant) == Some(p as int)) by {
                match limit_slot(old(self).limits@, variant) {
                    Some(q) => {
                        if q < p as int {
                            assert(old(self).limits@[q].0 != variant);
                        }
                        if q > p as int {
                            assert(old(self).limits@[p as int].0 != variant);
                        }
                    },
                    None => {
                        assert(old(self).limits@[p as int].0 != variant);
                    },
                }
            }
        }
        let entry = self.limits[p];
        let remaining = if entry.1 > 0 {
            entry.1 - 1
        } else {
            0
        };
        self.limits.set(p, (entry.0, remaining));
        if remaining > 0 {
            return Ok(());
        }
        // The quota is exhausted: drop the variant everywhere it is still a
        // candidate. Removing a cell's last candidate is a dead end.
        let total = cells.list.len();
        let ghost cells0 = *cells;
        let mut i: usize = 0;
        while i < total
            invariant
                0 <= i <= total,
                total == cells.len_spec(),
                cells.wf(),
                cells0 == *old(cells),
                cells.shrinks_from(cells0),
                cells.uncollapsed_count() == cells0.uncollapsed_count(),
                p < old(self).limits@.len(),
                limit_slot(old(self).limits@, variant) == Some(p as int),
                old(self).limits@[p as int].1 <= 1,
                old(self).limits@[p as int].0 == variant,
                self.limits@ == old(self).limits@.update(p as int, (variant, 0usize)),
                forall|j: int| i <= j < total ==> #[trigger] cells.cell(j) == cells0.cell(j),
                forall|j: int|
                    0 <= j < i && !(#[trigger] cells0.is_collapsed(j)) ==> cells.poss(j)
                        == removed_value(cells0.poss(j), variant),
                forall|j: int|
                    0 <= j < i && !cells0.is_collapsed(j) ==> #[trigger] cells0.poss(j)
                        != seq![variant],
            decreases total - i,
        {
            let ghost mid = *cells;
            if cells.list[i].entropy != 0 {
                proof {
                    assert(cells.cell(i as int) == cells0.cell(i as int));
                    assert(!cells0.is_collapsed(i as int));
                }
                match cells.remove_variant(i, variant) {
                    Err(e) => {
                        proof {
                            assert(*cells == mid);
                            Cells::lemma_shrinks_refl(*cells);
                            Cells::lemma_shrinks_trans(cells0, mid, *cells);
                            assert(cells.uncollapsed_count() == cells0.uncollapsed_count());
                            assert(cells0 == *old(cells));
                            assert(!old(cells).is_collapsed(i as int));
                            assert(old(cells).poss(i as int) == seq![variant]);
                        }
                        return Err(e);
                    },
                    Ok(_) => {},
                }
                proof {
                    Cells::lemma_shrinks_trans(cells0, mid, *cells);
                    assert(mid.poss(i as int) == cells0.poss(i as int));
                    assert(cells.poss(i as int) == removed_value(cells0.poss(i as int), variant));
                    assert(cells0.poss(i as int) != seq![variant]);
                    assert(forall|j: int|
                        0 <= j < total && j != i ==> #[trigger] cells.cell(j) == mid.cell(j));
                }
            } else {
                proof {
                    assert(cells.cell(i as int) == cells0.cell(i as int));
                    assert(cells0.is_collapsed(i as int));
                }
            }
            proof {
                assert forall|j: int|
                    0 <= j < i + 1 && !(#[trigger] cells0.is_collapsed(j)) implies cells.poss(j)
                    == removed_value(cells0.poss(j), variant) by {
                    if j != i as int {
                        assert(cells.cell(j) == mid.cell(j));
                        assert(cells.poss(j) == mid.poss(j));
                        assert(mid.poss(j) == removed_value(cells0.poss(j), variant));
                    }
                }
            }
            i = i + 1;
        }
        Ok(())
    }
}

/// An arbiter paired with an adjuster: observation goes to the arbiter,
/// revision to the adjuster. Pairs nest to chain several adjusters.
#[derive(Debug)]
pub struct MultiPhaseArbitration<A, Adj> {
    /// Picks and collapses cells.
    pub arbiter: A,
    /// Runs after every placement.
    pub adjuster: Adj,
}

impl<A: Arbiter, Adj: Adjuster> MultiPhaseArbitration<A, Adj> {
    pub fn new(arbiter: A, adjuster: Adj) -> (r: Self)
        ensures
            r.arbiter == arbiter,
            r.adjuster == adjuster,
    {
        MultiPhaseArbitration { arbiter, adjuster }
    }
}

impl<A: Arbiter, Adj: Adjuster> Adjuster for MultiPhaseArbitration<A, Adj> {
    fn revise(&mut self, variant: usize, cells: &mut Cells) -> (r: Result<(), Error>) {
        self.adjuster.revise(variant, cells)
    }
}

impl<A: Arbiter, Adj: Adjuster> Arbiter for MultiPhaseArbitration<A, Adj> {
    fn designate(&mut self, cells: &mut Cells) -> (r: Result<Option<usize>, Error>) {
        self.arbiter.designate(cells)
    }
}

} // verus!
