//! Stock shapes: fixed per-variant weights, weights informed by the collapsed
//! surroundings, and the sum of two shapes.
//!
//! Weight arithmetic saturates at the machine maximum instead of overflowing.

use crate::cells::Cells;
use crate::util::{dist_sq, pos_of, IPos};
use crate::{CellIndex, Shape};
use vstd::prelude::*;

verus! {

/// Saturating addition of two weight quantities.
pub open spec fn sat_add_int(a: int, b: int) -> int {
    if a + b > usize::MAX {
        usize::MAX as int
    } else {
        a + b
    }
}

/// Saturating multiplication of two weight quantities.
pub open spec fn sat_mul_int(a: int, b: int) -> int {
    if a * b > usize::MAX {
        usize::MAX as int
    } else {
        a * b
    }
}

/// Adds two weights, saturating at the maximum.
pub fn sat_add(a: usize, b: usize) -> (r: usize)
    ensures
        r == sat_add_int(a as int, b as int),
{
    if a > usize::MAX - b {
        usize::MAX
    } else {
        a + b
    }
}

/// Multiplies two weights, saturating at the maximum.
pub fn sat_mul(a: usize, b: usize) -> (r: usize)
    ensures
        r == sat_mul_int(a as int, b as int),
{
    match a.checked_mul(b) {
        Some(p) => p,
        None => {
            proof {
                assert(a * b > usize::MAX);
            }
            usize::MAX
        },
    }
}

/// The weight stored for a variant id; 0 when the table has no entry for it.
pub open spec fn lookup_weight(w: Seq<(usize, usize)>, v: int) -> usize
    decreases w.len(),
{
    if w.len() == 0 {
        0
    } else if w[0].0 == v {
        w[0].1
    } else {
        lookup_weight(w.drop_first(), v)
    }
}

/// Finds the first weight entry for a variant id.
fn lookup_weight_exec(w: &Vec<(usize, usize)>, v: usize) -> (r: usize)
    ensures
        r == lookup_weight(w@, v as int),
{
    let n = w.len();
    let mut k: usize = 0;
    proof {
        assert(w@.skip(0) =~= w@);
    }
    while k < n
        invariant
            0 <= k <= n,
            n == w@.len(),
            lookup_weight(w@, v as int) == lookup_weight(w@.skip(k as int), v as int),
        decreases n - k,
    {
        let ghost kk = k as int;
        proof {
            assert(w@.skip(kk)[0] == w@[kk]);
            assert(w@.skip(kk).drop_first() =~= w@.skip(kk + 1));
        }
        if w[k].0 == v {
            return w[k].1;
        }
        k = k + 1;
    }
    proof {
        assert(w@.skip(k as int).len() == 0);
    }
    0
}

/// Weighs each variant by a fixed per-variant table; unlisted variants weigh
/// nothing.
#[derive(Debug)]
pub struct WeightedShape {
    /// `(variant_id, weight)` entries; the first entry for an id wins.
    pub weights: Vec<(usize, usize)>,
}

impl WeightedShape {
    pub fn new(weights: Vec<(usize, usize)>) -> (r: Self)
        ensures
            r.weights == weights,
    {
        WeightedShape { weights }
    }
}

impl Shape for WeightedShape {
    open spec fn weight_spec(&self, variant: int, index: int, cells: Cells) -> usize {
        lookup_weight(self.weights@, variant)
    }

    fn weight(&self, variant: usize, index: CellIndex, cells: &Cells) -> (r: usize) {
        lookup_weight_exec(&self.weights, variant)
    }
}

/// The contribution one cell makes to an informed weight: collapsed cells of
/// the weighed variant within the given range add the variant's tabled value
/// times the magnitude.
pub open spec fn informed_contrib(
    range: int,
    magnitude: int,
    values: Seq<(usize, usize)>,
    cells: Cells,
    variant: int,
    center: int,
    i: int,
) -> int {
    if cells.is_collapsed(i) && cells.poss(i).len() >= 1 && cells.poss(i)[0] == variant
        && dist_sq(pos_of(i, cells.size@), pos_of(center, cells.size@)) <= range * range {
        sat_mul_int(lookup_weight(values, variant) as int, magnitude)
    } else {
        0
    }
}

/// The saturating sum of the contributions of the first `n` cells.
pub open spec fn informed_sum(
    range: int,
    magnitude: int,
    values: Seq<(usize, usize)>,
    cells: Cells,
    variant: int,
    center: int,
    n: int,
) -> int
    decreases n,
{
    if n <= 0 {
        0
    } else {
        sat_add_int(
            informed_sum(range, magnitude, values, cells, variant, center, n - 1),
            informed_contrib(range, magnitude, values, cells, variant, center, n - 1),
        )
    }
}

/// The saturating sum stays within the machine range.
pub proof fn lemma_informed_sum_bounds(
    range: int,
    magnitude: int,
    values: Seq<(usize, usize)>,
    cells: Cells,
    variant: int,
    center: int,
    n: int,
)
    requires
        magnitude >= 0,
    ensures
        0 <= informed_sum(range, magnitude, values, cells, variant, center, n) <= usize::MAX,
    decreases n,
{
    if n > 0 {
        lemma_informed_sum_bounds(range, magnitude, values, cells, variant, center, n - 1);
        assert(lookup_weight(values, variant) * magnitude >= 0) by (nonlinear_arith)
            requires
                magnitude >= 0,
                lookup_weight(values, variant) >= 0,
        ;
    }
}

/// Weighs each variant by how often it already appears, collapsed, within a
/// radius of the cell, scaled by a per-variant value and a magnitude.
#[derive(Debug)]
pub struct InformedShape {
    /// The inclusive Euclidean radius of the surveyed surroundings.
    pub range: usize,
    /// Scales every contribution.
    pub magnitude: usize,
    /// `(variant_id, value)` entries; the first entry for an id wins.
    pub values: Vec<(usize, usize)>,
}

impl InformedShape {
    pub fn new(range: usize, magnitude: usize, values: Vec<(usize, usize)>) -> (r: Self)
        ensures
            r.range == range,
            r.magnitude == magnitude,
            r.values == values,
    {
        InformedShape { range, magnitude, values }
    }

}

impl Shape for InformedShape {
    open spec fn weight_spec(&self, variant: int, index: int, cells: Cells) -> usize {
        informed_sum(
            self.range as int,
            self.magnitude as int,
            self.values@,
            cells,
            variant,
            index,
            cells.len_spec(),
        ) as usize
    }

    fn weight(&self, variant: usize, index: CellIndex, cells: &Cells) -> (r: usize) {
        let base = sat_mul(lookup_weight_exec(&self.values, variant), self.magnitude);
        let total = cells.list.len();
        let mut acc: usize = 0;
        let mut i: usize = 0;
        proof {
            lemma_informed_sum_bounds(
                self.range as int,
                self.magnitude as int,
                self.values@,
                *cells,
                variant as int,
                index as int,
                cells.len_spec(),
            );
        }
        while i < total
            invariant
                0 <= i <= total,
                total == cells.len_spec(),
                cells.wf(),
                index < cells.len_spec(),
                base == sat_mul_int(
                    lookup_weight(self.values@, variant as int) as int,
                    self.magnitude as int,
                ),
                acc == informed_sum(
                    self.range as int,
                    self.magnitude as int,
                    self.values@,
                    *cells,
                    variant as int,
                    index as int,
                    i as int,
                ),
            decreases total - i,
        {
            proof {
                assert(cells.cell(i as int).wf(
                    i as int,
                    cells.size@,
                    cells.num_variants as int,
                ));
                assert(cells.cell(index as int).wf(
                    index as int,
                    cells.size@,
                    cells.num_variants as int,
                ));
                crate::util::lemma_index_of_pos_of(i as int, cells.size@);
                crate::util::lemma_index_of_pos_of(index as int, cells.size@);
            }
            proof {
                assert forall|kk: int|
                    0 <= kk < cells.cell(i as int).position@.len() implies 0 <= #[trigger] cells.cell(
                    i as int,
                ).position@[kk] <= isize::MAX by {
                    crate::util::lemma_extent_le_product(cells.size@, kk);
                }
                assert forall|kk: int|
                    0 <= kk < cells.cell(index as int).position@.len() implies 0
                    <= #[trigger] cells.cell(index as int).position@[kk] <= isize::MAX by {
                    crate::util::lemma_extent_le_product(cells.size@, kk);
                }
                lemma_informed_sum_bounds(
                    self.range as int,
                    self.magnitude as int,
                    self.values@,
                    *cells,
                    variant as int,
                    index as int,
                    i as int,
                );
            }
            let ghost step_part = informed_contrib(
                self.range as int,
                self.magnitude as int,
                self.values@,
                *cells,
                variant as int,
                index as int,
                i as int,
            );
            if cells.list[i].entropy == 0 {
                let w0 = cells.list[i].possibilities[0];
                if w0 == variant {
                    let near = within_range(
                        &cells.list[i].position,
                        &cells.list[index].position,
                        self.range,
                    );
                    if near {
                        proof {
                            assert(step_part == base);
                        }
                        acc = sat_add(acc, base);
                    } else {
                        proof {
                            assert(step_part == 0);
                        }
                    }
                } else {
                    proof {
                        assert(step_part == 0);
                    }
                }
            } else {
                proof {
                    assert(step_part == 0);
                }
            }
            i = i + 1;
        }
        acc
    }
}

/// True when the Euclidean distance between the two nonnegative positions is
/// at most `range`.
pub fn within_range(a: &IPos, b: &IPos, range: usize) -> (r: bool)
    requires
        a@.len() == b@.len(),
        forall|k: int| 0 <= k < a@.len() ==> 0 <= #[trigger] a@[k] <= isize::MAX,
        forall|k: int| 0 <= k < b@.len() ==> 0 <= #[trigger] b@[k] <= isize::MAX,
    ensures
        r == (dist_sq(a@, b@) <= range * range),
{
    let dim = a.dims();
    let mut acc: u128 = 0;
    let mut k: usize = 0;
    proof {
        assert((range as u128 as int) * (range as u128 as int) <= ((u64::MAX as u128 as int) * (
        u64::MAX as u128 as int))) by (nonlinear_arith)
            requires
                0 <= range as u128 as int <= u64::MAX as u128 as int,
        ;
        assert(((u64::MAX as u128 as int) * (u64::MAX as u128 as int)) < u128::MAX as int);
        assert(dist_sq_upto(a@, b@, 0) == 0);
    }
    let threshold: u128 = (range as u128) * (range as u128);
    while k < dim
        invariant
            0 <= k <= dim,
            dim == a@.len(),
            a@.len() == b@.len(),
            forall|j: int| 0 <= j < a@.len() ==> 0 <= #[trigger] a@[j] <= isize::MAX,
            forall|j: int| 0 <= j < b@.len() ==> 0 <= #[trigger] b@[j] <= isize::MAX,
            acc as int == if dist_sq_upto(a@, b@, k as int) <= u128::MAX as int {
                dist_sq_upto(a@, b@, k as int)
            } else {
                u128::MAX as int
            },
            acc as int <= dist_sq_upto(a@, b@, k as int),
        decreases dim - k,
    {
        let av = a.coord(k);
        let bv = b.coord(k);
        let d: isize = if av >= bv {
            av - bv
        } else {
            bv - av
        };
        let du = d as u128;
        proof {
            let ghost ai = a@[k as int];
            let ghost bi = b@[k as int];
            assert((du as int) * (du as int) == (ai - bi) * (ai - bi)) by (nonlinear_arith)
                requires
                    du as int == if ai >= bi {
                        ai - bi
                    } else {
                        bi - ai
                    },
            ;
            assert((du as int) * (du as int) <= ((u64::MAX as u128) as int) * ((
            u64::MAX as u128) as int)) by (nonlinear_arith)
                requires
                    0 <= du as int <= u64::MAX as int,
            ;
            lemma_dist_sq_upto_step(a@, b@, k as int);
            lemma_dist_sq_upto_nonneg(a@, b@, k as int);
        }
        let sq: u128 = du * du;
        if acc > u128::MAX - sq {
            acc = u128::MAX;
        } else {
            acc = acc + sq;
        }
        k = k + 1;
    }
    proof {
        assert(dist_sq_upto(a@, b@, dim as int) == dist_sq(a@, b@)) by {
            lemma_dist_sq_upto_full(a@, b@);
        }
        assert(threshold as int == (range as int) * (range as int)) by (nonlinear_arith)
            requires
                threshold as int == (range as u128 as int) * (range as u128 as int),
                range as u128 as int == range as int,
        ;
        assert(threshold < u128::MAX) by (nonlinear_arith)
            requires
                threshold as int <= ((u64::MAX as u128) as int) * ((u64::MAX as u128) as int),
                ((u64::MAX as u128) as int) * ((u64::MAX as u128) as int) < u128::MAX as int,
        ;
    }
    acc <= threshold
}

/// The squared distance over the first `k` axes.
pub open spec fn dist_sq_upto(a: Seq<int>, b: Seq<int>, k: int) -> int
    decreases k,
{
    if k <= 0 {
        0
    } else {
        dist_sq_upto(a, b, k - 1) + (a[k - 1] - b[k - 1]) * (a[k - 1] - b[k - 1])
    }
}

/// One more axis adds its squared difference.
pub proof fn lemma_dist_sq_upto_step(a: Seq<int>, b: Seq<int>, k: int)
    requires
        k >= 0,
    ensures
        dist_sq_upto(a, b, k + 1) == dist_sq_upto(a, b, k) + (a[k] - b[k]) * (a[k] - b[k]),
{
}

/// Prefix squared distances are nonnegative.
pub proof fn lemma_dist_sq_upto_nonneg(a: Seq<int>, b: Seq<int>, k: int)
    ensures
        dist_sq_upto(a, b, k) >= 0,
    decreases k,
{
    if k > 0 {
        lemma_dist_sq_upto_nonneg(a, b, k - 1);
        assert((a[k - 1] - b[k - 1]) * (a[k - 1] - b[k - 1]) >= 0) by (nonlinear_arith);
    }
}

/// Prefix squared distances depend only on the compared prefix.
pub proof fn lemma_dist_sq_upto_congr(a: Seq<int>, b: Seq<int>, a2: Seq<int>, b2: Seq<int>, k: int)
    requires
        forall|j: int| 0 <= j < k ==> #[trigger] a[j] == a2[j],
        forall|j: int| 0 <= j < k ==> #[trigger] b[j] == b2[j],
    ensures
        dist_sq_upto(a, b, k) == dist_sq_upto(a2, b2, k),
    decreases k,
{
    if k > 0 {
        lemma_dist_sq_upto_congr(a, b, a2, b2, k - 1);
    }
}

/// Over all axes, the prefix form is the squared distance.
pub proof fn lemma_dist_sq_upto_full(a: Seq<int>, b: Seq<int>)
    requires
        a.len() == b.len(),
    ensures
        dist_sq_upto(a, b, a.len() as int) == dist_sq(a, b),
    decreases a.len(),
{
    if a.len() > 0 {
        let n = a.len() - 1;
        lemma_dist_sq_upto_full(a.drop_last(), b.drop_last());
        assert(forall|j: int| 0 <= j < n ==> a.drop_last()[j] == a[j]);
        assert(forall|j: int| 0 <= j < n ==> b.drop_last()[j] == b[j]);
        lemma_dist_sq_upto_congr(a, b, a.drop_last(), b.drop_last(), n);
        lemma_dist_sq_prefix(a, b, n);
    }
}

/// Dropping the last axis splits the squared distance.
pub proof fn lemma_dist_sq_prefix(a: Seq<int>, b: Seq<int>, n: int)
    requires
        a.len() == b.len(),
        n == a.len() - 1,
        n >= 0,
    ensures
        dist_sq(a, b) == dist_sq(a.drop_last(), b.drop_last()) + (a[n] - b[n]) * (a[n] - b[n]),
    decreases a.len(),
{
    if a.len() == 1 {
        assert(a.drop_last() =~= Seq::<int>::empty());
        assert(b.drop_last() =~= Seq::<int>::empty());
        assert(a.drop_first() =~= Seq::<int>::empty());
        assert(b.drop_first() =~= Seq::<int>::empty());
    } else {
        lemma_dist_sq_prefix(a.drop_first(), b.drop_first(), n - 1);
        assert(a.drop_first().drop_last() =~= a.drop_last().drop_first());
        assert(b.drop_first().drop_last() =~= b.drop_last().drop_first());
        assert(a.drop_first()[n - 1] == a[n]);
        assert(b.drop_first()[n - 1] == b[n]);
    }
}

/// The sum of two shapes' weights, saturating at the maximum.
#[derive(Debug)]
pub struct MultiShape<S1, S2> {
    /// The first summand.
    pub shape1: S1,
    /// The second summand.
    pub shape2: S2,
}

impl<S1: Shape, S2: Shape> MultiShape<S1, S2> {
    pub fn new(shape1: S1, shape2: S2) -> (r: Self)
        ensures
            r.shape1 == shape1,
            r.shape2 == shape2,
    {
        MultiShape { shape1, shape2 }
    }
}

impl<S1: Shape, S2: Shape> Shape for MultiShape<S1, S2> {
    open spec fn weight_spec(&self, variant: int, index: int, cells: Cells) -> usize {
        sat_add_int(
            self.shape1.weight_spec(variant, index, cells) as int,
            self.shape2.weight_spec(variant, index, cells) as int,
        ) as usize
    }

    fn weight(&self, variant: usize, index: CellIndex, cells: &Cells) -> (r: usize) {
        let a = self.shape1.weight(variant, index, cells);
        let b = self.shape2.weight(variant, index, cells);
        sat_add(a, b)
    }
}

} // verus!
