//! Cells of the grid: per-cell candidate sets, precomputed neighbor lists,
//! and the entropy cache that groups uncollapsed cells by candidate count.

use crate::err::Error;
use crate::util::{
    dir_offset, extents_pos, in_bounds, index_of, lemma_extent_le_product, lemma_index_of_bounds,
    lemma_index_of_pos_of, lemma_pos_of_index_of, lemma_product_pos, pos_of, product, IPos,
    Size,
};
use crate::CellIndex;
use vstd::prelude::*;

verus! {

/// Strictly ascending: the sequence holds distinct values in sorted order.
pub open spec fn sorted_distinct(s: Seq<usize>) -> bool {
    forall|i: int, j: int| 0 <= i < j < s.len() ==> s[i] < s[j]
}

/// All values are distinct, in any order.
pub open spec fn distinct_seq(s: Seq<usize>) -> bool {
    forall|i: int, j: int| 0 <= i < j < s.len() ==> s[i] != s[j]
}

/// The position one step from `pos` in direction `d`.
pub open spec fn stepped(pos: Seq<int>, d: int) -> Seq<int> {
    pos.update(d / 2, pos[d / 2] + dir_offset(d))
}

/// The neighbor list entries for directions `0 .. d`: for each direction whose
/// step stays in bounds, the neighbor's flat index paired with the direction id.
pub open spec fn neighbors_upto(pos: Seq<int>, size: Seq<usize>, d: int) -> Seq<(usize, usize)>
    decreases d,
{
    if d <= 0 {
        Seq::empty()
    } else {
        let prev = neighbors_upto(pos, size, d - 1);
        let np = stepped(pos, d - 1);
        if in_bounds(np, size) {
            prev.push((index_of(np, size) as usize, (d - 1) as usize))
        } else {
            prev
        }
    }
}

/// The full neighbor list of `pos`: one entry per in-bounds axial step.
pub open spec fn neighbors_of(pos: Seq<int>, size: Seq<usize>) -> Seq<(usize, usize)> {
    neighbors_upto(pos, size, 2 * size.len() as int)
}

/// One grid slot: the candidate variant ids still admissible, the precomputed
/// in-bounds neighbors, the candidate count, and the cached position.
#[derive(Debug)]
pub struct Cell {
    /// Candidate variant ids, strictly ascending; a collapsed cell holds exactly one.
    pub possibilities: Vec<usize>,
    /// `(neighbor_index, direction_id)` for every in-bounds axial neighbor.
    pub neighbors: Vec<(CellIndex, usize)>,
    /// Number of candidates while uncollapsed; 0 once collapsed.
    pub entropy: usize,
    /// The cell's own position, cached for error reports.
    pub position: IPos,
}

impl Cell {
    /// Candidates are sorted, bounded by the variant count, never empty, and
    /// the entropy field tracks the candidate count (0 marks a collapsed
    /// singleton); position and neighbors match the cell's own index.
    pub open spec fn wf(self, my_index: int, size: Seq<usize>, num_variants: int) -> bool {
        &&& sorted_distinct(self.possibilities@)
        &&& forall|k: int|
            0 <= k < self.possibilities@.len() ==> #[trigger] self.possibilities@[k]
                < num_variants
        &&& self.possibilities@.len() >= 1
        &&& if self.entropy == 0 {
            self.possibilities@.len() == 1
        } else {
            self.entropy == self.possibilities@.len()
        }
        &&& self.position@ == pos_of(my_index, size)
        &&& self.neighbors@ == neighbors_of(pos_of(my_index, size), size)
    }

    /// True when the cell has been reduced to its final variant.
    pub fn collapsed(&self) -> (r: bool)
        ensures
            r == (self.entropy == 0),
    {
        self.entropy == 0
    }

    /// The final variant id of a collapsed cell.
    pub fn selected_variant(&self) -> (r: Option<usize>)
        ensures
            match r {
                Some(v) => self.entropy == 0 && self.possibilities@.len() >= 1 && v
                    == self.possibilities@[0],
                None => self.entropy != 0 || self.possibilities@.len() == 0,
            },
    {
        if self.entropy == 0 && self.possibilities.len() >= 1 {
            Some(self.possibilities[0])
        } else {
            None
        }
    }

    /// Replaces the candidates with the single chosen variant.
    pub fn collapse(&mut self, variant: usize)
        ensures
            final(self).possibilities@ == seq![variant],
            final(self).entropy == 0,
            final(self).neighbors == old(self).neighbors,
            final(self).position == old(self).position,
    {
        let mut only: Vec<usize> = Vec::new();
        only.push(variant);
        proof {
            assert(only@ =~= seq![variant]);
        }
        self.possibilities = only;
        self.entropy = 0;
    }

    /// Removes one candidate, if present, and re-counts the entropy.
    pub fn remove_variant(&mut self, variant: usize)
        requires
            sorted_distinct(old(self).possibilities@),
        ensures
            final(self).possibilities@ == removed_value(old(self).possibilities@, variant),
            final(self).entropy == final(self).possibilities@.len(),
            sorted_distinct(final(self).possibilities@),
            forall|x: usize| #[trigger]
                final(self).possibilities@.contains(x) <==> (old(self).possibilities@.contains(x)
                    && x != variant),
            final(self).possibilities@.len() == old(self).possibilities@.len() - (
            if old(self).possibilities@.contains(variant) {
                1int
            } else {
                0int
            }),
            final(self).neighbors == old(self).neighbors,
            final(self).position == old(self).position,
    {
        let n = self.possibilities.len();
        let mut out: Vec<usize> = Vec::new();
        let mut k: usize = 0;
        let ghost orig = self.possibilities@;
        while k < n
            invariant
                0 <= k <= n,
                n == orig.len(),
                self.possibilities@ == orig,
                sorted_distinct(orig),
                out@ == remove_upto(orig, variant, k as int),
            decreases n - k,
        {
            let v = self.possibilities[k];
            if v != variant {
                out.push(v);
            }
            k = k + 1;
        }
        proof {
            lemma_remove_upto_props(orig, variant, n as int);
            assert(orig.take(n as int) =~= orig);
        }
        self.possibilities = out;
        self.entropy = self.possibilities.len();
    }
}

/// The first `k` entries of `s` with every occurrence of `v` dropped.
pub open spec fn remove_upto(s: Seq<usize>, v: usize, k: int) -> Seq<usize>
    decreases k,
{
    if k <= 0 {
        Seq::empty()
    } else {
        let prev = remove_upto(s, v, k - 1);
        if s[k - 1] == v {
            prev
        } else {
            prev.push(s[k - 1])
        }
    }
}

/// The whole of `s` with every occurrence of `v` dropped.
pub open spec fn removed_value(s: Seq<usize>, v: usize) -> Seq<usize> {
    remove_upto(s, v, s.len() as int)
}

/// Removal from a sorted distinct sequence keeps it sorted, drops exactly the
/// removed value from the members, and shortens it by one when the value was there.
pub proof fn lemma_remove_upto_props(s: Seq<usize>, v: usize, k: int)
    requires
        sorted_distinct(s),
        0 <= k <= s.len(),
    ensures
        sorted_distinct(remove_upto(s, v, k)),
        forall|x: usize| #[trigger]
            remove_upto(s, v, k).contains(x) <==> (s.take(k).contains(x) && x != v),
        remove_upto(s, v, k).len() == k - (
        if s.take(k).contains(v) {
            1int
        } else {
            0int
        }),
    decreases k,
{
    if k == 0 {
        assert(s.take(0) =~= Seq::<usize>::empty());
        assert(forall|x: usize| !remove_upto(s, v, 0).contains(x));
        assert(!s.take(0).contains(v));
    } else {
        lemma_remove_upto_props(s, v, k - 1);
        let prev = remove_upto(s, v, k - 1);
        let cur = remove_upto(s, v, k);
        let w = s[k - 1];
        assert(s.take(k).drop_last() =~= s.take(k - 1));
        assert(s.take(k).last() == w);
        // Membership in take(k) is membership in take(k - 1) or equality with the last entry.
        assert(forall|x: usize| #[trigger]
            s.take(k).contains(x) <==> (s.take(k - 1).contains(x) || x == w)) by {
            assert(forall|x: usize| #[trigger]
                s.take(k - 1).contains(x) ==> s.take(k).contains(x)) by {
                assert(forall|j: int|
                    0 <= j < k - 1 ==> s.take(k)[j] == #[trigger] s.take(k - 1)[j]);
            }
            assert(s.take(k)[k - 1] == w);
            assert(forall|x: usize| s.take(k).contains(x) && x != w ==> #[trigger] s.take(
                k - 1,
            ).contains(x)) by {
                assert(forall|j: int|
                    0 <= j < k - 1 ==> s.take(k - 1)[j] == #[trigger] s.take(k)[j]);
            }
        }
        // The last entry of the prefix is new: it exceeds everything seen before.
        assert(!s.take(k - 1).contains(w)) by {
            assert(forall|j: int| 0 <= j < k - 1 ==> #[trigger] s.take(k - 1)[j] == s[j]);
            assert(forall|j: int| 0 <= j < k - 1 ==> s[j] < w);
        }
        if w == v {
            assert(cur == prev);
        } else {
            assert(cur == prev.push(w));
            assert forall|i: int| 0 <= i < prev.len() implies prev[i] < w by {
                assert(prev.contains(prev[i]));
                assert(s.take(k - 1).contains(prev[i]));
                let j = choose|j: int| 0 <= j < s.take(k - 1).len() && #[trigger] s.take(k - 1)[j] == prev[i];
                assert(s[j] == prev[i] && j < k - 1);
            }
            assert(sorted_distinct(cur)) by {
                assert(forall|i: int| 0 <= i < prev.len() ==> cur[i] == #[trigger] prev[i]);
                assert(cur[cur.len() - 1] == w);
            }
            assert(forall|x: usize| #[trigger]
                cur.contains(x) <==> (prev.contains(x) || x == w)) by {
                assert(cur[cur.len() - 1] == w);
                assert(forall|j: int| 0 <= j < prev.len() ==> cur[j] == #[trigger] prev[j]);
                assert(forall|j: int|
                    0 <= j < cur.len() - 1 ==> prev[j] == #[trigger] cur[j]);
            }
            assert(!prev.contains(w));
        }
    }
}

impl Cell {
    /// A fresh uncollapsed cell with the given candidate set.
    pub fn new(position: IPos, possibilities: Vec<usize>, size: &Size) -> (r: Cell)
        requires
            size.wf(),
            in_bounds(position@, size@),
            possibilities@.len() >= 1,
        ensures
            r.possibilities == possibilities,
            r.entropy == possibilities@.len(),
            r.position == position,
            r.neighbors@ == neighbors_of(position@, size@),
    {
        let entropy = possibilities.len();
        let neighbors = compute_neighbors(&position, size);
        Cell { possibilities, entropy, neighbors, position }
    }

    /// A cell fixed to one variant from the start.
    pub fn new_collapsed(position: IPos, collapsed_variant: usize, size: &Size) -> (r: Cell)
        requires
            size.wf(),
            in_bounds(position@, size@),
        ensures
            r.possibilities@ == seq![collapsed_variant],
            r.entropy == 0,
            r.position == position,
            r.neighbors@ == neighbors_of(position@, size@),
    {
        let mut possibilities: Vec<usize> = Vec::new();
        possibilities.push(collapsed_variant);
        proof {
            assert(possibilities@ =~= seq![collapsed_variant]);
        }
        let neighbors = compute_neighbors(&position, size);
        Cell { possibilities, entropy: 0, neighbors, position }
    }
}

/// Builds the `(neighbor_index, direction)` list for every in-bounds axial step.
fn compute_neighbors(position: &IPos, size: &Size) -> (r: Vec<(CellIndex, usize)>)
    requires
        size.wf(),
        in_bounds(position@, size@),
    ensures
        r@ == neighbors_of(position@, size@),
{
    let dim = size.dims();
    let dcount = 2 * dim;
    let mut out: Vec<(CellIndex, usize)> = Vec::new();
    let mut d: usize = 0;
    proof {
        assert(forall|k: int|
            0 <= k < position@.len() ==> isize::MIN < #[trigger] position@[k] < isize::MAX) by {
            assert forall|k: int|
                0 <= k < position@.len() implies isize::MIN < #[trigger] position@[k]
                < isize::MAX by {
                lemma_extent_le_product(size@, k);
            }
        }
    }
    while d < dcount
        invariant
            0 <= d <= dcount,
            dcount == 2 * size@.len(),
            size.wf(),
            in_bounds(position@, size@),
            out@ == neighbors_upto(position@, size@, d as int),
            forall|k: int|
                0 <= k < position@.len() ==> isize::MIN < #[trigger] position@[k] < isize::MAX,
        decreases dcount - d,
    {
        let np = position.add_dir(d);
        proof {
            assert(np@ == stepped(position@, d as int));
        }
        if size.contains(&np) {
            proof {
                lemma_index_of_bounds(np@, size@);
            }
            let idx = np.index(size);
            out.push((idx, d));
        }
        d = d + 1;
    }
    out
}

/// The sequence `s` with its entry equal to `v` removed by swapping in the
/// last entry, as an insertion-ordered set does.
pub open spec fn swap_removed(s: Seq<usize>, v: usize) -> Seq<usize> {
    match s.index_of_first(v) {
        Some(p) => s.update(p, s.last()).drop_last(),
        None => s,
    }
}

/// Swap-removal from a distinct sequence drops exactly the removed value.
pub proof fn lemma_swap_removed_props(s: Seq<usize>, v: usize)
    requires
        distinct_seq(s),
        s.contains(v),
    ensures
        distinct_seq(swap_removed(s, v)),
        swap_removed(s, v).len() == s.len() - 1,
        forall|x: usize| #[trigger] swap_removed(s, v).contains(x) <==> (s.contains(x) && x != v),
{
    s.index_of_first_ensures(v);
    let p = s.index_of_first(v).unwrap();
    let out = swap_removed(s, v);
    let n = s.len() as int;
    assert(out.len() == n - 1);
    assert(forall|j: int| 0 <= j < n - 1 && j != p ==> out[j] == s[j]);
    assert(p < n - 1 ==> out[p] == s[n - 1]);
    assert(forall|i: int, j: int| 0 <= i < j < n ==> s[i] != s[j]);
    assert(forall|x: usize| #[trigger] out.contains(x) ==> (s.contains(x) && x != v)) by {
        assert(forall|j: int| 0 <= j < n - 1 ==> s.contains(#[trigger] out[j]) && out[j] != v)
            by {
            assert(forall|j: int|
                0 <= j < n - 1 ==> #[trigger] out[j] == (if j == p {
                    s[n - 1]
                } else {
                    s[j]
                }));
        }
    }
    assert(forall|x: usize| s.contains(x) && x != v ==> #[trigger] out.contains(x)) by {
        assert(forall|j: int|
            0 <= j < n && s[j] != v ==> out.contains(#[trigger] s[j])) by {
            assert(forall|j: int|
                0 <= j < n && s[j] != v ==> (if j == p {
                    false
                } else if j == n - 1 {
                    p < n - 1 && out[p] == s[j]
                } else {
                    out[j] == s[j]
                } || (j < n - 1 && j != p && out[j] == s[j])));
        }
    }
    assert(distinct_seq(out)) by {
        assert(forall|i: int, j: int|
            0 <= i < j < out.len() ==> #[trigger] out[i] != #[trigger] out[j]) by {
            assert(forall|j: int|
                0 <= j < n - 1 ==> #[trigger] out[j] == (if j == p {
                    s[n - 1]
                } else {
                    s[j]
                }));
        }
    }
}

/// Buckets of uncollapsed cell indices grouped by entropy. The bucket for
/// entropy `e` sits at position `e - 1`; collapsed cells are in no bucket.
/// Each bucket keeps insertion order and removes by swapping in the last entry.
#[derive(Debug)]
pub struct EntropyCache {
    /// `levels[e - 1]` holds the indices of the uncollapsed cells of entropy `e`.
    pub levels: Vec<Vec<usize>>,
}

impl EntropyCache {
    /// The number of buckets: the highest entropy a cell can have.
    pub open spec fn max_entropy(self) -> int {
        self.levels@.len() as int
    }

    /// The contents of the bucket for entropy `e` (one-based).
    pub open spec fn bucket(self, e: int) -> Seq<usize> {
        self.levels@[e - 1]@
    }

    /// One empty bucket per possible entropy value.
    pub fn new(max_entropy: usize) -> (r: Self)
        ensures
            r.max_entropy() == max_entropy,
            forall|e: int| 1 <= e <= max_entropy ==> #[trigger] r.bucket(e).len() == 0,
    {
        let mut levels: Vec<Vec<usize>> = Vec::new();
        let mut k: usize = 0;
        while k < max_entropy
            invariant
                0 <= k <= max_entropy,
                levels@.len() == k,
                forall|j: int| 0 <= j < k ==> #[trigger] levels@[j]@.len() == 0,
            decreases max_entropy - k,
        {
            levels.push(Vec::new());
            k = k + 1;
        }
        EntropyCache { levels }
    }

    /// The lowest non-empty bucket, if any cell is uncollapsed.
    pub fn lowest(&self) -> (r: Option<&Vec<usize>>)
        ensures
            match r {
                Some(b) => exists|e: int|
                    {
                        &&& 1 <= e <= self.max_entropy()
                        &&& b@ == #[trigger] self.bucket(e)
                        &&& b@.len() > 0
                        &&& forall|f: int| 1 <= f < e ==> #[trigger] self.bucket(f).len() == 0
                    },
                None => forall|e: int|
                    1 <= e <= self.max_entropy() ==> #[trigger] self.bucket(e).len() == 0,
            },
    {
        let n = self.levels.len();
        let mut k: usize = 0;
        while k < n
            invariant
                0 <= k <= n,
                n == self.max_entropy(),
                forall|f: int| 1 <= f <= k ==> #[trigger] self.bucket(f).len() == 0,
            decreases n - k,
        {
            if self.levels[k].len() > 0 {
                proof {
                    assert(self.bucket(k as int + 1) == self.levels@[k as int]@);
                }
                return Some(&self.levels[k]);
            }
            k = k + 1;
        }
        None
    }

    /// Moves `index` from the bucket for `starting_entropy` to the end of the
    /// bucket for `new_entropy`; with equal entropies the index moves to the
    /// end of its own bucket.
    pub fn set(&mut self, starting_entropy: usize, index: usize, new_entropy: usize)
        requires
            1 <= starting_entropy <= old(self).max_entropy(),
            1 <= new_entropy <= old(self).max_entropy(),
            old(self).bucket(starting_entropy as int).contains(index),
            distinct_seq(old(self).bucket(starting_entropy as int)),
        ensures
            final(self).max_entropy() == old(self).max_entropy(),
            starting_entropy != new_entropy ==> {
                &&& final(self).bucket(starting_entropy as int) == swap_removed(
                    old(self).bucket(starting_entropy as int),
                    index,
                )
                &&& final(self).bucket(new_entropy as int) == old(self).bucket(
                    new_entropy as int,
                ).push(index)
            },
            starting_entropy == new_entropy ==> final(self).bucket(starting_entropy as int)
                == swap_removed(old(self).bucket(starting_entropy as int), index).push(index),
            forall|e: int|
                1 <= e <= old(self).max_entropy() && e != starting_entropy && e != new_entropy
                    ==> #[trigger] final(self).bucket(e) == old(self).bucket(e),
    {
        self.clear_entry(starting_entropy, index);
        self.insert(new_entropy, index);
    }

    /// Swap-removes `index` from the bucket for `entropy`.
    pub fn clear_entry(&mut self, entropy: usize, index: usize)
        requires
            1 <= entropy <= old(self).max_entropy(),
            old(self).bucket(entropy as int).contains(index),
        ensures
            final(self).max_entropy() == old(self).max_entropy(),
            final(self).bucket(entropy as int) == swap_removed(
                old(self).bucket(entropy as int),
                index,
            ),
            forall|e: int|
                1 <= e <= old(self).max_entropy() && e != entropy
                    ==> #[trigger] final(self).bucket(e) == old(self).bucket(e),
    {
        let ghost orig = self.levels@[entropy as int - 1]@;
        let slot = entropy - 1;
        let b = &self.levels[slot];
        let n = b.len();
        let mut p: usize = 0;
        while p < n
            invariant_except_break
                0 <= p <= n,
                forall|j: int| 0 <= j < p ==> orig[j] != index,
            invariant
                slot == entropy - 1,
                slot < self.levels@.len(),
                n == orig.len(),
                self.levels@[slot as int]@ == orig,
                orig.contains(index),
            ensures
                0 <= p < n,
                orig[p as int] == index,
                forall|j: int| 0 <= j < p ==> orig[j] != index,
            decreases n - p,
        {
            if self.levels[slot][p] == index {
                break ;
            }
            p = p + 1;
        }
        proof {
            orig.index_of_first_ensures(index);
        }
        let bucket = &mut self.levels[slot];
        let last = bucket[n - 1];
        bucket.set(p, last);
        bucket.pop();
        proof {
            let q = orig.index_of_first(index).unwrap();
            assert(q == p as int);
            assert(self.levels@[slot as int]@ =~= swap_removed(orig, index));
        }
    }

    /// Appends `index` to the end of the bucket for `entropy`.
    pub fn insert(&mut self, entropy: usize, index: usize)
        requires
            1 <= entropy <= old(self).max_entropy(),
        ensures
            final(self).max_entropy() == old(self).max_entropy(),
            final(self).bucket(entropy as int) == old(self).bucket(entropy as int).push(index),
            forall|e: int|
                1 <= e <= old(self).max_entropy() && e != entropy
                    ==> #[trigger] final(self).bucket(e) == old(self).bucket(e),
    {
        let slot = entropy - 1;
        let bucket = &mut self.levels[slot];
        bucket.push(index);
    }
}

/// The candidate ids of a fresh cell: every variant id below `n`.
pub open spec fn all_ids(n: int) -> Seq<usize> {
    Seq::new(n as nat, |k: int| k as usize)
}

/// The indices below `n` whose seed entry is `None`, in ascending order.
pub open spec fn unseeded_upto(input: Seq<Option<usize>>, n: int) -> Seq<usize>
    decreases n,
{
    if n <= 0 {
        Seq::empty()
    } else {
        let prev = unseeded_upto(input, n - 1);
        if input[n - 1] is None {
            prev.push((n - 1) as usize)
        } else {
            prev
        }
    }
}

/// The unseeded indices are exactly the positions with no seed, in ascending order.
pub proof fn lemma_unseeded_upto_props(input: Seq<Option<usize>>, n: int)
    requires
        0 <= n <= input.len(),
        input.len() <= usize::MAX,
    ensures
        sorted_distinct(unseeded_upto(input, n)),
        forall|j: int|
            0 <= j < unseeded_upto(input, n).len() ==> #[trigger] unseeded_upto(input, n)[j]
                < n && input[unseeded_upto(input, n)[j] as int] is None,
        forall|m: usize| m < n && input[m as int] is None ==> unseeded_upto(input, n).contains(m),
    decreases n,
{
    if n > 0 {
        lemma_unseeded_upto_props(input, n - 1);
        let prev = unseeded_upto(input, n - 1);
        let cur = unseeded_upto(input, n);
        if input[n - 1] is None {
            assert(forall|j: int| 0 <= j < prev.len() ==> cur[j] == #[trigger] prev[j]);
            assert(cur[cur.len() - 1] == (n - 1) as usize);
            assert(sorted_distinct(cur)) by {
                assert(forall|j: int| 0 <= j < prev.len() ==> #[trigger] prev[j] < n - 1);
            }
            assert forall|m: usize| m < n && input[m as int] is None implies cur.contains(m) by {
                if (m as int) < n - 1 {
                    assert(prev.contains(m));
                    let j = choose|j: int| 0 <= j < prev.len() && #[trigger] prev[j] == m;
                    assert(cur[j] == m);
                } else {
                    assert(m as int == n - 1);
                    assert(cur[cur.len() - 1] == m);
                }
            }
        } else {
            assert forall|m: usize| m < n && input[m as int] is None implies cur.contains(m) by {
                assert((m as int) < n - 1);
                assert(prev.contains(m));
                let j = choose|j: int| 0 <= j < prev.len() && #[trigger] prev[j] == m;
                assert(cur[j] == m);
            }
        }
    }
}

/// The number of uncollapsed cells among the first `n`.
pub open spec fn uncollapsed_in(l: Seq<Cell>, n: int) -> int
    decreases n,
{
    if n <= 0 {
        0
    } else {
        uncollapsed_in(l, n - 1) + if l[n - 1].entropy == 0 {
            0int
        } else {
            1int
        }
    }
}

/// The sum of the candidate counts of the first `n` cells.
pub open spec fn total_poss_in(l: Seq<Cell>, n: int) -> int
    decreases n,
{
    if n <= 0 {
        0
    } else {
        total_poss_in(l, n - 1) + l[n - 1].possibilities@.len()
    }
}

/// Cell lists that agree on which cells are collapsed have equal uncollapsed counts.
pub proof fn lemma_uncollapsed_congruence(a: Seq<Cell>, b: Seq<Cell>, n: int)
    requires
        forall|j: int| 0 <= j < n ==> ((#[trigger] a[j].entropy == 0) <==> b[j].entropy == 0),
    ensures
        uncollapsed_in(a, n) == uncollapsed_in(b, n),
    decreases n,
{
    if n > 0 {
        lemma_uncollapsed_congruence(a, b, n - 1);
    }
}

/// Collapsing exactly one cell lowers the uncollapsed count by one.
pub proof fn lemma_uncollapsed_collapse_one(a: Seq<Cell>, b: Seq<Cell>, n: int, i: int)
    requires
        0 <= i < n,
        a[i].entropy != 0,
        b[i].entropy == 0,
        forall|j: int|
            0 <= j < n && j != i ==> ((#[trigger] a[j].entropy == 0) <==> b[j].entropy == 0),
    ensures
        uncollapsed_in(b, n) == uncollapsed_in(a, n) - 1,
    decreases n,
{
    if i == n - 1 {
        lemma_uncollapsed_congruence(a, b, n - 1);
    } else {
        lemma_uncollapsed_collapse_one(a, b, n - 1, i);
    }
}

/// A count of zero means every cell is collapsed, and conversely.
pub proof fn lemma_uncollapsed_zero(l: Seq<Cell>, n: int)
    requires
        0 <= n <= l.len(),
    ensures
        (uncollapsed_in(l, n) == 0) <==> (forall|j: int| 0 <= j < n ==> #[trigger] l[j].entropy == 0),
        uncollapsed_in(l, n) >= 0,
    decreases n,
{
    if n > 0 {
        lemma_uncollapsed_zero(l, n - 1);
    }
}

/// Cell lists with pointwise equal candidate counts have equal totals.
pub proof fn lemma_total_poss_congruence(a: Seq<Cell>, b: Seq<Cell>, n: int)
    requires
        forall|j: int|
            0 <= j < n ==> (#[trigger] a[j].possibilities@.len()) == b[j].possibilities@.len(),
    ensures
        total_poss_in(a, n) == total_poss_in(b, n),
    decreases n,
{
    if n > 0 {
        lemma_total_poss_congruence(a, b, n - 1);
    }
}

/// Shrinking one cell's candidate set lowers the total by the same amount.
pub proof fn lemma_total_poss_update_one(a: Seq<Cell>, b: Seq<Cell>, n: int, i: int)
    requires
        0 <= i < n,
        forall|j: int|
            0 <= j < n && j != i ==> (#[trigger] a[j].possibilities@.len())
                == b[j].possibilities@.len(),
    ensures
        total_poss_in(b, n) == total_poss_in(a, n) + b[i].possibilities@.len()
            - a[i].possibilities@.len(),
    decreases n,
{
    if i == n - 1 {
        lemma_total_poss_congruence(a, b, n - 1);
    } else {
        lemma_total_poss_update_one(a, b, n - 1, i);
    }
}

/// Every prefix total is nonnegative.
pub proof fn lemma_total_poss_nonneg(l: Seq<Cell>, n: int)
    ensures
        total_poss_in(l, n) >= 0,
    decreases n,
{
    if n > 0 {
        lemma_total_poss_nonneg(l, n - 1);
    }
}

/// The grid: every cell, the grid extents, and the entropy buckets.
#[derive(Debug)]
pub struct Cells {
    /// The grid extents.
    pub size: Size,
    /// One cell per flat index, in index order.
    pub list: Vec<Cell>,
    /// Buckets of uncollapsed cell indices by entropy.
    pub entropy_cache: EntropyCache,
    /// How many interned variants exist; candidate ids stay below this.
    pub num_variants: usize,
}

impl Cells {
    pub open spec fn len_spec(self) -> int {
        self.list@.len() as int
    }

    pub open spec fn cell(self, i: int) -> Cell {
        self.list@[i]
    }

    /// The candidate variant ids of cell `i`.
    pub open spec fn poss(self, i: int) -> Seq<usize> {
        self.list@[i].possibilities@
    }

    pub open spec fn entropy_of(self, i: int) -> int {
        self.list@[i].entropy as int
    }

    pub open spec fn is_collapsed(self, i: int) -> bool {
        self.list@[i].entropy == 0
    }

    /// The bucket of uncollapsed cell indices with entropy `e`.
    pub open spec fn bucket(self, e: int) -> Seq<usize> {
        self.entropy_cache.bucket(e)
    }

    /// `e` is the lowest entropy whose bucket is non-empty.
    pub open spec fn lowest_nonempty(self, e: int) -> bool {
        &&& 1 <= e <= self.num_variants
        &&& self.bucket(e).len() > 0
        &&& forall|f: int| 1 <= f < e ==> #[trigger] self.bucket(f).len() == 0
    }

    /// The number of cells not yet collapsed.
    pub open spec fn uncollapsed_count(self) -> int {
        uncollapsed_in(self.list@, self.len_spec())
    }

    /// The sum of all cells' candidate counts.
    pub open spec fn total_poss(self) -> int {
        total_poss_in(self.list@, self.len_spec())
    }

    /// Every cell is well formed for its own index.
    pub open spec fn cells_wf(self) -> bool {
        forall|i: int|
            0 <= i < self.len_spec() ==> (#[trigger] self.cell(i)).wf(
                i,
                self.size@,
                self.num_variants as int,
            )
    }

    /// The entropy-bucket invariant: every bucket member is an uncollapsed
    /// cell of exactly that entropy, every uncollapsed cell sits in the bucket
    /// of its entropy, and no bucket repeats an index. Together these place
    /// each uncollapsed cell in exactly one bucket and collapsed cells in none.
    pub open spec fn cache_wf(self) -> bool {
        &&& self.entropy_cache.max_entropy() == self.num_variants as int
        &&& forall|e: int, j: int|
            1 <= e <= self.num_variants && 0 <= j < self.bucket(e).len() ==> (#[trigger] self.bucket(
                e,
            )[j]) < self.len_spec() && self.entropy_of(self.bucket(e)[j] as int) == e
        &&& forall|i: usize|
            i < self.len_spec() && !self.is_collapsed(i as int) ==> #[trigger] self.bucket(
                self.entropy_of(i as int),
            ).contains(i)
        &&& forall|e: int| 1 <= e <= self.num_variants ==> distinct_seq(#[trigger] self.bucket(e))
    }

    pub open spec fn wf(self) -> bool {
        &&& self.size.wf()
        &&& self.len_spec() == product(self.size@)
        &&& 1 <= self.num_variants
        &&& self.cells_wf()
        &&& self.cache_wf()
    }

    /// The grids have the same shape: equal extents, variant count, cell
    /// count, and per-cell positions and neighbor lists.
    pub open spec fn same_frame(self, other: Cells) -> bool {
        &&& self.size@ == other.size@
        &&& self.num_variants == other.num_variants
        &&& self.len_spec() == other.len_spec()
        &&& forall|i: int|
            0 <= i < self.len_spec() ==> (#[trigger] self.cell(i)).position == other.cell(
                i,
            ).position && self.cell(i).neighbors == other.cell(i).neighbors
    }

    /// Monotone shrinkage: every cell's candidate set is a subset of what it
    /// was, and collapsed cells are left exactly as they were.
    pub open spec fn shrinks_from(self, pre: Cells) -> bool {
        &&& self.same_frame(pre)
        &&& forall|i: int, x: usize|
            0 <= i < self.len_spec() && #[trigger] self.poss(i).contains(x) ==> pre.poss(
                i,
            ).contains(x)
        &&& forall|i: int|
            0 <= i < self.len_spec() && pre.is_collapsed(i) ==> (#[trigger] self.cell(
                i,
            )).possibilities == pre.cell(i).possibilities && self.is_collapsed(i)
    }

    /// Shrinkage composes across successive steps.
    pub proof fn lemma_shrinks_trans(a: Cells, b: Cells, c: Cells)
        requires
            b.shrinks_from(a),
            c.shrinks_from(b),
        ensures
            c.shrinks_from(a),
    {
    }

    /// Shrinkage is reflexive.
    pub proof fn lemma_shrinks_refl(a: Cells)
        ensures
            a.shrinks_from(a),
    {
    }
}

/// In a sorted distinct sequence the entry at `j` is at least `j`.
pub proof fn lemma_sorted_at_least(s: Seq<usize>, j: int)
    requires
        sorted_distinct(s),
        0 <= j < s.len(),
    ensures
        s[j] >= j,
    decreases j,
{
    if j > 0 {
        lemma_sorted_at_least(s, j - 1);
    }
}

impl Cells {
    /// No cell's entropy exceeds the variant count.
    pub proof fn lemma_entropy_le_nv(self, i: int)
        requires
            self.wf(),
            0 <= i < self.len_spec(),
        ensures
            0 <= self.entropy_of(i) <= self.num_variants,
            1 <= self.poss(i).len() <= self.num_variants,
    {
        assert(self.cell(i).wf(i, self.size@, self.num_variants as int));
        let p = self.poss(i);
        lemma_sorted_at_least(p, p.len() - 1);
    }

    /// Entropy-bucket soundness: an uncollapsed cell sits in the bucket of its
    /// own entropy and in no other, and a collapsed cell sits in no bucket.
    pub proof fn lemma_entropy_bucket_soundness(self, i: usize, e: int)
        requires
            self.wf(),
            i < self.len_spec(),
            1 <= e <= self.num_variants,
        ensures
            !self.is_collapsed(i as int) ==> self.bucket(self.entropy_of(i as int)).contains(i),
            self.bucket(e).contains(i) ==> !self.is_collapsed(i as int) && e == self.entropy_of(
                i as int,
            ),
    {
        if self.bucket(e).contains(i) {
            let j = choose|j: int|
                0 <= j < self.bucket(e).len() && #[trigger] self.bucket(e)[j] == i;
            assert(self.entropy_of(self.bucket(e)[j] as int) == e);
        }
    }

    /// Builds the grid: seeded entries start collapsed to their variant, the
    /// rest start with every variant and are enrolled in the top entropy
    /// bucket in index order.
    pub fn new(size: Size, input: Vec<Option<usize>>, num_variants: usize) -> (r: Self)
        requires
            size.wf(),
            input@.len() == product(size@),
            1 <= num_variants,
            forall|i: int|
                0 <= i < input@.len() ==> match #[trigger] input@[i] {
                    Some(v) => v < num_variants,
                    None => true,
                },
        ensures
            r.wf(),
            r.size@ == size@,
            r.num_variants == num_variants,
            r.len_spec() == input@.len(),
            forall|i: int|
                0 <= i < r.len_spec() ==> match #[trigger] input@[i] {
                    Some(v) => r.poss(i) == seq![v] && r.is_collapsed(i),
                    None => r.poss(i) == all_ids(num_variants as int) && r.entropy_of(i)
                        == num_variants,
                },
            r.bucket(num_variants as int) == unseeded_upto(input@, input@.len() as int),
            forall|e: int| 1 <= e < num_variants ==> #[trigger] r.bucket(e).len() == 0,
    {
        let mut all: Vec<usize> = Vec::new();
        let mut k: usize = 0;
        while k < num_variants
            invariant
                0 <= k <= num_variants,
                all@.len() == k,
                forall|j: int| 0 <= j < k ==> #[trigger] all@[j] == j,
            decreases num_variants - k,
        {
            all.push(k);
            k = k + 1;
        }
        proof {
            assert(all@ =~= all_ids(num_variants as int));
        }
        let mut entropy_cache = EntropyCache::new(num_variants);
        let mut list: Vec<Cell> = Vec::new();
        let total = input.len();
        let mut i: usize = 0;
        proof {
            lemma_product_pos(size@);
        }
        while i < total
            invariant
                0 <= i <= total,
                total == input@.len(),
                input@.len() == product(size@),
                size.wf(),
                1 <= num_variants,
                all@ == all_ids(num_variants as int),
                forall|j: int|
                    0 <= j < input@.len() ==> match #[trigger] input@[j] {
                        Some(v) => v < num_variants,
                        None => true,
                    },
                list@.len() == i,
                forall|j: int|
                    0 <= j < i ==> match #[trigger] input@[j] {
                        Some(v) => list@[j].possibilities@ == seq![v] && list@[j].entropy == 0,
                        None => list@[j].possibilities@ == all_ids(num_variants as int)
                            && list@[j].entropy == num_variants,
                    },
                forall|j: int|
                    0 <= j < i ==> (#[trigger] list@[j]).position@ == pos_of(j, size@)
                        && list@[j].neighbors@ == neighbors_of(pos_of(j, size@), size@),
                entropy_cache.max_entropy() == num_variants as int,
                entropy_cache.bucket(num_variants as int) == unseeded_upto(input@, i as int),
                forall|e: int|
                    1 <= e < num_variants ==> #[trigger] entropy_cache.bucket(e).len() == 0,
            decreases total - i,
        {
            let position = IPos::from_index(i, &size);
            let seed = input[i];
            match seed {
                Some(variant) => {
                    let cell = Cell::new_collapsed(position, variant, &size);
                    list.push(cell);
                },
                None => {
                    entropy_cache.insert(num_variants, i);
                    let cell = Cell::new(position, all.clone(), &size);
                    list.push(cell);
                },
            }
            i = i + 1;
        }
        let r = Cells { size, list, entropy_cache, num_variants };
        proof {
            let n = r.len_spec();
            lemma_unseeded_upto_props(input@, n);
            assert(r.cells_wf()) by {
                assert forall|j: int| 0 <= j < n implies (#[trigger] r.cell(j)).wf(
                    j,
                    r.size@,
                    r.num_variants as int,
                ) by {
                    assert(sorted_distinct(all_ids(num_variants as int)));
                    match input@[j] {
                        Some(v) => {
                            assert(r.poss(j) == seq![v]);
                            assert(sorted_distinct(seq![v])) by {
                                assert(seq![v].len() == 1);
                            }
                            assert(forall|t: int|
                                0 <= t < r.poss(j).len() ==> #[trigger] r.poss(j)[t]
                                    < num_variants);
                        },
                        None => {},
                    }
                }
            }
            assert(r.cache_wf()) by {
                let top = unseeded_upto(input@, n);
                assert forall|e: int, j: int|
                    1 <= e <= r.num_variants && 0 <= j < r.bucket(e).len() implies (
                #[trigger] r.bucket(e)[j]) < n && r.entropy_of(r.bucket(e)[j] as int) == e by {
                    assert(e == num_variants);
                    assert(r.bucket(e) == top);
                    assert(top[j] < n && input@[top[j] as int] is None);
                }
                assert forall|i2: usize|
                    i2 < n && !r.is_collapsed(i2 as int) implies #[trigger] r.bucket(
                    r.entropy_of(i2 as int),
                ).contains(i2) by {
                    assert(input@[i2 as int] is None);
                    assert(r.entropy_of(i2 as int) == num_variants);
                    assert(top.contains(i2));
                }
                assert forall|e: int|
                    1 <= e <= r.num_variants implies distinct_seq(#[trigger] r.bucket(e)) by {
                    if e == num_variants {
                        assert(sorted_distinct(top));
                    } else {
                        assert(r.bucket(e).len() == 0);
                    }
                }
            }
        }
        r
    }

    /// The cell at a flat index.
    pub fn at(&self, index: usize) -> (r: &Cell)
        requires
            index < self.len_spec(),
        ensures
            *r == self.cell(index as int),
    {
        &self.list[index]
    }

    /// The cell at a position, when the position lies in the grid.
    pub fn at_pos(&self, pos: &IPos) -> (r: Option<&Cell>)
        requires
            self.wf(),
        ensures
            match r {
                Some(c) => in_bounds(pos@, self.size@) && *c == self.cell(
                    index_of(pos@, self.size@),
                ),
                None => !in_bounds(pos@, self.size@),
            },
    {
        if self.size.contains(pos) {
            proof {
                lemma_index_of_bounds(pos@, self.size@);
            }
            let index = pos.index(&self.size);
            Some(&self.list[index])
        } else {
            None
        }
    }

    /// The bucket of cell indices with the lowest entropy, if any cell is
    /// uncollapsed.
    pub fn lowest_entropy_indexes(&self) -> (r: Option<&Vec<usize>>)
        requires
            self.wf(),
        ensures
            match r {
                Some(b) => {
                    &&& b@.len() > 0
                    &&& exists|e: int| #[trigger] self.lowest_nonempty(e) && b@ == self.bucket(e)
                    &&& forall|j: int|
                        0 <= j < b@.len() ==> (#[trigger] b@[j]) < self.len_spec()
                            && !self.is_collapsed(b@[j] as int)
                },
                None => self.uncollapsed_count() == 0,
            },
    {
        let r = self.entropy_cache.lowest();
        proof {
            match r {
                Some(b) => {
                    let e = choose|e: int|
                        {
                            &&& 1 <= e <= self.entropy_cache.max_entropy()
                            &&& b@ == #[trigger] self.entropy_cache.bucket(e)
                            &&& b@.len() > 0
                            &&& forall|f: int|
                                1 <= f < e ==> #[trigger] self.entropy_cache.bucket(f).len() == 0
                        };
                    assert(b@ == self.bucket(e));
                    assert(self.lowest_nonempty(e));
                    assert forall|j: int| 0 <= j < b@.len() implies (#[trigger] b@[j])
                        < self.len_spec() && !self.is_collapsed(b@[j] as int) by {
                        assert(self.bucket(e)[j] < self.len_spec() && self.entropy_of(
                            self.bucket(e)[j] as int,
                        ) == e);
                    }
                },
                None => {
                    assert forall|j: int| 0 <= j < self.len_spec() implies #[trigger] self.list@[j].entropy
                        == 0 by {
                        if self.list@[j].entropy != 0 {
                            self.lemma_entropy_le_nv(j);
                            let ju = j as usize;
                            assert(self.bucket(self.entropy_of(ju as int)).contains(ju));
                            assert(self.bucket(self.entropy_of(j)).len() == 0);
                        }
                    }
                    lemma_uncollapsed_zero(self.list@, self.len_spec());
                },
            }
        }
        r
    }

    /// Moves a cell between entropy buckets after its entropy changed.
    pub fn set_entropy(&mut self, starting_entropy: usize, index: usize, new_entropy: usize)
        requires
            1 <= starting_entropy <= old(self).num_variants,
            1 <= new_entropy <= old(self).num_variants,
            old(self).cache_wf() || (old(self).entropy_cache.max_entropy() == old(
                self,
            ).num_variants as int),
            old(self).bucket(starting_entropy as int).contains(index),
            distinct_seq(old(self).bucket(starting_entropy as int)),
        ensures
            final(self).list == old(self).list,
            final(self).size == old(self).size,
            final(self).num_variants == old(self).num_variants,
            final(self).entropy_cache.max_entropy() == old(self).entropy_cache.max_entropy(),
            starting_entropy != new_entropy ==> {
                &&& final(self).bucket(starting_entropy as int) == swap_removed(
                    old(self).bucket(starting_entropy as int),
                    index,
                )
                &&& final(self).bucket(new_entropy as int) == old(self).bucket(
                    new_entropy as int,
                ).push(index)
            },
            starting_entropy == new_entropy ==> final(self).bucket(starting_entropy as int)
                == swap_removed(old(self).bucket(starting_entropy as int), index).push(index),
            forall|e: int|
                1 <= e <= old(self).num_variants && e != starting_entropy && e != new_entropy
                    ==> #[trigger] final(self).bucket(e) == old(self).bucket(e),
    {
        self.entropy_cache.set(starting_entropy, index, new_entropy);
    }

    /// Collapses the cell at `index` to one of its remaining candidates and
    /// removes it from the entropy buckets.
    #[verifier::rlimit(60)]
    pub fn collapse_to(&mut self, index: usize, variant: usize)
        requires
            old(self).wf(),
            index < old(self).len_spec(),
            !old(self).is_collapsed(index as int),
            old(self).poss(index as int).contains(variant),
        ensures
            final(self).wf(),
            final(self).shrinks_from(*old(self)),
            final(self).poss(index as int) == seq![variant],
            final(self).is_collapsed(index as int),
            forall|i: int|
                0 <= i < final(self).len_spec() && i != index ==> final(self).cell(i) == old(
                    self,
                ).cell(i),
            final(self).uncollapsed_count() == old(self).uncollapsed_count() - 1,
            final(self).size == old(self).size,
            final(self).num_variants == old(self).num_variants,
            final(self).bucket(old(self).entropy_of(index as int)) == swap_removed(
                old(self).bucket(old(self).entropy_of(index as int)),
                index,
            ),
            forall|e: int|
                1 <= e <= old(self).num_variants && e != old(self).entropy_of(index as int)
                    ==> #[trigger] final(self).bucket(e) == old(self).bucket(e),
    {
        proof {
            old(self).lemma_entropy_le_nv(index as int);
            assert(old(self).bucket(old(self).entropy_of(index as int)).contains(index)) by {
                assert(!old(self).is_collapsed(index as int));
            }
            assert(variant < old(self).num_variants) by {
                let t = choose|t: int|
                    0 <= t < old(self).poss(index as int).len() && #[trigger] old(self).poss(
                        index as int,
                    )[t] == variant;
                assert(old(self).cell(index as int).wf(
                    index as int,
                    old(self).size@,
                    old(self).num_variants as int,
                ));
            }
        }
        let e = self.list[index].entropy;
        self.entropy_cache.clear_entry(e, index);
        let cell = &mut self.list[index];
        cell.collapse(variant);
        proof {
            let pre = *old(self);
            let post = *self;
            let ghost e0 = e as int;
            lemma_swap_removed_props(pre.bucket(e0), index);
            assert(post.cells_wf()) by {
                assert forall|i: int| 0 <= i < post.len_spec() implies (#[trigger] post.cell(
                    i,
                )).wf(i, post.size@, post.num_variants as int) by {
                    assert(pre.cell(i).wf(i, pre.size@, pre.num_variants as int));
                    if i == index {
                        assert(sorted_distinct(seq![variant])) by {
                            assert(seq![variant].len() == 1);
                        }
                        assert(pre.poss(i).contains(variant));
                        assert(variant < pre.num_variants);
                        assert(post.poss(i) == seq![variant]);
                        assert(forall|t: int|
                            0 <= t < post.poss(i).len() ==> #[trigger] post.poss(i)[t]
                                < post.num_variants);
                        assert(post.cell(i).wf(i, post.size@, post.num_variants as int));
                    } else {
                        assert(post.cell(i) == pre.cell(i));
                        assert(post.cell(i).wf(i, post.size@, post.num_variants as int));
                    }
                }
            }
            assert(post.cache_wf()) by {
                assert forall|e2: int, j: int|
                    1 <= e2 <= post.num_variants && 0 <= j < post.bucket(e2).len() implies (
                #[trigger] post.bucket(e2)[j]) < post.len_spec() && post.entropy_of(
                    post.bucket(e2)[j] as int,
                ) == e2 by {
                    if e2 == e0 {
                        assert(post.bucket(e2).contains(post.bucket(e2)[j]));
                        assert(pre.bucket(e0).contains(post.bucket(e2)[j]));
                        assert(post.bucket(e2)[j] != index);
                        let m = post.bucket(e2)[j];
                        let t = choose|t: int|
                            0 <= t < pre.bucket(e0).len() && #[trigger] pre.bucket(e0)[t] == m;
                        assert(pre.entropy_of(m as int) == e0);
                    } else {
                        assert(post.bucket(e2) == pre.bucket(e2));
                        let m = post.bucket(e2)[j];
                        assert(pre.entropy_of(m as int) == e2);
                        assert(m != index) by {
                            if m == index {
                                assert(pre.entropy_of(index as int) == e2);
                            }
                        }
                    }
                }
                assert forall|i: usize|
                    i < post.len_spec() && !post.is_collapsed(i as int) implies #[trigger] post.bucket(
                    post.entropy_of(i as int),
                ).contains(i) by {
                    assert(i != index);
                    assert(pre.entropy_of(i as int) == post.entropy_of(i as int));
                    assert(pre.bucket(pre.entropy_of(i as int)).contains(i));
                    pre.lemma_entropy_le_nv(i as int);
                    if pre.entropy_of(i as int) == e0 {
                        assert(post.bucket(e0).contains(i));
                    }
                }
                assert forall|e2: int|
                    1 <= e2 <= post.num_variants implies distinct_seq(
                    #[trigger] post.bucket(e2),
                ) by {
                    if e2 != e0 {
                        assert(post.bucket(e2) == pre.bucket(e2));
                    }
                }
            }
            lemma_uncollapsed_collapse_one(pre.list@, post.list@, pre.len_spec(), index as int);
            assert(post.shrinks_from(pre)) by {
                assert(forall|i: int|
                    0 <= i < post.len_spec() && i != index ==> #[trigger] post.cell(i) == pre.cell(
                        i,
                    ));
                assert(seq![variant][0] == variant);
                assert forall|i: int, x: usize|
                    0 <= i < post.len_spec() && #[trigger] post.poss(i).contains(x) implies pre.poss(
                    i,
                ).contains(x) by {
                    if i == index {
                        assert(post.poss(i)[0] == variant);
                        assert(x == variant);
                    }
                }
            }
        }
    }
}

/// Appending a fresh value keeps a sequence distinct.
pub proof fn lemma_distinct_push(s: Seq<usize>, v: usize)
    requires
        distinct_seq(s),
        !s.contains(v),
    ensures
        distinct_seq(s.push(v)),
{
    assert forall|i: int, j: int| 0 <= i < j < s.push(v).len() implies s.push(v)[i] != s.push(
        v,
    )[j] by {
        if j == s.len() as int {
            assert(s.push(v)[j] == v);
            assert(s.push(v)[i] == s[i]);
            assert(s.contains(s[i]));
        }
    }
}

/// True when `pos` lies on the grid face a step in direction `d` would leave.
pub open spec fn on_face(pos: Seq<int>, size: Seq<usize>, d: int) -> bool {
    pos[d / 2] == if d % 2 == 0 {
        0int
    } else {
        size[d / 2] - 1
    }
}

/// The uncollapsed cell indices below `n` on the face of direction `d`, ascending.
pub open spec fn face_uncollapsed_upto(c: Cells, d: int, n: int) -> Seq<usize>
    decreases n,
{
    if n <= 0 {
        Seq::empty()
    } else {
        let prev = face_uncollapsed_upto(c, d, n - 1);
        if !c.is_collapsed(n - 1) && on_face(pos_of(n - 1, c.size@), c.size@, d) {
            prev.push((n - 1) as usize)
        } else {
            prev
        }
    }
}

/// Entries of the face list are exactly the in-range uncollapsed cells on the
/// face.
pub proof fn lemma_face_upto_props(c: Cells, d: int, n: int)
    requires
        0 <= n <= c.len_spec(),
        n <= usize::MAX,
    ensures
        forall|j: int|
            0 <= j < face_uncollapsed_upto(c, d, n).len() ==> (#[trigger] face_uncollapsed_upto(
                c,
                d,
                n,
            )[j]) < n && !c.is_collapsed(face_uncollapsed_upto(c, d, n)[j] as int) && on_face(
                pos_of(face_uncollapsed_upto(c, d, n)[j] as int, c.size@),
                c.size@,
                d,
            ),
        forall|m: usize|
            m < n && !c.is_collapsed(m as int) && on_face(pos_of(m as int, c.size@), c.size@, d)
                ==> #[trigger] face_uncollapsed_upto(c, d, n).contains(m),
    decreases n,
{
    if n > 0 {
        lemma_face_upto_props(c, d, n - 1);
        let prev = face_uncollapsed_upto(c, d, n - 1);
        let cur = face_uncollapsed_upto(c, d, n);
        if !c.is_collapsed(n - 1) && on_face(pos_of(n - 1, c.size@), c.size@, d) {
            assert(forall|j: int| 0 <= j < prev.len() ==> cur[j] == #[trigger] prev[j]);
            assert(cur[cur.len() - 1] == (n - 1) as usize);
            assert forall|m: usize|
                m < n && !c.is_collapsed(m as int) && on_face(
                    pos_of(m as int, c.size@),
                    c.size@,
                    d,
                ) implies #[trigger] cur.contains(m) by {
                if (m as int) < n - 1 {
                    assert(prev.contains(m));
                    let j = choose|j: int| 0 <= j < prev.len() && #[trigger] prev[j] == m;
                    assert(cur[j] == m);
                } else {
                    assert(cur[cur.len() - 1] == m);
                }
            }
        } else {
            assert forall|m: usize|
                m < n && !c.is_collapsed(m as int) && on_face(
                    pos_of(m as int, c.size@),
                    c.size@,
                    d,
                ) implies #[trigger] cur.contains(m) by {
                assert((m as int) < n - 1);
                assert(prev.contains(m));
                let j = choose|j: int| 0 <= j < prev.len() && #[trigger] prev[j] == m;
                assert(cur[j] == m);
            }
        }
    }
}

impl Cells {
    /// Removes `variant` from the candidates of the uncollapsed cell at
    /// `index`, keeping the entropy buckets in step. Fails without changing
    /// anything when the variant is the cell's only remaining candidate.
    #[verifier::rlimit(60)]
    pub fn remove_variant(&mut self, index: usize, variant: usize) -> (r: Result<(), Error>)
        requires
            old(self).wf(),
            index < old(self).len_spec(),
            !old(self).is_collapsed(index as int),
        ensures
            final(self).size == old(self).size,
            final(self).num_variants == old(self).num_variants,
            match r {
                Ok(_) => {
                    &&& final(self).wf()
                    &&& final(self).shrinks_from(*old(self))
                    &&& !final(self).is_collapsed(index as int)
                    &&& final(self).poss(index as int) == removed_value(
                        old(self).poss(index as int),
                        variant,
                    )
                    &&& !final(self).poss(index as int).contains(variant)
                    &&& forall|i: int|
                        0 <= i < final(self).len_spec() && i != index ==> final(self).cell(i)
                            == old(self).cell(i)
                    &&& final(self).uncollapsed_count() == old(self).uncollapsed_count()
                    &&& old(self).poss(index as int) != seq![variant]
                },
                Err(e) => {
                    &&& e is NoPossibilities
                    &&& old(self).poss(index as int) == seq![variant]
                    &&& *final(self) == *old(self)
                },
            },
    {
        proof {
            old(self).lemma_entropy_le_nv(index as int);
        }
        let only_one = self.list[index].possibilities.len() == 1;
        if only_one && self.list[index].possibilities[0] == variant {
            proof {
                assert(old(self).poss(index as int) =~= seq![variant]);
            }
            return Err(Error::NoPossibilities);
        }
        proof {
            assert(old(self).poss(index as int) != seq![variant]) by {
                if old(self).poss(index as int) == seq![variant] {
                    assert(old(self).poss(index as int)[0] == variant);
                }
            }
            assert(old(self).bucket(old(self).entropy_of(index as int)).contains(index)) by {
                assert(!old(self).is_collapsed(index as int));
            }
        }
        let e0 = self.list[index].entropy;
        proof {
            assert(old(self).cell(index as int).wf(
                index as int,
                old(self).size@,
                old(self).num_variants as int,
            ));
        }
        let cell = &mut self.list[index];
        cell.remove_variant(variant);
        let e1 = self.list[index].entropy;
        proof {
            let pre = *old(self);
            let p0 = pre.poss(index as int);
            if p0.contains(variant) {
                assert(p0.len() >= 2) by {
                    if p0.len() == 1 {
                        assert(p0[0] == variant);
                        assert(p0 =~= seq![variant]);
                    }
                }
            }
            assert(1 <= e1 <= pre.num_variants);
        }
        self.entropy_cache.set(e0, index, e1);
        proof {
            let pre = *old(self);
            let post = *self;
            let ghost ie = index as int;
            let ghost b0 = pre.entropy_of(ie);
            let ghost b1 = e1 as int;
            lemma_swap_removed_props(pre.bucket(b0), index);
            assert(post.cells_wf()) by {
                assert forall|i: int| 0 <= i < post.len_spec() implies (#[trigger] post.cell(
                    i,
                )).wf(i, post.size@, post.num_variants as int) by {
                    assert(pre.cell(i).wf(i, pre.size@, pre.num_variants as int));
                    if i == ie {
                        assert forall|t: int|
                            0 <= t < post.cell(i).possibilities@.len() implies #[trigger] post.cell(
                            i,
                        ).possibilities@[t] < post.num_variants by {
                            assert(post.poss(i)[t] == post.cell(i).possibilities@[t]);
                            assert(post.poss(i).contains(post.poss(i)[t]));
                            assert(pre.poss(i).contains(post.poss(i)[t]));
                            let u = choose|u: int|
                                0 <= u < pre.poss(i).len() && #[trigger] pre.poss(i)[u]
                                    == post.poss(i)[t];
                        }
                        assert(post.cell(i).wf(i, post.size@, post.num_variants as int));
                    } else {
                        assert(post.cell(i) == pre.cell(i));
                        assert(post.cell(i).wf(i, post.size@, post.num_variants as int));
                    }
                }
            }
            if b0 != b1 {
                assert(!pre.bucket(b1).contains(index)) by {
                    if pre.bucket(b1).contains(index) {
                        pre.lemma_entropy_bucket_soundness(index, b1);
                    }
                }
                lemma_distinct_push(pre.bucket(b1), index);
            } else {
                lemma_distinct_push(swap_removed(pre.bucket(b0), index), index);
            }
            assert(post.cache_wf()) by {
                assert forall|e2: int, j: int|
                    1 <= e2 <= post.num_variants && 0 <= j < post.bucket(e2).len() implies (
                #[trigger] post.bucket(e2)[j]) < post.len_spec() && post.entropy_of(
                    post.bucket(e2)[j] as int,
                ) == e2 by {
                    let m = post.bucket(e2)[j];
                    assert(post.bucket(e2).contains(m));
                    if e2 == b1 {
                        if m == index {
                        } else {
                            assert(pre.bucket(b1).contains(m) || swap_removed(
                                pre.bucket(b0),
                                index,
                            ).contains(m));
                            assert(pre.bucket(b1).contains(m) || pre.bucket(b0).contains(m));
                            if pre.bucket(b1).contains(m) {
                                pre.lemma_entropy_bucket_soundness(m, b1);
                            } else {
                                pre.lemma_entropy_bucket_soundness(m, b0);
                                assert(b0 == b1);
                            }
                        }
                    } else if e2 == b0 {
                        assert(post.bucket(e2) == swap_removed(pre.bucket(b0), index));
                        assert(pre.bucket(b0).contains(m) && m != index);
                        pre.lemma_entropy_bucket_soundness(m, b0);
                    } else {
                        assert(post.bucket(e2) == pre.bucket(e2));
                        pre.lemma_entropy_bucket_soundness(m, e2);
                        assert(m != index);
                    }
                }
                assert forall|i: usize|
                    i < post.len_spec() && !post.is_collapsed(i as int) implies #[trigger] post.bucket(
                    post.entropy_of(i as int),
                ).contains(i) by {
                    if i == index {
                        assert(post.bucket(b1).last() == index);
                        assert(post.bucket(b1).contains(index));
                    } else {
                        assert(pre.entropy_of(i as int) == post.entropy_of(i as int));
                        assert(pre.bucket(pre.entropy_of(i as int)).contains(i));
                        pre.lemma_entropy_le_nv(i as int);
                        let ei = pre.entropy_of(i as int);
                        if ei == b0 && (b0 != b1 || true) {
                            assert(swap_removed(pre.bucket(b0), index).contains(i));
                            if b0 == b1 {
                                let sr = swap_removed(pre.bucket(b0), index);
                                let t = choose|t: int|
                                    0 <= t < sr.len() && #[trigger] sr[t] == i;
                                assert(sr.push(index)[t] == i);
                                assert(post.bucket(b1).contains(i));
                            }
                        } else if ei == b1 {
                            let t = choose|t: int|
                                0 <= t < pre.bucket(b1).len() && #[trigger] pre.bucket(b1)[t]
                                    == i;
                            assert(post.bucket(b1)[t] == i);
                        }
                    }
                }
                assert forall|e2: int|
                    1 <= e2 <= post.num_variants implies distinct_seq(
                    #[trigger] post.bucket(e2),
                ) by {
                    if e2 == b1 {
                    } else if e2 == b0 {
                    } else {
                        assert(post.bucket(e2) == pre.bucket(e2));
                    }
                }
            }
            lemma_uncollapsed_congruence(pre.list@, post.list@, pre.len_spec());
            assert(post.shrinks_from(pre)) by {
                assert forall|i: int, x: usize|
                    0 <= i < post.len_spec() && #[trigger] post.poss(i).contains(x) implies pre.poss(
                    i,
                ).contains(x) by {
                    if i != ie {
                        assert(post.cell(i) == pre.cell(i));
                    }
                }
            }
        }
        Ok(())
    }

    /// The uncollapsed cells on the grid face that direction `dir` exits,
    /// in ascending index order.
    pub fn uncollapsed_indexes_along_dir(&self, dir: usize) -> (r: Vec<usize>)
        requires
            self.wf(),
            dir < 2 * self.size@.len(),
        ensures
            r@ == face_uncollapsed_upto(*self, dir as int, self.len_spec()),
    {
        let mut out: Vec<usize> = Vec::new();
        let total = self.list.len();
        let axis = dir / 2;
        let mut i: usize = 0;
        while i < total
            invariant
                0 <= i <= total,
                total == self.len_spec(),
                self.wf(),
                dir < 2 * self.size@.len(),
                axis == dir / 2,
                out@ == face_uncollapsed_upto(*self, dir as int, i as int),
            decreases total - i,
        {
            let cell = &self.list[i];
            proof {
                assert(self.cell(i as int).wf(i as int, self.size@, self.num_variants as int));
                lemma_index_of_pos_of(i as int, self.size@);
            }
            if !cell.collapsed() {
                let c = cell.position.coord(axis);
                let ext = self.size.extent(axis);
                let hit = if dir % 2 == 0 {
                    c == 0
                } else {
                    c as usize == ext - 1
                };
                if hit {
                    out.push(i);
                }
                proof {
                    assert(cell.position@[axis as int] == pos_of(i as int, self.size@)[axis as int]);
                    assert(hit == on_face(pos_of(i as int, self.size@), self.size@, dir as int));
                }
            }
            i = i + 1;
        }
        out
    }
}

impl Cells {
    /// Replacing one uncollapsed cell's candidates by a nonempty subset, with
    /// the matching entropy-bucket move, preserves well-formedness, shrinks
    /// the grid, and leaves the uncollapsed count unchanged.
    #[verifier::rlimit(80)]
    pub proof fn lemma_reduce_wf(pre: Cells, post: Cells, i: usize, moved: bool)
        requires
            pre.wf(),
            i < pre.len_spec(),
            !pre.is_collapsed(i as int),
            post.size == pre.size,
            post.num_variants == pre.num_variants,
            post.len_spec() == pre.len_spec(),
            forall|j: int| 0 <= j < post.len_spec() && j != i ==> post.cell(j) == pre.cell(j),
            post.cell(i as int).position == pre.cell(i as int).position,
            post.cell(i as int).neighbors == pre.cell(i as int).neighbors,
            sorted_distinct(post.poss(i as int)),
            post.poss(i as int).len() >= 1,
            forall|v: usize| #[trigger]
                post.poss(i as int).contains(v) ==> pre.poss(i as int).contains(v),
            post.entropy_of(i as int) == post.poss(i as int).len(),
            post.entropy_cache.max_entropy() == pre.entropy_cache.max_entropy(),
            moved ==> {
                &&& post.entropy_of(i as int) != pre.entropy_of(i as int)
                &&& post.bucket(pre.entropy_of(i as int)) == swap_removed(
                    pre.bucket(pre.entropy_of(i as int)),
                    i,
                )
                &&& post.bucket(post.entropy_of(i as int)) == pre.bucket(
                    post.entropy_of(i as int),
                ).push(i)
                &&& forall|e: int|
                    1 <= e <= pre.num_variants && e != pre.entropy_of(i as int) && e
                        != post.entropy_of(i as int) ==> #[trigger] post.bucket(e) == pre.bucket(
                        e,
                    )
            },
            !moved ==> {
                &&& post.entropy_of(i as int) == pre.entropy_of(i as int)
                &&& forall|e: int|
                    1 <= e <= pre.num_variants ==> #[trigger] post.bucket(e) == pre.bucket(e)
            },
        ensures
            post.wf(),
            post.shrinks_from(pre),
            post.uncollapsed_count() == pre.uncollapsed_count(),
    {
        let ii = i as int;
        let e0 = pre.entropy_of(ii);
        let e1 = post.entropy_of(ii);
        pre.lemma_entropy_le_nv(ii);
        assert(1 <= e1 <= pre.num_variants) by {
            let p = post.poss(ii);
            lemma_sorted_at_least(p, p.len() - 1);
            assert(p.contains(p[p.len() - 1]));
            assert(pre.poss(ii).contains(p[p.len() - 1]));
            let u = choose|u: int|
                0 <= u < pre.poss(ii).len() && #[trigger] pre.poss(ii)[u] == p[p.len() - 1];
            assert(pre.cell(ii).wf(ii, pre.size@, pre.num_variants as int));
        }
        assert(post.cells_wf()) by {
            assert forall|j: int| 0 <= j < post.len_spec() implies (#[trigger] post.cell(j)).wf(
                j,
                post.size@,
                post.num_variants as int,
            ) by {
                assert(pre.cell(j).wf(j, pre.size@, pre.num_variants as int));
                if j == ii {
                    assert forall|t: int|
                        0 <= t < post.cell(j).possibilities@.len() implies #[trigger] post.cell(
                        j,
                    ).possibilities@[t] < post.num_variants by {
                        assert(post.poss(j)[t] == post.cell(j).possibilities@[t]);
                        assert(post.poss(j).contains(post.poss(j)[t]));
                        assert(pre.poss(j).contains(post.poss(j)[t]));
                        let u = choose|u: int|
                            0 <= u < pre.poss(j).len() && #[trigger] pre.poss(j)[u] == post.poss(
                                j,
                            )[t];
                    }
                    assert(post.cell(j).wf(j, post.size@, post.num_variants as int));
                } else {
                    assert(post.cell(j) == pre.cell(j));
                    assert(post.cell(j).wf(j, post.size@, post.num_variants as int));
                }
            }
        }
        if moved {
            lemma_swap_removed_props(pre.bucket(e0), i);
            assert(!pre.bucket(e1).contains(i)) by {
                if pre.bucket(e1).contains(i) {
                    pre.lemma_entropy_bucket_soundness(i, e1);
                }
            }
            lemma_distinct_push(pre.bucket(e1), i);
        }
        assert(post.cache_wf()) by {
            assert forall|e2: int, j: int|
                1 <= e2 <= post.num_variants && 0 <= j < post.bucket(e2).len() implies (
            #[trigger] post.bucket(e2)[j]) < post.len_spec() && post.entropy_of(
                post.bucket(e2)[j] as int,
            ) == e2 by {
                let m = post.bucket(e2)[j];
                assert(post.bucket(e2).contains(m));
                if !moved {
                    assert(post.bucket(e2) == pre.bucket(e2));
                    pre.lemma_entropy_bucket_soundness(m, e2);
                    if m != i {
                        assert(post.cell(m as int) == pre.cell(m as int));
                    }
                } else {
                    if e2 == e1 {
                        if m == i {
                        } else {
                            assert(pre.bucket(e1).contains(m)) by {
                                let t = choose|t: int|
                                    0 <= t < post.bucket(e1).len() && #[trigger] post.bucket(
                                        e1,
                                    )[t] == m;
                                assert(t < pre.bucket(e1).len());
                                assert(pre.bucket(e1)[t] == m);
                            }
                            pre.lemma_entropy_bucket_soundness(m, e1);
                            assert(post.cell(m as int) == pre.cell(m as int));
                        }
                    } else if e2 == e0 {
                        assert(post.bucket(e2) == swap_removed(pre.bucket(e0), i));
                        assert(pre.bucket(e0).contains(m) && m != i);
                        pre.lemma_entropy_bucket_soundness(m, e0);
                        assert(post.cell(m as int) == pre.cell(m as int));
                    } else {
                        assert(post.bucket(e2) == pre.bucket(e2));
                        pre.lemma_entropy_bucket_soundness(m, e2);
                        assert(m != i);
                        assert(post.cell(m as int) == pre.cell(m as int));
                    }
                }
            }
            assert forall|m: usize|
                m < post.len_spec() && !post.is_collapsed(m as int) implies #[trigger] post.bucket(
                post.entropy_of(m as int),
            ).contains(m) by {
                if m == i {
                    if moved {
                        assert(post.bucket(e1).last() == i);
                        assert(post.bucket(e1).contains(i));
                    } else {
                        assert(pre.bucket(e0).contains(i));
                    }
                } else {
                    assert(post.cell(m as int) == pre.cell(m as int));
                    assert(pre.entropy_of(m as int) == post.entropy_of(m as int));
                    assert(!pre.is_collapsed(m as int));
                    assert(pre.bucket(pre.entropy_of(m as int)).contains(m));
                    pre.lemma_entropy_le_nv(m as int);
                    let em = pre.entropy_of(m as int);
                    if moved {
                        if em == e0 {
                            assert(swap_removed(pre.bucket(e0), i).contains(m));
                        } else if em == e1 {
                            let t = choose|t: int|
                                0 <= t < pre.bucket(e1).len() && #[trigger] pre.bucket(e1)[t]
                                    == m;
                            assert(post.bucket(e1)[t] == m);
                        }
                    }
                }
            }
            assert forall|e2: int|
                1 <= e2 <= post.num_variants implies distinct_seq(#[trigger] post.bucket(e2)) by {
                if moved {
                    if e2 == e1 {
                    } else if e2 == e0 {
                    } else {
                        assert(post.bucket(e2) == pre.bucket(e2));
                    }
                } else {
                    assert(post.bucket(e2) == pre.bucket(e2));
                }
            }
        }
        assert forall|j: int|
            0 <= j < pre.len_spec() implies ((#[trigger] pre.list@[j].entropy == 0)
            <==> post.list@[j].entropy == 0) by {
            if j != i as int {
                assert(post.cell(j) == pre.cell(j));
            }
        }
        lemma_uncollapsed_congruence(pre.list@, post.list@, pre.len_spec());
        assert(post.shrinks_from(pre)) by {
            assert forall|j: int, x: usize|
                0 <= j < post.len_spec() && #[trigger] post.poss(j).contains(x) implies pre.poss(
                j,
            ).contains(x) by {
                if j != ii {
                    assert(post.cell(j) == pre.cell(j));
                }
            }
        }
    }
}

/// Every neighbor entry names an in-bounds cell: the index of the stepped
/// position, with a direction id below `d`, and never the cell's own index.
pub proof fn lemma_neighbors_props(own: int, size: Seq<usize>, d: int)
    requires
        extents_pos(size),
        0 <= own < product(size),
        product(size) <= usize::MAX,
        0 <= d <= 2 * size.len(),
        d <= usize::MAX,
    ensures
        forall|j: int|
            0 <= j < neighbors_upto(pos_of(own, size), size, d).len() ==> {
                let e = #[trigger] neighbors_upto(pos_of(own, size), size, d)[j];
                &&& e.1 < d
                &&& in_bounds(stepped(pos_of(own, size), e.1 as int), size)
                &&& e.0 == index_of(stepped(pos_of(own, size), e.1 as int), size)
                &&& 0 <= e.0 < product(size)
                &&& e.0 != own
            },
    decreases d,
{
    let pos = pos_of(own, size);
    lemma_index_of_pos_of(own, size);
    if d > 0 {
        lemma_neighbors_props(own, size, d - 1);
        let prev = neighbors_upto(pos, size, d - 1);
        let cur = neighbors_upto(pos, size, d);
        let np = stepped(pos, d - 1);
        if in_bounds(np, size) {
            assert(forall|j: int| 0 <= j < prev.len() ==> cur[j] == #[trigger] prev[j]);
            lemma_index_of_bounds(np, size);
            let ni = index_of(np, size);
            assert(cur[cur.len() - 1] == (ni as usize, (d - 1) as usize));
            assert(ni != own) by {
                if ni == own {
                    lemma_pos_of_index_of(np, size);
                    assert(pos_of(ni, size) == np);
                    let axis = (d - 1) / 2;
                    assert(np[axis] == pos[axis] + dir_offset(d - 1));
                    assert(np[axis] != pos[axis]);
                }
            }
        } else {
            assert(forall|j: int| 0 <= j < prev.len() ==> cur[j] == #[trigger] prev[j]);
        }
    }
}

/// A sorted distinct subset is no longer than its superset, and a subset of
/// equal length is the same sequence.
pub proof fn lemma_sorted_subset_le(a: Seq<usize>, b: Seq<usize>)
    requires
        sorted_distinct(a),
        sorted_distinct(b),
        forall|x: usize| #[trigger] a.contains(x) ==> b.contains(x),
    ensures
        a.len() <= b.len(),
        a.len() == b.len() ==> a == b,
    decreases a.len(),
{
    if a.len() > 0 {
        let last = a[a.len() - 1];
        assert(a.contains(last));
        assert(b.contains(last));
        let j = choose|j: int| 0 <= j < b.len() && #[trigger] b[j] == last;
        let a2 = a.drop_last();
        let b2 = b.take(j);
        assert(sorted_distinct(a2)) by {
            assert(forall|p: int, q: int| 0 <= p < q < a2.len() ==> a2[p] == a[p] && a2[q] == a[q]);
        }
        assert(sorted_distinct(b2)) by {
            assert(forall|p: int, q: int| 0 <= p < q < b2.len() ==> b2[p] == b[p] && b2[q] == b[q]);
        }
        assert forall|x: usize| #[trigger] a2.contains(x) implies b2.contains(x) by {
            let p = choose|p: int| 0 <= p < a2.len() && #[trigger] a2[p] == x;
            assert(a[p] == x);
            assert(x < last);
            assert(a.contains(x));
            assert(b.contains(x));
            let q = choose|q: int| 0 <= q < b.len() && #[trigger] b[q] == x;
            assert(q < j) by {
                if q > j {
                    assert(b[j] < b[q]);
                } else if q == j {
                }
            }
            assert(b2[q] == x);
        }
        lemma_sorted_subset_le(a2, b2);
        assert(a.len() - 1 <= j);
        if a.len() == b.len() {
            assert(j == b.len() - 1);
            assert(a2.len() == b2.len());
            assert(a2 == b2);
            assert(b2 =~= b.drop_last());
            assert(a =~= b) by {
                assert(forall|p: int| 0 <= p < a.len() - 1 ==> a[p] == a2[p] && b[p] == b2[p]);
            }
        }
    }
}

impl Cells {
    /// Two grids with the same field values and pointwise equal cell lists
    /// are interchangeable for well-formedness and shrinkage.
    pub proof fn lemma_view_eq_wf(pre: Cells, post: Cells)
        requires
            pre.wf(),
            post.size == pre.size,
            post.num_variants == pre.num_variants,
            post.entropy_cache == pre.entropy_cache,
            post.list@ == pre.list@,
        ensures
            post.wf(),
            post.shrinks_from(pre),
            post.uncollapsed_count() == pre.uncollapsed_count(),
    {
        assert(post.cells_wf()) by {
            assert forall|i: int| 0 <= i < post.len_spec() implies (#[trigger] post.cell(i)).wf(
                i,
                post.size@,
                post.num_variants as int,
            ) by {
                assert(post.cell(i) == pre.cell(i));
                assert(pre.cell(i).wf(i, pre.size@, pre.num_variants as int));
            }
        }
        assert(post.cache_wf()) by {
            assert forall|e: int, j: int|
                1 <= e <= post.num_variants && 0 <= j < post.bucket(e).len() implies (
            #[trigger] post.bucket(e)[j]) < post.len_spec() && post.entropy_of(
                post.bucket(e)[j] as int,
            ) == e by {
                assert(post.bucket(e) == pre.bucket(e));
                assert(pre.bucket(e)[j] < pre.len_spec() && pre.entropy_of(
                    pre.bucket(e)[j] as int,
                ) == e);
                assert(post.cell(pre.bucket(e)[j] as int) == pre.cell(pre.bucket(e)[j] as int));
            }
            assert forall|m: usize|
                m < post.len_spec() && !post.is_collapsed(m as int) implies #[trigger] post.bucket(
                post.entropy_of(m as int),
            ).contains(m) by {
                assert(post.cell(m as int) == pre.cell(m as int));
                assert(pre.bucket(pre.entropy_of(m as int)).contains(m));
            }
            assert forall|e: int|
                1 <= e <= post.num_variants implies distinct_seq(#[trigger] post.bucket(e)) by {
                assert(post.bucket(e) == pre.bucket(e));
            }
        }
        assert forall|j: int|
            0 <= j < pre.len_spec() implies ((#[trigger] pre.list@[j].entropy == 0)
            <==> post.list@[j].entropy == 0) by {
            assert(post.list@[j] == pre.list@[j]);
        }
        lemma_uncollapsed_congruence(pre.list@, post.list@, pre.len_spec());
        assert(post.shrinks_from(pre)) by {
            assert forall|i: int, x: usize|
                0 <= i < post.len_spec() && #[trigger] post.poss(i).contains(x) implies pre.poss(
                i,
            ).contains(x) by {
                assert(post.cell(i) == pre.cell(i));
            }
            assert(forall|i: int|
                0 <= i < post.len_spec() ==> #[trigger] post.cell(i) == pre.cell(i));
        }
    }
}

/// With pointwise more collapsing, the uncollapsed count can only drop.
pub proof fn lemma_uncollapsed_mono(a: Seq<Cell>, b: Seq<Cell>, n: int)
    requires
        forall|j: int| 0 <= j < n ==> ((#[trigger] a[j].entropy == 0) ==> b[j].entropy == 0),
    ensures
        uncollapsed_in(b, n) <= uncollapsed_in(a, n),
    decreases n,
{
    if n > 0 {
        lemma_uncollapsed_mono(a, b, n - 1);
    }
}

/// With pointwise more collapsing but an equal count, collapsedness agrees
/// everywhere.
pub proof fn lemma_uncollapsed_pointwise(a: Seq<Cell>, b: Seq<Cell>, n: int)
    requires
        forall|j: int| 0 <= j < n ==> ((#[trigger] a[j].entropy == 0) ==> b[j].entropy == 0),
        uncollapsed_in(a, n) == uncollapsed_in(b, n),
    ensures
        forall|j: int| 0 <= j < n ==> ((#[trigger] a[j].entropy == 0) <==> b[j].entropy == 0),
    decreases n,
{
    if n > 0 {
        lemma_uncollapsed_mono(a, b, n - 1);
        lemma_uncollapsed_pointwise(a, b, n - 1);
    }
}

} // verus!
