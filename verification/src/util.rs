//! Grid geometry: sizes, signed and unsigned positions, and the column-major
//! conversion between positions and flat cell indices (axis 0 varies fastest).

use vstd::prelude::*;

verus! {

/// Product of a sequence of extents; 1 for the empty sequence.
pub open spec fn product(s: Seq<usize>) -> int
    decreases s.len(),
{
    if s.len() == 0 {
        1
    } else {
        s[0] * product(s.drop_first())
    }
}

/// Column-major flat index of `pos` in a grid of the given extents
/// (Horner form: axis 0 varies fastest).
pub open spec fn index_of(pos: Seq<int>, size: Seq<usize>) -> int
    decreases pos.len(),
{
    if pos.len() == 0 {
        0
    } else {
        pos[0] + size[0] * index_of(pos.drop_first(), size.drop_first())
    }
}

/// The position whose column-major flat index is `i`.
pub open spec fn pos_of(i: int, size: Seq<usize>) -> Seq<int>
    decreases size.len(),
{
    if size.len() == 0 {
        Seq::empty()
    } else {
        seq![i % (size[0] as int)].add(pos_of(i / (size[0] as int), size.drop_first()))
    }
}

/// All extents are at least 1.
pub open spec fn extents_pos(s: Seq<usize>) -> bool {
    forall|k: int| 0 <= k < s.len() ==> s[k] >= 1
}

/// `pos` has one coordinate per axis and each lies within the extents.
pub open spec fn in_bounds(pos: Seq<int>, size: Seq<usize>) -> bool {
    &&& pos.len() == size.len()
    &&& forall|k: int| 0 <= k < pos.len() ==> 0 <= #[trigger] pos[k] < size[k]
}

pub proof fn lemma_product_pos(s: Seq<usize>)
    requires
        extents_pos(s),
    ensures
        product(s) >= 1,
    decreases s.len(),
{
    if s.len() > 0 {
        assert(extents_pos(s.drop_first()));
        lemma_product_pos(s.drop_first());
        assert(product(s) == s[0] * product(s.drop_first()));
        assert(s[0] * product(s.drop_first()) >= 1) by (nonlinear_arith)
            requires
                s[0] >= 1,
                product(s.drop_first()) >= 1,
        ;
    }
}

/// A flat index is within `0..product` exactly when its position is in bounds.
pub proof fn lemma_index_of_bounds(pos: Seq<int>, size: Seq<usize>)
    requires
        in_bounds(pos, size),
        extents_pos(size),
    ensures
        0 <= index_of(pos, size) < product(size),
    decreases pos.len(),
{
    if pos.len() == 0 {
        assert(product(size) == 1);
    } else {
        assert(in_bounds(pos.drop_first(), size.drop_first())) by {
            assert(forall|k: int|
                0 <= k < pos.drop_first().len() ==> pos.drop_first()[k] == pos[k + 1]);
        }
        assert(extents_pos(size.drop_first()));
        lemma_index_of_bounds(pos.drop_first(), size.drop_first());
        let rest = index_of(pos.drop_first(), size.drop_first());
        let prest = product(size.drop_first());
        assert(0 <= pos[0] < size[0]);
        assert(pos[0] + size[0] * rest >= 0) by (nonlinear_arith)
            requires
                pos[0] >= 0,
                size[0] >= 1,
                rest >= 0,
        ;
        assert(pos[0] + size[0] * rest < size[0] * prest) by (nonlinear_arith)
            requires
                pos[0] < size[0],
                0 <= rest,
                rest < prest,
                size[0] >= 1,
        ;
    }
}

/// Round trip: converting an in-range index to a position and back is the identity.
pub proof fn lemma_index_of_pos_of(i: int, size: Seq<usize>)
    requires
        extents_pos(size),
        0 <= i < product(size),
    ensures
        index_of(pos_of(i, size), size) == i,
        in_bounds(pos_of(i, size), size),
    decreases size.len(),
{
    if size.len() == 0 {
        assert(product(size) == 1);
    } else {
        let s0 = size[0] as int;
        let q = i / s0;
        let r = i % s0;
        vstd::arithmetic::div_mod::lemma_fundamental_div_mod(i, s0);
        vstd::arithmetic::div_mod::lemma_mod_bound(i, s0);
        assert(extents_pos(size.drop_first()));
        lemma_product_pos(size.drop_first());
        let prest = product(size.drop_first());
        assert(0 <= q < prest) by (nonlinear_arith)
            requires
                i == s0 * q + r,
                0 <= r < s0,
                0 <= i,
                i < s0 * prest,
                s0 >= 1,
                prest >= 1,
        ;
        lemma_index_of_pos_of(q, size.drop_first());
        let p = pos_of(i, size);
        assert(p[0] == r);
        assert(p.drop_first() =~= pos_of(q, size.drop_first()));
        assert(index_of(p, size) == r + s0 * q);
        assert(in_bounds(p, size)) by {
            let prest_pos = pos_of(q, size.drop_first());
            assert(forall|k: int| 1 <= k < p.len() ==> p[k] == prest_pos[k - 1]);
        }
    }
}

/// Splitting a sequence of extents splits its product.
pub proof fn lemma_product_split(s: Seq<usize>, k: int)
    requires
        0 <= k <= s.len(),
    ensures
        product(s) == product(s.take(k)) * product(s.skip(k)),
    decreases k,
{
    if k == 0 {
        assert(s.take(0) =~= Seq::<usize>::empty());
        assert(s.skip(0) =~= s);
    } else {
        lemma_product_split(s.drop_first(), k - 1);
        assert(s.take(k).drop_first() =~= s.drop_first().take(k - 1));
        assert(s.drop_first().skip(k - 1) =~= s.skip(k));
        assert(product(s.take(k)) == s[0] * product(s.drop_first().take(k - 1)));
        let a = s[0] as int;
        let b = product(s.drop_first().take(k - 1));
        let c = product(s.skip(k));
        assert(a * (b * c) == (a * b) * c) by (nonlinear_arith);
    }
}

/// Each extent divides into the product, so none exceeds it.
pub proof fn lemma_extent_le_product(s: Seq<usize>, k: int)
    requires
        extents_pos(s),
        0 <= k < s.len(),
    ensures
        s[k] <= product(s),
{
    lemma_product_split(s, k);
    assert(s.skip(k)[0] == s[k]);
    assert(product(s.skip(k)) == s[k] * product(s.skip(k).drop_first()));
    assert(extents_pos(s.take(k))) by {
        assert(forall|j: int| 0 <= j < k ==> s.take(k)[j] == s[j]);
    }
    assert(extents_pos(s.skip(k).drop_first())) by {
        assert(forall|j: int|
            0 <= j < s.skip(k).drop_first().len() ==> s.skip(k).drop_first()[j] == s[k + 1 + j]);
    }
    lemma_product_pos(s.take(k));
    lemma_product_pos(s.skip(k).drop_first());
    assert(s[k] <= product(s)) by (nonlinear_arith)
        requires
            product(s) == product(s.take(k)) * (s[k] * product(s.skip(k).drop_first())),
            product(s.take(k)) >= 1,
            product(s.skip(k).drop_first()) >= 1,
            s[k] >= 1,
    ;
}

/// One more axis extends a prefix index by the coordinate times the running stride.
pub proof fn lemma_index_of_take_succ(pos: Seq<int>, size: Seq<usize>, k: int)
    requires
        pos.len() <= size.len(),
        0 <= k < pos.len(),
    ensures
        index_of(pos.take(k + 1), size.take(k + 1)) == index_of(pos.take(k), size.take(k)) + pos[k]
            * product(size.take(k)),
    decreases k,
{
    if k == 0 {
        assert(pos.take(1) =~= seq![pos[0]]);
        assert(pos.take(0) =~= Seq::<int>::empty());
        assert(index_of(pos.take(1), size.take(1)) == pos[0] + size[0] * index_of(
            Seq::<int>::empty(),
            Seq::<usize>::empty(),
        )) by {
            assert(pos.take(1).drop_first() =~= Seq::<int>::empty());
            assert(size.take(1).drop_first() =~= Seq::<usize>::empty());
        }
    } else {
        lemma_index_of_take_succ(pos.drop_first(), size.drop_first(), k - 1);
        assert(pos.take(k + 1).drop_first() =~= pos.drop_first().take(k));
        assert(size.take(k + 1).drop_first() =~= size.drop_first().take(k));
        assert(pos.take(k).drop_first() =~= pos.drop_first().take(k - 1));
        assert(size.take(k).drop_first() =~= size.drop_first().take(k - 1));
        assert(size.take(k) =~= seq![size[0]].add(size.drop_first().take(k - 1)));
        assert(product(size.take(k)) == size[0] * product(size.drop_first().take(k - 1))) by {
            assert(size.take(k).drop_first() =~= size.drop_first().take(k - 1));
        }
        let s0 = size[0] as int;
        let a = index_of(pos.drop_first().take(k - 1), size.drop_first().take(k - 1));
        let b = pos.drop_first()[k - 1] * product(size.drop_first().take(k - 1));
        assert(pos.drop_first()[k - 1] == pos[k]);
        assert(index_of(pos.take(k + 1), size.take(k + 1)) == pos[0] + s0 * (a + b));
        assert(index_of(pos.take(k), size.take(k)) == pos[0] + s0 * a);
        let pk = pos[k];
        let pr = product(size.drop_first().take(k - 1));
        assert(s0 * (a + pk * pr) == s0 * a + pk * (s0 * pr)) by (nonlinear_arith);
    }
}

/// Changing one coordinate moves the index by the change times that axis stride.
pub proof fn lemma_index_of_update(pos: Seq<int>, size: Seq<usize>, k: int, delta: int)
    requires
        pos.len() == size.len(),
        0 <= k < pos.len(),
    ensures
        index_of(pos.update(k, pos[k] + delta), size) == index_of(pos, size) + delta * product(
            size.take(k),
        ),
    decreases k,
{
    if k == 0 {
        assert(pos.update(0, pos[0] + delta).drop_first() =~= pos.drop_first());
        assert(size.take(0) =~= Seq::<usize>::empty());
    } else {
        lemma_index_of_update(pos.drop_first(), size.drop_first(), k - 1, delta);
        assert(pos.update(k, pos[k] + delta).drop_first() =~= pos.drop_first().update(
            k - 1,
            pos.drop_first()[k - 1] + delta,
        ));
        assert(size.take(k).drop_first() =~= size.drop_first().take(k - 1));
        assert(product(size.take(k)) == size[0] * product(size.drop_first().take(k - 1)));
        let s0 = size[0] as int;
        let a = index_of(pos.drop_first(), size.drop_first());
        let pr = product(size.drop_first().take(k - 1));
        assert(s0 * (a + delta * pr) == s0 * a + delta * (s0 * pr)) by (nonlinear_arith);
    }
}

/// Round trip: converting an in-bounds position to an index and back is the identity.
pub proof fn lemma_pos_of_index_of(pos: Seq<int>, size: Seq<usize>)
    requires
        in_bounds(pos, size),
        extents_pos(size),
    ensures
        pos_of(index_of(pos, size), size) =~= pos,
    decreases pos.len(),
{
    if pos.len() > 0 {
        let s0 = size[0] as int;
        assert(in_bounds(pos.drop_first(), size.drop_first())) by {
            assert(forall|k: int|
                0 <= k < pos.drop_first().len() ==> pos.drop_first()[k] == pos[k + 1]);
        }
        assert(extents_pos(size.drop_first()));
        lemma_index_of_bounds(pos.drop_first(), size.drop_first());
        let rest = index_of(pos.drop_first(), size.drop_first());
        let i = pos[0] + s0 * rest;
        vstd::arithmetic::div_mod::lemma_fundamental_div_mod_converse(i, s0, rest, pos[0]);
        assert(i % s0 == pos[0]);
        assert(i / s0 == rest);
        lemma_pos_of_index_of(pos.drop_first(), size.drop_first());
        assert(pos_of(i, size) =~= seq![pos[0]].add(pos_of(rest, size.drop_first())));
    }
}

/// A sequence of unsigned coordinates seen as mathematical integers.
pub open spec fn ints_of_usizes(s: Seq<usize>) -> Seq<int> {
    Seq::new(s.len(), |k: int| s[k] as int)
}

/// A sequence of signed coordinates seen as mathematical integers.
pub open spec fn ints_of_isizes(s: Seq<isize>) -> Seq<int> {
    Seq::new(s.len(), |k: int| s[k] as int)
}

/// One more extent multiplies the product of a prefix.
pub proof fn lemma_product_take_succ(s: Seq<usize>, k: int)
    requires
        0 <= k < s.len(),
    ensures
        product(s.take(k + 1)) == product(s.take(k)) * s[k],
{
    lemma_product_split(s.take(k + 1), k);
    assert(s.take(k + 1).take(k) =~= s.take(k));
    assert(s.take(k + 1).skip(k) =~= seq![s[k]]);
    assert(product(seq![s[k]]) == s[k] * product(Seq::<usize>::empty())) by {
        assert(seq![s[k]].drop_first() =~= Seq::<usize>::empty());
    }
}

/// The product of a prefix of the extents is positive and at most the whole product.
pub proof fn lemma_product_take_le(s: Seq<usize>, k: int)
    requires
        extents_pos(s),
        0 <= k <= s.len(),
    ensures
        1 <= product(s.take(k)),
        product(s.take(k)) <= product(s),
{
    assert(extents_pos(s.take(k))) by {
        assert(forall|j: int| 0 <= j < k ==> s.take(k)[j] == s[j]);
    }
    assert(extents_pos(s.skip(k))) by {
        assert(forall|j: int|
            0 <= j < s.skip(k).len() ==> #[trigger] s.skip(k)[j] == s[k + j]);
    }
    lemma_product_pos(s.take(k));
    lemma_product_pos(s.skip(k));
    lemma_product_split(s, k);
    assert(product(s.take(k)) <= product(s.take(k)) * product(s.skip(k))) by (nonlinear_arith)
        requires
            product(s.take(k)) >= 1,
            product(s.skip(k)) >= 1,
    ;
}

/// The extents of a finite grid, one positive extent per axis.
#[derive(Debug)]
pub struct Size {
    extents: Vec<usize>,
}

impl View for Size {
    type V = Seq<usize>;

    closed spec fn view(&self) -> Seq<usize> {
        self.extents@
    }
}

impl Clone for Size {
    fn clone(&self) -> (r: Self)
        ensures
            r@ == self@,
    {
        Size { extents: self.extents.clone() }
    }
}

impl Size {
    /// Every extent is positive and the cell count fits the machine.
    pub open spec fn wf(self) -> bool {
        &&& 1 <= self@.len() <= usize::MAX / 2
        &&& extents_pos(self@)
        &&& product(self@) <= isize::MAX as int
    }

    pub fn new(extents: Vec<usize>) -> (r: Self)
        requires
            1 <= extents@.len() <= usize::MAX / 2,
            extents_pos(extents@),
            product(extents@) <= isize::MAX as int,
        ensures
            r@ == extents@,
            r.wf(),
    {
        Size { extents }
    }

    /// The number of axes.
    pub fn dims(&self) -> (r: usize)
        ensures
            r == self@.len(),
    {
        self.extents.len()
    }

    pub fn extent(&self, k: usize) -> (r: usize)
        requires
            k < self@.len(),
        ensures
            r == self@[k as int],
    {
        self.extents[k]
    }

    /// The total number of cells: the product of the extents.
    pub fn len(&self) -> (r: usize)
        requires
            self.wf(),
        ensures
            r == product(self@),
    {
        let dim = self.extents.len();
        let mut acc: usize = 1;
        let mut k: usize = 0;
        while k < dim
            invariant
                0 <= k <= dim,
                dim == self@.len(),
                self.wf(),
                acc == product(self@.take(k as int)),
            decreases dim - k,
        {
            proof {
                lemma_product_take_succ(self@, k as int);
                lemma_product_take_le(self@, k as int + 1);
            }
            acc = acc * self.extents[k];
            k = k + 1;
        }
        proof {
            assert(self@.take(dim as int) =~= self@);
        }
        acc
    }

    /// True when the grid has no cells; never the case for positive extents.
    pub fn is_empty(&self) -> (r: bool)
        requires
            self.wf(),
        ensures
            r == (product(self@) == 0),
    {
        self.len() == 0
    }

    /// True when `pos` names a cell of this grid.
    pub fn contains(&self, pos: &IPos) -> (r: bool)
        ensures
            r == in_bounds(pos@, self@),
    {
        let dim = self.extents.len();
        if pos.coords.len() != dim {
            proof {
                assert(pos@.len() != self@.len());
            }
            return false;
        }
        let mut k: usize = 0;
        while k < dim
            invariant
                0 <= k <= dim,
                dim == self@.len(),
                pos@.len() == dim,
                forall|j: int| 0 <= j < k ==> 0 <= #[trigger] pos@[j] < self@[j],
            decreases dim - k,
        {
            let c = pos.coords[k];
            proof {
                assert(pos@[k as int] == c as int);
            }
            if c < 0 || c as usize >= self.extents[k] {
                proof {
                    assert(!(0 <= pos@[k as int] < self@[k as int]));
                }
                return false;
            }
            k = k + 1;
        }
        true
    }
}

/// A signed grid position; coordinates may step outside the grid.
#[derive(Debug)]
pub struct IPos {
    coords: Vec<isize>,
}

impl View for IPos {
    type V = Seq<int>;

    closed spec fn view(&self) -> Seq<int> {
        ints_of_isizes(self.coords@)
    }
}

impl Clone for IPos {
    fn clone(&self) -> (r: Self)
        ensures
            r@ == self@,
    {
        IPos { coords: self.coords.clone() }
    }
}

impl IPos {
    pub fn new(coords: Vec<isize>) -> (r: Self)
        ensures
            r@ == ints_of_isizes(coords@),
    {
        IPos { coords }
    }

    pub fn dims(&self) -> (r: usize)
        ensures
            r == self@.len(),
    {
        self.coords.len()
    }

    pub fn coord(&self, k: usize) -> (r: isize)
        requires
            k < self@.len(),
        ensures
            r == self@[k as int],
    {
        self.coords[k]
    }

    /// The position of the cell with the given flat index.
    pub fn from_index(index: usize, size: &Size) -> (r: Self)
        requires
            size.wf(),
            index < product(size@),
        ensures
            r@ == pos_of(index as int, size@),
            in_bounds(r@, size@),
    {
        let parts = from_index(index, size);
        let dim = parts.len();
        let mut coords: Vec<isize> = Vec::new();
        let mut k: usize = 0;
        while k < dim
            invariant
                0 <= k <= dim,
                dim == parts@.len(),
                parts@.len() == size@.len(),
                size.wf(),
                forall|j: int| 0 <= j < parts@.len() ==> #[trigger] parts@[j] < size@[j],
                coords@.len() == k,
                forall|j: int| 0 <= j < k ==> #[trigger] (coords@[j] as int) == parts@[j] as int,
            decreases dim - k,
        {
            let c = parts[k];
            proof {
                lemma_extent_le_product(size@, k as int);
            }
            coords.push(c as isize);
            k = k + 1;
        }
        proof {
            lemma_index_of_pos_of(index as int, size@);
            assert(forall|j: int|
                0 <= j < dim ==> #[trigger] ints_of_isizes(coords@)[j] == coords@[j] as int);
            assert(forall|j: int|
                0 <= j < dim ==> #[trigger] ints_of_usizes(parts@)[j] == parts@[j] as int);
            assert(ints_of_isizes(coords@) =~= ints_of_usizes(parts@));
        }
        IPos { coords }
    }

    /// The flat index of this in-bounds position.
    pub fn index(&self, size: &Size) -> (r: usize)
        requires
            size.wf(),
            in_bounds(self@, size@),
        ensures
            r == index_of(self@, size@),
    {
        let dim = self.coords.len();
        let mut parts: Vec<usize> = Vec::new();
        let mut k: usize = 0;
        while k < dim
            invariant
                0 <= k <= dim,
                dim == self@.len(),
                size.wf(),
                in_bounds(self@, size@),
                parts@.len() == k,
                forall|j: int| 0 <= j < k ==> #[trigger] parts@[j] == self@[j],
            decreases dim - k,
        {
            let c = self.coords[k];
            parts.push(c as usize);
            k = k + 1;
        }
        proof {
            assert(ints_of_usizes(parts@) =~= self@);
        }
        to_index(&parts, size)
    }

    /// Wraps each coordinate into the grid by Euclidean remainder.
    pub fn wrap(&self, size: &Size) -> (r: Self)
        requires
            size.wf(),
            self@.len() == size@.len(),
        ensures
            r@.len() == self@.len(),
            forall|k: int| 0 <= k < r@.len() ==> #[trigger] r@[k] == self@[k] % (size@[k] as int),
            in_bounds(r@, size@),
    {
        let dim = self.coords.len();
        let mut coords: Vec<isize> = Vec::new();
        let mut k: usize = 0;
        while k < dim
            invariant
                0 <= k <= dim,
                dim == self@.len(),
                self@.len() == size@.len(),
                size.wf(),
                coords@.len() == k,
                forall|j: int|
                    0 <= j < k ==> #[trigger] ints_of_isizes(coords@)[j] == self@[j] % (
                    size@[j] as int),
            decreases dim - k,
        {
            proof {
                lemma_extent_le_product(size@, k as int);
                assert(self@[k as int] == self.coords@[k as int] as int);
            }
            let ghost prev = coords@;
            let ghost old_k = k as int;
            let s = extent_isize(size, k);
            let w = crate::wrap(self.coords[k], s);
            coords.push(w);
            k = k + 1;
            proof {
                assert(forall|j: int|
                    0 <= j < coords@.len() ==> #[trigger] ints_of_isizes(coords@)[j]
                        == coords@[j] as int);
                assert(forall|j: int|
                    0 <= j < prev.len() ==> #[trigger] ints_of_isizes(prev)[j] == prev[j] as int);
                assert(forall|j: int| 0 <= j < old_k ==> #[trigger] coords@[j] == prev[j]);
                assert(coords@[old_k] == w);
                assert(forall|j: int|
                    0 <= j < k ==> #[trigger] ints_of_isizes(coords@)[j] == self@[j] % (
                    size@[j] as int)) by {
                    assert(forall|j: int|
                        0 <= j < old_k ==> ints_of_isizes(prev)[j] == self@[j] % (
                        #[trigger] size@[j] as int));
                }
            }
        }
        proof {
            assert(forall|j: int|
                0 <= j < dim ==> 0 <= #[trigger] ints_of_isizes(coords@)[j] < size@[j]) by {
                assert(forall|j: int| 0 <= j < dim ==> size@[j] as int > 0);
                assert(forall|j: int|
                    0 <= j < dim ==> 0 <= #[trigger] (self@[j] % (size@[j] as int)) < size@[j]);
            }
        }
        IPos { coords }
    }

    /// The flat index after wrapping into the grid; used to read external borders.
    pub fn index_in(&self, size: &Size) -> (r: usize)
        requires
            size.wf(),
            self@.len() == size@.len(),
        ensures
            r == index_of(self.wrapped_spec(size@), size@),
    {
        let w = self.wrap(size);
        proof {
            assert(w@ =~= self.wrapped_spec(size@));
        }
        w.index(size)
    }

    /// The coordinates wrapped into the grid by Euclidean remainder.
    pub open spec fn wrapped_spec(self, size: Seq<usize>) -> Seq<int> {
        Seq::new(self@.len(), |k: int| self@[k] % (size[k] as int))
    }

    /// Steps one cell along the axis `dir / 2`: down the axis for an even
    /// direction id, up for an odd one.
    pub fn add_dir(&self, dir: usize) -> (r: Self)
        requires
            dir < 2 * self@.len(),
            forall|k: int|
                0 <= k < self@.len() ==> isize::MIN < #[trigger] self@[k] < isize::MAX,
        ensures
            r@ == self@.update(dir as int / 2, self@[dir as int / 2] + dir_offset(dir as int)),
    {
        let axis = dir / 2;
        let mut coords = self.coords.clone();
        let c = coords[axis];
        proof {
            assert(c as int == self@[axis as int]);
            assert(isize::MIN < self@[axis as int] < isize::MAX);
        }
        if dir % 2 == 0 {
            coords.set(axis, c - 1);
        } else {
            coords.set(axis, c + 1);
        }
        proof {
            assert(ints_of_isizes(coords@) =~= self@.update(
                dir as int / 2,
                self@[dir as int / 2] + dir_offset(dir as int),
            ));
        }
        IPos { coords }
    }
}

/// The coordinate change of one step in direction `d`: even ids step toward
/// the negative end of the axis, odd ids toward the positive end.
pub open spec fn dir_offset(d: int) -> int {
    if d % 2 == 0 {
        -1
    } else {
        1
    }
}

/// An unsigned grid position.
#[derive(Debug)]
pub struct UPos {
    coords: Vec<usize>,
}

impl View for UPos {
    type V = Seq<usize>;

    closed spec fn view(&self) -> Seq<usize> {
        self.coords@
    }
}

impl Clone for UPos {
    fn clone(&self) -> (r: Self)
        ensures
            r@ == self@,
    {
        UPos { coords: self.coords.clone() }
    }
}

impl UPos {
    pub fn new(coords: Vec<usize>) -> (r: Self)
        ensures
            r@ == coords@,
    {
        UPos { coords }
    }

    pub fn from_index(index: usize, size: &Size) -> (r: Self)
        requires
            size.wf(),
            index < product(size@),
        ensures
            ints_of_usizes(r@) == pos_of(index as int, size@),
            in_bounds(ints_of_usizes(r@), size@),
    {
        proof {
            lemma_index_of_pos_of(index as int, size@);
        }
        UPos { coords: from_index(index, size) }
    }

    pub fn index(&self, size: &Size) -> (r: usize)
        requires
            size.wf(),
            in_bounds(ints_of_usizes(self@), size@),
        ensures
            r == index_of(ints_of_usizes(self@), size@),
    {
        to_index(&self.coords, size)
    }

    /// Converts a signed position; fails when any coordinate is negative.
    pub fn from_ipos(value: &IPos) -> (r: Result<UPos, crate::err::ConversionError>)
        ensures
            match r {
                Ok(u) => u@.len() == value@.len() && forall|k: int|
                    0 <= k < u@.len() ==> #[trigger] ints_of_usizes(u@)[k] == value@[k],
                Err(e) => {
                    &&& exists|k: int| 0 <= k < value@.len() && #[trigger] value@[k] < 0
                    &&& e matches crate::err::ConversionError::IPosToUPos(p) && p@ == value@
                },
            },
    {
        let dim = value.dims();
        let mut coords: Vec<usize> = Vec::new();
        let mut k: usize = 0;
        while k < dim
            invariant
                0 <= k <= dim,
                dim == value@.len(),
                coords@.len() == k,
                forall|j: int| 0 <= j < k ==> #[trigger] (coords@[j] as int) == value@[j],
            decreases dim - k,
        {
            let c = value.coord(k);
            if c < 0 {
                proof {
                    assert(value@[k as int] < 0);
                }
                return Err(crate::err::ConversionError::IPosToUPos(value.clone()));
            }
            coords.push(c as usize);
            k = k + 1;
        }
        proof {
            assert(forall|j: int|
                0 <= j < dim ==> #[trigger] ints_of_usizes(coords@)[j] == coords@[j] as int);
        }
        Ok(UPos { coords })
    }
}

/// Converts in-bounds coordinates to the column-major flat index, axis 0 fastest.
pub fn to_index(pos: &Vec<usize>, size: &Size) -> (r: usize)
    requires
        size.wf(),
        in_bounds(ints_of_usizes(pos@), size@),
    ensures
        r == index_of(ints_of_usizes(pos@), size@),
{
    let dim = pos.len();
    let ghost p = ints_of_usizes(pos@);
    let mut acc: usize = 0;
    let mut stride: usize = 1;
    let mut k: usize = 0;
    proof {
        assert(p.take(0) =~= Seq::<int>::empty());
        assert(size@.take(0) =~= Seq::<usize>::empty());
        lemma_product_take_le(size@, 0);
    }
    while k < dim
        invariant
            0 <= k <= dim,
            dim == p.len(),
            p == ints_of_usizes(pos@),
            pos@.len() == dim,
            size.wf(),
            in_bounds(p, size@),
            stride == product(size@.take(k as int)),
            acc == index_of(p.take(k as int), size@.take(k as int)),
            0 <= acc,
            acc < stride,
            stride <= product(size@),
        decreases dim - k,
    {
        let ghost kk = k as int;
        proof {
            lemma_index_of_take_succ(p, size@, kk);
            lemma_product_take_succ(size@, kk);
            lemma_product_take_le(size@, kk + 1);
            assert(acc + p[kk] * stride < stride * size@[kk]) by (nonlinear_arith)
                requires
                    acc < stride,
                    0 <= p[kk] < size@[kk],
                    stride >= 0,
            ;
            assert(p[kk] * stride >= 0) by (nonlinear_arith)
                requires
                    p[kk] >= 0,
                    stride >= 0,
            ;
        }
        acc = acc + pos[k] * stride;
        stride = stride * self_extent(size, k);
        k = k + 1;
    }
    proof {
        assert(p.take(dim as int) =~= p);
        assert(size@.take(dim as int) =~= size@);
    }
    acc
}

/// Reads one extent of a size.
fn self_extent(size: &Size, k: usize) -> (r: usize)
    requires
        k < size@.len(),
    ensures
        r == size@[k as int],
{
    size.extent(k)
}

/// Reads one extent as a signed value; every extent fits by well-formedness.
fn extent_isize(size: &Size, k: usize) -> (r: isize)
    requires
        size.wf(),
        k < size@.len(),
    ensures
        r == size@[k as int],
        r > 0,
{
    proof {
        lemma_extent_le_product(size@, k as int);
    }
    size.extent(k) as isize
}

/// Converts a flat index to in-bounds coordinates, axis 0 fastest.
pub fn from_index(index: usize, size: &Size) -> (r: Vec<usize>)
    requires
        size.wf(),
        index < product(size@),
    ensures
        ints_of_usizes(r@) == pos_of(index as int, size@),
        r@.len() == size@.len(),
        forall|j: int| 0 <= j < r@.len() ==> #[trigger] r@[j] < size@[j],
{
    let dim = size.dims();
    let mut parts: Vec<usize> = Vec::new();
    let mut idx: usize = index;
    let mut k: usize = 0;
    proof {
        assert(size@.skip(0) =~= size@);
        assert(ints_of_usizes(parts@) =~= Seq::<int>::empty());
    }
    while k < dim
        invariant
            0 <= k <= dim,
            dim == size@.len(),
            size.wf(),
            parts@.len() == k,
            forall|j: int| 0 <= j < k ==> #[trigger] parts@[j] < size@[j],
            pos_of(index as int, size@) =~= ints_of_usizes(parts@).add(
                pos_of(idx as int, size@.skip(k as int)),
            ),
            0 <= idx,
            idx < product(size@.skip(k as int)),
        decreases dim - k,
    {
        let ghost kk = k as int;
        let ghost old_idx = idx as int;
        let s = size.extent(k);
        proof {
            assert(s >= 1);
        }
        let c = idx % s;
        idx = idx / s;
        proof {
            let rest = size@.skip(kk);
            assert(rest[0] == size@[kk]);
            vstd::arithmetic::div_mod::lemma_fundamental_div_mod(old_idx, s as int);
            vstd::arithmetic::div_mod::lemma_mod_bound(old_idx, s as int);
            vstd::arithmetic::div_mod::lemma_div_pos_is_pos(old_idx, s as int);
            assert(rest.drop_first() =~= size@.skip(kk + 1));
            assert(pos_of(old_idx, rest) =~= seq![old_idx % (s as int)].add(
                pos_of(old_idx / (s as int), size@.skip(kk + 1)),
            ));
            assert(extents_pos(size@.skip(kk + 1))) by {
                assert(forall|j: int|
                    0 <= j < size@.skip(kk + 1).len() ==> #[trigger] size@.skip(kk + 1)[j]
                        == size@[kk + 1 + j]);
            }
            assert(product(rest) == size@[kk] * product(size@.skip(kk + 1))) by {
                assert(rest.drop_first() =~= size@.skip(kk + 1));
            }
            assert(old_idx / (s as int) < product(size@.skip(kk + 1))) by (nonlinear_arith)
                requires
                    old_idx == (s as int) * (old_idx / (s as int)) + old_idx % (s as int),
                    0 <= old_idx % (s as int),
                    old_idx < (s as int) * product(size@.skip(kk + 1)),
                    s as int >= 1,
                    old_idx / (s as int) >= 0,
            ;
        }
        parts.push(c);
        k = k + 1;
        proof {
            assert(pos_of(index as int, size@) =~= ints_of_usizes(parts@).add(
                pos_of(idx as int, size@.skip(k as int)),
            ));
        }
    }
    proof {
        assert(size@.skip(dim as int) =~= Seq::<usize>::empty());
        assert(pos_of(idx as int, Seq::<usize>::empty()) =~= Seq::<int>::empty());
        assert(ints_of_usizes(parts@) =~= pos_of(index as int, size@));
    }
    parts
}


/// The squared Euclidean distance between two positions with equal axis counts.
pub open spec fn dist_sq(a: Seq<int>, b: Seq<int>) -> int
    decreases a.len(),
{
    if a.len() == 0 {
        0
    } else {
        (a[0] - b[0]) * (a[0] - b[0]) + dist_sq(a.drop_first(), b.drop_first())
    }
}

/// Stepping one cell along direction `d` moves the flat index by the stride
/// of that axis: the product of the extents of all lower axes, subtracted for
/// an even direction id and added for an odd one.
pub proof fn lemma_step_index(pos: Seq<int>, size: Seq<usize>, d: int)
    requires
        pos.len() == size.len(),
        0 <= d < 2 * size.len(),
    ensures
        index_of(pos.update(d / 2, pos[d / 2] + dir_offset(d)), size) == index_of(pos, size)
            + dir_offset(d) * product(size.take(d / 2)),
{
    lemma_index_of_update(pos, size, d / 2, dir_offset(d));
}

} // verus!
