//! A tiled wave-function-collapse engine.
//!
//! A grid of cells is collapsed step by step: an arbiter picks the next cell
//! and one of its remaining candidate variants, adjusters apply global
//! bookkeeping (such as placement quotas), and the engine propagates the
//! narrowed candidate sets along neighbor edges until a fixed point, using a
//! pluggable socket-compatibility constraint.

pub mod auto;
pub mod cells;
pub mod err;
pub mod prebuilt;
pub mod rng;
pub mod rules;
pub mod state;
pub mod util;

use crate::cells::Cells;
use crate::err::Error;
use crate::state::State;
use vstd::prelude::*;

verus! {

/// A flat cell index into the grid.
pub type CellIndex = usize;

/// Dense id of an interned variant value.
#[derive(Clone, Copy, PartialEq, Eq, Structural, Debug, Hash)]
pub struct VariantId(pub usize);

/// Dense id of an interned socket value.
#[derive(Clone, Copy, PartialEq, Eq, Structural, Debug, Hash)]
pub struct SocketId(pub usize);

/// Dense id of a direction; even ids face the negative end of an axis, odd
/// ids the positive end, so ids `2k` and `2k + 1` are opposite along axis `k`.
#[derive(Clone, Copy, PartialEq, Eq, Structural, Debug, Hash)]
pub struct DimensionId(pub usize);

/// The id of the direction opposite to `d`: ids are paired `(0, 1), (2, 3), ...`.
pub open spec fn opp_dir(d: int) -> int {
    if d % 2 == 0 {
        d + 1
    } else {
        d - 1
    }
}

/// Opposite directions pair up: taking the opposite twice returns the original
/// id, and no direction is its own opposite.
pub proof fn lemma_opposite_pairing(d: int)
    ensures
        opp_dir(opp_dir(d)) == d,
        opp_dir(d) != d,
{
}

impl DimensionId {
    /// The id of the opposite direction along the same axis.
    pub fn opposite(self) -> (r: Self)
        requires
            self.0 < usize::MAX,
        ensures
            r.0 == opp_dir(self.0 as int),
    {
        if self.0 % 2 == 0 {
            DimensionId(self.0 + 1)
        } else {
            DimensionId(self.0 - 1)
        }
    }
}

/// A direction type: a finite enumeration of `2 * DIM` axial directions whose
/// dense ids follow the pairing convention of [`DimensionId`].
pub trait Dimension: Sized + Copy {
    /// The number of directions, two per axis.
    spec fn count() -> int;

    /// The dense id of this direction.
    spec fn id_spec(self) -> int;

    /// Ids are dense and the enumeration pairs a negative and a positive end per axis.
    proof fn id_properties(self)
        ensures
            0 <= self.id_spec() < Self::count(),
            Self::count() % 2 == 0,
            2 <= Self::count(),
    ;

    fn dir_count() -> (n: usize)
        ensures
            n == Self::count(),
    ;

    fn id(self) -> (i: usize)
        ensures
            i == self.id_spec(),
    ;

    fn from_id(i: usize) -> (d: Self)
        requires
            0 <= i < Self::count(),
        ensures
            d.id_spec() == i,
    ;

    /// The direction at the other end of the same axis.
    fn opposite(&self) -> (o: Self)
        ensures
            o.id_spec() == opp_dir(self.id_spec()),
    ;
}


/// Decides whether one socket is compatible with the set of sockets a
/// neighboring cell exposes toward it.
pub trait Constraint: Sized {
    /// What the check returns, as a pure function of the socket id and the
    /// set of opposing socket ids.
    spec fn check_spec(&self, socket: int, others: Set<usize>) -> bool;

    /// The check never depends on how the opposing set is enumerated, only on
    /// its members.
    fn check(&self, socket: usize, all_connecting_sockets: &Vec<usize>) -> (r: bool)
        ensures
            r == self.check_spec(socket as int, all_connecting_sockets@.to_set()),
    ;
}

/// Mutates cells after a variant was placed: candidate sets may only shrink,
/// collapsed cells stay untouched, and the entropy buckets stay in step. An
/// adjuster can fail only at run time, with a contradiction or an emptied
/// candidate set; the configuration errors belong to the engine.
pub trait Adjuster {
    fn revise(&mut self, variant: usize, cells: &mut Cells) -> (r: Result<(), Error>)
        requires
            old(cells).wf(),
        ensures
            final(cells).wf(),
            final(cells).shrinks_from(*old(cells)),
            final(cells).uncollapsed_count() == old(cells).uncollapsed_count(),
            r matches Err(e) ==> e is NoPossibilities || e is Contradiction,
    ;
}

/// Selects and collapses the next cell. A successful step collapses exactly
/// one previously uncollapsed cell and touches nothing else; `None` is
/// returned exactly when every cell is already collapsed.
pub trait Arbiter: Adjuster {
    fn designate(&mut self, cells: &mut Cells) -> (r: Result<Option<usize>, Error>)
        requires
            old(cells).wf(),
        ensures
            final(cells).wf(),
            final(cells).shrinks_from(*old(cells)),
            match r {
                Ok(Some(index)) => {
                    &&& index < final(cells).len_spec()
                    &&& !old(cells).is_collapsed(index as int)
                    &&& final(cells).is_collapsed(index as int)
                    &&& final(cells).uncollapsed_count() == old(cells).uncollapsed_count() - 1
                    &&& forall|i: int|
                        0 <= i < final(cells).len_spec() && i != index ==> final(cells).cell(i)
                            == old(cells).cell(i)
                },
                Ok(None) => *final(cells) == *old(cells) && old(cells).uncollapsed_count() == 0,
                Err(_) => *final(cells) == *old(cells),
            },
    ;
}

/// A weight value for weighted variant selection.
pub trait Weight {
    /// The numeric value of this weight.
    spec fn value_spec(&self) -> usize;

    fn value(&self) -> (r: usize)
        ensures
            r == self.value_spec(),
    ;
}

/// Computes the selection weight of a candidate variant for one cell,
/// possibly from the cell's collapsed surroundings.
pub trait Shape: Sized {
    /// The weight, as a pure function of the variant, the cell and the grid.
    spec fn weight_spec(&self, variant: int, index: int, cells: Cells) -> usize;

    fn weight(&self, variant: usize, index: CellIndex, cells: &Cells) -> (r: usize)
        requires
            cells.wf(),
            index < cells.len_spec(),
        ensures
            r == self.weight_spec(variant as int, index as int, *cells),
    ;
}

/// The successful result of a single collapse step.
#[derive(PartialEq, Eq, Structural, Debug)]
pub enum Observation {
    /// Contains the index of the cell that was just collapsed.
    Incomplete(usize),
    Complete,
}

impl Observation {
    /// True when the grid has no uncollapsed cell left.
    pub fn complete(&self) -> (r: bool)
        ensures
            r == (*self == Observation::Complete),
    {
        match self {
            Observation::Complete => true,
            Observation::Incomplete(_) => false,
        }
    }

    /// The index collapsed by this step, if the step collapsed one.
    pub fn last_observation(&self) -> (r: Option<usize>)
        ensures
            match *self {
                Observation::Incomplete(index) => r == Some(index),
                Observation::Complete => r is None,
            },
    {
        match self {
            Observation::Incomplete(index) => Some(*index),
            Observation::Complete => None,
        }
    }
}


/// Collapses the state until an error occurs or every cell is collapsed.
pub fn collapse<A: Arbiter, C: Constraint, D: Dimension>(state: &mut State<A, C, D>) -> (r:
    Result<(), Error>)
    requires
        old(state).wf(),
        old(state).settled(),
    ensures
        final(state).wf(),
        final(state).statics_eq(*old(state)),
        final(state).cells.shrinks_from(old(state).cells),
        r is Ok ==> final(state).cells.uncollapsed_count() == 0 && final(state).settled(),
{
    proof {
        crate::cells::lemma_uncollapsed_zero(state.cells.list@, state.cells.len_spec());
    }
    loop
        invariant
            state.wf(),
            state.settled(),
            state.statics_eq(*old(state)),
            state.cells.shrinks_from(old(state).cells),
            state.cells.uncollapsed_count() >= 0,
        decreases state.cells.uncollapsed_count(),
    {
        let ghost before = *state;
        let obs = match state.collapse() {
            Ok(o) => o,
            Err(e) => {
                return Err(e);
            },
        };
        proof {
            Cells::lemma_shrinks_trans(old(state).cells, before.cells, state.cells);
            crate::cells::lemma_uncollapsed_zero(state.cells.list@, state.cells.len_spec());
        }
        if obs.complete() {
            return Ok(());
        }
    }
}

/// Returns the value `i` wrapped into `0..s` by Euclidean remainder.
pub fn wrap(i: isize, s: isize) -> (r: isize)
    requires
        s > 0,
    ensures
        r == (i as int) % (s as int),
        0 <= r < s,
{
    if i >= 0 {
        i % s
    } else {
        // For negative i, the remainder is recovered from the nonnegative -1 - i.
        let m: isize = (-1 - i) % s;
        proof {
            let ii = i as int;
            let ss = s as int;
            let q = (-1 - ii) / ss;
            vstd::arithmetic::div_mod::lemma_fundamental_div_mod(-1 - ii, ss);
            vstd::arithmetic::div_mod::lemma_mod_bound(-1 - ii, ss);
            assert(ii == (-q - 1) * ss + (ss - 1 - (m as int))) by (nonlinear_arith)
                requires
                    -1 - ii == q * ss + m,
            ;
            vstd::arithmetic::div_mod::lemma_fundamental_div_mod_converse(
                ii,
                ss,
                -q - 1,
                ss - 1 - (m as int),
            );
        }
        s - 1 - m
    }
}

} // verus!
