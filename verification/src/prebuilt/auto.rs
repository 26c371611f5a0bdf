//! A generic rule finder: walks a sample grid and asks a socket provider for
//! the socket between every in-bounds adjacent pair.

use crate::auto::{Error, FindResult, NoSocket, RuleFinder, SocketProvider};
use crate::rules::{Rule, RuleBuilder, Rules};
use crate::util::{lemma_extent_le_product, lemma_index_of_bounds, lemma_index_of_pos_of, product, IPos, Size};
use crate::Dimension;
use vstd::prelude::*;

verus! {

/// Finds rules for every variant of a sample grid by asking the provider for
/// the socket between each adjacent pair, direction by direction.
pub struct GenericFinder<D: Dimension, P: SocketProvider<D>> {
    /// The sample variants, in flat index order.
    pub source: Vec<u64>,
    /// The sample's extents.
    pub size: Size,
    /// Computes the socket between two adjacent sample variants.
    pub provider: P,
    /// Ties the finder to its direction type.
    pub _dims: core::marker::PhantomData<D>,
}

impl<D: Dimension, P: SocketProvider<D>> GenericFinder<D, P> {
    pub fn new(provider: P, source: Vec<u64>, size: Size) -> (r: Self)
        ensures
            r.source == source,
            r.size == size,
            r.provider == provider,
    {
        GenericFinder { source, size, provider, _dims: core::marker::PhantomData }
    }

    /// Asks the provider for one socket; the failing triple is reported by `find`.
    fn get_socket(
        &self,
        current: Option<Vec<u64>>,
        dir: D,
        variant: &u64,
        neighbor_variant: &u64,
    ) -> (r: FindResult<Vec<u64>>)
        ensures
            match r {
                Ok(Some(s)) => self.provider.find_spec(
                    crate::auto::view_opt(current),
                    dir,
                    *variant,
                    *neighbor_variant,
                ) matches Ok(Some(t)) && s@ == t,
                Ok(None) => self.provider.find_spec(
                    crate::auto::view_opt(current),
                    dir,
                    *variant,
                    *neighbor_variant,
                ) == Ok::<Option<Seq<u64>>, NoSocket>(None),
                Err(_) => self.provider.find_spec(
                    crate::auto::view_opt(current),
                    dir,
                    *variant,
                    *neighbor_variant,
                ) is Err,
            },
    {
        self.provider.find(current, dir, variant, neighbor_variant)
    }
}

impl<D: Dimension, P: SocketProvider<D>> RuleFinder<D> for GenericFinder<D, P> {
    /// The sample must fill a well-formed grid whose axes match the direction type.
    open spec fn find_requires(&self) -> bool {
        &&& self.size.wf()
        &&& self.source@.len() == product(self.size@)
        &&& D::count() == 2 * self.size@.len()
    }

    /// Walks the sample: for each cell and each in-bounds direction, folds the
    /// provider's socket into that variant's rule, then finalizes every socket.
    fn find(&self) -> (r: Result<Rules<D>, Error>) {
        let total = self.source.len();
        let mut builder: RuleBuilder<D> = RuleBuilder::default();
        let dcount = D::dir_count();
        let mut i: usize = 0;
        while i < total
            invariant
                0 <= i <= total,
                total == self.source@.len(),
                self.source@.len() == product(self.size@),
                self.size.wf(),
                dcount == D::count(),
                2 * self.size@.len() == D::count(),
                builder.wf(),
            decreases total - i,
        {
            let pos = IPos::from_index(i, &self.size);
            let v = self.source[i];
            // Start from the rule collected so far for this variant.
            let mut rule: Rule<D> = match lookup_rule(&builder, v) {
                Some(existing) => existing,
                None => Rule::empty(),
            };
            let mut d: usize = 0;
            while d < dcount
                invariant
                    0 <= d <= dcount,
                    dcount == D::count(),
                    2 * self.size@.len() == D::count(),
                    self.size.wf(),
                    total == self.source@.len(),
                    self.source@.len() == product(self.size@),
                    0 <= i < total,
                    crate::util::in_bounds(pos@, self.size@),
                    rule.wf(),
                decreases dcount - d,
            {
                proof {
                    assert forall|kk: int| 0 <= kk < pos@.len() implies isize::MIN
                        < #[trigger] pos@[kk] < isize::MAX by {
                        lemma_extent_le_product(self.size@, kk);
                    }
                }
                let neighbor = pos.add_dir(d);
                if self.size.contains(&neighbor) {
                    proof {
                        lemma_index_of_bounds(neighbor@, self.size@);
                    }
                    let neighbor_index = neighbor.index(&self.size);
                    let target = self.source[neighbor_index];
                    let dval = D::from_id(d);
                    let current: Option<Vec<u64>> = match rule.socket_for_id(d) {
                        Some(s) => Some(s.clone()),
                        None => None,
                    };
                    match self.get_socket(current, dval, &v, &target) {
                        Ok(Some(sock)) => {
                            rule.set_socket(dval, sock);
                        },
                        Ok(None) => {},
                        Err(_) => {
                            return Err(Error::SocketGenerationFailure(v, d, target));
                        },
                    }
                }
                d = d + 1;
            }
            builder.add_rule(v, rule);
            i = i + 1;
        }
        // Every working socket is finalized in place.
        let mut out: RuleBuilder<D> = RuleBuilder::default();
        let n = builder.table.len();
        let mut k: usize = 0;
        while k < n
            invariant
                0 <= k <= n,
                n == builder.table@.len(),
                builder.wf(),
                dcount == D::count(),
                out.wf(),
            decreases n - k,
        {
            let variant = builder.table[k].0;
            let m = builder.table[k].1.entries.len();
            let mut finalized: Rule<D> = Rule::empty();
            let mut t: usize = 0;
            while t < m
                invariant
                    0 <= t <= m,
                    0 <= k < n,
                    n == builder.table@.len(),
                    builder.wf(),
                    m == builder.table@[k as int].1.entries@.len(),
                    dcount == D::count(),
                    finalized.wf(),
                decreases m - t,
            {
                proof {
                    assert(builder.table@[k as int].1.wf());
                }
                let d_id = builder.table[k].1.entries[t].0;
                let working = builder.table[k].1.entries[t].1.clone();
                let dval = D::from_id(d_id);
                let fin = self.provider.finalize(dval, working);
                finalized.set_socket(dval, fin);
                t = t + 1;
            }
            out.add_rule(variant, finalized);
            k = k + 1;
        }
        Ok(Rules::from(out))
    }
}

/// The rule already collected for a variant, cloned out of the builder.
fn lookup_rule<D: Dimension>(builder: &RuleBuilder<D>, variant: u64) -> (r: Option<Rule<D>>)
    requires
        builder.wf(),
    ensures
        r matches Some(rule) ==> rule.wf(),
{
    let n = builder.table.len();
    let mut k: usize = 0;
    while k < n
        invariant
            0 <= k <= n,
            n == builder.table@.len(),
            builder.wf(),
        decreases n - k,
    {
        if builder.table[k].0 == variant {
            proof {
                assert(builder.table@[k as int].1.wf());
            }
            return Some(builder.table[k].1.clone());
        }
        k = k + 1;
    }
    None
}

} // verus!
