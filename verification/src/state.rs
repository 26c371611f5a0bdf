//! The engine: builds the grid from rules and seeds, runs
//! observation, revision and propagation until done or contradiction.

use crate::cells::{lemma_face_upto_props, on_face, sorted_distinct, Cell, Cells};
use crate::err::Error;
use crate::rules::{AbstractRules, Legend, Rules};
use crate::util::{in_bounds, index_of, lemma_index_of_pos_of, pos_of, product, IPos, Size, UPos};
use crate::{lemma_opposite_pairing, opp_dir, Arbiter, Constraint, Dimension, Observation};
use vstd::prelude::*;

verus! {

/// Some candidate of `poss` exposes socket `s` toward direction `d`.
pub open spec fn union_has(ar: AbstractRules, poss: Seq<usize>, d: int, s: usize) -> bool {
    exists|j: int|
        0 <= j < poss.len() && (#[trigger] poss[j]) < ar.nv() && ar.socket_of(poss[j] as int, d)
            == Some(s)
}

/// The set of socket ids the candidates of `poss` expose toward direction `d`.
pub open spec fn socket_union(ar: AbstractRules, poss: Seq<usize>, d: int) -> Set<usize> {
    Set::new(|s: usize| union_has(ar, poss, d, s))
}

/// Whether variant `v` may stand next to a neighbor that exposes the socket
/// set `others` toward it: the variant must declare a socket toward the
/// neighbor (`d_out`) and that socket must pass the constraint check.
pub open spec fn variant_allowed<C: Constraint>(
    c: C,
    ar: AbstractRules,
    v: int,
    d_out: int,
    others: Set<usize>,
) -> bool {
    0 <= v < ar.nv() && match ar.socket_of(v, d_out) {
        Some(s) => c.check_spec(s as int, others),
        None => false,
    }
}

/// Inserts a socket id into a sorted vector, keeping it sorted and duplicate-free.
fn sorted_insert_id(v: &mut Vec<usize>, x: usize)
    requires
        sorted_distinct(old(v)@),
    ensures
        sorted_distinct(final(v)@),
        forall|y: usize| #[trigger] final(v)@.contains(y) <==> (old(v)@.contains(y) || y == x),
{
    let n = v.len();
    let ghost orig = v@;
    let mut p: usize = 0;
    while p < n
        invariant_except_break
            0 <= p <= n,
            forall|j: int| 0 <= j < p ==> #[trigger] orig[j] < x,
        invariant
            n == orig.len(),
            v@ == orig,
        ensures
            0 <= p <= n,
            p < n ==> orig[p as int] >= x,
            forall|j: int| 0 <= j < p ==> #[trigger] orig[j] < x,
        decreases n - p,
    {
        if v[p] >= x {
            break ;
        }
        p = p + 1;
    }
    if p < n {
        let ghost pp = p as int;
        if v[p] == x {
            proof {
                assert(orig.contains(x));
            }
            return ;
        }
        v.insert(p, x);
        proof {
            let now = v@;
            assert(now[pp] == x);
            assert(forall|j: int| 0 <= j < pp ==> now[j] == #[trigger] orig[j]);
            assert(forall|j: int| pp < j < now.len() ==> now[j] == #[trigger] orig[j - 1]);
            assert(sorted_distinct(now)) by {
                assert(orig[pp] > x);
                assert(forall|j: int| pp <= j < orig.len() ==> #[trigger] orig[j] >= orig[pp]);
            }
            assert forall|y: usize| #[trigger] now.contains(y) <==> (orig.contains(y) || y
                == x) by {
                if now.contains(y) {
                    let j = choose|j: int| 0 <= j < now.len() && #[trigger] now[j] == y;
                    if j < pp {
                        assert(orig[j] == y);
                    } else if j > pp {
                        assert(orig[j - 1] == y);
                    }
                } else {
                    if orig.contains(y) {
                        let j = choose|j: int| 0 <= j < orig.len() && #[trigger] orig[j] == y;
                        if j < pp {
                            assert(now[j] == y);
                        } else {
                            assert(now[j + 1] == y);
                        }
                    }
                }
            }
        }
    } else {
        v.push(x);
        proof {
            let now = v@;
            assert(now[now.len() - 1] == x);
            assert(forall|j: int| 0 <= j < orig.len() ==> now[j] == #[trigger] orig[j]);
            assert forall|y: usize| #[trigger] now.contains(y) <==> (orig.contains(y) || y
                == x) by {
                if now.contains(y) {
                    let j = choose|j: int| 0 <= j < now.len() && #[trigger] now[j] == y;
                    if j < now.len() - 1 {
                        assert(orig[j] == y);
                    }
                } else {
                    if orig.contains(y) {
                        let j = choose|j: int| 0 <= j < orig.len() && #[trigger] orig[j] == y;
                        assert(now[j] == y);
                    }
                }
            }
        }
    }
}

/// Computes the union of the sockets the candidates expose toward `dir`.
fn compute_union(rules: &AbstractRules, variants: &Vec<usize>, dir: usize) -> (r: Vec<usize>)
    requires
        rules.wf(),
        dir < rules.dcount,
        forall|j: int| 0 <= j < variants@.len() ==> (#[trigger] variants@[j]) < rules.nv(),
    ensures
        sorted_distinct(r@),
        forall|s: usize| #[trigger] r@.contains(s) <==> union_has(*rules, variants@, dir as int, s),
{
    let n = variants.len();
    let mut out: Vec<usize> = Vec::new();
    let mut k: usize = 0;
    while k < n
        invariant
            0 <= k <= n,
            n == variants@.len(),
            rules.wf(),
            dir < rules.dcount,
            forall|j: int| 0 <= j < variants@.len() ==> (#[trigger] variants@[j]) < rules.nv(),
            sorted_distinct(out@),
            forall|s: usize| #[trigger]
                out@.contains(s) <==> union_has(*rules, variants@.take(k as int), dir as int, s),
        decreases n - k,
    {
        let ghost kk = k as int;
        let ghost prev = out@;
        let v = variants[k];
        let sock = rules.rules[v].sockets[dir];
        proof {
            assert(rules.rules@[v as int].sockets@.len() == rules.dcount);
        }
        match sock {
            Some(s) => {
                sorted_insert_id(&mut out, s);
            },
            None => {},
        }
        k = k + 1;
        proof {
            let taken = variants@.take(kk + 1);
            assert(taken[kk] == v);
            assert(forall|j: int| 0 <= j < kk ==> taken[j] == #[trigger] variants@.take(kk)[j]);
            assert forall|s: usize| #[trigger]
                out@.contains(s) <==> union_has(*rules, taken, dir as int, s) by {
                if out@.contains(s) {
                    if prev.contains(s) {
                        let j = choose|j: int|
                            0 <= j < variants@.take(kk).len() && (#[trigger] variants@.take(kk)[j])
                                < rules.nv() && rules.socket_of(
                                variants@.take(kk)[j] as int,
                                dir as int,
                            ) == Some(s);
                        assert(taken[j] == variants@.take(kk)[j]);
                        assert(union_has(*rules, taken, dir as int, s));
                    } else {
                        assert(rules.socket_of(v as int, dir as int) == Some(s));
                        assert(taken[kk] < rules.nv() && rules.socket_of(
                            taken[kk] as int,
                            dir as int,
                        ) == Some(s));
                        assert(union_has(*rules, taken, dir as int, s));
                    }
                } else {
                    if union_has(*rules, taken, dir as int, s) {
                        let j = choose|j: int|
                            0 <= j < taken.len() && (#[trigger] taken[j]) < rules.nv()
                                && rules.socket_of(taken[j] as int, dir as int) == Some(s);
                        if j < kk {
                            assert(variants@.take(kk)[j] == taken[j]);
                            assert(union_has(*rules, variants@.take(kk), dir as int, s));
                            assert(prev.contains(s));
                        } else {
                            assert(rules.socket_of(v as int, dir as int) == Some(s));
                        }
                    }
                }
            }
        }
    }
    proof {
        assert(variants@.take(n as int) =~= variants@);
    }
    out
}

/// One memo entry: a candidate set and, per direction, the socket union the
/// set exposes there, once computed.
#[derive(Debug)]
pub struct CacheEntry {
    /// The candidate set this entry is keyed by.
    pub key: Vec<usize>,
    /// One lazily filled socket union per direction id.
    pub per_dir: Vec<Option<Vec<usize>>>,
}

/// Memoizes `(candidate set, direction) -> union of exposed sockets`.
/// Entries key the candidate set by value, so they stay correct as cells
/// shrink: a shrunk set simply keys a new entry.
#[derive(Debug)]
pub struct SocketCache {
    /// The memo entries, in insertion order.
    pub entries: Vec<CacheEntry>,
}

impl SocketCache {
    /// Entry `e` has one slot per direction and every filled slot holds the
    /// sorted socket union of its key toward that direction.
    pub open spec fn entry_ok(self, ar: AbstractRules, e: int) -> bool {
        &&& self.entries@[e].per_dir@.len() == ar.dcount
        &&& forall|d: int|
            0 <= d < ar.dcount ==> match #[trigger] self.entries@[e].per_dir@[d] {
                Some(v) => sorted_distinct(v@) && (forall|s: usize| #[trigger]
                    v@.contains(s) <==> union_has(ar, self.entries@[e].key@, d, s)),
                None => true,
            }
    }

    pub open spec fn wf(self, ar: AbstractRules) -> bool {
        forall|e: int| 0 <= e < self.entries@.len() ==> #[trigger] self.entry_ok(ar, e)
    }

    /// An empty cache.
    pub fn new() -> (r: Self)
        ensures
            r.entries@.len() == 0,
    {
        SocketCache { entries: Vec::new() }
    }

    /// Looks the pair up: `None` when the candidate set has no entry yet,
    /// `Some(None)` when it has one without this direction, and the memoized
    /// union otherwise.
    pub fn lookup(&self, variants: &Vec<usize>, dir: usize) -> (r: Option<Option<Vec<usize>>>)
        requires
            forall|e: int|
                0 <= e < self.entries@.len() ==> dir < (#[trigger] self.entries@[e]).per_dir@.len(),
        ensures
            match r {
                None => forall|e: int|
                    0 <= e < self.entries@.len() ==> (#[trigger] self.entries@[e]).key@
                        != variants@,
                Some(inner) => exists|e: int|
                    {
                        &&& 0 <= e < self.entries@.len()
                        &&& (#[trigger] self.entries@[e]).key@ == variants@
                        &&& match inner {
                            None => self.entries@[e].per_dir@[dir as int] is None,
                            Some(v) => self.entries@[e].per_dir@[dir as int] matches Some(w)
                                && v@ == w@,
                        }
                    },
            },
    {
        let n = self.entries.len();
        let mut e: usize = 0;
        while e < n
            invariant
                0 <= e <= n,
                n == self.entries@.len(),
                forall|j: int|
                    0 <= j < self.entries@.len() ==> dir < (
                    #[trigger] self.entries@[j]).per_dir@.len(),
                forall|j: int| 0 <= j < e ==> (#[trigger] self.entries@[j]).key@ != variants@,
            decreases n - e,
        {
            if ids_eq(&self.entries[e].key, variants) {
                let slot = &self.entries[e].per_dir[dir];
                match slot {
                    Some(v) => {
                        let out = v.clone();
                        proof {
                            assert(out@ =~= v@);
                        }
                        return Some(Some(out));
                    },
                    None => {
                        return Some(None);
                    },
                }
            }
            e = e + 1;
        }
        None
    }

    /// Memoizes a fresh candidate set: computes the union for `dir` and
    /// stores a new entry with only that direction filled.
    pub fn full_create(
        &mut self,
        rules: &AbstractRules,
        variants: &Vec<usize>,
        dir: usize,
    ) -> (r: Vec<usize>)
        requires
            old(self).wf(*rules),
            rules.wf(),
            dir < rules.dcount,
            forall|j: int| 0 <= j < variants@.len() ==> (#[trigger] variants@[j]) < rules.nv(),
        ensures
            final(self).wf(*rules),
            sorted_distinct(r@),
            forall|s: usize| #[trigger]
                r@.contains(s) <==> union_has(*rules, variants@, dir as int, s),
    {
        let sockets = compute_union(rules, variants, dir);
        let dcount = rules.dcount;
        let mut per_dir: Vec<Option<Vec<usize>>> = Vec::new();
        let mut d: usize = 0;
        while d < dcount
            invariant
                0 <= d <= dcount,
                per_dir@.len() == d,
                forall|j: int| 0 <= j < d ==> (#[trigger] per_dir@[j]) is None,
            decreases dcount - d,
        {
            per_dir.push(None);
            d = d + 1;
        }
        let stored = sockets.clone();
        proof {
            assert(stored@ =~= sockets@);
        }
        per_dir.set(dir, Some(stored));
        let key = variants.clone();
        proof {
            assert(key@ =~= variants@);
        }
        let entry = CacheEntry { key, per_dir };
        self.entries.push(entry);
        proof {
            let now = *self;
            let pre = *old(self);
            let last = now.entries@.len() - 1;
            assert forall|e: int| 0 <= e < now.entries@.len() implies #[trigger] now.entry_ok(
                *rules,
                e,
            ) by {
                if e < last {
                    assert(now.entries@[e] == pre.entries@[e]);
                    assert(pre.entry_ok(*rules, e));
                } else {
                    assert(now.entries@[e].per_dir@.len() == rules.dcount);
                    assert forall|d2: int| 0 <= d2 < rules.dcount implies match #[trigger] now.entries@[e].per_dir@[d2] {
                        Some(v) => sorted_distinct(v@) && (forall|s: usize| #[trigger]
                            v@.contains(s) <==> union_has(*rules, now.entries@[e].key@, d2, s)),
                        None => true,
                    } by {
                        if d2 == dir {
                            assert(now.entries@[e].per_dir@[d2] matches Some(v) && v@
                                == sockets@);
                        } else {
                            assert(now.entries@[e].per_dir@[d2] is None);
                        }
                    }
                }
            }
        }
        sockets
    }

    /// Fills one more direction of an already memoized candidate set.
    pub fn partial_create(
        &mut self,
        rules: &AbstractRules,
        variants: &Vec<usize>,
        dir: usize,
    ) -> (r: Vec<usize>)
        requires
            old(self).wf(*rules),
            rules.wf(),
            dir < rules.dcount,
            forall|j: int| 0 <= j < variants@.len() ==> (#[trigger] variants@[j]) < rules.nv(),
        ensures
            final(self).wf(*rules),
            sorted_distinct(r@),
            forall|s: usize| #[trigger]
                r@.contains(s) <==> union_has(*rules, variants@, dir as int, s),
    {
        let sockets = compute_union(rules, variants, dir);
        let n = self.entries.len();
        let mut e: usize = 0;
        while e < n
            invariant_except_break
                0 <= e <= n,
            invariant
                n == self.entries@.len(),
                *self == *old(self),
            ensures
                0 <= e <= n,
                e < n ==> self.entries@[e as int].key@ == variants@,
                *self == *old(self),
            decreases n - e,
        {
            if ids_eq(&self.entries[e].key, variants) {
                break ;
            }
            e = e + 1;
        }
        if e < n {
            let stored = sockets.clone();
            proof {
                assert(stored@ =~= sockets@);
            }
            let entry = &mut self.entries[e];
            proof {
                assert(old(self).entry_ok(*rules, e as int));
            }
            entry.per_dir.set(dir, Some(stored));
            proof {
                let now = *self;
                let pre = *old(self);
                let ee = e as int;
                assert forall|e2: int| 0 <= e2 < now.entries@.len() implies #[trigger] now.entry_ok(
                    *rules,
                    e2,
                ) by {
                    if e2 != ee {
                        assert(now.entries@[e2] == pre.entries@[e2]);
                        assert(pre.entry_ok(*rules, e2));
                    } else {
                        assert(pre.entry_ok(*rules, ee));
                        assert(now.entries@[ee].key@ == pre.entries@[ee].key@);
                        assert forall|d2: int|
                            0 <= d2 < rules.dcount implies match #[trigger] now.entries@[ee].per_dir@[d2] {
                            Some(v) => sorted_distinct(v@) && (forall|s: usize| #[trigger]
                                v@.contains(s) <==> union_has(
                                    *rules,
                                    now.entries@[ee].key@,
                                    d2,
                                    s,
                                )),
                            None => true,
                        } by {
                            if d2 != dir {
                                assert(now.entries@[ee].per_dir@[d2]
                                    == pre.entries@[ee].per_dir@[d2]);
                            }
                        }
                    }
                }
            }
        }
        sockets
    }
}

/// True when the two id vectors are equal.
fn ids_eq(a: &Vec<usize>, b: &Vec<usize>) -> (r: bool)
    ensures
        r == (a@ == b@),
{
    if a.len() != b.len() {
        proof {
            assert(a@ != b@);
        }
        return false;
    }
    let n = a.len();
    let mut k: usize = 0;
    while k < n
        invariant
            0 <= k <= n,
            n == a@.len(),
            a@.len() == b@.len(),
            forall|j: int| 0 <= j < k ==> a@[j] == b@[j],
        decreases n - k,
    {
        if a[k] != b[k] {
            proof {
                assert(a@[k as int] != b@[k as int]);
            }
            return false;
        }
        k = k + 1;
    }
    proof {
        assert(a@ =~= b@);
    }
    true
}

/// The candidates among the first `k` of `poss` that remain allowed.
pub open spec fn kept_upto<C: Constraint>(
    c: C,
    ar: AbstractRules,
    poss: Seq<usize>,
    d_out: int,
    others: Set<usize>,
    k: int,
) -> Seq<usize>
    decreases k,
{
    if k <= 0 {
        Seq::empty()
    } else {
        let prev = kept_upto(c, ar, poss, d_out, others, k - 1);
        if variant_allowed(c, ar, poss[k - 1] as int, d_out, others) {
            prev.push(poss[k - 1])
        } else {
            prev
        }
    }
}

/// Filtering a sorted distinct candidate list keeps it sorted and keeps
/// exactly the allowed candidates.
pub proof fn lemma_kept_upto_props<C: Constraint>(
    c: C,
    ar: AbstractRules,
    poss: Seq<usize>,
    d_out: int,
    others: Set<usize>,
    k: int,
)
    requires
        sorted_distinct(poss),
        0 <= k <= poss.len(),
    ensures
        sorted_distinct(kept_upto(c, ar, poss, d_out, others, k)),
        forall|v: usize| #[trigger]
            kept_upto(c, ar, poss, d_out, others, k).contains(v) <==> (poss.take(k).contains(v)
                && variant_allowed(c, ar, v as int, d_out, others)),
    decreases k,
{
    if k > 0 {
        lemma_kept_upto_props(c, ar, poss, d_out, others, k - 1);
        let prev = kept_upto(c, ar, poss, d_out, others, k - 1);
        let cur = kept_upto(c, ar, poss, d_out, others, k);
        let w = poss[k - 1];
        assert(poss.take(k).drop_last() =~= poss.take(k - 1));
        assert(poss.take(k).last() == w);
        assert(forall|x: usize| #[trigger]
            poss.take(k).contains(x) <==> (poss.take(k - 1).contains(x) || x == w)) by {
            assert(forall|j: int|
                0 <= j < k - 1 ==> poss.take(k)[j] == #[trigger] poss.take(k - 1)[j]);
            assert(poss.take(k)[k - 1] == w);
            assert(forall|x: usize| #[trigger]
                poss.take(k - 1).contains(x) ==> poss.take(k).contains(x));
            assert forall|x: usize| #[trigger]
                poss.take(k).contains(x) && x != w implies poss.take(k - 1).contains(x) by {
                let j = choose|j: int| 0 <= j < k && #[trigger] poss.take(k)[j] == x;
                assert(j < k - 1);
                assert(poss.take(k - 1)[j] == x);
            }
        }
        if variant_allowed(c, ar, w as int, d_out, others) {
            assert(cur == prev.push(w));
            assert forall|i: int| 0 <= i < prev.len() implies prev[i] < w by {
                assert(prev.contains(prev[i]));
                assert(poss.take(k - 1).contains(prev[i]));
                let j = choose|j: int|
                    0 <= j < poss.take(k - 1).len() && #[trigger] poss.take(k - 1)[j] == prev[i];
                assert(poss[j] == prev[i] && j < k - 1);
            }
            assert(sorted_distinct(cur)) by {
                assert(forall|i: int| 0 <= i < prev.len() ==> cur[i] == #[trigger] prev[i]);
                assert(cur[cur.len() - 1] == w);
            }
            assert(forall|x: usize| #[trigger]
                cur.contains(x) <==> (prev.contains(x) || x == w)) by {
                assert(cur[cur.len() - 1] == w);
                assert(forall|j: int| 0 <= j < prev.len() ==> cur[j] == #[trigger] prev[j]);
                assert(forall|j: int| 0 <= j < cur.len() - 1 ==> prev[j] == #[trigger] cur[j]);
            }
        }
    }
}

/// Prunes the candidates of `cell` against the sockets its neighbor exposes
/// toward it. `neighbor_to_self_dir` is the direction id from the neighbor to
/// this cell, so a kept candidate is one that declares a socket back toward
/// the neighbor which passes the constraint check against the neighbor's
/// exposed socket union. Raises a contradiction, and leaves the cell
/// unchanged, when no candidate survives.
#[verifier::rlimit(60)]
pub fn constrain<C: Constraint>(
    cell: &mut Cell,
    constraint: &C,
    neighbor_possibilities: &Vec<usize>,
    neighbor_to_self_dir: usize,
    neighbor_position: &IPos,
    rules: &AbstractRules,
    cache: &mut SocketCache,
) -> (r: Result<(), Error>)
    requires
        rules.wf(),
        old(cache).wf(*rules),
        neighbor_to_self_dir < rules.dcount,
        rules.dcount % 2 == 0,
        sorted_distinct(old(cell).possibilities@),
        forall|k: int|
            0 <= k < old(cell).possibilities@.len() ==> (#[trigger] old(cell).possibilities@[k])
                < rules.nv(),
        sorted_distinct(neighbor_possibilities@),
        forall|j: int|
            0 <= j < neighbor_possibilities@.len() ==> (#[trigger] neighbor_possibilities@[j])
                < rules.nv(),
    ensures
        final(cache).wf(*rules),
        final(cell).neighbors == old(cell).neighbors,
        final(cell).position == old(cell).position,
        match r {
            Ok(_) => {
                &&& sorted_distinct(final(cell).possibilities@)
                &&& final(cell).possibilities@.len() >= 1
                &&& final(cell).entropy == final(cell).possibilities@.len()
                &&& forall|v: usize| #[trigger]
                    final(cell).possibilities@.contains(v) <==> (old(
                        cell,
                    ).possibilities@.contains(v) && variant_allowed(
                        *constraint,
                        *rules,
                        v as int,
                        opp_dir(neighbor_to_self_dir as int),
                        socket_union(
                            *rules,
                            neighbor_possibilities@,
                            neighbor_to_self_dir as int,
                        ),
                    ))
            },
            Err(e) => {
                &&& *final(cell) == *old(cell)
                &&& e matches Error::Contradiction {
                    position,
                    neighbor,
                    direction,
                    neighbor_variants,
                    neighbor_sockets,
                } ==> {
                    &&& position@ == old(cell).position@
                    &&& neighbor@ == neighbor_position@
                    &&& direction == opp_dir(neighbor_to_self_dir as int)
                    &&& neighbor_variants@ == neighbor_possibilities@
                    &&& sorted_distinct(neighbor_sockets@)
                    &&& forall|s: usize| #[trigger]
                        neighbor_sockets@.contains(s) <==> union_has(
                            *rules,
                            neighbor_possibilities@,
                            neighbor_to_self_dir as int,
                            s,
                        )
                }
                &&& e is Contradiction
                &&& forall|v: usize| #[trigger]
                    old(cell).possibilities@.contains(v) ==> !variant_allowed(
                        *constraint,
                        *rules,
                        v as int,
                        opp_dir(neighbor_to_self_dir as int),
                        socket_union(
                            *rules,
                            neighbor_possibilities@,
                            neighbor_to_self_dir as int,
                        ),
                    )
            },
        },
{
    let neighbor_sockets: Vec<usize> = sockets_for(
        cache,
        rules,
        neighbor_possibilities,
        neighbor_to_self_dir,
    );
    let ghost others = socket_union(*rules, neighbor_possibilities@, neighbor_to_self_dir as int);
    proof {
        assert(neighbor_sockets@.to_set() =~= others);
    }
    let opp = if neighbor_to_self_dir % 2 == 0 {
        neighbor_to_self_dir + 1
    } else {
        neighbor_to_self_dir - 1
    };
    proof {
        assert(opp == opp_dir(neighbor_to_self_dir as int));
        assert(opp < rules.dcount);
    }
    let ghost orig = cell.possibilities@;
    let n = cell.possibilities.len();
    let mut kept: Vec<usize> = Vec::new();
    let mut k: usize = 0;
    while k < n
        invariant
            0 <= k <= n,
            n == orig.len(),
            cell.possibilities@ == orig,
            sorted_distinct(orig),
            forall|j: int| 0 <= j < orig.len() ==> (#[trigger] orig[j]) < rules.nv(),
            rules.wf(),
            opp < rules.dcount,
            opp == opp_dir(neighbor_to_self_dir as int),
            neighbor_sockets@.to_set() == others,
            kept@ == kept_upto(*constraint, *rules, orig, opp as int, others, k as int),
        decreases n - k,
    {
        let v = cell.possibilities[k];
        proof {
            assert(rules.rules@[v as int].sockets@.len() == rules.dcount);
        }
        let keep = match rules.rules[v].sockets[opp] {
            Some(s) => constraint.check(s, &neighbor_sockets),
            None => false,
        };
        proof {
            assert(keep == variant_allowed(*constraint, *rules, v as int, opp as int, others));
        }
        if keep {
            kept.push(v);
        }
        k = k + 1;
    }
    proof {
        lemma_kept_upto_props(*constraint, *rules, orig, opp as int, others, n as int);
        assert(orig.take(n as int) =~= orig);
    }
    if kept.len() == 0 {
        let position = cell.position.clone();
        let neighbor_variants = neighbor_possibilities.clone();
        proof {
            assert(neighbor_variants@ =~= neighbor_possibilities@);
            assert forall|v: usize| #[trigger] orig.contains(v) implies !variant_allowed(
                *constraint,
                *rules,
                v as int,
                opp_dir(neighbor_to_self_dir as int),
                others,
            ) by {
                if variant_allowed(
                    *constraint,
                    *rules,
                    v as int,
                    opp_dir(neighbor_to_self_dir as int),
                    others,
                ) {
                    assert(kept@.contains(v));
                }
            }
        }
        return Err(
            Error::Contradiction {
                position,
                neighbor: neighbor_position.clone(),
                direction: opp,
                neighbor_variants,
                neighbor_sockets,
            },
        );
    }
    let new_len = kept.len();
    cell.possibilities = kept;
    cell.entropy = new_len;
    Ok(())
}

/// Computes or recalls the union of sockets `poss` exposes toward `dir`.
fn sockets_for(
    cache: &mut SocketCache,
    rules: &AbstractRules,
    poss: &Vec<usize>,
    dir: usize,
) -> (r: Vec<usize>)
    requires
        old(cache).wf(*rules),
        rules.wf(),
        dir < rules.dcount,
        forall|j: int| 0 <= j < poss@.len() ==> (#[trigger] poss@[j]) < rules.nv(),
    ensures
        final(cache).wf(*rules),
        sorted_distinct(r@),
        forall|s: usize| #[trigger] r@.contains(s) <==> union_has(*rules, poss@, dir as int, s),
{
    proof {
        assert forall|e: int| 0 <= e < cache.entries@.len() implies dir < (
        #[trigger] cache.entries@[e]).per_dir@.len() by {
            assert(cache.entry_ok(*rules, e));
        }
    }
    let cached = cache.lookup(poss, dir);
    match cached {
        Some(Some(sockets)) => {
            proof {
                let e = choose|e: int|
                    {
                        &&& 0 <= e < cache.entries@.len()
                        &&& (#[trigger] cache.entries@[e]).key@ == poss@
                        &&& cache.entries@[e].per_dir@[dir as int] matches Some(w) && sockets@
                            == w@
                    };
                assert(cache.entry_ok(*rules, e));
            }
            sockets
        },
        Some(None) => cache.partial_create(rules, poss, dir),
        None => cache.full_create(rules, poss, dir),
    }
}

/// The per-direction external borders handed to the builder: for each listed
/// direction, one variant value per grid cell, read through wrapped positions.
#[derive(Debug)]
pub struct ExtCells {
    /// `(direction_id, variant values)` pairs, one value per grid cell.
    pub sides: Vec<(usize, Vec<u64>)>,
}

/// Collects everything an engine needs and checks the configuration.
#[derive(Debug)]
pub struct StateBuilder<A, C, D: Dimension> {
    /// The grid extents.
    pub size: Size,
    /// Picks cells and variants to collapse.
    pub arbiter: A,
    /// Decides socket compatibility.
    pub constraint: C,
    /// The user-level rules.
    pub rules: Rules<D>,
    /// One optional seed variant value per cell, in index order.
    pub output_buffer: Vec<Option<u64>>,
    /// Fixed variants beyond chosen external faces.
    pub external_cells: ExtCells,
}

impl<A: Arbiter, C: Constraint, D: Dimension> StateBuilder<A, C, D> {
    /// Starts a build with no seeds and no external borders.
    pub fn new(size: Size, arbiter: A, constraint: C, rules: Rules<D>) -> (r: Self)
        requires
            size.wf(),
        ensures
            r.size@ == size@,
            r.arbiter == arbiter,
            r.constraint == constraint,
            r.rules == rules,
            r.output_buffer@.len() == product(size@),
            forall|i: int| 0 <= i < r.output_buffer@.len() ==> (#[trigger] r.output_buffer@[i]) is None,
            r.external_cells.sides@.len() == 0,
    {
        let total = size.len();
        let mut output_buffer: Vec<Option<u64>> = Vec::new();
        let mut k: usize = 0;
        while k < total
            invariant
                0 <= k <= total,
                output_buffer@.len() == k,
                forall|i: int| 0 <= i < k ==> (#[trigger] output_buffer@[i]) is None,
            decreases total - k,
        {
            output_buffer.push(None);
            k = k + 1;
        }
        StateBuilder {
            size,
            arbiter,
            constraint,
            rules,
            output_buffer,
            external_cells: ExtCells { sides: Vec::new() },
        }
    }

    /// Declares the fixed variants beyond the face that `dir` exits, one per
    /// grid cell, linearized like the grid itself.
    pub fn with_ext(&mut self, dir: D, source: Vec<u64>)
        ensures
            final(self).size == old(self).size,
            final(self).arbiter == old(self).arbiter,
            final(self).constraint == old(self).constraint,
            final(self).rules == old(self).rules,
            final(self).output_buffer == old(self).output_buffer,
            final(self).external_cells.sides@ == old(self).external_cells.sides@.push(
                ((dir.id_spec() as usize), source),
            ),
    {
        proof {
            dir.id_properties();
        }
        let id = dir.id();
        self.external_cells.sides.push((id, source));
    }

    /// Seeds the cell at `pos` with a fixed variant value.
    pub fn insert(&mut self, pos: UPos, value: u64)
        requires
            old(self).size.wf(),
            in_bounds(crate::util::ints_of_usizes(pos@), old(self).size@),
            old(self).output_buffer@.len() == product(old(self).size@),
        ensures
            final(self).size == old(self).size,
            final(self).arbiter == old(self).arbiter,
            final(self).constraint == old(self).constraint,
            final(self).rules == old(self).rules,
            final(self).output_buffer@ == old(self).output_buffer@.update(
                index_of(crate::util::ints_of_usizes(pos@), old(self).size@),
                Some(value),
            ),
    {
        proof {
            crate::util::lemma_index_of_bounds(
                crate::util::ints_of_usizes(pos@),
                self.size@,
            );
        }
        let index = pos.index(&self.size);
        self.output_buffer.set(index, Some(value));
    }

    /// The grid extents this builder will use.
    pub fn size(&self) -> (r: &Size)
        ensures
            r == &self.size,
    {
        &self.size
    }
}

/// The engine: the grid, the pluggable arbiter and constraint, the rules in
/// user and interned form, and the socket memo.
#[derive(Debug)]
pub struct State<A, C, D: Dimension> {
    /// The grid of cells.
    pub cells: Cells,
    /// Picks cells and variants to collapse.
    pub arbiter: A,
    /// Decides socket compatibility.
    pub constraint: C,
    /// The user-level rules, kept for inspection.
    pub rules: Rules<D>,
    /// The interning tables between user values and dense ids.
    pub legend: Legend,
    /// The rules over dense ids, used on the hot path.
    pub abstract_rules: AbstractRules,
    /// The memo of socket unions per candidate set and direction.
    pub socket_cache: SocketCache,
}

impl<A: Arbiter, C: Constraint, D: Dimension> State<A, C, D> {
    /// The engine invariant: a well-formed grid over the interned rules, with
    /// a sound socket memo and matching id spaces.
    pub open spec fn wf(self) -> bool {
        &&& self.cells.wf()
        &&& self.abstract_rules.wf()
        &&& self.cells.num_variants == self.abstract_rules.nv()
        &&& self.abstract_rules.dcount == 2 * self.cells.size@.len()
        &&& self.socket_cache.wf(self.abstract_rules)
        &&& self.legend.variants@.len() == self.cells.num_variants
        &&& self.legend.wf()
    }

    /// Every placed cell's edges have been propagated: nothing is pending.
    pub open spec fn settled(self) -> bool {
        placed_ok(self.constraint, self.abstract_rules, self.cells, Set::empty())
    }

    /// The parts a collapse step never changes.
    pub open spec fn statics_eq(self, other: Self) -> bool {
        &&& self.constraint == other.constraint
        &&& self.rules == other.rules
        &&& self.legend == other.legend
        &&& self.abstract_rules == other.abstract_rules
    }

    /// Propagates the narrowed candidates of the given cell along neighbor
    /// edges, depth first, until no reconsidered cell changes. Collapsed
    /// neighbors are checked but never changed; a cell whose candidates all
    /// fail, or a collapsed neighbor whose variant fails, raises a
    /// contradiction.
    pub fn propagate(&mut self, cell_index: usize, pending: Ghost<Set<usize>>) -> (r: Result<
        (),
        Error,
    >)
        requires
            old(self).wf(),
            cell_index < old(self).cells.len_spec(),
            placed_ok(
                old(self).constraint,
                old(self).abstract_rules,
                old(self).cells,
                pending@.insert(cell_index),
            ),
        ensures
            final(self).wf(),
            final(self).statics_eq(*old(self)),
            final(self).arbiter == old(self).arbiter,
            final(self).cells.shrinks_from(old(self).cells),
            final(self).cells.uncollapsed_count() == old(self).cells.uncollapsed_count(),
            r matches Err(e) ==> e is Contradiction,
            r matches Err(Error::Contradiction {
                position,
                neighbor,
                direction,
                neighbor_variants,
                neighbor_sockets,
            }) ==> contradiction_payload(
                *final(self),
                position,
                neighbor,
                direction,
                neighbor_variants@,
                neighbor_sockets@,
            ),
            r is Ok ==> placed_ok(
                final(self).constraint,
                final(self).abstract_rules,
                final(self).cells,
                pending@,
            ),
            r is Ok ==> changed_ok(
                final(self).constraint,
                final(self).abstract_rules,
                old(self).cells,
                final(self).cells,
                cell_index,
                Set::empty(),
            ),
    {
        let mut stack: Vec<usize> = Vec::new();
        stack.push(cell_index);
        proof {
            crate::cells::lemma_total_poss_nonneg(self.cells.list@, self.cells.len_spec());
            assert forall|x: usize|
                stack@.to_set().contains(x) <==> Set::empty().insert(cell_index).contains(
                    x,
                ) by {
                if stack@.to_set().contains(x) {
                    assert(stack@.contains(x));
                    let j = choose|j: int| 0 <= j < stack@.len() && #[trigger] stack@[j] == x;
                    assert(x == cell_index);
                }
                if x == cell_index {
                    assert(stack@[0] == x);
                    assert(stack@.contains(x));
                }
            }
            assert(stack@.to_set() =~= Set::empty().insert(cell_index));
            assert(pending@.union(stack@.to_set()) =~= pending@.insert(cell_index));
            assert(changed_ok(
                self.constraint,
                self.abstract_rules,
                old(self).cells,
                self.cells,
                cell_index,
                stack@.to_set(),
            )) by {
                assert forall|i: usize, j: int|
                    #![trigger self.cells.cell(i as int).neighbors@[j]]
                    i < self.cells.len_spec() && (self.cells.poss(i as int) != old(
                        self,
                    ).cells.poss(i as int) || i == cell_index) && !stack@.to_set().contains(i)
                        && 0 <= j < self.cells.cell(i as int).neighbors@.len()
                        && !self.cells.is_collapsed(
                        self.cells.cell(i as int).neighbors@[j].0 as int,
                    ) implies arc_ok(
                    self.constraint,
                    self.abstract_rules,
                    self.cells,
                    i as int,
                    self.cells.cell(i as int).neighbors@[j].0 as int,
                    self.cells.cell(i as int).neighbors@[j].1 as int,
                ) by {
                    assert(i != cell_index);
                    assert(self.cells.poss(i as int) == old(self).cells.poss(i as int));
                }
            }
        }
        while stack.len() > 0
            invariant
                self.wf(),
                self.statics_eq(*old(self)),
                self.arbiter == old(self).arbiter,
                self.cells.shrinks_from(old(self).cells),
                self.cells.uncollapsed_count() == old(self).cells.uncollapsed_count(),
                forall|j: int|
                    0 <= j < stack@.len() ==> (#[trigger] stack@[j]) < self.cells.len_spec(),
                self.cells.total_poss() >= 0,
                placed_ok(
                    self.constraint,
                    self.abstract_rules,
                    self.cells,
                    pending@.union(stack@.to_set()),
                ),
                changed_ok(
                    self.constraint,
                    self.abstract_rules,
                    old(self).cells,
                    self.cells,
                    cell_index,
                    stack@.to_set(),
                ),
                forall|i: int|
                    0 <= i < self.cells.len_spec() ==> (#[trigger] self.cells.is_collapsed(i)
                        <==> old(self).cells.is_collapsed(i)),
            decreases self.cells.total_poss(), stack@.len(),
        {
            let ghost total0 = self.cells.total_poss();
            let ghost slen0 = stack@.len() as int;
            let ghost cells0 = self.cells;
            let ghost stack_pre = stack@;
            let copt = stack.pop();
            let c = copt.unwrap();
            let poss_c = self.cells.list[c].possibilities.clone();
            let cpos = self.cells.list[c].position.clone();
            let ghost csize = self.cells.size@;
            let ghost nbrs = self.cells.cell(c as int).neighbors@;
            proof {
                assert forall|x: usize|
                    pending@.union(stack_pre.to_set()).contains(x) implies #[trigger] pending@.union(
                    stack@.to_set(),
                ).insert(c).contains(x) by {
                    if stack_pre.to_set().contains(x) {
                        let jx = choose|jx: int|
                            0 <= jx < stack_pre.len() && #[trigger] stack_pre[jx] == x;
                        if jx < stack_pre.len() - 1 {
                            assert(stack@[jx] == x);
                            assert(stack@.to_set().contains(x));
                        } else {
                            assert(x == c);
                        }
                    }
                }
                lemma_placed_ok_mono(
                    self.constraint,
                    self.abstract_rules,
                    self.cells,
                    pending@.union(stack_pre.to_set()),
                    pending@.union(stack@.to_set()).insert(c),
                );
                assert forall|x: usize|
                    stack_pre.to_set().contains(x) implies #[trigger] stack@.to_set().insert(
                    c,
                ).contains(x) by {
                    let jx = choose|jx: int|
                        0 <= jx < stack_pre.len() && #[trigger] stack_pre[jx] == x;
                    if jx < stack_pre.len() - 1 {
                        assert(stack@[jx] == x);
                        assert(stack@.to_set().contains(x));
                    } else {
                        assert(x == c);
                    }
                }
                lemma_changed_ok_mono(
                    self.constraint,
                    self.abstract_rules,
                    old(self).cells,
                    self.cells,
                    cell_index,
                    stack_pre.to_set(),
                    stack@.to_set().insert(c),
                );
                assert(poss_c@ =~= self.cells.poss(c as int));
                assert(self.cells.cell(c as int).wf(
                    c as int,
                    csize,
                    self.cells.num_variants as int,
                ));
                crate::util::lemma_product_pos(csize);
                crate::cells::lemma_neighbors_props(c as int, csize, 2 * csize.len() as int);
                crate::cells::lemma_total_poss_nonneg(self.cells.list@, self.cells.len_spec());
            }
            let ncount = self.cells.list[c].neighbors.len();
            let mut t: usize = 0;
            while t < ncount
                invariant
                    0 <= t <= ncount,
                    ncount == nbrs.len(),
                    self.cells.cell(c as int).neighbors@ == nbrs,
                    self.wf(),
                    self.statics_eq(*old(self)),
                    self.arbiter == old(self).arbiter,
                    self.cells.shrinks_from(old(self).cells),
                    self.cells.uncollapsed_count() == old(self).cells.uncollapsed_count(),
                    forall|j: int|
                        0 <= j < stack@.len() ==> (#[trigger] stack@[j]) < self.cells.len_spec(),
                    csize == self.cells.size@,
                    c < self.cells.len_spec(),
                    sorted_distinct(poss_c@),
                    forall|j: int|
                        0 <= j < poss_c@.len() ==> (#[trigger] poss_c@[j])
                            < self.cells.num_variants,
                    forall|j: int|
                        0 <= j < nbrs.len() ==> {
                            let e = #[trigger] nbrs[j];
                            &&& e.0 < self.cells.len_spec()
                            &&& (e.1 as int) < 2 * csize.len()
                            &&& e.0 != c
                        },
                    self.cells.total_poss() >= 0,
                    self.cells.total_poss() <= total0,
                    stack@.len() >= slen0 - 1,
                    stack@.len() > slen0 - 1 ==> self.cells.total_poss() < total0,
                    self.cells.cell(c as int).possibilities@ == poss_c@,
                    self.cells.cell(c as int).position@ == cpos@,
                    placed_ok(
                        self.constraint,
                        self.abstract_rules,
                        self.cells,
                        pending@.union(stack@.to_set()).insert(c),
                    ),
                    self.cells.is_collapsed(c as int) ==> forall|jj: int|
                        0 <= jj < t ==> arc_ok(
                            self.constraint,
                            self.abstract_rules,
                            self.cells,
                            c as int,
                            (#[trigger] nbrs[jj]).0 as int,
                            nbrs[jj].1 as int,
                        ),
                    forall|jj: int|
                        0 <= jj < t && !self.cells.is_collapsed((#[trigger] nbrs[jj]).0 as int)
                            ==> arc_ok(
                            self.constraint,
                            self.abstract_rules,
                            self.cells,
                            c as int,
                            nbrs[jj].0 as int,
                            nbrs[jj].1 as int,
                        ),
                    changed_ok(
                        self.constraint,
                        self.abstract_rules,
                        old(self).cells,
                        self.cells,
                        cell_index,
                        stack@.to_set().insert(c),
                    ),
                    forall|i: int|
                        0 <= i < self.cells.len_spec() ==> (#[trigger] self.cells.is_collapsed(i)
                            <==> old(self).cells.is_collapsed(i)),
                decreases ncount - t,
            {
                let ni = self.cells.list[c].neighbors[t].0;
                let nd = self.cells.list[c].neighbors[t].1;
                let ghost pre_cells = self.cells;
                let ghost stack_entry = stack@;
                proof {
                    assert(nbrs[t as int].0 == ni && nbrs[t as int].1 == nd);
                }
                if self.cells.list[ni].entropy == 0 {
                    // A collapsed neighbor is only checked: its one variant
                    // must still fit what this cell exposes toward it.
                    proof {
                        assert(self.cells.cell(ni as int).wf(
                            ni as int,
                            csize,
                            self.cells.num_variants as int,
                        ));
                    }
                    let w = self.cells.list[ni].possibilities[0];
                    let sockets = sockets_for(
                        &mut self.socket_cache,
                        &self.abstract_rules,
                        &poss_c,
                        nd,
                    );
                    let opp = if nd % 2 == 0 {
                        nd + 1
                    } else {
                        nd - 1
                    };
                    proof {
                        assert(self.abstract_rules.rules@[w as int].sockets@.len()
                            == self.abstract_rules.dcount);
                    }
                    let sock_opt = self.abstract_rules.rules[w].sockets[opp];
                    let ok = match sock_opt {
                        Some(s) => self.constraint.check(s, &sockets),
                        None => false,
                    };
                    if !ok {
                        let position = self.cells.list[ni].position.clone();
                        let neighbor = self.cells.list[c].position.clone();
                        let neighbor_variants = poss_c.clone();
                        proof {
                            let st = *self;
                            assert(st.cells.cell(c as int).neighbors@.contains(
                                (ni, opp_dir(opp as int) as usize),
                            )) by {
                                assert(opp_dir(opp as int) == nd as int);
                                assert(nbrs[t as int] == (ni, nd));
                            }
                            assert(sockets@.to_set() =~= socket_union(
                                st.abstract_rules,
                                poss_c@,
                                nd as int,
                            ));
                            assert forall|v: usize| #[trigger]
                                st.cells.poss(ni as int).contains(v) implies !variant_allowed(
                                st.constraint,
                                st.abstract_rules,
                                v as int,
                                opp as int,
                                socket_union(st.abstract_rules, poss_c@, nd as int),
                            ) by {
                                assert(st.cells.poss(ni as int).len() == 1);
                                let u = choose|u: int|
                                    0 <= u < st.cells.poss(ni as int).len()
                                        && #[trigger] st.cells.poss(ni as int)[u] == v;
                                assert(v == w);
                                match sock_opt {
                                    Some(sk) => {
                                        assert(st.abstract_rules.socket_of(
                                            w as int,
                                            opp as int,
                                        ) == Some(sk));
                                        assert(!st.constraint.check_spec(
                                            sk as int,
                                            sockets@.to_set(),
                                        ));
                                    },
                                    None => {},
                                }
                            }
                            assert(contradiction_payload(
                                st,
                                position,
                                neighbor,
                                opp,
                                neighbor_variants@,
                                sockets@,
                            )) by {
                                assert(neighbor_variants@ =~= poss_c@);
                                assert(0 <= (c as int) < st.cells.len_spec());
                                assert(0 <= (ni as int) < st.cells.len_spec());
                                assert(opp_dir(opp as int) == nd as int);
                                assert(socket_union(
                                    st.abstract_rules,
                                    neighbor_variants@,
                                    opp_dir(opp as int),
                                ) == socket_union(st.abstract_rules, poss_c@, nd as int));
                                assert({
                                    &&& st.cells.cell(c as int).neighbors@.contains(
                                        (ni, opp_dir(opp as int) as usize),
                                    )
                                    &&& neighbor_variants@ == st.cells.poss(c as int)
                                    &&& position@ == st.cells.cell(ni as int).position@
                                    &&& neighbor@ == st.cells.cell(c as int).position@
                                    &&& sorted_distinct(sockets@)
                                    &&& forall|s2: usize| #[trigger]
                                        sockets@.contains(s2) <==> union_has(
                                            st.abstract_rules,
                                            neighbor_variants@,
                                            opp_dir(opp as int),
                                            s2,
                                        )
                                    &&& forall|v: usize| #[trigger]
                                        st.cells.poss(ni as int).contains(v) ==> !variant_allowed(
                                            st.constraint,
                                            st.abstract_rules,
                                            v as int,
                                            opp as int,
                                            socket_union(
                                                st.abstract_rules,
                                                neighbor_variants@,
                                                opp_dir(opp as int),
                                            ),
                                        )
                                });
                            }
                        }
                        return Err(
                            Error::Contradiction {
                                position,
                                neighbor,
                                direction: opp,
                                neighbor_variants,
                                neighbor_sockets: sockets,
                            },
                        );
                    }
                    proof {
                        let ar = self.abstract_rules;
                        let cc = self.constraint;
                        let cur = self.cells;
                        let un = socket_union(ar, poss_c@, nd as int);
                        assert(sockets@.to_set() =~= un);
                        assert(cur.poss(c as int) == poss_c@);
                        assert(arc_ok(cc, ar, cur, c as int, ni as int, nd as int)) by {
                            assert forall|v: usize| #[trigger]
                                cur.poss(ni as int).contains(v) implies variant_allowed(
                                cc,
                                ar,
                                v as int,
                                opp_dir(nd as int),
                                socket_union(ar, cur.poss(c as int), nd as int),
                            ) by {
                                assert(cur.cell(ni as int).wf(
                                    ni as int,
                                    csize,
                                    cur.num_variants as int,
                                ));
                                assert(cur.poss(ni as int).len() == 1);
                                let u = choose|u: int|
                                    0 <= u < cur.poss(ni as int).len() && #[trigger] cur.poss(
                                        ni as int,
                                    )[u] == v;
                                assert(v == w);
                                assert(opp as int == opp_dir(nd as int));
                                match sock_opt {
                                    Some(s) => {
                                        assert(ar.socket_of(w as int, opp as int) == Some(s));
                                        assert(cc.check_spec(s as int, sockets@.to_set()));
                                    },
                                    None => {
                                        assert(!ok);
                                    },
                                }
                            }
                        }
                    }
                } else {
                    let starting = self.cells.list[ni].entropy;
                    proof {
                        assert(self.cells.cell(ni as int).wf(
                            ni as int,
                            csize,
                            self.cells.num_variants as int,
                        ));
                    }
                    let res = constrain(
                        &mut self.cells.list[ni],
                        &self.constraint,
                        &poss_c,
                        nd,
                        &cpos,
                        &self.abstract_rules,
                        &mut self.socket_cache,
                    );
                    match res {
                        Err(e) => {
                            proof {
                                assert(self.cells.list@ =~= pre_cells.list@);
                                Cells::lemma_view_eq_wf(pre_cells, self.cells);
                                Cells::lemma_shrinks_trans(
                                    old(self).cells,
                                    pre_cells,
                                    self.cells,
                                );
                                let st = *self;
                                match &e {
                                    Error::Contradiction {
                                        position,
                                        neighbor,
                                        direction,
                                        neighbor_variants,
                                        neighbor_sockets,
                                    } => {
                                        assert(st.cells.cell(c as int).neighbors@.contains(
                                            (ni, opp_dir(*direction as int) as usize),
                                        )) by {
                                            assert(*direction == opp_dir(nd as int));
                                            assert(opp_dir(*direction as int) == nd as int);
                                            assert(nbrs[t as int] == (ni, nd));
                                        }
                                        assert(st.cells.cell(ni as int)
                                            == pre_cells.cell(ni as int));
                                        assert(contradiction_payload(
                                            st,
                                            *position,
                                            *neighbor,
                                            *direction,
                                            neighbor_variants@,
                                            neighbor_sockets@,
                                        )) by {
                                            assert(0 <= (c as int) < st.cells.len_spec());
                                            assert(0 <= (ni as int) < st.cells.len_spec());
                                            assert(neighbor_variants@ == poss_c@);
                                            assert(st.cells.poss(c as int) == poss_c@);
                                            assert(position@ == st.cells.cell(
                                                ni as int,
                                            ).position@);
                                            assert(neighbor@ == st.cells.cell(
                                                c as int,
                                            ).position@);
                                            assert(opp_dir(*direction as int) == nd as int);
                                            assert(socket_union(
                                                st.abstract_rules,
                                                neighbor_variants@,
                                                opp_dir(*direction as int),
                                            ) == socket_union(
                                                st.abstract_rules,
                                                poss_c@,
                                                nd as int,
                                            ));
                                            assert({
                                                &&& st.cells.cell(c as int).neighbors@.contains(
                                                    (ni, opp_dir(*direction as int) as usize),
                                                )
                                                &&& neighbor_variants@ == st.cells.poss(c as int)
                                                &&& position@ == st.cells.cell(
                                                    ni as int,
                                                ).position@
                                                &&& neighbor@ == st.cells.cell(
                                                    c as int,
                                                ).position@
                                                &&& sorted_distinct(neighbor_sockets@)
                                                &&& forall|s2: usize| #[trigger]
                                                    neighbor_sockets@.contains(s2) <==> union_has(
                                                        st.abstract_rules,
                                                        neighbor_variants@,
                                                        opp_dir(*direction as int),
                                                        s2,
                                                    )
                                                &&& forall|v: usize| #[trigger]
                                                    st.cells.poss(ni as int).contains(v)
                                                        ==> !variant_allowed(
                                                        st.constraint,
                                                        st.abstract_rules,
                                                        v as int,
                                                        *direction as int,
                                                        socket_union(
                                                            st.abstract_rules,
                                                            neighbor_variants@,
                                                            opp_dir(*direction as int),
                                                        ),
                                                    )
                                            });
                                        }
                                    },
                                    _ => {},
                                }
                            }
                            return Err(e);
                        },
                        Ok(_) => {},
                    }
                    let newe = self.cells.list[ni].entropy;
                    proof {
                        let post = self.cells;
                        assert(forall|j: int|
                            0 <= j < post.len_spec() && j != ni ==> post.cell(j)
                                == pre_cells.cell(j));
                        assert forall|v: usize| #[trigger]
                            post.poss(ni as int).contains(v) implies pre_cells.poss(
                            ni as int,
                        ).contains(v) by {}
                        crate::cells::lemma_sorted_subset_le(
                            post.poss(ni as int),
                            pre_cells.poss(ni as int),
                        );
                    }
                    if starting != newe {
                        proof {
                            pre_cells.lemma_entropy_le_nv(ni as int);
                            assert(pre_cells.bucket(pre_cells.entropy_of(ni as int)).contains(
                                ni,
                            )) by {
                                assert(!pre_cells.is_collapsed(ni as int));
                            }
                            assert(1 <= newe <= pre_cells.num_variants) by {
                                let p = self.cells.poss(ni as int);
                                crate::cells::lemma_sorted_at_least(p, p.len() - 1);
                                assert(p.contains(p[p.len() - 1]));
                                assert(pre_cells.poss(ni as int).contains(p[p.len() - 1]));
                                let u = choose|u: int|
                                    0 <= u < pre_cells.poss(ni as int).len()
                                        && #[trigger] pre_cells.poss(ni as int)[u] == p[p.len()
                                        - 1];
                            }
                        }
                        self.cells.set_entropy(starting, ni, newe);
                        stack.push(ni);
                        proof {
                            Cells::lemma_reduce_wf(pre_cells, self.cells, ni, true);
                            Cells::lemma_shrinks_trans(old(self).cells, pre_cells, self.cells);
                            crate::cells::lemma_total_poss_update_one(
                                pre_cells.list@,
                                self.cells.list@,
                                pre_cells.len_spec(),
                                ni as int,
                            );
                            assert(self.cells.poss(ni as int).len() < pre_cells.poss(
                                ni as int,
                            ).len());
                        }
                    } else {
                        proof {
                            assert(self.cells.poss(ni as int).len() == pre_cells.poss(
                                ni as int,
                            ).len());
                            assert(self.cells.poss(ni as int) == pre_cells.poss(ni as int));
                            Cells::lemma_reduce_wf(pre_cells, self.cells, ni, false);
                            Cells::lemma_shrinks_trans(old(self).cells, pre_cells, self.cells);
                            crate::cells::lemma_total_poss_update_one(
                                pre_cells.list@,
                                self.cells.list@,
                                pre_cells.len_spec(),
                                ni as int,
                            );
                        }
                    }
                }
                proof {
                    crate::cells::lemma_total_poss_nonneg(
                        self.cells.list@,
                        self.cells.len_spec(),
                    );
                    let ar = self.abstract_rules;
                    let cc = self.constraint;
                    let cur = self.cells;
                    // This step mutated at most the reconsidered neighbor, so
                    // collapsedness is untouched.
                    assert forall|i2: int| 0 <= i2 < cur.len_spec() implies (
                    #[trigger] cur.is_collapsed(i2) <==> pre_cells.is_collapsed(i2)) by {
                        if i2 != ni {
                            assert(cur.cell(i2) == pre_cells.cell(i2));
                        }
                    }
                    assert(cur.poss(c as int) == poss_c@);
                    // Arcs established for earlier neighbors persist: their
                    // targets only lost candidates and this cell stands still.
                    if cur.is_collapsed(c as int) {
                        assert forall|jj: int| 0 <= jj < t + 1 implies arc_ok(
                            cc,
                            ar,
                            cur,
                            c as int,
                            (#[trigger] nbrs[jj]).0 as int,
                            nbrs[jj].1 as int,
                        ) by {
                            let e0 = nbrs[jj].0 as int;
                            let e1 = nbrs[jj].1 as int;
                            if jj == t {
                                assert(e0 == ni as int && e1 == nd as int);
                                assert(socket_union(ar, cur.poss(c as int), e1) == socket_union(
                                    ar,
                                    poss_c@,
                                    nd as int,
                                ));
                                assert forall|v: usize| #[trigger]
                                    cur.poss(e0).contains(v) implies variant_allowed(
                                    cc,
                                    ar,
                                    v as int,
                                    opp_dir(e1),
                                    socket_union(ar, cur.poss(c as int), e1),
                                ) by {}
                            } else {
                                assert(pre_cells.is_collapsed(c as int));
                                assert(arc_ok(
                                    cc,
                                    ar,
                                    pre_cells,
                                    c as int,
                                    e0,
                                    e1,
                                ));
                                assert(pre_cells.poss(c as int) == cur.poss(c as int));
                                assert forall|v: usize| #[trigger]
                                    cur.poss(e0).contains(v) implies variant_allowed(
                                    cc,
                                    ar,
                                    v as int,
                                    opp_dir(e1),
                                    socket_union(ar, cur.poss(c as int), e1),
                                ) by {
                                    if e0 == ni as int {
                                        assert(pre_cells.poss(e0).contains(v));
                                    } else {
                                        assert(cur.cell(e0) == pre_cells.cell(e0));
                                        assert(pre_cells.poss(e0).contains(v));
                                    }
                                }
                            }
                        }
                    }
                    // Arcs re-enforced toward uncollapsed neighbors persist
                    // the same way, with no condition on this cell.
                    assert forall|jj: int|
                        0 <= jj < t + 1 && !cur.is_collapsed(
                            (#[trigger] nbrs[jj]).0 as int,
                        ) implies arc_ok(
                        cc,
                        ar,
                        cur,
                        c as int,
                        nbrs[jj].0 as int,
                        nbrs[jj].1 as int,
                    ) by {
                        let e0 = nbrs[jj].0 as int;
                        let e1 = nbrs[jj].1 as int;
                        if jj == t {
                            assert(e0 == ni as int && e1 == nd as int);
                            assert(!pre_cells.is_collapsed(ni as int));
                            assert(socket_union(ar, cur.poss(c as int), e1) == socket_union(
                                ar,
                                poss_c@,
                                nd as int,
                            ));
                            assert forall|v: usize| #[trigger]
                                cur.poss(e0).contains(v) implies variant_allowed(
                                cc,
                                ar,
                                v as int,
                                opp_dir(e1),
                                socket_union(ar, cur.poss(c as int), e1),
                            ) by {}
                        } else {
                            assert(!pre_cells.is_collapsed(e0));
                            assert(arc_ok(cc, ar, pre_cells, c as int, e0, e1));
                            assert(pre_cells.poss(c as int) == cur.poss(c as int));
                            assert forall|v: usize| #[trigger]
                                cur.poss(e0).contains(v) implies variant_allowed(
                                cc,
                                ar,
                                v as int,
                                opp_dir(e1),
                                socket_union(ar, cur.poss(c as int), e1),
                            ) by {
                                if e0 == ni as int {
                                    assert(pre_cells.poss(e0).contains(v));
                                } else {
                                    assert(cur.cell(e0) == pre_cells.cell(e0));
                                    assert(pre_cells.poss(e0).contains(v));
                                }
                            }
                        }
                    }
                    // The placed-cells claim survives the shrink and the wider
                    // pending set after a push.
                    let p_entry = pending@.union(stack_entry.to_set()).insert(c);
                    let p_now = pending@.union(stack@.to_set()).insert(c);
                    lemma_placed_ok_shrink(cc, ar, pre_cells, cur, p_entry);
                    assert forall|x: usize| p_entry.contains(x) implies #[trigger] p_now.contains(
                        x,
                    ) by {
                        if stack_entry.to_set().contains(x) {
                            let jx = choose|jx: int|
                                0 <= jx < stack_entry.len() && #[trigger] stack_entry[jx] == x;
                            assert(stack@[jx] == x);
                        }
                    }
                    lemma_placed_ok_mono(cc, ar, cur, p_entry, p_now);
                    // The changed-cells claim survives too: the reconsidered
                    // neighbor is either unchanged or freshly excused.
                    let q_entry = stack_entry.to_set().insert(c);
                    let q_now = stack@.to_set().insert(c);
                    assert forall|x: usize| q_entry.contains(x) implies #[trigger] q_now.contains(
                        x,
                    ) by {
                        if stack_entry.to_set().contains(x) {
                            let jx = choose|jx: int|
                                0 <= jx < stack_entry.len() && #[trigger] stack_entry[jx] == x;
                            assert(stack@[jx] == x);
                        }
                    }
                    assert(q_now.contains(ni) || cur.poss(ni as int) == pre_cells.poss(
                        ni as int,
                    )) by {
                        if cur.poss(ni as int) != pre_cells.poss(ni as int) {
                            assert(stack@[stack@.len() - 1] == ni);
                            assert(stack@.to_set().contains(ni));
                        }
                    }
                    lemma_changed_ok_shrink(
                        cc,
                        ar,
                        old(self).cells,
                        pre_cells,
                        cur,
                        cell_index,
                        q_entry,
                        q_now,
                        ni,
                    );
                }
                t = t + 1;
            }
            proof {
                let ar = self.abstract_rules;
                let cc = self.constraint;
                let cur = self.cells;
                let p_final = pending@.union(stack@.to_set());
                // The popped cell's edges are all enforced now, so it no
                // longer needs the pending excuse.
                assert(placed_ok(cc, ar, cur, p_final)) by {
                    assert forall|i: usize, j: int|
                        #![trigger cur.cell(i as int).neighbors@[j]]
                        i < cur.len_spec() && cur.is_collapsed(i as int) && 0 <= j < cur.cell(
                            i as int,
                        ).neighbors@.len() && !p_final.contains(i) implies {
                        let e = cur.cell(i as int).neighbors@[j];
                        arc_ok(cc, ar, cur, i as int, e.0 as int, e.1 as int) || (cur.is_collapsed(
                            e.0 as int,
                        ) && arc_ok(cc, ar, cur, e.0 as int, i as int, opp_dir(e.1 as int)))
                    } by {
                        if i == c {
                            assert(cur.cell(c as int).neighbors@ == nbrs);
                            assert(arc_ok(
                                cc,
                                ar,
                                cur,
                                c as int,
                                nbrs[j].0 as int,
                                nbrs[j].1 as int,
                            ));
                        } else {
                            assert(!pending@.union(stack@.to_set()).insert(c).contains(i));
                        }
                    }
                }
                assert(changed_ok(cc, ar, old(self).cells, cur, cell_index, stack@.to_set()))
                    by {
                    assert forall|i: usize, j: int|
                        #![trigger cur.cell(i as int).neighbors@[j]]
                        i < cur.len_spec() && (cur.poss(i as int) != old(self).cells.poss(
                            i as int,
                        ) || i == cell_index) && !stack@.to_set().contains(i) && 0 <= j
                            < cur.cell(i as int).neighbors@.len() && !cur.is_collapsed(
                            cur.cell(i as int).neighbors@[j].0 as int,
                        ) implies arc_ok(
                        cc,
                        ar,
                        cur,
                        i as int,
                        cur.cell(i as int).neighbors@[j].0 as int,
                        cur.cell(i as int).neighbors@[j].1 as int,
                    ) by {
                        if i == c {
                            assert(cur.cell(c as int).neighbors@ == nbrs);
                            assert(!cur.is_collapsed((nbrs[j]).0 as int));
                            assert(arc_ok(
                                cc,
                                ar,
                                cur,
                                c as int,
                                nbrs[j].0 as int,
                                nbrs[j].1 as int,
                            ));
                        } else {
                            assert(!stack@.to_set().insert(c).contains(i));
                        }
                    }
                }
            }
        }
        Ok(())
    }
}

impl<A: Arbiter, C: Constraint, D: Dimension> StateBuilder<A, C, D> {
    /// Validates the configuration, interns the rules, seeds the grid, applies
    /// the external borders, propagates every pre-collapsed cell, and hands
    /// the engine back. Fails with `DimensionMismatch` when the size names a
    /// different number of axes than the direction type, with `NoRule` when a
    /// seed or border value has no rule, with `NoPossibilities` when the rule
    /// set is empty, and with `Contradiction` when the seeds or borders are
    /// already inconsistent.
    pub fn build(self) -> (r: Result<State<A, C, D>, Error>)
        requires
            self.size.wf(),
            self.rules.wf(),
            self.output_buffer@.len() == product(self.size@),
            forall|j: int|
                0 <= j < self.external_cells.sides@.len() ==> (
                #[trigger] self.external_cells.sides@[j]).0 < D::count()
                    && self.external_cells.sides@[j].1@.len() == product(self.size@),
        ensures
            match r {
                Ok(state) => {
                    &&& state.wf()
                    &&& state.settled()
                    &&& 2 * self.size@.len() == D::count()
                    &&& state.cells.size@ == self.size@
                    &&& state.cells.len_spec() == product(self.size@)
                    &&& state.rules == self.rules
                    &&& forall|i: int|
                        0 <= i < self.output_buffer@.len() ==> match #[trigger] self.output_buffer@[i] {
                            Some(v) => exists|id: usize|
                                {
                                    &&& (id as int) < state.legend.variants@.len()
                                    &&& #[trigger] state.legend.variants@[id as int] == v
                                    &&& state.cells.is_collapsed(i)
                                    &&& state.cells.poss(i) == seq![id]
                                },
                            None => true,
                        }
                },
                Err(_) => true,
            },
            (r matches Err(Error::DimensionMismatch { const_value, dimension_count })) <==> 2
                * self.size@.len() != D::count(),
            2 * self.size@.len() != D::count() ==> (r matches Err(Error::DimensionMismatch {
                const_value,
                dimension_count,
            }) && const_value == self.size@.len() && dimension_count == D::count()),
            r matches Err(Error::NoRule { variant }) ==> !self.rules.has_rule(variant),
            2 * self.size@.len() == D::count() && self.rules.table@.len() == 0 ==> r matches Err(
                Error::NoPossibilities,
            ),
    {
        let ghost in_size = self.size@;
        let StateBuilder { size, arbiter, constraint, rules, output_buffer, external_cells } =
            self;
        let dims = size.dims();
        let dcount = D::dir_count();
        if dcount != 2 * dims {
            return Err(
                Error::DimensionMismatch { const_value: dims, dimension_count: dcount },
            );
        }
        let pair = rules.abstract_rules();
        let abstract_rules = pair.0;
        let legend = pair.1;
        let num_variants = legend.variants.len();
        if num_variants == 0 {
            return Err(Error::NoPossibilities);
        }
        proof {
            assert(self.rules.table@.len() != 0) by {
                assert(legend.variants@.contains(legend.variants@[0]));
                assert(rules.has_rule(legend.variants@[0]));
                let jj = choose|jj: int|
                    0 <= jj < rules.table@.len() && (#[trigger] rules.table@[jj]).0
                        == legend.variants@[0];
            }
        }
        // Seeds are interned up front; an unknown value is a missing rule.
        let total = output_buffer.len();
        let mut seeds: Vec<Option<usize>> = Vec::new();
        let mut k: usize = 0;
        while k < total
            invariant
                0 <= k <= total,
                total == output_buffer@.len(),
                legend.wf(),
                num_variants == legend.variants@.len(),
                in_size == self.size@,
                2 * in_size.len() == D::count(),
                output_buffer == self.output_buffer,
                rules == self.rules,
                self.rules.table@.len() != 0,
                forall|y: u64| #[trigger] legend.variants@.contains(y) <==> rules.has_rule(y),
                seeds@.len() == k,
                forall|i: int|
                    0 <= i < k ==> match #[trigger] seeds@[i] {
                        Some(v) => v < num_variants,
                        None => true,
                    },
                forall|i: int|
                    0 <= i < k ==> match #[trigger] output_buffer@[i] {
                        Some(v) => exists|id: usize|
                            {
                                &&& (id as int) < legend.variants@.len()
                                &&& #[trigger] legend.variants@[id as int] == v
                                &&& seeds@[i] == Some(id)
                            },
                        None => seeds@[i] is None,
                    },
            decreases total - k,
        {
            match &output_buffer[k] {
                Some(value) => {
                    match legend.variant_id(value) {
                        Some(id) => {
                            seeds.push(Some(id.0));
                            proof {
                                assert(legend.variants@[id.0 as int] == *value);
                            }
                        },
                        None => {
                            proof {
                                assert(!rules.has_rule(*value)) by {
                                    if legend.variants@.contains(*value) {
                                        let jj = choose|jj: int|
                                            0 <= jj < legend.variants@.len()
                                                && #[trigger] legend.variants@[jj] == *value;
                                    }
                                }
                            }
                            return Err(Error::NoRule { variant: *value });
                        },
                    }
                },
                None => {
                    seeds.push(None);
                },
            }
            k = k + 1;
        }
        let ghost seeds_view = seeds@;
        let cells = Cells::new(size, seeds, num_variants);
        let mut state = State {
            cells,
            arbiter,
            constraint,
            rules,
            legend,
            abstract_rules,
            socket_cache: SocketCache::new(),
        };
        proof {
            assert(state.socket_cache.wf(state.abstract_rules)) by {
                assert(state.socket_cache.entries@.len() == 0);
            }
            assert(state.wf());
            // Every collapsed cell starts out pending, so nothing is claimed yet.
            assert(placed_ok(
                state.constraint,
                state.abstract_rules,
                state.cells,
                seeded_pending(state.cells),
            )) by {
                assert forall|i: usize, j: int|
                    #![trigger state.cells.cell(i as int).neighbors@[j]]
                    i < state.cells.len_spec() && state.cells.is_collapsed(i as int) && 0 <= j
                        < state.cells.cell(i as int).neighbors@.len() && !seeded_pending(
                        state.cells,
                    ).contains(i) implies {
                    let e = state.cells.cell(i as int).neighbors@[j];
                    arc_ok(
                        state.constraint,
                        state.abstract_rules,
                        state.cells,
                        i as int,
                        e.0 as int,
                        e.1 as int,
                    ) || (state.cells.is_collapsed(e.0 as int) && arc_ok(
                        state.constraint,
                        state.abstract_rules,
                        state.cells,
                        e.0 as int,
                        i as int,
                        opp_dir(e.1 as int),
                    ))
                } by {
                    assert(seeded_pending(state.cells).contains(i));
                }
            }
        }
        let ghost cells_built = state.cells;
        match state.apply_external_information(external_cells) {
            Ok(_) => {},
            Err(e) => {
                return Err(e);
            },
        }
        let ghost state_after_ext = state;
        proof {
            // The border pass collapses nothing, so the pending set still
            // names exactly the collapsed cells.
            assert(seeded_pending(cells_built) =~= seeded_pending(state.cells));
        }
        match state.apply_predetermined_cells() {
            Ok(_) => {},
            Err(e) => {
                return Err(e);
            },
        }
        proof {
            Cells::lemma_shrinks_trans(cells_built, state_after_ext.cells, state.cells);
            assert(state.cells.size@ == in_size);
            assert forall|i: int|
                0 <= i < self.output_buffer@.len() implies match #[trigger] self.output_buffer@[i] {
                Some(v) => exists|id: usize|
                    {
                        &&& (id as int) < state.legend.variants@.len()
                        &&& #[trigger] state.legend.variants@[id as int] == v
                        &&& state.cells.is_collapsed(i)
                        &&& state.cells.poss(i) == seq![id]
                    },
                None => true,
            } by {
                match self.output_buffer@[i] {
                    Some(v) => {
                        let id = choose|id: usize|
                            {
                                &&& (id as int) < state.legend.variants@.len()
                                &&& #[trigger] state.legend.variants@[id as int] == v
                                &&& seeds_view[i] == Some(id)
                            };
                        assert(seeds_view[i] == Some(id));
                        assert(cells_built.is_collapsed(i) && cells_built.poss(i) == seq![id]);
                        assert(0 <= i < state.cells.len_spec());
                        assert((state.cells.cell(i)).possibilities == cells_built.cell(
                            i,
                        ).possibilities);
                        assert(state.cells.is_collapsed(i));
                        assert(state.cells.poss(i) == seq![id]);
                    },
                    None => {},
                }
            }
        }
        Ok(state)
    }
}

impl<A: Arbiter, C: Constraint, D: Dimension> State<A, C, D> {
    /// Constrains each uncollapsed cell on a bordered face against the fixed
    /// external variant behind it, then propagates each change.
    fn apply_external_information(&mut self, external_cells: ExtCells) -> (r: Result<(), Error>)
        requires
            old(self).wf(),
            placed_ok(
                old(self).constraint,
                old(self).abstract_rules,
                old(self).cells,
                seeded_pending(old(self).cells),
            ),
            forall|j: int|
                0 <= j < external_cells.sides@.len() ==> (#[trigger] external_cells.sides@[j]).0
                    < old(self).abstract_rules.dcount && external_cells.sides@[j].1@.len()
                    == product(old(self).cells.size@),
        ensures
            final(self).wf(),
            final(self).statics_eq(*old(self)),
            final(self).arbiter == old(self).arbiter,
            final(self).cells.shrinks_from(old(self).cells),
            final(self).cells.uncollapsed_count() == old(self).cells.uncollapsed_count(),
            r is Ok ==> placed_ok(
                final(self).constraint,
                final(self).abstract_rules,
                final(self).cells,
                seeded_pending(old(self).cells),
            ),
            r is Ok ==> forall|i: int|
                0 <= i < final(self).cells.len_spec()
                    ==> (#[trigger] final(self).cells.is_collapsed(i) <==> old(
                    self,
                ).cells.is_collapsed(i)),
            r matches Err(e) ==> e is NoRule || e is Contradiction,
            r matches Err(Error::NoRule { variant }) ==> !old(
                self,
            ).legend.variants@.contains(variant),
            r is Ok ==> borders_enforced(
                final(self).constraint,
                final(self).abstract_rules,
                final(self).legend,
                old(self).cells.size@,
                external_cells.sides@,
                old(self).cells,
                final(self).cells,
                external_cells.sides@.len() as int,
            ),
    {
        let ghost pend0 = seeded_pending(old(self).cells);
        let ghost size0 = old(self).cells.size@;
        let ghost base0 = old(self).cells;
        let nsides = external_cells.sides.len();
        let mut s: usize = 0;
        while s < nsides
            invariant
                0 <= s <= nsides,
                nsides == external_cells.sides@.len(),
                self.wf(),
                self.statics_eq(*old(self)),
                self.arbiter == old(self).arbiter,
                self.cells.shrinks_from(old(self).cells),
                self.cells.uncollapsed_count() == old(self).cells.uncollapsed_count(),
                forall|j: int|
                    0 <= j < external_cells.sides@.len() ==> (
                    #[trigger] external_cells.sides@[j]).0 < self.abstract_rules.dcount
                        && external_cells.sides@[j].1@.len() == product(self.cells.size@),
                pend0 == seeded_pending(old(self).cells),
                placed_ok(self.constraint, self.abstract_rules, self.cells, pend0),
                forall|i: int|
                    0 <= i < self.cells.len_spec() ==> (#[trigger] self.cells.is_collapsed(i)
                        <==> old(self).cells.is_collapsed(i)),
                size0 == old(self).cells.size@,
                base0 == old(self).cells,
                self.cells.size@ == size0,
                borders_enforced(
                    self.constraint,
                    self.abstract_rules,
                    self.legend,
                    size0,
                    external_cells.sides@,
                    base0,
                    self.cells,
                    s as int,
                ),
            decreases nsides - s,
        {
            let dir = external_cells.sides[s].0;
            let ghost side_cells = self.cells;
            let ghost dside = dir as int;
            let indexes = self.cells.uncollapsed_indexes_along_dir(dir);
            let icount = indexes.len();
            proof {
                lemma_face_upto_props(self.cells, dir as int, self.cells.len_spec());
            }
            let mut t: usize = 0;
            while t < icount
                invariant
                    0 <= t <= icount,
                    icount == indexes@.len(),
                    self.wf(),
                    self.statics_eq(*old(self)),
                    self.arbiter == old(self).arbiter,
                    self.cells.shrinks_from(old(self).cells),
                    self.cells.uncollapsed_count() == old(self).cells.uncollapsed_count(),
                    s < external_cells.sides@.len(),
                    dir == external_cells.sides@[s as int].0,
                    dir < self.abstract_rules.dcount,
                    external_cells.sides@[s as int].1@.len() == product(self.cells.size@),
                    forall|j: int|
                        0 <= j < indexes@.len() ==> (#[trigger] indexes@[j])
                            < self.cells.len_spec(),
                    pend0 == seeded_pending(old(self).cells),
                    placed_ok(self.constraint, self.abstract_rules, self.cells, pend0),
                    forall|i: int|
                        0 <= i < self.cells.len_spec() ==> (#[trigger] self.cells.is_collapsed(i)
                            <==> old(self).cells.is_collapsed(i)),
                    size0 == old(self).cells.size@,
                    base0 == old(self).cells,
                    self.cells.size@ == size0,
                    side_cells.size@ == size0,
                    side_cells.len_spec() == self.cells.len_spec(),
                    dside == dir as int,
                    indexes@ == crate::cells::face_uncollapsed_upto(
                        side_cells,
                        dside,
                        side_cells.len_spec(),
                    ),
                    forall|i: int|
                        0 <= i < side_cells.len_spec() ==> (#[trigger] side_cells.is_collapsed(i)
                            <==> old(self).cells.is_collapsed(i)),
                    borders_enforced(
                        self.constraint,
                        self.abstract_rules,
                        self.legend,
                        size0,
                        external_cells.sides@,
                        base0,
                        self.cells,
                        s as int,
                    ),
                    forall|t2: int|
                        0 <= t2 < t ==> #[trigger] border_allows(
                            self.constraint,
                            self.abstract_rules,
                            self.legend,
                            size0,
                            external_cells.sides@[s as int],
                            self.cells,
                            indexes@[t2] as int,
                        ),
                decreases icount - t,
            {
                let index = indexes[t];
                proof {
                    lemma_face_upto_props(side_cells, dside, side_cells.len_spec());
                    assert(index == crate::cells::face_uncollapsed_upto(
                        side_cells,
                        dside,
                        side_cells.len_spec(),
                    )[t as int]);
                    assert(!side_cells.is_collapsed(index as int));
                    assert(on_face(pos_of(index as int, side_cells.size@), side_cells.size@, dside));
                    assert(on_face(pos_of(index as int, size0), size0, dside));
                }
                if self.cells.list[index].entropy != 0 {
                    let ghost pre_cells = self.cells;
                    proof {
                        assert(self.cells.cell(index as int).wf(
                            index as int,
                            self.cells.size@,
                            self.cells.num_variants as int,
                        ));
                        crate::util::lemma_product_pos(self.cells.size@);
                        lemma_index_of_pos_of(index as int, self.cells.size@);
                        assert forall|kk: int|
                            0 <= kk < self.cells.cell(index as int).position@.len() implies isize::MIN
                            < #[trigger] self.cells.cell(index as int).position@[kk]
                            < isize::MAX by {
                            crate::util::lemma_extent_le_product(self.cells.size@, kk);
                        }
                    }
                    let cellref = &self.cells.list[index];
                    let neighbor_pos = cellref.position.add_dir(dir);
                    let neighbor_index = neighbor_pos.index_in(&self.cells.size);
                    proof {
                        crate::util::lemma_index_of_bounds(
                            neighbor_pos.wrapped_spec(self.cells.size@),
                            self.cells.size@,
                        );
                    }
                    proof {
                        // The read lands exactly on the spec's reflected index.
                        let np = crate::cells::stepped(pos_of(index as int, size0), dside);
                        assert(self.cells.cell(index as int).position@ == pos_of(
                            index as int,
                            size0,
                        ));
                        assert(neighbor_pos@ =~= np);
                        assert(neighbor_pos.wrapped_spec(self.cells.size@) =~= Seq::new(
                            np.len(),
                            |k: int| np[k] % (size0[k] as int),
                        ));
                        assert(neighbor_index == border_index(size0, index as int, dside));
                    }
                    let value = external_cells.sides[s].1[neighbor_index];
                    let ext_id = match self.legend.variant_id(&value) {
                        Some(id) => id.0,
                        None => {
                            proof {
                                assert(self.legend == old(self).legend);
                            }
                            return Err(Error::NoRule { variant: value });
                        },
                    };
                    proof {
                        // The legend's sorted values make the interned id unique.
                        let id2 = legend_id(self.legend, value);
                        assert((id2 as int) < self.legend.variants@.len()
                            && self.legend.variants@[id2 as int] == value) by {
                            assert((ext_id as int) < self.legend.variants@.len()
                                && self.legend.variants@[ext_id as int] == value);
                        }
                        assert(id2 == ext_id) by {
                            if (id2 as int) < (ext_id as int) {
                                assert(self.legend.variants@[id2 as int]
                                    < self.legend.variants@[ext_id as int]);
                            }
                            if (id2 as int) > (ext_id as int) {
                                assert(self.legend.variants@[ext_id as int]
                                    < self.legend.variants@[id2 as int]);
                            }
                        }
                    }
                    let mut singleton: Vec<usize> = Vec::new();
                    singleton.push(ext_id);
                    proof {
                        assert(singleton@ =~= seq![ext_id]);
                        assert(sorted_distinct(singleton@)) by {
                            assert(singleton@.len() == 1);
                        }
                        assert(ext_id < self.cells.num_variants);
                    }
                    let opp = if dir % 2 == 0 {
                        dir + 1
                    } else {
                        dir - 1
                    };
                    let starting = self.cells.list[index].entropy;
                    let res = constrain(
                        &mut self.cells.list[index],
                        &self.constraint,
                        &singleton,
                        opp,
                        &neighbor_pos,
                        &self.abstract_rules,
                        &mut self.socket_cache,
                    );
                    match res {
                        Err(e) => {
                            proof {
                                assert(self.cells.list@ =~= pre_cells.list@);
                                Cells::lemma_view_eq_wf(pre_cells, self.cells);
                                Cells::lemma_shrinks_trans(
                                    old(self).cells,
                                    pre_cells,
                                    self.cells,
                                );
                            }
                            return Err(e);
                        },
                        Ok(_) => {},
                    }
                    let newe = self.cells.list[index].entropy;
                    proof {
                        let post = self.cells;
                        assert(forall|j: int|
                            0 <= j < post.len_spec() && j != index ==> post.cell(j)
                                == pre_cells.cell(j));
                        assert forall|v: usize| #[trigger]
                            post.poss(index as int).contains(v) implies pre_cells.poss(
                            index as int,
                        ).contains(v) by {}
                        crate::cells::lemma_sorted_subset_le(
                            post.poss(index as int),
                            pre_cells.poss(index as int),
                        );
                    }
                    if starting != newe {
                        proof {
                            pre_cells.lemma_entropy_le_nv(index as int);
                            assert(pre_cells.bucket(pre_cells.entropy_of(index as int)).contains(
                                index,
                            )) by {
                                assert(!pre_cells.is_collapsed(index as int));
                            }
                            assert(1 <= newe <= pre_cells.num_variants) by {
                                let p = self.cells.poss(index as int);
                                crate::cells::lemma_sorted_at_least(p, p.len() - 1);
                                assert(p.contains(p[p.len() - 1]));
                                assert(pre_cells.poss(index as int).contains(p[p.len() - 1]));
                                let u = choose|u: int|
                                    0 <= u < pre_cells.poss(index as int).len()
                                        && #[trigger] pre_cells.poss(index as int)[u] == p[p.len()
                                        - 1];
                            }
                        }
                        self.cells.set_entropy(starting, index, newe);
                        proof {
                            Cells::lemma_reduce_wf(pre_cells, self.cells, index, true);
                            Cells::lemma_shrinks_trans(old(self).cells, pre_cells, self.cells);
                        }
                    } else {
                        proof {
                            assert(self.cells.poss(index as int) == pre_cells.poss(index as int));
                            Cells::lemma_reduce_wf(pre_cells, self.cells, index, false);
                            Cells::lemma_shrinks_trans(old(self).cells, pre_cells, self.cells);
                        }
                    }
                    proof {
                        assert forall|i2: int| 0 <= i2 < self.cells.len_spec() implies (
                        #[trigger] self.cells.is_collapsed(i2) <==> pre_cells.is_collapsed(
                            i2,
                        )) by {
                            if i2 != index {
                                assert(self.cells.cell(i2) == pre_cells.cell(i2));
                            }
                        }
                        lemma_placed_ok_shrink(
                            self.constraint,
                            self.abstract_rules,
                            pre_cells,
                            self.cells,
                            pend0,
                        );
                        lemma_placed_ok_mono(
                            self.constraint,
                            self.abstract_rules,
                            self.cells,
                            pend0,
                            pend0.insert(index),
                        );
                        // The face cell now satisfies the border: exactly the
                        // kept candidates pass against the border's socket.
                        let side = external_cells.sides@[s as int];
                        assert(border_allows(
                            self.constraint,
                            self.abstract_rules,
                            self.legend,
                            size0,
                            side,
                            self.cells,
                            index as int,
                        )) by {
                            let ext2 = legend_id(
                                self.legend,
                                side.1@[border_index(size0, index as int, dside)],
                            );
                            assert(ext2 == ext_id);
                            assert forall|v: usize| #[trigger]
                                self.cells.poss(index as int).contains(v) implies variant_allowed(
                                self.constraint,
                                self.abstract_rules,
                                v as int,
                                dside,
                                socket_union(self.abstract_rules, seq![ext2], opp_dir(dside)),
                            ) by {
                                assert(opp as int == opp_dir(dside));
                                lemma_opposite_pairing(dside);
                                assert(opp_dir(opp as int) == dside);
                                assert(singleton@ == seq![ext2]);
                            }
                        }
                        // Earlier enforcements survive this cell's shrink.
                        assert forall|i2: int, v: usize|
                            0 <= i2 < self.cells.len_spec() && #[trigger] self.cells.poss(
                                i2,
                            ).contains(v) implies pre_cells.poss(i2).contains(v) by {
                            if i2 != index {
                                assert(self.cells.cell(i2) == pre_cells.cell(i2));
                            }
                        }
                        lemma_borders_enforced_shrink(
                            self.constraint,
                            self.abstract_rules,
                            self.legend,
                            size0,
                            external_cells.sides@,
                            base0,
                            pre_cells,
                            self.cells,
                            s as int,
                        );
                        assert forall|t2: int| 0 <= t2 < t implies #[trigger] border_allows(
                            self.constraint,
                            self.abstract_rules,
                            self.legend,
                            size0,
                            external_cells.sides@[s as int],
                            self.cells,
                            indexes@[t2] as int,
                        ) by {
                            lemma_border_allows_shrink(
                                self.constraint,
                                self.abstract_rules,
                                self.legend,
                                size0,
                                external_cells.sides@[s as int],
                                pre_cells,
                                self.cells,
                                indexes@[t2] as int,
                            );
                        }
                    }
                    let ghost after_con = self.cells;
                    match self.propagate(index, Ghost(pend0)) {
                        Err(e) => {
                            proof {
                                Cells::lemma_shrinks_trans(pre_cells, after_con, self.cells);
                                Cells::lemma_shrinks_trans(old(self).cells, pre_cells, self.cells);
                            }
                            return Err(e);
                        },
                        Ok(_) => {},
                    }
                    proof {
                        Cells::lemma_shrinks_trans(pre_cells, after_con, self.cells);
                        Cells::lemma_shrinks_trans(old(self).cells, pre_cells, self.cells);
                        lemma_collapsedness_stable(after_con, self.cells);
                        lemma_borders_enforced_shrink(
                            self.constraint,
                            self.abstract_rules,
                            self.legend,
                            size0,
                            external_cells.sides@,
                            base0,
                            after_con,
                            self.cells,
                            s as int,
                        );
                        assert forall|t2: int| 0 <= t2 < t + 1 implies #[trigger] border_allows(
                            self.constraint,
                            self.abstract_rules,
                            self.legend,
                            size0,
                            external_cells.sides@[s as int],
                            self.cells,
                            indexes@[t2] as int,
                        ) by {
                            lemma_border_allows_shrink(
                                self.constraint,
                                self.abstract_rules,
                                self.legend,
                                size0,
                                external_cells.sides@[s as int],
                                after_con,
                                self.cells,
                                indexes@[t2] as int,
                            );
                        }
                    }
                } else {
                    proof {
                        // The face list names uncollapsed cells only, and
                        // nothing in this pass collapses a cell.
                        assert(self.cells.is_collapsed(index as int));
                        assert(old(self).cells.is_collapsed(index as int));
                        assert(side_cells.is_collapsed(index as int));
                        assert(false);
                    }
                }
                t = t + 1;
            }
            proof {
                // Every face cell of this side is in the processed list, so
                // the side is now enforced in full.
                lemma_face_upto_props(side_cells, dside, side_cells.len_spec());
                assert forall|s2: int, i: int|
                    0 <= s2 < s + 1 && 0 <= i < self.cells.len_spec() && !base0.is_collapsed(i)
                        && on_face(
                        pos_of(i, size0),
                        size0,
                        external_cells.sides@[s2].0 as int,
                    ) implies #[trigger] border_allows(
                    self.constraint,
                    self.abstract_rules,
                    self.legend,
                    size0,
                    external_cells.sides@[s2],
                    self.cells,
                    i,
                ) by {
                    if s2 < s {
                    } else {
                        let iu = i as usize;
                        assert(!side_cells.is_collapsed(iu as int));
                        assert(crate::cells::face_uncollapsed_upto(
                            side_cells,
                            dside,
                            side_cells.len_spec(),
                        ).contains(iu));
                        let t2 = choose|t2: int|
                            0 <= t2 < indexes@.len() && #[trigger] indexes@[t2] == iu;
                        assert(border_allows(
                            self.constraint,
                            self.abstract_rules,
                            self.legend,
                            size0,
                            external_cells.sides@[s as int],
                            self.cells,
                            indexes@[t2] as int,
                        ));
                    }
                }
            }
            s = s + 1;
        }
        Ok(())
    }

    /// Runs the adjusters for every pre-collapsed cell and propagates from it.
    fn apply_predetermined_cells(&mut self) -> (r: Result<(), Error>)
        requires
            old(self).wf(),
            placed_ok(
                old(self).constraint,
                old(self).abstract_rules,
                old(self).cells,
                seeded_pending(old(self).cells),
            ),
        ensures
            final(self).wf(),
            final(self).statics_eq(*old(self)),
            final(self).cells.shrinks_from(old(self).cells),
            final(self).cells.uncollapsed_count() == old(self).cells.uncollapsed_count(),
            r is Ok ==> final(self).settled(),
            r matches Err(e) ==> e is NoPossibilities || e is Contradiction,
    {
        let ghost pend0 = seeded_pending(old(self).cells);
        let total = self.cells.list.len();
        let mut i: usize = 0;
        proof {
            assert(Set::new(|x: usize| pend0.contains(x) && x >= 0) =~= pend0);
        }
        while i < total
            invariant
                0 <= i <= total,
                total == self.cells.len_spec(),
                self.wf(),
                self.statics_eq(*old(self)),
                self.cells.shrinks_from(old(self).cells),
                self.cells.uncollapsed_count() == old(self).cells.uncollapsed_count(),
                pend0 == seeded_pending(old(self).cells),
                placed_ok(
                    self.constraint,
                    self.abstract_rules,
                    self.cells,
                    Set::new(|x: usize| pend0.contains(x) && x >= i),
                ),
                forall|i2: int|
                    0 <= i2 < self.cells.len_spec() ==> (#[trigger] self.cells.is_collapsed(i2)
                        <==> old(self).cells.is_collapsed(i2)),
            decreases total - i,
        {
            let ghost p_here = Set::new(|x: usize| pend0.contains(x) && x >= i);
            let ghost p_next = Set::new(|x: usize| pend0.contains(x) && x >= i + 1);
            if self.cells.list[i].entropy == 0 {
                proof {
                    assert(self.cells.cell(i as int).wf(
                        i as int,
                        self.cells.size@,
                        self.cells.num_variants as int,
                    ));
                }
                let variant = self.cells.list[i].possibilities[0];
                let ghost mid = self.cells;
                match self.arbiter.revise(variant, &mut self.cells) {
                    Err(e) => {
                        proof {
                            Cells::lemma_shrinks_trans(old(self).cells, mid, self.cells);
                        }
                        return Err(e);
                    },
                    Ok(_) => {},
                }
                proof {
                    Cells::lemma_shrinks_trans(old(self).cells, mid, self.cells);
                    lemma_collapsedness_stable(mid, self.cells);
                    lemma_placed_ok_shrink(
                        self.constraint,
                        self.abstract_rules,
                        mid,
                        self.cells,
                        p_here,
                    );
                    // The cell's own entry moves from the not-yet list to the
                    // pending argument of its propagation.
                    assert(mid.is_collapsed(i as int));
                    assert(old(self).cells.is_collapsed(i as int));
                    assert(i < old(self).cells.len_spec());
                    assert(pend0.contains(i));
                    assert(p_next.insert(i) =~= p_here);
                }
                let ghost before_prop = self.cells;
                match self.propagate(i, Ghost(p_next)) {
                    Err(e) => {
                        proof {
                            Cells::lemma_shrinks_trans(old(self).cells, before_prop, self.cells);
                        }
                        return Err(e);
                    },
                    Ok(_) => {},
                }
                proof {
                    Cells::lemma_shrinks_trans(old(self).cells, before_prop, self.cells);
                    lemma_collapsedness_stable(before_prop, self.cells);
                }
            } else {
                proof {
                    assert(!self.cells.is_collapsed(i as int));
                    assert(!old(self).cells.is_collapsed(i as int));
                    assert(!pend0.contains(i));
                    assert(p_next =~= p_here);
                    lemma_placed_ok_mono(
                        self.constraint,
                        self.abstract_rules,
                        self.cells,
                        p_here,
                        p_next,
                    );
                }
            }
            i = i + 1;
        }
        proof {
            assert(Set::new(|x: usize| pend0.contains(x) && x >= total) =~= Set::<usize>::empty());
        }
        Ok(())
    }

    /// One collapse step: the arbiter picks and collapses a cell, the
    /// adjusters run with the placed variant, and the change is propagated.
    /// `Complete` is returned exactly when no uncollapsed cell was left.
    pub fn collapse(&mut self) -> (r: Result<Observation, Error>)
        requires
            old(self).wf(),
            old(self).settled(),
        ensures
            final(self).wf(),
            final(self).statics_eq(*old(self)),
            final(self).cells.shrinks_from(old(self).cells),
            r is Ok ==> final(self).settled(),
            match r {
                Ok(obs) => match obs {
                    Observation::Incomplete(index) => {
                        &&& index < final(self).cells.len_spec()
                        &&& final(self).cells.uncollapsed_count() == old(self).cells.uncollapsed_count() - 1
                        &&& !old(self).cells.is_collapsed(index as int)
                        &&& final(self).cells.is_collapsed(index as int)
                        &&& final(self).cells.poss(index as int).len() == 1
                        &&& old(self).cells.poss(index as int).contains(
                            final(self).cells.poss(index as int)[0],
                        )
                    },
                    Observation::Complete => old(self).cells.uncollapsed_count() == 0
                        && final(self).cells.uncollapsed_count() == 0,
                },
                Err(_) => final(self).cells.uncollapsed_count() <= old(self).cells.uncollapsed_count(),
            },
    {
        let ghost cells_in = self.cells;
        let picked = match self.arbiter.designate(&mut self.cells) {
            Ok(o) => o,
            Err(e) => {
                return Err(e);
            },
        };
        let index = match picked {
            Some(index) => index,
            None => {
                return Ok(Observation::Complete);
            },
        };
        proof {
            assert(self.cells.cell(index as int).wf(
                index as int,
                self.cells.size@,
                self.cells.num_variants as int,
            ));
            lemma_placed_ok_collapse(
                self.constraint,
                self.abstract_rules,
                cells_in,
                self.cells,
                Set::empty(),
                index,
            );
        }
        let possibility = self.cells.list[index].possibilities[0];
        let ghost mid = self.cells;
        match self.arbiter.revise(possibility, &mut self.cells) {
            Err(e) => {
                proof {
                    Cells::lemma_shrinks_trans(cells_in, mid, self.cells);
                }
                return Err(e);
            },
            Ok(_) => {},
        }
        proof {
            Cells::lemma_shrinks_trans(cells_in, mid, self.cells);
            lemma_collapsedness_stable(mid, self.cells);
            lemma_placed_ok_shrink(
                self.constraint,
                self.abstract_rules,
                mid,
                self.cells,
                Set::empty().insert(index),
            );
        }
        let ghost before_prop = self.cells;
        match self.propagate(index, Ghost(Set::empty())) {
            Err(e) => {
                proof {
                    Cells::lemma_shrinks_trans(cells_in, before_prop, self.cells);
                }
                return Err(e);
            },
            Ok(_) => {},
        }
        proof {
            Cells::lemma_shrinks_trans(cells_in, before_prop, self.cells);
            // The designated cell stays collapsed to its chosen variant: later
            // phases never touch a collapsed cell.
            let ghost post_des = mid;
            assert(post_des.is_collapsed(index as int));
            assert(self.cells.shrinks_from(post_des)) by {
                Cells::lemma_shrinks_trans(post_des, before_prop, self.cells);
            }
            assert(0 <= (index as int) < self.cells.len_spec());
            assert((self.cells.cell(index as int)).possibilities == post_des.cell(
                index as int,
            ).possibilities);
            assert(self.cells.is_collapsed(index as int));
            assert(post_des.cell(index as int).wf(
                index as int,
                post_des.size@,
                post_des.num_variants as int,
            ));
            assert(self.cells.poss(index as int).len() == 1);
            assert(post_des.poss(index as int).contains(post_des.poss(index as int)[0]));
            assert(cells_in.poss(index as int).contains(self.cells.poss(index as int)[0]));
        }
        Ok(Observation::Incomplete(index))
    }

    /// The final variant values in index order, with `default` in any cell
    /// that is not collapsed.
    pub fn data(&self, default: u64) -> (r: Vec<u64>)
        requires
            self.wf(),
        ensures
            r@.len() == self.cells.len_spec(),
            forall|i: int|
                0 <= i < r@.len() ==> #[trigger] r@[i] == if self.cells.is_collapsed(i) {
                    self.legend.variants@[self.cells.poss(i)[0] as int]
                } else {
                    default
                },
    {
        let total = self.cells.list.len();
        let mut out: Vec<u64> = Vec::new();
        let mut i: usize = 0;
        while i < total
            invariant
                0 <= i <= total,
                total == self.cells.len_spec(),
                self.wf(),
                out@.len() == i,
                forall|j: int|
                    0 <= j < i ==> #[trigger] out@[j] == if self.cells.is_collapsed(j) {
                        self.legend.variants@[self.cells.poss(j)[0] as int]
                    } else {
                        default
                    },
            decreases total - i,
        {
            proof {
                assert(self.cells.cell(i as int).wf(
                    i as int,
                    self.cells.size@,
                    self.cells.num_variants as int,
                ));
            }
            if self.cells.list[i].entropy == 0 {
                let v = self.cells.list[i].possibilities[0];
                out.push(self.legend.variants[v]);
            } else {
                out.push(default);
            }
            i = i + 1;
        }
        out
    }

    /// The final variant values in index order; `None` where not collapsed.
    pub fn data_raw(&self) -> (r: Vec<Option<u64>>)
        requires
            self.wf(),
        ensures
            r@.len() == self.cells.len_spec(),
            forall|i: int|
                0 <= i < r@.len() ==> #[trigger] r@[i] == if self.cells.is_collapsed(i) {
                    Some(self.legend.variants@[self.cells.poss(i)[0] as int])
                } else {
                    None::<u64>
                },
    {
        let total = self.cells.list.len();
        let mut out: Vec<Option<u64>> = Vec::new();
        let mut i: usize = 0;
        while i < total
            invariant
                0 <= i <= total,
                total == self.cells.len_spec(),
                self.wf(),
                out@.len() == i,
                forall|j: int|
                    0 <= j < i ==> #[trigger] out@[j] == if self.cells.is_collapsed(j) {
                        Some(self.legend.variants@[self.cells.poss(j)[0] as int])
                    } else {
                        None::<u64>
                    },
            decreases total - i,
        {
            proof {
                assert(self.cells.cell(i as int).wf(
                    i as int,
                    self.cells.size@,
                    self.cells.num_variants as int,
                ));
            }
            if self.cells.list[i].entropy == 0 {
                let v = self.cells.list[i].possibilities[0];
                out.push(Some(self.legend.variants[v]));
            } else {
                out.push(None);
            }
            i = i + 1;
        }
        out
    }

    /// Consumes the engine into the final variant values; fails when any
    /// cell is not collapsed.
    pub fn into_data(self) -> (r: Result<Vec<u64>, Error>)
        requires
            self.wf(),
        ensures
            match r {
                Ok(out) => {
                    &&& self.cells.uncollapsed_count() == 0
                    &&& out@.len() == self.cells.len_spec()
                    &&& forall|i: int|
                        0 <= i < out@.len() ==> #[trigger] out@[i]
                            == self.legend.variants@[self.cells.poss(i)[0] as int]
                },
                Err(e) => e is NoPossibilities && self.cells.uncollapsed_count() != 0,
            },
    {
        let total = self.cells.list.len();
        let mut out: Vec<u64> = Vec::new();
        let mut i: usize = 0;
        while i < total
            invariant
                0 <= i <= total,
                total == self.cells.len_spec(),
                self.wf(),
                out@.len() == i,
                forall|j: int| 0 <= j < i ==> self.cells.is_collapsed(j),
                forall|j: int|
                    0 <= j < i ==> #[trigger] out@[j] == self.legend.variants@[self.cells.poss(
                        j,
                    )[0] as int],
            decreases total - i,
        {
            proof {
                assert(self.cells.cell(i as int).wf(
                    i as int,
                    self.cells.size@,
                    self.cells.num_variants as int,
                ));
            }
            if self.cells.list[i].entropy == 0 {
                let v = self.cells.list[i].possibilities[0];
                out.push(self.legend.variants[v]);
            } else {
                proof {
                    crate::cells::lemma_uncollapsed_zero(
                        self.cells.list@,
                        self.cells.len_spec(),
                    );
                }
                return Err(Error::NoPossibilities);
            }
            i = i + 1;
        }
        proof {
            assert forall|j: int|
                0 <= j < self.cells.len_spec() implies #[trigger] self.cells.list@[j].entropy
                == 0 by {
                assert(self.cells.is_collapsed(j));
            }
            crate::cells::lemma_uncollapsed_zero(self.cells.list@, self.cells.len_spec());
        }
        Ok(out)
    }

    /// The grid of cells.
    pub fn cells(&self) -> (r: &Cells)
        ensures
            r == &self.cells,
    {
        &self.cells
    }

    /// The grid extents.
    pub fn size(&self) -> (r: &Size)
        ensures
            r == &self.cells.size,
    {
        &self.cells.size
    }

    /// The user-level rules.
    pub fn rules(&self) -> (r: &Rules<D>)
        ensures
            r == &self.rules,
    {
        &self.rules
    }

    /// The socket-compatibility predicate.
    pub fn constrainer(&self) -> (r: &C)
        ensures
            r == &self.constraint,
    {
        &self.constraint
    }
}

/// The pruning an edge enforces: every candidate of the target cell declares
/// a socket back toward the source and that socket passes the check against
/// the union of sockets the source's candidates expose along the edge.
/// `d` is the direction id from `src` to `tgt`.
pub open spec fn arc_ok<C: Constraint>(
    c: C,
    ar: AbstractRules,
    cells: Cells,
    src: int,
    tgt: int,
    d: int,
) -> bool {
    forall|v: usize| #[trigger]
        cells.poss(tgt).contains(v) ==> variant_allowed(
            c,
            ar,
            v as int,
            opp_dir(d),
            socket_union(ar, cells.poss(src), d),
        )
}

/// Each placed (collapsed) cell, unless still pending propagation, has had
/// each of its edges enforced in at least one orientation: either the
/// neighbor was pruned against the placed cell, or the neighbor was itself
/// already placed and this cell was pruned against it.
pub open spec fn placed_ok<C: Constraint>(
    c: C,
    ar: AbstractRules,
    cells: Cells,
    pending: Set<usize>,
) -> bool {
    forall|i: usize, j: int|
        #![trigger cells.cell(i as int).neighbors@[j]]
        i < cells.len_spec() && cells.is_collapsed(i as int) && 0 <= j < cells.cell(
            i as int,
        ).neighbors@.len() && !pending.contains(i) ==> {
            let e = cells.cell(i as int).neighbors@[j];
            arc_ok(c, ar, cells, i as int, e.0 as int, e.1 as int) || (cells.is_collapsed(
                e.0 as int,
            ) && arc_ok(c, ar, cells, e.0 as int, i as int, opp_dir(e.1 as int)))
        }
}

/// Shrinking candidate sets while leaving every collapsed cell alone keeps
/// every enforced edge enforced: pruned sets only lose candidates, and the
/// exposed socket unions of collapsed sources do not move.
pub proof fn lemma_placed_ok_shrink<C: Constraint>(
    c: C,
    ar: AbstractRules,
    pre: Cells,
    post: Cells,
    pending: Set<usize>,
)
    requires
        pre.wf(),
        placed_ok(c, ar, pre, pending),
        post.shrinks_from(pre),
        forall|i: int|
            0 <= i < post.len_spec() ==> (#[trigger] post.is_collapsed(i) <==> pre.is_collapsed(
                i,
            )),
    ensures
        placed_ok(c, ar, post, pending),
{
    assert forall|i: usize, j: int|
        #![trigger post.cell(i as int).neighbors@[j]]
        i < post.len_spec() && post.is_collapsed(i as int) && 0 <= j < post.cell(
            i as int,
        ).neighbors@.len() && !pending.contains(i) implies {
        let e = post.cell(i as int).neighbors@[j];
        arc_ok(c, ar, post, i as int, e.0 as int, e.1 as int) || (post.is_collapsed(e.0 as int)
            && arc_ok(c, ar, post, e.0 as int, i as int, opp_dir(e.1 as int)))
    } by {
        let ii = i as int;
        assert(pre.is_collapsed(ii));
        assert(post.cell(ii).neighbors == pre.cell(ii).neighbors);
        assert(post.cell(ii).possibilities == pre.cell(ii).possibilities);
        assert(pre.cell(ii).wf(ii, pre.size@, pre.num_variants as int));
        proof_neighbor_bounds(pre, ii);
        let e = pre.cell(ii).neighbors@[j];
        let n = e.0 as int;
        let d = e.1 as int;
        assert(0 <= n < pre.len_spec());
        if arc_ok(c, ar, pre, ii, n, d) {
            assert(arc_ok(c, ar, post, ii, n, d)) by {
                assert(post.poss(ii) == pre.poss(ii));
                assert forall|v: usize| #[trigger] post.poss(n).contains(v) implies variant_allowed(
                    c,
                    ar,
                    v as int,
                    opp_dir(d),
                    socket_union(ar, post.poss(ii), d),
                ) by {
                    assert(pre.poss(n).contains(v));
                }
            }
        } else {
            assert(pre.is_collapsed(n) && arc_ok(c, ar, pre, n, ii, opp_dir(d)));
            assert(post.is_collapsed(n));
            assert(post.cell(n).possibilities == pre.cell(n).possibilities);
            assert(arc_ok(c, ar, post, n, ii, opp_dir(d))) by {
                assert(post.poss(n) == pre.poss(n));
                assert(post.poss(ii) == pre.poss(ii));
                assert forall|v: usize| #[trigger] post.poss(ii).contains(v) implies variant_allowed(
                    c,
                    ar,
                    v as int,
                    opp_dir(opp_dir(d)),
                    socket_union(ar, post.poss(n), opp_dir(d)),
                ) by {
                    assert(pre.poss(ii).contains(v));
                }
            }
        }
    }
}

/// Each neighbor entry of a well-formed cell names another in-bounds cell.
pub proof fn proof_neighbor_bounds(cells: Cells, ii: int)
    requires
        cells.wf(),
        0 <= ii < cells.len_spec(),
    ensures
        forall|j: int|
            0 <= j < cells.cell(ii).neighbors@.len() ==> {
                let e = #[trigger] cells.cell(ii).neighbors@[j];
                &&& (e.0 as int) < cells.len_spec()
                &&& (e.0 as int) != ii
                &&& (e.1 as int) < 2 * cells.size@.len()
            },
{
    assert(cells.cell(ii).wf(ii, cells.size@, cells.num_variants as int));
    crate::util::lemma_product_pos(cells.size@);
    crate::cells::lemma_neighbors_props(ii, cells.size@, 2 * cells.size@.len() as int);
}

/// Collapsing one cell and marking it pending keeps every enforced edge
/// enforced: edges into the collapsed cell only lose candidates, and its own
/// edges are excused until propagated.
pub proof fn lemma_placed_ok_collapse<C: Constraint>(
    c: C,
    ar: AbstractRules,
    pre: Cells,
    post: Cells,
    pending: Set<usize>,
    index: usize,
)
    requires
        pre.wf(),
        placed_ok(c, ar, pre, pending),
        post.shrinks_from(pre),
        index < pre.len_spec(),
        forall|i: int| 0 <= i < post.len_spec() && i != index ==> post.cell(i) == pre.cell(i),
    ensures
        placed_ok(c, ar, post, pending.insert(index)),
{
    let pending2 = pending.insert(index);
    assert forall|i: usize, j: int|
        #![trigger post.cell(i as int).neighbors@[j]]
        i < post.len_spec() && post.is_collapsed(i as int) && 0 <= j < post.cell(
            i as int,
        ).neighbors@.len() && !pending2.contains(i) implies {
        let e = post.cell(i as int).neighbors@[j];
        arc_ok(c, ar, post, i as int, e.0 as int, e.1 as int) || (post.is_collapsed(e.0 as int)
            && arc_ok(c, ar, post, e.0 as int, i as int, opp_dir(e.1 as int)))
    } by {
        let ii = i as int;
        assert(i != index);
        assert(post.cell(ii) == pre.cell(ii));
        assert(pre.is_collapsed(ii));
        assert(!pending.contains(i));
        assert(pre.cell(ii).wf(ii, pre.size@, pre.num_variants as int));
        proof_neighbor_bounds(pre, ii);
        let e = pre.cell(ii).neighbors@[j];
        let n = e.0 as int;
        let d = e.1 as int;
        assert(0 <= n < pre.len_spec());
        if arc_ok(c, ar, pre, ii, n, d) {
            assert(arc_ok(c, ar, post, ii, n, d)) by {
                assert(post.poss(ii) == pre.poss(ii));
                assert forall|v: usize| #[trigger] post.poss(n).contains(v) implies variant_allowed(
                    c,
                    ar,
                    v as int,
                    opp_dir(d),
                    socket_union(ar, post.poss(ii), d),
                ) by {
                    assert(pre.poss(n).contains(v));
                }
            }
        } else {
            assert(pre.is_collapsed(n) && arc_ok(c, ar, pre, n, ii, opp_dir(d)));
            // The neighbor's candidates are frozen whether or not it is the
            // newly collapsed cell: collapsed cells never change.
            assert(post.len_spec() == pre.len_spec());
            assert(0 <= n < post.len_spec());
            assert(pre.is_collapsed(n));
            assert((post.cell(n)).possibilities == pre.cell(n).possibilities);
            assert(post.is_collapsed(n));
            assert(post.poss(n) == pre.poss(n));
            assert(arc_ok(c, ar, post, n, ii, opp_dir(d))) by {
                assert forall|v: usize| #[trigger] post.poss(ii).contains(v) implies variant_allowed(
                    c,
                    ar,
                    v as int,
                    opp_dir(opp_dir(d)),
                    socket_union(ar, post.poss(n), opp_dir(d)),
                ) by {
                    assert(pre.poss(ii).contains(v));
                }
            }
        }
    }
}

/// Excusing more cells only weakens the claim.
pub proof fn lemma_placed_ok_mono<C: Constraint>(
    c: C,
    ar: AbstractRules,
    cells: Cells,
    p1: Set<usize>,
    p2: Set<usize>,
)
    requires
        placed_ok(c, ar, cells, p1),
        forall|x: usize| p1.contains(x) ==> #[trigger] p2.contains(x),
    ensures
        placed_ok(c, ar, cells, p2),
{
    assert forall|i: usize, j: int|
        #![trigger cells.cell(i as int).neighbors@[j]]
        i < cells.len_spec() && cells.is_collapsed(i as int) && 0 <= j < cells.cell(
            i as int,
        ).neighbors@.len() && !p2.contains(i) implies {
        let e = cells.cell(i as int).neighbors@[j];
        arc_ok(c, ar, cells, i as int, e.0 as int, e.1 as int) || (cells.is_collapsed(e.0 as int)
            && arc_ok(c, ar, cells, e.0 as int, i as int, opp_dir(e.1 as int)))
    } by {
        assert(!p1.contains(i));
    }
}

/// A contradiction payload names a real edge of the grid: a source cell whose
/// candidate list and position are the snapshot, an adjacent target cell whose
/// position is the failing one, the direction from the target toward the
/// source, the exact socket union the source exposes along the edge, and no
/// target candidate passing the check against it.
pub open spec fn contradiction_payload<A: Arbiter, C: Constraint, D: Dimension>(
    state: State<A, C, D>,
    position: IPos,
    neighbor: IPos,
    direction: usize,
    neighbor_variants: Seq<usize>,
    neighbor_sockets: Seq<usize>,
) -> bool {
    exists|src: usize, tgt: usize|
        {
            &&& src < state.cells.len_spec()
            &&& tgt < state.cells.len_spec()
            &&& #[trigger] state.cells.cell(src as int).neighbors@.contains(
                (tgt, opp_dir(direction as int) as usize),
            )
            &&& neighbor_variants == state.cells.poss(src as int)
            &&& position@ == state.cells.cell(tgt as int).position@
            &&& neighbor@ == state.cells.cell(src as int).position@
            &&& sorted_distinct(neighbor_sockets)
            &&& forall|s: usize| #[trigger]
                neighbor_sockets.contains(s) <==> union_has(
                    state.abstract_rules,
                    neighbor_variants,
                    opp_dir(direction as int),
                    s,
                )
            &&& forall|v: usize| #[trigger]
                state.cells.poss(tgt as int).contains(v) ==> !variant_allowed(
                    state.constraint,
                    state.abstract_rules,
                    v as int,
                    direction as int,
                    socket_union(state.abstract_rules, neighbor_variants, opp_dir(direction as int)),
                )
        }
}

/// The flat index into a border array behind face cell `i`: one step in the
/// side's direction, wrapped back into the grid, column-major.
pub open spec fn border_index(size: Seq<usize>, i: int, d: int) -> int {
    let np = crate::cells::stepped(pos_of(i, size), d);
    index_of(Seq::new(np.len(), |k: int| np[k] % (size[k] as int)), size)
}

/// The dense id the legend gives a variant value it holds.
pub open spec fn legend_id(legend: Legend, v: u64) -> usize {
    choose|id: usize| (id as int) < legend.variants@.len() && legend.variants@[id as int] == v
}

/// The border behind face cell `i` of side `(d, ext)` has been enforced:
/// every remaining candidate of the cell declares a socket toward the border
/// and it passes the check against the single socket the border variant
/// exposes back into the grid.
pub open spec fn border_allows<C: Constraint>(
    c: C,
    ar: AbstractRules,
    legend: Legend,
    size: Seq<usize>,
    side: (usize, Vec<u64>),
    cells: Cells,
    i: int,
) -> bool {
    let d = side.0 as int;
    let ext_id = legend_id(legend, side.1@[border_index(size, i, d)]);
    forall|v: usize| #[trigger]
        cells.poss(i).contains(v) ==> variant_allowed(
            c,
            ar,
            v as int,
            d,
            socket_union(ar, seq![ext_id], opp_dir(d)),
        )
}

/// An enforced border stays enforced while the cell only loses candidates.
pub proof fn lemma_border_allows_shrink<C: Constraint>(
    c: C,
    ar: AbstractRules,
    legend: Legend,
    size: Seq<usize>,
    side: (usize, Vec<u64>),
    pre: Cells,
    post: Cells,
    i: int,
)
    requires
        border_allows(c, ar, legend, size, side, pre, i),
        forall|v: usize| #[trigger] post.poss(i).contains(v) ==> pre.poss(i).contains(v),
    ensures
        border_allows(c, ar, legend, size, side, post, i),
{
    let d = side.0 as int;
    let ext_id = legend_id(legend, side.1@[border_index(size, i, d)]);
    assert forall|v: usize| #[trigger] post.poss(i).contains(v) implies variant_allowed(
        c,
        ar,
        v as int,
        d,
        socket_union(ar, seq![ext_id], opp_dir(d)),
    ) by {
        assert(pre.poss(i).contains(v));
    }
}

/// The borders of the first `upto` sides have been enforced on every face
/// cell that was uncollapsed in `base`.
pub open spec fn borders_enforced<C: Constraint>(
    c: C,
    ar: AbstractRules,
    legend: Legend,
    size: Seq<usize>,
    sides: Seq<(usize, Vec<u64>)>,
    base: Cells,
    cells: Cells,
    upto: int,
) -> bool {
    forall|s: int, i: int|
        0 <= s < upto && 0 <= i < cells.len_spec() && !base.is_collapsed(i) && on_face(
            pos_of(i, size),
            size,
            sides[s].0 as int,
        ) ==> #[trigger] border_allows(c, ar, legend, size, sides[s], cells, i)
}

/// Enforced borders stay enforced while candidate sets only shrink.
pub proof fn lemma_borders_enforced_shrink<C: Constraint>(
    c: C,
    ar: AbstractRules,
    legend: Legend,
    size: Seq<usize>,
    sides: Seq<(usize, Vec<u64>)>,
    base: Cells,
    pre: Cells,
    post: Cells,
    upto: int,
)
    requires
        borders_enforced(c, ar, legend, size, sides, base, pre, upto),
        post.len_spec() == pre.len_spec(),
        forall|i: int, v: usize|
            0 <= i < post.len_spec() && #[trigger] post.poss(i).contains(v) ==> pre.poss(
                i,
            ).contains(v),
    ensures
        borders_enforced(c, ar, legend, size, sides, base, post, upto),
{
    assert forall|s: int, i: int|
        0 <= s < upto && 0 <= i < post.len_spec() && !base.is_collapsed(i) && on_face(
            pos_of(i, size),
            size,
            sides[s].0 as int,
        ) implies #[trigger] border_allows(c, ar, legend, size, sides[s], post, i) by {
        assert(border_allows(c, ar, legend, size, sides[s], pre, i));
        assert forall|v: usize| #[trigger] post.poss(i).contains(v) implies pre.poss(i).contains(
            v,
        ) by {}
        lemma_border_allows_shrink(c, ar, legend, size, sides[s], pre, post, i);
    }
}

/// The cells that start out collapsed: the excuse set before their edges
/// have been propagated.
pub open spec fn seeded_pending(cells: Cells) -> Set<usize> {
    Set::new(|x: usize| x < cells.len_spec() && cells.is_collapsed(x as int))
}

/// Shrinking without collapsing keeps collapsedness pointwise equal.
pub proof fn lemma_collapsedness_stable(pre: Cells, post: Cells)
    requires
        post.shrinks_from(pre),
        post.uncollapsed_count() == pre.uncollapsed_count(),
        0 <= pre.len_spec(),
    ensures
        forall|i: int|
            0 <= i < post.len_spec() ==> (#[trigger] post.is_collapsed(i) <==> pre.is_collapsed(
                i,
            )),
{
    assert forall|j: int|
        0 <= j < pre.len_spec() && (#[trigger] pre.list@[j]).entropy == 0 implies post.list@[j].entropy
        == 0 by {
        assert(pre.is_collapsed(j));
        assert((post.cell(j)).possibilities == pre.cell(j).possibilities);
        assert(post.is_collapsed(j));
    }
    assert(forall|j: int|
        0 <= j < pre.len_spec() ==> ((#[trigger] pre.list@[j].entropy == 0)
            ==> post.list@[j].entropy == 0)) by {
        assert(forall|j: int|
            0 <= j < pre.len_spec() && (#[trigger] pre.list@[j]).entropy == 0
                ==> post.list@[j].entropy == 0);
    }
    crate::cells::lemma_uncollapsed_pointwise(pre.list@, post.list@, pre.len_spec());
    assert forall|i: int|
        0 <= i < post.len_spec() implies (#[trigger] post.is_collapsed(i) <==> pre.is_collapsed(
        i,
    )) by {
        assert((pre.list@[i].entropy == 0) <==> (post.list@[i].entropy == 0));
    }
}

/// The constraint treats single sockets symmetrically and rejects the empty
/// set, so a missing connection never passes.
pub open spec fn constraint_exchangeable<C: Constraint>(c: C) -> bool {
    &&& forall|s: usize, t: usize| #[trigger]
        c.check_spec(s as int, Set::empty().insert(t)) == c.check_spec(
            t as int,
            Set::empty().insert(s),
        )
    &&& forall|s: int| !(#[trigger] c.check_spec(s, Set::empty()))
}

/// Local consistency of a settled, fully collapsed grid: along every edge,
/// the placed variant declares a socket toward its neighbor and that socket
/// passes the constraint check against the one socket the neighbor's placed
/// variant exposes back, for any constraint that is symmetric on single
/// sockets and rejects a missing connection.
pub proof fn lemma_local_consistency<C: Constraint>(
    c: C,
    ar: AbstractRules,
    cells: Cells,
    i: usize,
    j: int,
)
    requires
        cells.wf(),
        ar.wf(),
        cells.num_variants == ar.nv(),
        ar.dcount == 2 * cells.size@.len(),
        placed_ok(c, ar, cells, Set::empty()),
        cells.uncollapsed_count() == 0,
        constraint_exchangeable(c),
        i < cells.len_spec(),
        0 <= j < cells.cell(i as int).neighbors@.len(),
    ensures
        ({
            let e = cells.cell(i as int).neighbors@[j];
            variant_allowed(
                c,
                ar,
                cells.poss(i as int)[0] as int,
                e.1 as int,
                socket_union(ar, cells.poss(e.0 as int), opp_dir(e.1 as int)),
            )
        }),
{
    crate::cells::lemma_uncollapsed_zero(cells.list@, cells.len_spec());
    let ii = i as int;
    assert(cells.is_collapsed(ii)) by {
        assert(cells.list@[ii].entropy == 0);
    }
    proof_neighbor_bounds(cells, ii);
    let e = cells.cell(ii).neighbors@[j];
    let n = e.0 as int;
    let d = e.1 as int;
    assert(cells.is_collapsed(n)) by {
        assert(cells.list@[n].entropy == 0);
    }
    assert(cells.cell(ii).wf(ii, cells.size@, cells.num_variants as int));
    assert(cells.cell(n).wf(n, cells.size@, cells.num_variants as int));
    let a = cells.poss(ii)[0];
    let b = cells.poss(n)[0];
    assert(cells.poss(ii).len() == 1 && cells.poss(n).len() == 1);
    assert(cells.poss(ii).contains(a) && cells.poss(n).contains(b));
    assert(a < ar.nv() && b < ar.nv());
    assert(!Set::<usize>::empty().contains(i));
    if arc_ok(c, ar, cells, ii, n, d) {
        assert(variant_allowed(c, ar, b as int, opp_dir(d), socket_union(ar, cells.poss(ii), d)));
        let sb = choose|sb: usize| ar.socket_of(b as int, opp_dir(d)) == Some(sb);
        assert(ar.socket_of(b as int, opp_dir(d)) == Some(sb));
        assert(c.check_spec(sb as int, socket_union(ar, cells.poss(ii), d)));
        // This cell's one candidate must expose a socket toward the
        // neighbor, or the neighbor's check would have faced the empty set.
        assert(ar.socket_of(a as int, d) is Some) by {
            if ar.socket_of(a as int, d) is None {
                assert(socket_union(ar, cells.poss(ii), d) =~= Set::empty()) by {
                    assert forall|x: usize|
                        !union_has(ar, cells.poss(ii), d, x) by {
                        if union_has(ar, cells.poss(ii), d, x) {
                            let jj = choose|jj: int|
                                0 <= jj < cells.poss(ii).len() && (#[trigger] cells.poss(ii)[jj])
                                    < ar.nv() && ar.socket_of(cells.poss(ii)[jj] as int, d)
                                    == Some(x);
                            assert(cells.poss(ii)[jj] == a);
                        }
                    }
                }
                assert(!c.check_spec(sb as int, Set::empty()));
            }
        }
        let sa = choose|sa: usize| ar.socket_of(a as int, d) == Some(sa);
        assert(ar.socket_of(a as int, d) == Some(sa));
        assert(socket_union(ar, cells.poss(ii), d) =~= Set::empty().insert(sa)) by {
            assert forall|x: usize|
                union_has(ar, cells.poss(ii), d, x) <==> x == sa by {
                if union_has(ar, cells.poss(ii), d, x) {
                    let jj = choose|jj: int|
                        0 <= jj < cells.poss(ii).len() && (#[trigger] cells.poss(ii)[jj])
                            < ar.nv() && ar.socket_of(cells.poss(ii)[jj] as int, d) == Some(x);
                    assert(cells.poss(ii)[jj] == a);
                }
                if x == sa {
                    assert(cells.poss(ii)[0] == a && a < ar.nv() && ar.socket_of(a as int, d)
                        == Some(x));
                }
            }
        }
        assert(c.check_spec(sb as int, Set::empty().insert(sa)));
        assert(c.check_spec(sa as int, Set::empty().insert(sb)));
        assert(socket_union(ar, cells.poss(n), opp_dir(d)) =~= Set::empty().insert(sb)) by {
            assert forall|x: usize|
                union_has(ar, cells.poss(n), opp_dir(d), x) <==> x == sb by {
                if union_has(ar, cells.poss(n), opp_dir(d), x) {
                    let jj = choose|jj: int|
                        0 <= jj < cells.poss(n).len() && (#[trigger] cells.poss(n)[jj]) < ar.nv()
                            && ar.socket_of(cells.poss(n)[jj] as int, opp_dir(d)) == Some(x);
                    assert(cells.poss(n)[jj] == b);
                }
                if x == sb {
                    assert(cells.poss(n)[0] == b && b < ar.nv() && ar.socket_of(
                        b as int,
                        opp_dir(d),
                    ) == Some(x));
                }
            }
        }
        assert(variant_allowed(c, ar, a as int, d, socket_union(ar, cells.poss(n), opp_dir(d))));
    } else {
        assert(cells.is_collapsed(e.0 as int) && arc_ok(c, ar, cells, n, ii, opp_dir(d)));
        assert(variant_allowed(
            c,
            ar,
            a as int,
            opp_dir(opp_dir(d)),
            socket_union(ar, cells.poss(n), opp_dir(d)),
        ));
        assert(opp_dir(opp_dir(d)) == d);
    }
}

/// Every cell this propagation changed, and the cell it started from, has had
/// its outgoing edges re-enforced on every uncollapsed neighbor, except cells
/// still excused (awaiting another visit).
pub open spec fn changed_ok<C: Constraint>(
    c: C,
    ar: AbstractRules,
    entry: Cells,
    cells: Cells,
    start: usize,
    excused: Set<usize>,
) -> bool {
    forall|i: usize, j: int|
        #![trigger cells.cell(i as int).neighbors@[j]]
        i < cells.len_spec() && (cells.poss(i as int) != entry.poss(i as int) || i == start)
            && !excused.contains(i) && 0 <= j < cells.cell(i as int).neighbors@.len() && !cells.is_collapsed(
            cells.cell(i as int).neighbors@[j].0 as int,
        ) ==> arc_ok(
            c,
            ar,
            cells,
            i as int,
            cells.cell(i as int).neighbors@[j].0 as int,
            cells.cell(i as int).neighbors@[j].1 as int,
        )
}

/// Shrinking one excused cell keeps every re-enforced edge enforced: targets
/// only lose candidates and other sources stand still.
pub proof fn lemma_changed_ok_shrink<C: Constraint>(
    c: C,
    ar: AbstractRules,
    entry: Cells,
    pre: Cells,
    post: Cells,
    start: usize,
    excused_pre: Set<usize>,
    excused_post: Set<usize>,
    ni: usize,
)
    requires
        pre.wf(),
        changed_ok(c, ar, entry, pre, start, excused_pre),
        post.len_spec() == pre.len_spec(),
        ni < pre.len_spec(),
        forall|i2: int| 0 <= i2 < post.len_spec() && i2 != ni ==> post.cell(i2) == pre.cell(i2),
        post.cell(ni as int).neighbors == pre.cell(ni as int).neighbors,
        forall|v: usize| #[trigger]
            post.poss(ni as int).contains(v) ==> pre.poss(ni as int).contains(v),
        forall|i2: int|
            0 <= i2 < post.len_spec() ==> (#[trigger] post.is_collapsed(i2) <==> pre.is_collapsed(
                i2,
            )),
        forall|x: usize| excused_pre.contains(x) ==> #[trigger] excused_post.contains(x),
        excused_post.contains(ni) || post.poss(ni as int) == pre.poss(ni as int),
    ensures
        changed_ok(c, ar, entry, post, start, excused_post),
{
    assert forall|i: usize, j: int|
        #![trigger post.cell(i as int).neighbors@[j]]
        i < post.len_spec() && (post.poss(i as int) != entry.poss(i as int) || i == start)
            && !excused_post.contains(i) && 0 <= j < post.cell(i as int).neighbors@.len()
            && !post.is_collapsed(post.cell(i as int).neighbors@[j].0 as int) implies arc_ok(
        c,
        ar,
        post,
        i as int,
        post.cell(i as int).neighbors@[j].0 as int,
        post.cell(i as int).neighbors@[j].1 as int,
    ) by {
        if i != ni {
            assert(post.cell(i as int) == pre.cell(i as int));
        }
        assert(post.poss(i as int) == pre.poss(i as int));
        assert(post.cell(i as int).neighbors == pre.cell(i as int).neighbors);
        assert(!excused_pre.contains(i));
        let e = pre.cell(i as int).neighbors@[j];
        let n = e.0 as int;
        let d = e.1 as int;
        proof_neighbor_bounds(pre, i as int);
        assert(!pre.is_collapsed(n));
        assert(arc_ok(c, ar, pre, i as int, n, d));
        assert forall|v: usize| #[trigger] post.poss(n).contains(v) implies variant_allowed(
            c,
            ar,
            v as int,
            opp_dir(d),
            socket_union(ar, post.poss(i as int), d),
        ) by {
            if n != ni {
                assert(post.cell(n) == pre.cell(n));
            }
            assert(pre.poss(n).contains(v));
        }
    }
}

/// Excusing more cells only weakens the changed-edge claim.
pub proof fn lemma_changed_ok_mono<C: Constraint>(
    c: C,
    ar: AbstractRules,
    entry: Cells,
    cells: Cells,
    start: usize,
    p1: Set<usize>,
    p2: Set<usize>,
)
    requires
        changed_ok(c, ar, entry, cells, start, p1),
        forall|x: usize| p1.contains(x) ==> #[trigger] p2.contains(x),
    ensures
        changed_ok(c, ar, entry, cells, start, p2),
{
    assert forall|i: usize, j: int|
        #![trigger cells.cell(i as int).neighbors@[j]]
        i < cells.len_spec() && (cells.poss(i as int) != entry.poss(i as int) || i == start)
            && !p2.contains(i) && 0 <= j < cells.cell(i as int).neighbors@.len()
            && !cells.is_collapsed(cells.cell(i as int).neighbors@[j].0 as int) implies arc_ok(
        c,
        ar,
        cells,
        i as int,
        cells.cell(i as int).neighbors@[j].0 as int,
        cells.cell(i as int).neighbors@[j].1 as int,
    ) by {
        assert(!p1.contains(i));
    }
}

} // verus!
