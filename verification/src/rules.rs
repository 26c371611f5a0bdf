//! User-facing rules and the interning layer.
//!
//! A rule maps each direction of a variant to the socket value it exposes
//! there; a missing entry means no connection on that side. Variant values
//! are plain integers and socket values are integer vectors, so one socket
//! can name a single connector or a whole set of them. The legend interns
//! variant and socket values to dense ids, in sorted order, and the abstract
//! rules carry the same table over ids for the collapse hot path.

use crate::{Dimension, DimensionId, SocketId, VariantId};
use core::marker::PhantomData;
use vstd::prelude::*;

verus! {

/// Strict lexicographic order on socket values.
pub open spec fn lex_lt(a: Seq<u64>, b: Seq<u64>) -> bool
    decreases a.len(),
{
    if b.len() == 0 {
        false
    } else if a.len() == 0 {
        true
    } else if a[0] < b[0] {
        true
    } else if a[0] > b[0] {
        false
    } else {
        lex_lt(a.drop_first(), b.drop_first())
    }
}

/// The lexicographic order is connex: unequal values compare one way or the
/// other, and never both ways.
pub proof fn lemma_lex_connex(a: Seq<u64>, b: Seq<u64>)
    ensures
        a == b || lex_lt(a, b) || lex_lt(b, a),
        !(lex_lt(a, b) && lex_lt(b, a)),
    decreases a.len() + b.len(),
{
    if a.len() > 0 && b.len() > 0 && a[0] == b[0] {
        lemma_lex_connex(a.drop_first(), b.drop_first());
        if a.drop_first() == b.drop_first() {
            assert(forall|i: int| 1 <= i < a.len() ==> a[i] == a.drop_first()[i - 1]);
            assert(forall|i: int| 1 <= i < b.len() ==> b[i] == b.drop_first()[i - 1]);
            assert(a =~= b);
        }
    }
}

/// The lexicographic order is transitive.
pub proof fn lemma_lex_trans(a: Seq<u64>, b: Seq<u64>, c: Seq<u64>)
    requires
        lex_lt(a, b),
        lex_lt(b, c),
    ensures
        lex_lt(a, c),
    decreases a.len() + b.len() + c.len(),
{
    if a.len() > 0 && b.len() > 0 && c.len() > 0 && a[0] == b[0] && b[0] == c[0] {
        lemma_lex_trans(a.drop_first(), b.drop_first(), c.drop_first());
    }
}

/// Compares two socket values lexicographically.
pub fn lex_less(a: &Vec<u64>, b: &Vec<u64>) -> (r: bool)
    ensures
        r == lex_lt(a@, b@),
{
    let n = if a.len() < b.len() {
        a.len()
    } else {
        b.len()
    };
    let mut k: usize = 0;
    proof {
        assert(a@.skip(0) =~= a@);
        assert(b@.skip(0) =~= b@);
    }
    while k < n
        invariant
            0 <= k <= n,
            n == if a@.len() < b@.len() {
                a@.len()
            } else {
                b@.len()
            },
            forall|j: int| 0 <= j < k ==> a@[j] == b@[j],
            lex_lt(a@, b@) == lex_lt(a@.skip(k as int), b@.skip(k as int)),
        decreases n - k,
    {
        let ghost kk = k as int;
        let x = a[k];
        let y = b[k];
        proof {
            assert(a@.skip(kk)[0] == a@[kk]);
            assert(b@.skip(kk)[0] == b@[kk]);
            assert(a@.skip(kk).drop_first() =~= a@.skip(kk + 1));
            assert(b@.skip(kk).drop_first() =~= b@.skip(kk + 1));
        }
        if x < y {
            return true;
        }
        if x > y {
            return false;
        }
        k = k + 1;
    }
    proof {
        let kk = k as int;
        if a@.len() < b@.len() {
            assert(b@.skip(kk).len() > 0);
            assert(a@.skip(kk).len() == 0);
        } else {
            assert(b@.skip(kk).len() == 0);
        }
    }
    a.len() < b.len()
}

/// True when the two socket values are equal.
pub fn socket_eq(a: &Vec<u64>, b: &Vec<u64>) -> (r: bool)
    ensures
        r == (a@ == b@),
{
    if a.len() != b.len() {
        proof {
            assert(a@ != b@);
        }
        return false;
    }
    let n = a.len();
    let mut k: usize = 0;
    while k < n
        invariant
            0 <= k <= n,
            n == a@.len(),
            a@.len() == b@.len(),
            forall|j: int| 0 <= j < k ==> a@[j] == b@[j],
        decreases n - k,
    {
        if a[k] != b[k] {
            proof {
                assert(a@[k as int] != b@[k as int]);
            }
            return false;
        }
        k = k + 1;
    }
    proof {
        assert(a@ =~= b@);
    }
    true
}

/// The rule's socket toward direction `d` is exactly what `f` answers for
/// that direction.
pub open spec fn from_fn_matches<D: Dimension, F: Fn(D) -> Vec<u64>>(
    f: F,
    r: Rule<D>,
    d: int,
) -> bool {
    exists|dv: D, s: Vec<u64>|
        #![all_triggers]
        {
            &&& f.ensures((dv,), s)
            &&& dv.id_spec() == d
            &&& r.socket_in(d) == s@
        }
}

/// The per-direction sockets of one variant, keyed by direction id.
/// A direction without an entry exposes no connection on that side.
#[derive(Debug)]
pub struct Rule<D: Dimension> {
    /// `(direction_id, socket_value)` entries, one per declared direction.
    pub entries: Vec<(usize, Vec<u64>)>,
    /// Ties the rule to its direction type.
    pub _dims: PhantomData<D>,
}

impl<D: Dimension> Rule<D> {
    /// Direction ids are unique and within the direction count.
    pub open spec fn wf(self) -> bool {
        &&& forall|i: int, j: int|
            0 <= i < j < self.entries@.len() ==> (#[trigger] self.entries@[i]).0 != (
            #[trigger] self.entries@[j]).0
        &&& forall|j: int|
            0 <= j < self.entries@.len() ==> (#[trigger] self.entries@[j]).0 < D::count()
    }

    /// True when the rule declares a socket toward direction `d`.
    pub open spec fn has_dir(self, d: int) -> bool {
        exists|j: int| 0 <= j < self.entries@.len() && (#[trigger] self.entries@[j]).0 == d
    }

    /// The entry position of direction `d`.
    pub open spec fn dir_slot(self, d: int) -> int {
        choose|j: int| 0 <= j < self.entries@.len() && (#[trigger] self.entries@[j]).0 == d
    }

    /// The socket value exposed toward direction `d`.
    pub open spec fn socket_in(self, d: int) -> Seq<u64> {
        self.entries@[self.dir_slot(d)].1@
    }

    /// With unique ids, any entry for direction `d` holds the rule's socket there.
    pub proof fn lemma_rule_at(self, d: int, j: int)
        requires
            self.wf(),
            0 <= j < self.entries@.len(),
            self.entries@[j].0 == d,
        ensures
            self.has_dir(d),
            self.dir_slot(d) == j,
            self.socket_in(d) == self.entries@[j].1@,
    {
        let w = self.dir_slot(d);
        if w != j {
            assert(self.entries@[w].0 != self.entries@[j].0);
        }
    }

    /// An empty rule: no connection in any direction.
    pub fn empty() -> (r: Self)
        ensures
            r.wf(),
            forall|d: int| !r.has_dir(d),
    {
        Rule { entries: Vec::new(), _dims: PhantomData }
    }

    /// Declares the socket for one direction, replacing any earlier entry.
    pub fn set_socket(&mut self, dir: D, socket: Vec<u64>)
        requires
            old(self).wf(),
        ensures
            final(self).wf(),
            final(self).has_dir(dir.id_spec()),
            final(self).socket_in(dir.id_spec()) == socket@,
            forall|d: int|
                d != dir.id_spec() ==> #[trigger] final(self).has_dir(d) == old(self).has_dir(d),
            forall|d: int|
                d != dir.id_spec() && old(self).has_dir(d) ==> #[trigger] final(self).socket_in(d)
                    == old(self).socket_in(d),
    {
        proof {
            dir.id_properties();
        }
        let id = dir.id();
        let n = self.entries.len();
        let ghost orig = self.entries@;
        let ghost me = *self;
        let mut k: usize = 0;
        while k < n
            invariant_except_break
                0 <= k <= n,
                forall|j: int| 0 <= j < k ==> (#[trigger] orig[j]).0 != id,
            invariant
                n == orig.len(),
                self.entries@ == orig,
            ensures
                0 <= k <= n,
                k < n ==> orig[k as int].0 == id,
                forall|j: int| 0 <= j < k ==> (#[trigger] orig[j]).0 != id,
            decreases n - k,
        {
            if self.entries[k].0 == id {
                break ;
            }
            k = k + 1;
        }
        if k < n {
            let ghost kk = k as int;
            let slot = &mut self.entries[k];
            slot.1 = socket;
            proof {
                let now = *self;
                let post = self.entries@;
                assert(post[kk].0 == id && post[kk].1@ == socket@);
                assert(forall|j: int| 0 <= j < post.len() && j != kk ==> post[j] == orig[j]);
                now.lemma_rule_at(dir.id_spec(), kk);
                assert forall|d: int|
                    #![trigger me.has_dir(d)]
                    #![trigger now.has_dir(d)]
                    d != dir.id_spec() implies (now.has_dir(d) == me.has_dir(d)) && (me.has_dir(d)
                    ==> now.socket_in(d) == me.socket_in(d)) by {
                    if me.has_dir(d) {
                        let j = me.dir_slot(d);
                        assert(orig[j].0 == d);
                        assert(j != kk);
                        assert(post[j].0 == d);
                        me.lemma_rule_at(d, j);
                        now.lemma_rule_at(d, j);
                    } else {
                        if now.has_dir(d) {
                            let j = now.dir_slot(d);
                            assert(post[j].0 == d);
                            assert(j != kk);
                            assert(orig[j].0 == d);
                        }
                    }
                }
            }
        } else {
            self.entries.push((id, socket));
            proof {
                let now = *self;
                let post = self.entries@;
                assert(post[post.len() - 1].0 == id);
                assert(forall|j: int| 0 <= j < orig.len() ==> post[j] == #[trigger] orig[j]);
                assert(now.wf());
                now.lemma_rule_at(dir.id_spec(), post.len() - 1);
                assert forall|d: int|
                    #![trigger me.has_dir(d)]
                    #![trigger now.has_dir(d)]
                    d != dir.id_spec() implies (now.has_dir(d) == me.has_dir(d)) && (me.has_dir(d)
                    ==> now.socket_in(d) == me.socket_in(d)) by {
                    if me.has_dir(d) {
                        let j = me.dir_slot(d);
                        assert(orig[j].0 == d);
                        assert(post[j].0 == d);
                        me.lemma_rule_at(d, j);
                        now.lemma_rule_at(d, j);
                    } else {
                        if now.has_dir(d) {
                            let j = now.dir_slot(d);
                            assert(post[j].0 == d);
                            assert(j != post.len() - 1);
                            assert(orig[j].0 == d);
                        }
                    }
                }
            }
        }
    }

    /// A rule from explicit `(direction, socket)` pairs; later pairs replace
    /// earlier ones for the same direction.
    pub fn new(sockets: Vec<(D, Vec<u64>)>) -> (r: Self)
        ensures
            r.wf(),
    {
        let mut r = Rule::empty();
        let n = sockets.len();
        let mut k: usize = 0;
        // Consume the pairs front to back so later entries win.
        let mut rest = sockets;
        while k < n
            invariant
                0 <= k <= n,
                rest@.len() + k == n,
                r.wf(),
            decreases n - k,
        {
            let (d, s) = rest.remove(0);
            r.set_socket(d, s);
            k = k + 1;
        }
        r
    }

    /// The same socket value on every side.
    pub fn splat(value: Vec<u64>) -> (r: Self)
        ensures
            r.wf(),
            forall|d: int| 0 <= d < D::count() ==> #[trigger] r.has_dir(d),
            forall|d: int| !(0 <= d < D::count()) ==> !(#[trigger] r.has_dir(d)),
            forall|d: int| 0 <= d < D::count() ==> #[trigger] r.socket_in(d) == value@,
    {
        let mut r = Rule::empty();
        let dcount = D::dir_count();
        let mut k: usize = 0;
        while k < dcount
            invariant
                0 <= k <= dcount,
                dcount == D::count(),
                r.wf(),
                forall|d: int| 0 <= d < k ==> #[trigger] r.has_dir(d),
                forall|d: int| !(0 <= d < k) ==> !(#[trigger] r.has_dir(d)),
                forall|d: int| 0 <= d < k ==> #[trigger] r.socket_in(d) == value@,
            decreases dcount - k,
        {
            let d = D::from_id(k);
            proof {
                d.id_properties();
            }
            r.set_socket(d, value.clone());
            k = k + 1;
        }
        r
    }

    /// A rule whose socket on every side is the empty value.
    pub fn from_default() -> (r: Self)
        ensures
            r.wf(),
            forall|d: int| 0 <= d < D::count() ==> #[trigger] r.has_dir(d),
            forall|d: int| 0 <= d < D::count() ==> (#[trigger] r.socket_in(d)).len() == 0,
    {
        let empty_socket: Vec<u64> = Vec::new();
        Rule::splat(empty_socket)
    }

    /// A rule whose socket toward each direction is the one `f` answers for it.
    pub fn from_fn<F: Fn(D) -> Vec<u64>>(f: F) -> (r: Self)
        requires
            forall|d: D| #[trigger] f.requires((d,)),
        ensures
            r.wf(),
            forall|d: int| 0 <= d < D::count() ==> #[trigger] r.has_dir(d),
            forall|d: int| 0 <= d < D::count() ==> #[trigger] from_fn_matches(f, r, d),
    {
        let mut r = Rule::empty();
        let dcount = D::dir_count();
        let ghost chosen: Seq<(D, Vec<u64>)> = Seq::empty();
        let mut chosen_t = Ghost(chosen);
        let mut k: usize = 0;
        while k < dcount
            invariant
                0 <= k <= dcount,
                dcount == D::count(),
                r.wf(),
                forall|d: D| #[trigger] f.requires((d,)),
                forall|d: int| 0 <= d < k ==> #[trigger] r.has_dir(d),
                chosen_t@.len() == k,
                forall|dd: int|
                    0 <= dd < k ==> f.ensures(((#[trigger] chosen_t@[dd]).0,), chosen_t@[dd].1)
                        && chosen_t@[dd].0.id_spec() == dd && r.socket_in(dd) == chosen_t@[dd].1@,
            decreases dcount - k,
        {
            let ghost prev = r;
            let d = D::from_id(k);
            proof {
                d.id_properties();
            }
            let s = f(d);
            let ghost sghost = s;
            r.set_socket(d, s);
            proof {
                chosen_t@ = chosen_t@.push((d, sghost));
                assert forall|dd: int|
                    0 <= dd < k + 1 implies f.ensures(
                    ((#[trigger] chosen_t@[dd]).0,),
                    chosen_t@[dd].1,
                ) && chosen_t@[dd].0.id_spec() == dd && r.socket_in(dd) == chosen_t@[dd].1@ by {
                    if dd == k as int {
                        assert(chosen_t@[dd] == (d, sghost));
                    } else {
                        assert(prev.has_dir(dd));
                        assert(r.socket_in(dd) == prev.socket_in(dd));
                    }
                }
            }
            k = k + 1;
        }
        proof {
            assert forall|d: int| 0 <= d < D::count() implies #[trigger] from_fn_matches(
                f,
                r,
                d,
            ) by {
                let pair = chosen_t@[d];
                assert(f.ensures((pair.0,), pair.1) && pair.0.id_spec() == d && r.socket_in(d)
                    == pair.1@);
            }
        }
        r
    }

    /// The socket exposed toward `dir`, if the rule declares one.
    pub fn socket_for(&self, dir: &D) -> (r: Option<&Vec<u64>>)
        requires
            self.wf(),
        ensures
            match r {
                Some(s) => self.has_dir(dir.id_spec()) && s@ == self.socket_in(dir.id_spec()),
                None => !self.has_dir(dir.id_spec()),
            },
    {
        proof {
            dir.id_properties();
        }
        let id = dir.id();
        self.socket_for_id(id)
    }

    /// The socket exposed toward the direction with dense id `id`.
    pub fn socket_for_id(&self, id: usize) -> (r: Option<&Vec<u64>>)
        requires
            self.wf(),
        ensures
            match r {
                Some(s) => self.has_dir(id as int) && s@ == self.socket_in(id as int),
                None => !self.has_dir(id as int),
            },
    {
        let n = self.entries.len();
        let mut k: usize = 0;
        while k < n
            invariant
                0 <= k <= n,
                n == self.entries@.len(),
                self.wf(),
                forall|j: int| 0 <= j < k ==> (#[trigger] self.entries@[j]).0 != id,
            decreases n - k,
        {
            if self.entries[k].0 == id {
                proof {
                    self.lemma_rule_at(id as int, k as int);
                }
                return Some(&self.entries[k].1);
            }
            k = k + 1;
        }
        proof {
            if self.has_dir(id as int) {
                let j = choose|j: int|
                    0 <= j < self.entries@.len() && (#[trigger] self.entries@[j]).0 == id;
            }
        }
        None
    }
}

impl<D: Dimension> Clone for Rule<D> {
    fn clone(&self) -> (r: Self)
        ensures
            r.entries@.len() == self.entries@.len(),
            forall|j: int|
                0 <= j < r.entries@.len() ==> (#[trigger] r.entries@[j]).0 == self.entries@[j].0
                    && r.entries@[j].1@ == self.entries@[j].1@,
            self.wf() ==> r.wf(),
            forall|d: int| #[trigger] r.has_dir(d) == self.has_dir(d),
            forall|d: int|
                self.wf() && #[trigger] r.has_dir(d) ==> r.socket_in(d) == self.socket_in(d),
    {
        let mut entries: Vec<(usize, Vec<u64>)> = Vec::new();
        let n = self.entries.len();
        let mut k: usize = 0;
        while k < n
            invariant
                0 <= k <= n,
                n == self.entries@.len(),
                entries@.len() == k,
                forall|j: int|
                    0 <= j < k ==> (#[trigger] entries@[j]).0 == self.entries@[j].0
                        && entries@[j].1@ == self.entries@[j].1@,
            decreases n - k,
        {
            let (d, s) = (self.entries[k].0, self.entries[k].1.clone());
            proof {
                assert(s@ =~= self.entries@[k as int].1@);
            }
            entries.push((d, s));
            k = k + 1;
        }
        let r = Rule { entries, _dims: PhantomData };
        proof {
            assert forall|d: int| #[trigger] r.has_dir(d) == self.has_dir(d) by {
                if r.has_dir(d) {
                    let j = r.dir_slot(d);
                    assert(self.entries@[j].0 == d);
                } else if self.has_dir(d) {
                    let j = choose|j: int|
                        0 <= j < self.entries@.len() && (#[trigger] self.entries@[j]).0 == d;
                    assert(r.entries@[j].0 == d);
                }
            }
            if self.wf() {
                assert forall|d: int| #[trigger] r.has_dir(d) implies r.socket_in(d)
                    == self.socket_in(d) by {
                    let j = r.dir_slot(d);
                    assert(r.entries@[j].0 == d);
                    assert(self.entries@[j].0 == d);
                    r.lemma_rule_at(d, j);
                    self.lemma_rule_at(d, j);
                }
            }
        }
        r
    }
}

/// Strictly ascending variant values.
pub open spec fn sorted_u64(s: Seq<u64>) -> bool {
    forall|i: int, j: int| 0 <= i < j < s.len() ==> s[i] < s[j]
}

/// Inserts a variant value into a sorted vector, keeping it sorted and
/// without duplicates.
pub fn sorted_insert_u64(v: &mut Vec<u64>, x: u64)
    requires
        sorted_u64(old(v)@),
    ensures
        sorted_u64(final(v)@),
        forall|y: u64| #[trigger] final(v)@.contains(y) <==> (old(v)@.contains(y) || y == x),
{
    let n = v.len();
    let ghost orig = v@;
    let mut p: usize = 0;
    while p < n
        invariant_except_break
            0 <= p <= n,
            forall|j: int| 0 <= j < p ==> #[trigger] orig[j] < x,
        invariant
            n == orig.len(),
            v@ == orig,
        ensures
            0 <= p <= n,
            p < n ==> orig[p as int] >= x,
            forall|j: int| 0 <= j < p ==> #[trigger] orig[j] < x,
        decreases n - p,
    {
        if v[p] >= x {
            break ;
        }
        p = p + 1;
    }
    if p < n {
        let ghost pp = p as int;
        if v[p] == x {
            proof {
                assert(orig.contains(x));
                assert forall|y: u64| #[trigger]
                    v@.contains(y) <==> (orig.contains(y) || y == x) by {}
            }
            return ;
        }
        v.insert(p, x);
        proof {
            let now = v@;
            assert(now == orig.insert(pp, x));
            assert(now[pp] == x);
            assert(forall|j: int| 0 <= j < pp ==> now[j] == #[trigger] orig[j]);
            assert(forall|j: int| pp < j < now.len() ==> now[j] == #[trigger] orig[j - 1]);
            assert(sorted_u64(now)) by {
                assert(orig[pp] > x);
                assert(forall|j: int| pp <= j < orig.len() ==> #[trigger] orig[j] >= orig[pp]);
            }
            assert forall|y: u64| #[trigger] now.contains(y) <==> (orig.contains(y) || y == x) by {
                if now.contains(y) {
                    let j = choose|j: int| 0 <= j < now.len() && #[trigger] now[j] == y;
                    if j < pp {
                        assert(orig[j] == y);
                    } else if j > pp {
                        assert(orig[j - 1] == y);
                    }
                } else {
                    if orig.contains(y) {
                        let j = choose|j: int| 0 <= j < orig.len() && #[trigger] orig[j] == y;
                        if j < pp {
                            assert(now[j] == y);
                        } else {
                            assert(now[j + 1] == y);
                        }
                    }
                }
            }
        }
    } else {
        v.push(x);
        proof {
            let now = v@;
            assert(now[now.len() - 1] == x);
            assert(forall|j: int| 0 <= j < orig.len() ==> now[j] == #[trigger] orig[j]);
            assert forall|y: u64| #[trigger] now.contains(y) <==> (orig.contains(y) || y == x) by {
                if now.contains(y) {
                    let j = choose|j: int| 0 <= j < now.len() && #[trigger] now[j] == y;
                    if j < now.len() - 1 {
                        assert(orig[j] == y);
                    }
                } else {
                    if orig.contains(y) {
                        let j = choose|j: int| 0 <= j < orig.len() && #[trigger] orig[j] == y;
                        assert(now[j] == y);
                    }
                }
            }
        }
    }
}

/// The socket values of a legend as mathematical sequences.
pub open spec fn views_of(s: Seq<Vec<u64>>) -> Seq<Seq<u64>> {
    Seq::new(s.len(), |j: int| s[j]@)
}

/// Lexicographically strictly ascending socket values.
pub open spec fn sorted_sockets(s: Seq<Seq<u64>>) -> bool {
    forall|i: int, j: int| 0 <= i < j < s.len() ==> lex_lt(#[trigger] s[i], #[trigger] s[j])
}

/// Inserts a socket value into a lexicographically sorted vector, keeping it
/// sorted and without duplicates.
fn sorted_insert_socket(v: &mut Vec<Vec<u64>>, x: Vec<u64>)
    requires
        sorted_sockets(views_of(old(v)@)),
    ensures
        sorted_sockets(views_of(final(v)@)),
        forall|y: Seq<u64>| #[trigger]
            views_of(final(v)@).contains(y) <==> (views_of(old(v)@).contains(y) || y == x@),
{
    let n = v.len();
    let ghost orig = views_of(v@);
    let mut p: usize = 0;
    proof {
        assert(forall|j: int| 0 <= j < orig.len() ==> orig[j] == #[trigger] v@[j]@);
    }
    while p < n
        invariant_except_break
            0 <= p <= n,
            forall|j: int| 0 <= j < p ==> lex_lt(#[trigger] orig[j], x@),
        invariant
            n == orig.len(),
            views_of(v@) == orig,
            v@.len() == n,
            forall|j: int| 0 <= j < n ==> (#[trigger] v@[j])@ == orig[j],
        ensures
            0 <= p <= n,
            p < n ==> !lex_lt(orig[p as int], x@),
            forall|j: int| 0 <= j < p ==> lex_lt(#[trigger] orig[j], x@),
        decreases n - p,
    {
        if !lex_less(&v[p], &x) {
            break ;
        }
        p = p + 1;
    }
    if p < n {
        let ghost pp = p as int;
        let same = socket_eq(&v[p], &x);
        if same {
            proof {
                assert(orig[pp] == x@);
                assert(orig.contains(x@));
            }
            return ;
        }
        proof {
            lemma_lex_connex(orig[pp], x@);
            assert(lex_lt(x@, orig[pp]));
        }
        v.insert(p, x);
        proof {
            let now = views_of(v@);
            assert(now.len() == orig.len() + 1);
            assert(now[pp] == x@);
            assert(forall|j: int| 0 <= j < pp ==> now[j] == #[trigger] orig[j]);
            assert(forall|j: int| pp < j < now.len() ==> now[j] == #[trigger] orig[j - 1]);
            assert(sorted_sockets(now)) by {
                assert forall|i: int, j: int|
                    0 <= i < j < now.len() implies lex_lt(#[trigger] now[i], #[trigger] now[j]) by {
                    if i < pp && j == pp {
                    } else if i == pp && j > pp {
                        if pp < orig.len() && orig[j - 1] != orig[pp] {
                            lemma_lex_trans(x@, orig[pp], orig[j - 1]);
                        }
                        if j - 1 > pp {
                            lemma_lex_trans(x@, orig[pp], orig[j - 1]);
                        }
                    } else if i < pp && j > pp {
                    }
                }
            }
            assert forall|y: Seq<u64>| #[trigger] now.contains(y) <==> (orig.contains(y) || y
                == x@) by {
                if now.contains(y) {
                    let j = choose|j: int| 0 <= j < now.len() && #[trigger] now[j] == y;
                    if j < pp {
                        assert(orig[j] == y);
                    } else if j > pp {
                        assert(orig[j - 1] == y);
                    }
                } else {
                    if orig.contains(y) {
                        let j = choose|j: int| 0 <= j < orig.len() && #[trigger] orig[j] == y;
                        if j < pp {
                            assert(now[j] == y);
                        } else {
                            assert(now[j + 1] == y);
                        }
                    }
                }
            }
        }
    } else {
        v.push(x);
        proof {
            let now = views_of(v@);
            assert(now[now.len() - 1] == x@);
            assert(forall|j: int| 0 <= j < orig.len() ==> now[j] == #[trigger] orig[j]);
            assert forall|y: Seq<u64>| #[trigger] now.contains(y) <==> (orig.contains(y) || y
                == x@) by {
                if now.contains(y) {
                    let j = choose|j: int| 0 <= j < now.len() && #[trigger] now[j] == y;
                    if j < now.len() - 1 {
                        assert(orig[j] == y);
                    }
                } else {
                    if orig.contains(y) {
                        let j = choose|j: int| 0 <= j < orig.len() && #[trigger] orig[j] == y;
                        assert(now[j] == y);
                    }
                }
            }
        }
    }
}

/// Some table entry carries rules for variant value `v`.
pub open spec fn table_has<D: Dimension>(t: Seq<(u64, Rule<D>)>, v: u64) -> bool {
    exists|j: int| 0 <= j < t.len() && (#[trigger] t[j]).0 == v
}

/// The entry position of variant value `v`.
pub open spec fn table_slot<D: Dimension>(t: Seq<(u64, Rule<D>)>, v: u64) -> int {
    choose|j: int| 0 <= j < t.len() && (#[trigger] t[j]).0 == v
}

/// The rule of variant value `v`; meaningful when keys are unique.
pub open spec fn table_rule<D: Dimension>(t: Seq<(u64, Rule<D>)>, v: u64) -> Rule<D> {
    t[table_slot(t, v)].1
}

/// Variant keys are unique and every rule is well formed.
pub open spec fn table_wf<D: Dimension>(t: Seq<(u64, Rule<D>)>) -> bool {
    &&& forall|i: int, j: int| 0 <= i < j < t.len() ==> (#[trigger] t[i]).0 != (#[trigger] t[j]).0
    &&& forall|j: int| 0 <= j < t.len() ==> (#[trigger] t[j]).1.wf()
}

/// With unique keys, any entry for `v` holds the table's rule for `v`.
pub proof fn lemma_table_at<D: Dimension>(t: Seq<(u64, Rule<D>)>, v: u64, j: int)
    requires
        table_wf(t),
        0 <= j < t.len(),
        t[j].0 == v,
    ensures
        table_has(t, v),
        table_slot(t, v) == j,
        table_rule(t, v) == t[j].1,
{
    let w = table_slot(t, v);
    if w != j {
        assert(t[w].0 != t[j].0);
    }
}

/// Collects user rules per variant before they are frozen into [`Rules`].
#[derive(Debug)]
pub struct RuleBuilder<D: Dimension> {
    /// `(variant_value, rule)` entries with unique variant values.
    pub table: Vec<(u64, Rule<D>)>,
}

impl<D: Dimension> Default for RuleBuilder<D> {
    fn default() -> (r: Self)
        ensures
            r.table@.len() == 0,
            r.wf(),
    {
        RuleBuilder { table: Vec::new() }
    }
}

impl<D: Dimension> RuleBuilder<D> {
    pub open spec fn wf(self) -> bool {
        table_wf(self.table@)
    }

    /// Declares the rule of one variant, replacing any earlier rule for it.
    pub fn add_rule(&mut self, variant: u64, rule: Rule<D>)
        requires
            old(self).wf(),
            rule.wf(),
        ensures
            final(self).wf(),
            table_has(final(self).table@, variant),
            table_rule(final(self).table@, variant) == rule,
            forall|v: u64|
                v != variant ==> #[trigger] table_has(final(self).table@, v) == table_has(
                    old(self).table@,
                    v,
                ),
            forall|v: u64|
                v != variant && table_has(old(self).table@, v) ==> #[trigger] table_rule(
                    final(self).table@,
                    v,
                ) == table_rule(old(self).table@, v),
    {
        let n = self.table.len();
        let ghost orig = self.table@;
        let mut k: usize = 0;
        while k < n
            invariant_except_break
                0 <= k <= n,
                forall|j: int| 0 <= j < k ==> (#[trigger] orig[j]).0 != variant,
            invariant
                n == orig.len(),
                self.table@ == orig,
            ensures
                0 <= k <= n,
                k < n ==> orig[k as int].0 == variant,
                forall|j: int| 0 <= j < k ==> (#[trigger] orig[j]).0 != variant,
            decreases n - k,
        {
            if self.table[k].0 == variant {
                break ;
            }
            k = k + 1;
        }
        if k < n {
            let ghost kk = k as int;
            let slot = &mut self.table[k];
            slot.1 = rule;
            proof {
                let post = self.table@;
                assert(post[kk].0 == variant && post[kk].1 == rule);
                assert(forall|j: int| 0 <= j < post.len() && j != kk ==> post[j] == orig[j]);
                lemma_table_at(post, variant, kk);
                assert forall|v: u64|
                    #![trigger table_has(orig, v)]
                    #![trigger table_has(post, v)]
                    v != variant implies (table_has(post, v) == table_has(orig, v)) && (table_has(
                    orig,
                    v,
                ) ==> table_rule(post, v) == table_rule(orig, v)) by {
                    if table_has(orig, v) {
                        let j = table_slot(orig, v);
                        assert(orig[j].0 == v);
                        assert(j != kk);
                        assert(post[j].0 == v);
                        lemma_table_at(orig, v, j);
                        lemma_table_at(post, v, j);
                    } else {
                        if table_has(post, v) {
                            let j = table_slot(post, v);
                            assert(post[j].0 == v);
                            assert(j != kk);
                            assert(orig[j].0 == v);
                        }
                    }
                }
            }
        } else {
            self.table.push((variant, rule));
            proof {
                let post = self.table@;
                assert(post[post.len() - 1].0 == variant);
                assert(forall|j: int| 0 <= j < orig.len() ==> post[j] == #[trigger] orig[j]);
                lemma_table_at(post, variant, post.len() - 1);
                assert forall|v: u64|
                    #![trigger table_has(orig, v)]
                    #![trigger table_has(post, v)]
                    v != variant implies (table_has(post, v) == table_has(orig, v)) && (table_has(
                    orig,
                    v,
                ) ==> table_rule(post, v) == table_rule(orig, v)) by {
                    if table_has(orig, v) {
                        let j = table_slot(orig, v);
                        assert(orig[j].0 == v);
                        assert(post[j].0 == v);
                        lemma_table_at(orig, v, j);
                        lemma_table_at(post, v, j);
                    } else {
                        if table_has(post, v) {
                            let j = table_slot(post, v);
                            assert(post[j].0 == v);
                            assert(j != post.len() - 1);
                            assert(orig[j].0 == v);
                        }
                    }
                }
            }
        }
    }

    /// Declares a rule and hands the builder back by value.
    pub fn with_rule(self, variant: u64, rule: Rule<D>) -> (r: Self)
        requires
            self.wf(),
            rule.wf(),
        ensures
            r.wf(),
            table_has(r.table@, variant),
            table_rule(r.table@, variant) == rule,
            forall|v: u64|
                v != variant ==> #[trigger] table_has(r.table@, v) == table_has(self.table@, v),
            forall|v: u64|
                v != variant && table_has(self.table@, v) ==> #[trigger] table_rule(r.table@, v)
                    == table_rule(self.table@, v),
    {
        let mut b = self;
        b.add_rule(variant, rule);
        b
    }
}

/// The frozen user-level rule set: one rule per variant value.
#[derive(Debug)]
pub struct Rules<D: Dimension> {
    /// `(variant_value, rule)` entries with unique variant values.
    pub table: Vec<(u64, Rule<D>)>,
}

impl<D: Dimension> From<RuleBuilder<D>> for Rules<D> {
    fn from(builder: RuleBuilder<D>) -> (r: Self) {
        Rules { table: builder.table }
    }
}

impl<D: Dimension> vstd::std_specs::convert::FromSpecImpl<RuleBuilder<D>> for Rules<D> {
    open spec fn obeys_from_spec() -> bool {
        true
    }

    open spec fn from_spec(builder: RuleBuilder<D>) -> Self {
        Rules { table: builder.table }
    }
}

impl<D: Dimension> Rules<D> {
    pub open spec fn wf(self) -> bool {
        table_wf(self.table@)
    }

    pub open spec fn has_rule(self, v: u64) -> bool {
        table_has(self.table@, v)
    }

    pub open spec fn rule_of(self, v: u64) -> Rule<D> {
        table_rule(self.table@, v)
    }

    /// The socket value variant `v` exposes toward direction `d`, if any.
    pub open spec fn socket_spec(self, v: u64, d: int) -> Option<Seq<u64>> {
        if self.has_rule(v) && self.rule_of(v).has_dir(d) {
            Some(self.rule_of(v).socket_in(d))
        } else {
            None
        }
    }

    /// The variant values that have rules, in table order.
    pub fn variants(&self) -> (r: Vec<u64>)
        ensures
            r@.len() == self.table@.len(),
            forall|j: int| 0 <= j < r@.len() ==> #[trigger] r@[j] == self.table@[j].0,
    {
        let mut out: Vec<u64> = Vec::new();
        let n = self.table.len();
        let mut k: usize = 0;
        while k < n
            invariant
                0 <= k <= n,
                n == self.table@.len(),
                out@.len() == k,
                forall|j: int| 0 <= j < k ==> #[trigger] out@[j] == self.table@[j].0,
            decreases n - k,
        {
            out.push(self.table[k].0);
            k = k + 1;
        }
        out
    }

    /// The rule declared for a variant value.
    pub fn rule_for(&self, variant: &u64) -> (r: Option<&Rule<D>>)
        requires
            self.wf(),
        ensures
            match r {
                Some(rule) => self.has_rule(*variant) && *rule == self.rule_of(*variant),
                None => !self.has_rule(*variant),
            },
    {
        let n = self.table.len();
        let mut k: usize = 0;
        while k < n
            invariant
                0 <= k <= n,
                n == self.table@.len(),
                self.wf(),
                forall|j: int| 0 <= j < k ==> (#[trigger] self.table@[j]).0 != *variant,
            decreases n - k,
        {
            if self.table[k].0 == *variant {
                proof {
                    lemma_table_at(self.table@, *variant, k as int);
                }
                return Some(&self.table[k].1);
            }
            k = k + 1;
        }
        proof {
            if self.has_rule(*variant) {
                let j = table_slot(self.table@, *variant);
                assert(self.table@[j].0 == *variant);
            }
        }
        None
    }
}

/// Bidirectional interning tables: variant values, socket values and
/// directions each get dense ids, assigned in the value's sorted order.
#[derive(Debug)]
pub struct Legend {
    /// Variant values in ascending order; a value's position is its id.
    pub variants: Vec<u64>,
    /// Socket values in ascending lexicographic order; a value's position is its id.
    pub sockets: Vec<Vec<u64>>,
    /// The number of directions; direction ids are their own interning.
    pub dim_count: usize,
}

impl Legend {
    pub open spec fn wf(self) -> bool {
        &&& sorted_u64(self.variants@)
        &&& sorted_sockets(views_of(self.sockets@))
    }

    /// The interned socket values as sequences.
    pub open spec fn socket_views(self) -> Seq<Seq<u64>> {
        views_of(self.sockets@)
    }

    /// The dense id of a variant value.
    pub fn variant_id(&self, variant: &u64) -> (r: Option<VariantId>)
        requires
            self.wf(),
        ensures
            match r {
                Some(id) => id.0 < self.variants@.len() && self.variants@[id.0 as int] == *variant,
                None => !self.variants@.contains(*variant),
            },
    {
        let n = self.variants.len();
        let mut k: usize = 0;
        while k < n
            invariant
                0 <= k <= n,
                n == self.variants@.len(),
                forall|j: int| 0 <= j < k ==> #[trigger] self.variants@[j] != *variant,
            decreases n - k,
        {
            if self.variants[k] == *variant {
                return Some(VariantId(k));
            }
            k = k + 1;
        }
        proof {
            if self.variants@.contains(*variant) {
                let j = choose|j: int|
                    0 <= j < self.variants@.len() && #[trigger] self.variants@[j] == *variant;
            }
        }
        None
    }

    /// The variant value with a dense id.
    pub fn variant(&self, variant_id: VariantId) -> (r: Option<u64>)
        ensures
            match r {
                Some(v) => variant_id.0 < self.variants@.len() && v == self.variants@[variant_id.0 as int],
                None => variant_id.0 >= self.variants@.len(),
            },
    {
        if variant_id.0 < self.variants.len() {
            Some(self.variants[variant_id.0])
        } else {
            None
        }
    }

    /// The dense id of a direction.
    pub fn dimension_id<D: Dimension>(&self, dimension: &D) -> (r: Option<DimensionId>)
        ensures
            match r {
                Some(id) => id.0 == dimension.id_spec() && id.0 < self.dim_count,
                None => dimension.id_spec() >= self.dim_count,
            },
    {
        proof {
            dimension.id_properties();
        }
        let id = dimension.id();
        if id < self.dim_count {
            Some(DimensionId(id))
        } else {
            None
        }
    }

    /// The direction with a dense id.
    pub fn dimension<D: Dimension>(&self, dimension_id: DimensionId) -> (r: Option<D>)
        ensures
            match r {
                Some(d) => dimension_id.0 < self.dim_count && dimension_id.0 < D::count()
                    && d.id_spec() == dimension_id.0,
                None => dimension_id.0 >= self.dim_count || dimension_id.0 >= D::count(),
            },
    {
        let count = D::dir_count();
        if dimension_id.0 < self.dim_count && dimension_id.0 < count {
            Some(D::from_id(dimension_id.0))
        } else {
            None
        }
    }

    /// The dense id of a socket value.
    pub fn socket_id(&self, socket: &Vec<u64>) -> (r: Option<SocketId>)
        requires
            self.wf(),
        ensures
            match r {
                Some(id) => id.0 < self.sockets@.len() && self.socket_views()[id.0 as int]
                    == socket@,
                None => !self.socket_views().contains(socket@),
            },
    {
        let n = self.sockets.len();
        let mut k: usize = 0;
        while k < n
            invariant
                0 <= k <= n,
                n == self.sockets@.len(),
                forall|j: int| 0 <= j < k ==> #[trigger] views_of(self.sockets@)[j] != socket@,
            decreases n - k,
        {
            if socket_eq(&self.sockets[k], socket) {
                proof {
                    assert(views_of(self.sockets@)[k as int] == socket@);
                }
                return Some(SocketId(k));
            }
            proof {
                assert(views_of(self.sockets@)[k as int] == self.sockets@[k as int]@);
            }
            k = k + 1;
        }
        proof {
            if self.socket_views().contains(socket@) {
                let j = choose|j: int|
                    0 <= j < self.socket_views().len() && #[trigger] self.socket_views()[j]
                        == socket@;
            }
        }
        None
    }

    /// The socket value with a dense id.
    pub fn socket(&self, socket_id: SocketId) -> (r: Option<&Vec<u64>>)
        ensures
            match r {
                Some(s) => socket_id.0 < self.sockets@.len() && s@ == self.socket_views()[socket_id.0 as int],
                None => socket_id.0 >= self.sockets@.len(),
            },
    {
        if socket_id.0 < self.sockets.len() {
            proof {
                assert(views_of(self.sockets@)[socket_id.0 as int] == self.sockets@[socket_id.0 as int]@);
            }
            Some(&self.sockets[socket_id.0])
        } else {
            None
        }
    }
}

/// The interned rule table: `rules[variant_id].sockets[direction_id]` is the
/// socket id that variant exposes there, or `None` for no connection.
#[derive(Debug)]
pub struct AbstractRule {
    /// One optional socket id per direction id.
    pub sockets: Vec<Option<usize>>,
}

impl AbstractRule {
    /// The socket id exposed toward a direction, if any.
    pub fn socket_for(&self, dir: DimensionId) -> (r: Option<SocketId>)
        ensures
            match r {
                Some(id) => dir.0 < self.sockets@.len() && self.sockets@[dir.0 as int] == Some(id.0),
                None => dir.0 >= self.sockets@.len() || self.sockets@[dir.0 as int] is None,
            },
    {
        if dir.0 < self.sockets.len() {
            match self.sockets[dir.0] {
                Some(s) => Some(SocketId(s)),
                None => None,
            }
        } else {
            None
        }
    }
}

/// All interned rules, addressed by variant id.
#[derive(Debug)]
pub struct AbstractRules {
    /// One rule per variant id.
    pub rules: Vec<AbstractRule>,
    /// The number of direction ids.
    pub dcount: usize,
    /// The number of socket ids.
    pub num_sockets: usize,
}

impl AbstractRules {
    /// The number of variant ids.
    pub open spec fn nv(self) -> int {
        self.rules@.len() as int
    }

    /// The socket id variant `v` exposes toward direction `d`, or `None`.
    pub open spec fn socket_of(self, v: int, d: int) -> Option<usize> {
        self.rules@[v].sockets@[d]
    }

    pub open spec fn wf(self) -> bool {
        &&& forall|v: int|
            0 <= v < self.nv() ==> (#[trigger] self.rules@[v]).sockets@.len() == self.dcount
        &&& forall|v: int, d: int|
            0 <= v < self.nv() && 0 <= d < self.dcount ==> match #[trigger] self.socket_of(v, d) {
                Some(s) => s < self.num_sockets,
                None => true,
            }
    }

    /// The rule of a variant id.
    pub fn rule_for(&self, variant: VariantId) -> (r: Option<&AbstractRule>)
        ensures
            match r {
                Some(rule) => variant.0 < self.nv() && *rule == self.rules@[variant.0 as int],
                None => variant.0 >= self.nv(),
            },
    {
        if variant.0 < self.rules.len() {
            Some(&self.rules[variant.0])
        } else {
            None
        }
    }

    /// Every variant id, in ascending order.
    pub fn variants(&self) -> (r: Vec<VariantId>)
        ensures
            r@.len() == self.nv(),
            forall|j: int| 0 <= j < r@.len() ==> (#[trigger] r@[j]).0 == j,
    {
        let mut out: Vec<VariantId> = Vec::new();
        let n = self.rules.len();
        let mut k: usize = 0;
        while k < n
            invariant
                0 <= k <= n,
                out@.len() == k,
                forall|j: int| 0 <= j < k ==> (#[trigger] out@[j]).0 == j,
            decreases n - k,
        {
            out.push(VariantId(k));
            k = k + 1;
        }
        out
    }
}

/// Some rule entry before position `(a, b)` (row-major over table entries and
/// their per-direction entries) carries socket value `y`.
pub open spec fn socket_used_before<D: Dimension>(
    t: Seq<(u64, Rule<D>)>,
    a: int,
    b: int,
    y: Seq<u64>,
) -> bool {
    exists|p: int, q: int|
        #![trigger t[p].1.entries@[q]]
        {
            &&& 0 <= p < t.len()
            &&& 0 <= q < t[p].1.entries@.len()
            &&& (p < a || (p == a && q < b))
            &&& t[p].1.entries@[q].1@ == y
        }
}

/// Some rule of the table exposes socket value `y` somewhere.
pub open spec fn socket_used<D: Dimension>(t: Seq<(u64, Rule<D>)>, y: Seq<u64>) -> bool {
    socket_used_before(t, t.len() as int, 0, y)
}

impl Legend {
    /// Builds the interning tables from a rule set: variant values and socket
    /// values are collected, deduplicated and sorted, so ids are assigned in
    /// each value's natural order.
    pub fn from_rules<D: Dimension>(rules: &Rules<D>) -> (l: Legend)
        requires
            rules.wf(),
        ensures
            l.wf(),
            l.dim_count == D::count(),
            forall|y: u64| #[trigger] l.variants@.contains(y) <==> table_has(rules.table@, y),
            forall|y: Seq<u64>| #[trigger]
                l.socket_views().contains(y) <==> socket_used(rules.table@, y),
    {
        let ghost t = rules.table@;
        let n = rules.table.len();
        let mut variants: Vec<u64> = Vec::new();
        let mut k: usize = 0;
        while k < n
            invariant
                0 <= k <= n,
                n == t.len(),
                rules.table@ == t,
                rules.wf(),
                sorted_u64(variants@),
                forall|y: u64| #[trigger]
                    variants@.contains(y) <==> exists|j: int|
                        0 <= j < k && (#[trigger] t[j]).0 == y,
            decreases n - k,
        {
            let ghost prev = variants@;
            sorted_insert_u64(&mut variants, rules.table[k].0);
            proof {
                let kk = k as int;
                assert forall|y: u64| #[trigger]
                    variants@.contains(y) <==> exists|j: int|
                        0 <= j < kk + 1 && (#[trigger] t[j]).0 == y by {
                    if variants@.contains(y) {
                        if prev.contains(y) {
                            let j = choose|j: int| 0 <= j < kk && (#[trigger] t[j]).0 == y;
                            assert(0 <= j < kk + 1 && t[j].0 == y);
                        } else {
                            assert(t[kk].0 == y);
                        }
                    } else {
                        if exists|j: int| 0 <= j < kk + 1 && (#[trigger] t[j]).0 == y {
                            let j = choose|j: int| 0 <= j < kk + 1 && (#[trigger] t[j]).0 == y;
                            if j < kk {
                                assert(prev.contains(y));
                            }
                        }
                    }
                }
            }
            k = k + 1;
        }
        let mut sockets: Vec<Vec<u64>> = Vec::new();
        let mut a: usize = 0;
        proof {
            assert(forall|y: Seq<u64>|
                !(#[trigger] socket_used_before(t, 0, 0, y)) && !views_of(sockets@).contains(y));
        }
        while a < n
            invariant
                0 <= a <= n,
                n == t.len(),
                rules.table@ == t,
                rules.wf(),
                sorted_sockets(views_of(sockets@)),
                forall|y: Seq<u64>| #[trigger]
                    views_of(sockets@).contains(y) <==> socket_used_before(t, a as int, 0, y),
            decreases n - a,
        {
            let m = rules.table[a].1.entries.len();
            let mut b: usize = 0;
            while b < m
                invariant
                    0 <= b <= m,
                    0 <= a < n,
                    n == t.len(),
                    m == t[a as int].1.entries@.len(),
                    rules.table@ == t,
                    rules.wf(),
                    sorted_sockets(views_of(sockets@)),
                    forall|y: Seq<u64>| #[trigger]
                        views_of(sockets@).contains(y) <==> socket_used_before(
                            t,
                            a as int,
                            b as int,
                            y,
                        ),
                decreases m - b,
            {
                let ghost prev = views_of(sockets@);
                let sval = rules.table[a].1.entries[b].1.clone();
                proof {
                    assert(sval@ =~= t[a as int].1.entries@[b as int].1@);
                }
                sorted_insert_socket(&mut sockets, sval);
                proof {
                    let aa = a as int;
                    let bb = b as int;
                    assert forall|y: Seq<u64>| #[trigger]
                        views_of(sockets@).contains(y) <==> socket_used_before(
                            t,
                            aa,
                            bb + 1,
                            y,
                        ) by {
                        if views_of(sockets@).contains(y) {
                            if prev.contains(y) {
                                let (p, q) = choose|p: int, q: int|
                                    #![trigger t[p].1.entries@[q]]
                                    {
                                        &&& 0 <= p < t.len()
                                        &&& 0 <= q < t[p].1.entries@.len()
                                        &&& (p < aa || (p == aa && q < bb))
                                        &&& t[p].1.entries@[q].1@ == y
                                    };
                                assert(p < aa || (p == aa && q < bb + 1));
                                assert(socket_used_before(t, aa, bb + 1, y));
                            } else {
                                assert(y == sval@);
                                assert(t[aa].1.entries@[bb].1@ == y);
                                assert(socket_used_before(t, aa, bb + 1, y));
                            }
                        } else {
                            if socket_used_before(t, aa, bb + 1, y) {
                                let (p, q) = choose|p: int, q: int|
                                    #![trigger t[p].1.entries@[q]]
                                    {
                                        &&& 0 <= p < t.len()
                                        &&& 0 <= q < t[p].1.entries@.len()
                                        &&& (p < aa || (p == aa && q < bb + 1))
                                        &&& t[p].1.entries@[q].1@ == y
                                    };
                                if p < aa || (p == aa && q < bb) {
                                    assert(socket_used_before(t, aa, bb, y));
                                    assert(prev.contains(y));
                                } else {
                                    assert(p == aa && q == bb);
                                    assert(y == sval@);
                                }
                            }
                        }
                    }
                }
                b = b + 1;
            }
            proof {
                let aa = a as int;
                assert forall|y: Seq<u64>|
                    #![trigger socket_used_before(t, aa + 1, 0, y)]
                    socket_used_before(t, aa, m as int, y) <==> socket_used_before(
                        t,
                        aa + 1,
                        0,
                        y,
                    ) by {
                    if socket_used_before(t, aa, m as int, y) {
                        let (p, q) = choose|p: int, q: int|
                            #![trigger t[p].1.entries@[q]]
                            {
                                &&& 0 <= p < t.len()
                                &&& 0 <= q < t[p].1.entries@.len()
                                &&& (p < aa || (p == aa && q < m as int))
                                &&& t[p].1.entries@[q].1@ == y
                            };
                        assert(p < aa + 1);
                        assert(socket_used_before(t, aa + 1, 0, y));
                    }
                    if socket_used_before(t, aa + 1, 0, y) {
                        let (p, q) = choose|p: int, q: int|
                            #![trigger t[p].1.entries@[q]]
                            {
                                &&& 0 <= p < t.len()
                                &&& 0 <= q < t[p].1.entries@.len()
                                &&& (p < aa + 1)
                                &&& t[p].1.entries@[q].1@ == y
                            };
                        assert(p < aa || (p == aa && q < m as int));
                        assert(socket_used_before(t, aa, m as int, y));
                    }
                }
            }
            a = a + 1;
        }
        let dim_count = D::dir_count();
        Legend { variants, sockets, dim_count }
    }
}

impl<D: Dimension> Rules<D> {
    /// Interns every variant, direction and socket value to a dense id and
    /// rewrites the rule table over the ids.
    pub fn abstract_rules(&self) -> (r: (AbstractRules, Legend))
        requires
            self.wf(),
        ensures
            r.1.wf(),
            r.1.dim_count == D::count(),
            forall|y: u64| #[trigger] r.1.variants@.contains(y) <==> self.has_rule(y),
            r.0.wf(),
            r.0.nv() == r.1.variants@.len(),
            r.0.dcount == D::count(),
            r.0.num_sockets == r.1.sockets@.len(),
            forall|vi: int, d: int|
                0 <= vi < r.0.nv() && 0 <= d < r.0.dcount ==> match #[trigger] r.0.socket_of(
                    vi,
                    d,
                ) {
                    Some(sid) => self.rule_of(r.1.variants@[vi]).has_dir(d) && sid
                        < r.1.sockets@.len() && r.1.socket_views()[sid as int] == self.rule_of(
                        r.1.variants@[vi],
                    ).socket_in(d),
                    None => !self.rule_of(r.1.variants@[vi]).has_dir(d),
                },
    {
        let legend = Legend::from_rules(self);
        let dcount = D::dir_count();
        let nv = legend.variants.len();
        let mut rules_vec: Vec<AbstractRule> = Vec::new();
        let mut vi: usize = 0;
        while vi < nv
            invariant
                0 <= vi <= nv,
                nv == legend.variants@.len(),
                self.wf(),
                legend.wf(),
                legend.dim_count == D::count(),
                dcount == D::count(),
                forall|y: u64| #[trigger]
                    legend.variants@.contains(y) <==> table_has(self.table@, y),
                forall|y: Seq<u64>| #[trigger]
                    legend.socket_views().contains(y) <==> socket_used(self.table@, y),
                rules_vec@.len() == vi,
                forall|vj: int|
                    0 <= vj < vi ==> (#[trigger] rules_vec@[vj]).sockets@.len() == dcount,
                forall|vj: int, d: int|
                    0 <= vj < vi && 0 <= d < dcount ==> match #[trigger] rules_vec@[vj].sockets@[d] {
                        Some(sid) => self.rule_of(legend.variants@[vj]).has_dir(d) && sid
                            < legend.sockets@.len() && legend.socket_views()[sid as int]
                            == self.rule_of(legend.variants@[vj]).socket_in(d),
                        None => !self.rule_of(legend.variants@[vj]).has_dir(d),
                    },
            decreases nv - vi,
        {
            let v = legend.variants[vi];
            proof {
                assert(legend.variants@.contains(v));
            }
            let rule_opt = self.rule_for(&v);
            let rule = rule_opt.unwrap();
            let mut socks: Vec<Option<usize>> = Vec::new();
            let mut d: usize = 0;
            while d < dcount
                invariant
                    0 <= d <= dcount,
                    dcount == D::count(),
                    self.wf(),
                    legend.wf(),
                    forall|y: Seq<u64>| #[trigger]
                        legend.socket_views().contains(y) <==> socket_used(self.table@, y),
                    rule.wf(),
                    *rule == self.rule_of(v),
                    self.has_rule(v),
                    socks@.len() == d,
                    forall|dd: int|
                        0 <= dd < d ==> match #[trigger] socks@[dd] {
                            Some(sid) => self.rule_of(v).has_dir(dd) && sid
                                < legend.sockets@.len() && legend.socket_views()[sid as int]
                                == self.rule_of(v).socket_in(dd),
                            None => !self.rule_of(v).has_dir(dd),
                        },
                decreases dcount - d,
            {
                match rule.socket_for_id(d) {
                    Some(sval) => {
                        proof {
                            let slot = rule.dir_slot(d as int);
                            assert(rule.entries@[slot].0 == d);
                            assert(rule.entries@[slot].1@ == sval@);
                            let tj = table_slot(self.table@, v);
                            assert(self.table@[tj].0 == v);
                            lemma_table_at(self.table@, v, tj);
                            assert(self.table@[tj].1.entries@[slot].1@ == sval@);
                            assert(socket_used(self.table@, sval@)) by {
                                assert(0 <= tj < self.table@.len());
                                assert(0 <= slot < self.table@[tj].1.entries@.len());
                                assert(socket_used_before(
                                    self.table@,
                                    self.table@.len() as int,
                                    0,
                                    sval@,
                                ));
                            }
                            assert(legend.socket_views().contains(sval@));
                        }
                        let sid_opt = legend.socket_id(sval);
                        let sid = sid_opt.unwrap();
                        socks.push(Some(sid.0));
                    },
                    None => {
                        socks.push(None);
                    },
                }
                d = d + 1;
            }
            rules_vec.push(AbstractRule { sockets: socks });
            vi = vi + 1;
        }
        let ar = AbstractRules {
            rules: rules_vec,
            dcount,
            num_sockets: legend.sockets.len(),
        };
        (ar, legend)
    }
}

/// A sorted distinct subset of variant values is no longer than its superset,
/// and a subset of equal length is the same sequence.
pub proof fn lemma_sorted_u64_subset(a: Seq<u64>, b: Seq<u64>)
    requires
        sorted_u64(a),
        sorted_u64(b),
        forall|x: u64| #[trigger] a.contains(x) ==> b.contains(x),
    ensures
        a.len() <= b.len(),
        a.len() == b.len() ==> a == b,
    decreases a.len(),
{
    if a.len() > 0 {
        let last = a[a.len() - 1];
        assert(a.contains(last));
        assert(b.contains(last));
        let j = choose|j: int| 0 <= j < b.len() && #[trigger] b[j] == last;
        let a2 = a.drop_last();
        let b2 = b.take(j);
        assert(sorted_u64(a2)) by {
            assert(forall|p: int, q: int| 0 <= p < q < a2.len() ==> a2[p] == a[p] && a2[q] == a[q]);
        }
        assert(sorted_u64(b2)) by {
            assert(forall|p: int, q: int| 0 <= p < q < b2.len() ==> b2[p] == b[p] && b2[q] == b[q]);
        }
        assert forall|x: u64| #[trigger] a2.contains(x) implies b2.contains(x) by {
            let p = choose|p: int| 0 <= p < a2.len() && #[trigger] a2[p] == x;
            assert(a[p] == x);
            assert(x < last);
            assert(a.contains(x));
            assert(b.contains(x));
            let q = choose|q: int| 0 <= q < b.len() && #[trigger] b[q] == x;
            assert(q < j) by {
                if q > j {
                    assert(b[j] < b[q]);
                }
            }
            assert(b2[q] == x);
        }
        lemma_sorted_u64_subset(a2, b2);
        assert(a.len() - 1 <= j);
        if a.len() == b.len() {
            assert(j == b.len() - 1);
            assert(a2.len() == b2.len());
            assert(a2 == b2);
            assert(b2 =~= b.drop_last());
            assert(a =~= b) by {
                assert(forall|p: int| 0 <= p < a.len() - 1 ==> a[p] == a2[p] && b[p] == b2[p]);
            }
        }
    }
}

/// Two sorted distinct sequences with the same members are the same sequence.
pub proof fn lemma_sorted_u64_members(a: Seq<u64>, b: Seq<u64>)
    requires
        sorted_u64(a),
        sorted_u64(b),
        forall|x: u64| #[trigger] a.contains(x) <==> b.contains(x),
    ensures
        a == b,
{
    lemma_sorted_u64_subset(a, b);
    lemma_sorted_u64_subset(b, a);
}

} // verus!
