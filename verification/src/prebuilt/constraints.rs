//! The two stock socket-compatibility predicates.

use crate::state::constraint_exchangeable;
use crate::Constraint;
use vstd::prelude::*;

verus! {

/// Sockets match by equality: the check passes when the opposing set
/// contains the very same socket id.
#[derive(Debug, Clone, Copy)]
pub struct UnaryConstraint;

impl Constraint for UnaryConstraint {
    open spec fn check_spec(&self, socket: int, others: Set<usize>) -> bool {
        socket >= 0 && others.contains(socket as usize)
    }

    fn check(&self, socket: usize, all_connecting_sockets: &Vec<usize>) -> (r: bool)
        ensures
            r == self.check_spec(socket as int, all_connecting_sockets@.to_set()),
    {
        let n = all_connecting_sockets.len();
        let mut k: usize = 0;
        while k < n
            invariant
                0 <= k <= n,
                n == all_connecting_sockets@.len(),
                forall|j: int| 0 <= j < k ==> #[trigger] all_connecting_sockets@[j] != socket,
            decreases n - k,
        {
            if all_connecting_sockets[k] == socket {
                proof {
                    assert(all_connecting_sockets@.contains(socket));
                }
                return true;
            }
            k = k + 1;
        }
        proof {
            if all_connecting_sockets@.contains(socket) {
                let j = choose|j: int|
                    0 <= j < all_connecting_sockets@.len() && #[trigger] all_connecting_sockets@[j]
                        == socket;
            }
        }
        false
    }
}

/// Two integer sequences share at least one value.
pub open spec fn seqs_intersect(a: Seq<u64>, b: Seq<u64>) -> bool {
    exists|i: int, j: int| 0 <= i < a.len() && 0 <= j < b.len() && #[trigger] a[i] == #[trigger] b[j]
}

/// Each socket id names a set of connectors; the check passes when some
/// opposing socket's set is not disjoint from this socket's set.
#[derive(Debug)]
pub struct SetConstraint {
    /// `members[socket_id]` lists the connectors of that socket, as interned
    /// by the legend (id order).
    pub members: Vec<Vec<u64>>,
}

impl SetConstraint {
    /// The connector sets by socket id.
    pub open spec fn member_views(self) -> Seq<Seq<u64>> {
        Seq::new(self.members@.len(), |j: int| self.members@[j]@)
    }

    pub fn new(members: Vec<Vec<u64>>) -> (r: Self)
        ensures
            r.members == members,
    {
        SetConstraint { members }
    }
}

impl Constraint for SetConstraint {
    open spec fn check_spec(&self, socket: int, others: Set<usize>) -> bool {
        exists|t: usize|
            {
                &&& #[trigger] others.contains(t)
                &&& 0 <= socket < self.member_views().len()
                &&& t < self.member_views().len()
                &&& seqs_intersect(self.member_views()[socket], self.member_views()[t as int])
            }
    }

    fn check(&self, socket: usize, all_connecting_sockets: &Vec<usize>) -> (r: bool)
        ensures
            r == self.check_spec(socket as int, all_connecting_sockets@.to_set()),
    {
        let n = all_connecting_sockets.len();
        if socket >= self.members.len() {
            proof {
                assert(!self.check_spec(socket as int, all_connecting_sockets@.to_set()));
            }
            return false;
        }
        let mut k: usize = 0;
        while k < n
            invariant
                0 <= k <= n,
                n == all_connecting_sockets@.len(),
                socket < self.member_views().len(),
                forall|j: int|
                    0 <= j < k ==> !((#[trigger] all_connecting_sockets@[j])
                        < self.member_views().len() && seqs_intersect(
                        self.member_views()[socket as int],
                        self.member_views()[all_connecting_sockets@[j] as int],
                    )),
            decreases n - k,
        {
            let t = all_connecting_sockets[k];
            if t < self.members.len() {
                let hit = vecs_intersect(&self.members[socket], &self.members[t]);
                proof {
                    assert(self.member_views()[socket as int] == self.members@[socket as int]@);
                    assert(self.member_views()[t as int] == self.members@[t as int]@);
                }
                if hit {
                    proof {
                        assert(all_connecting_sockets@.contains(t));
                        assert(all_connecting_sockets@.to_set().contains(t));
                        assert(self.check_spec(socket as int, all_connecting_sockets@.to_set()));
                    }
                    return true;
                }
            }
            k = k + 1;
        }
        proof {
            if self.check_spec(socket as int, all_connecting_sockets@.to_set()) {
                let t = choose|t: usize|
                    {
                        &&& #[trigger] all_connecting_sockets@.to_set().contains(t)
                        &&& 0 <= socket < self.member_views().len()
                        &&& t < self.member_views().len()
                        &&& seqs_intersect(
                            self.member_views()[socket as int],
                            self.member_views()[t as int],
                        )
                    };
                let j = choose|j: int|
                    0 <= j < all_connecting_sockets@.len() && #[trigger] all_connecting_sockets@[j]
                        == t;
            }
        }
        false
    }
}

/// True when the two connector lists share a value.
fn vecs_intersect(a: &Vec<u64>, b: &Vec<u64>) -> (r: bool)
    ensures
        r == seqs_intersect(a@, b@),
{
    let n = a.len();
    let m = b.len();
    let mut i: usize = 0;
    while i < n
        invariant
            0 <= i <= n,
            n == a@.len(),
            m == b@.len(),
            forall|p: int, q: int| 0 <= p < i && 0 <= q < m ==> #[trigger] a@[p] != #[trigger] b@[q],
        decreases n - i,
    {
        let mut j: usize = 0;
        while j < m
            invariant
                0 <= j <= m,
                0 <= i < n,
                n == a@.len(),
                m == b@.len(),
                forall|q: int| 0 <= q < j ==> a@[i as int] != #[trigger] b@[q],
            decreases m - j,
        {
            if a[i] == b[j] {
                return true;
            }
            j = j + 1;
        }
        i = i + 1;
    }
    false
}

/// Sharing a value is mutual.
pub proof fn lemma_intersect_symmetric(a: Seq<u64>, b: Seq<u64>)
    ensures
        seqs_intersect(a, b) == seqs_intersect(b, a),
{
    if seqs_intersect(a, b) {
        let (i, j) = choose|i: int, j: int|
            0 <= i < a.len() && 0 <= j < b.len() && #[trigger] a[i] == #[trigger] b[j];
        assert(0 <= j < b.len() && 0 <= i < a.len() && b[j] == a[i]);
    }
    if seqs_intersect(b, a) {
        let (i, j) = choose|i: int, j: int|
            0 <= i < b.len() && 0 <= j < a.len() && #[trigger] b[i] == #[trigger] a[j];
        assert(0 <= j < a.len() && 0 <= i < b.len() && a[j] == b[i]);
    }
}

/// Equality of sockets is symmetric and never holds against no socket at all.
pub proof fn lemma_unary_exchangeable(c: UnaryConstraint)
    ensures
        constraint_exchangeable(c),
{
    assert forall|s: usize, t: usize| #[trigger]
        c.check_spec(s as int, Set::empty().insert(t)) == c.check_spec(
            t as int,
            Set::empty().insert(s),
        ) by {
        assert(Set::empty().insert(t).contains(s) <==> s == t);
        assert(Set::empty().insert(s).contains(t) <==> s == t);
    }
    assert forall|s: int| !(#[trigger] c.check_spec(s, Set::empty())) by {
        if s >= 0 {
            assert(!Set::<usize>::empty().contains(s as usize));
        }
    }
}

/// Overlap of connector sets is symmetric and never holds against no socket
/// at all.
pub proof fn lemma_set_exchangeable(c: SetConstraint)
    ensures
        constraint_exchangeable(c),
{
    assert forall|s: usize, t: usize| #[trigger]
        c.check_spec(s as int, Set::empty().insert(t)) == c.check_spec(
            t as int,
            Set::empty().insert(s),
        ) by {
        lemma_intersect_symmetric(
            if (s as int) < c.member_views().len() {
                c.member_views()[s as int]
            } else {
                Seq::empty()
            },
            if (t as int) < c.member_views().len() {
                c.member_views()[t as int]
            } else {
                Seq::empty()
            },
        );
        if c.check_spec(s as int, Set::empty().insert(t)) {
            let w = choose|w: usize|
                {
                    &&& #[trigger] Set::empty().insert(t).contains(w)
                    &&& 0 <= (s as int) < c.member_views().len()
                    &&& w < c.member_views().len()
                    &&& seqs_intersect(c.member_views()[s as int], c.member_views()[w as int])
                };
            assert(w == t);
            assert(Set::empty().insert(s).contains(s));
            assert(c.check_spec(t as int, Set::empty().insert(s)));
        }
        if c.check_spec(t as int, Set::empty().insert(s)) {
            let w = choose|w: usize|
                {
                    &&& #[trigger] Set::empty().insert(s).contains(w)
                    &&& 0 <= (t as int) < c.member_views().len()
                    &&& w < c.member_views().len()
                    &&& seqs_intersect(c.member_views()[t as int], c.member_views()[w as int])
                };
            assert(w == s);
            assert(Set::empty().insert(t).contains(t));
            assert(c.check_spec(s as int, Set::empty().insert(t)));
        }
    }
    assert forall|s: int| !(#[trigger] c.check_spec(s, Set::empty())) by {
        if c.check_spec(s, Set::empty()) {
            let w = choose|w: usize|
                {
                    &&& #[trigger] Set::<usize>::empty().contains(w)
                    &&& 0 <= s < c.member_views().len()
                    &&& w < c.member_views().len()
                    &&& seqs_intersect(c.member_views()[s], c.member_views()[w as int])
                };
        }
    }
}

} // verus!
