//! A provider that lets anything sit next to whatever it was seen next to:
//! each variant's socket grows into the set of variants observed adjacent,
//! itself included, so set-intersection constraints reproduce the sample's
//! adjacencies.

use crate::auto::{FindResult, NoSocket, SocketProvider};
use crate::rules::{lemma_lex_connex, lemma_sorted_u64_members, sorted_insert_u64, sorted_u64};
use crate::Dimension;
use vstd::prelude::*;

verus! {

/// The sorted duplicate-free sequence holding the members of `cur` together
/// with `a` and `b`.
pub open spec fn chaos_union(cur: Seq<u64>, a: u64, b: u64) -> Seq<u64> {
    choose|s: Seq<u64>|
        sorted_u64(s) && (forall|x: u64| #[trigger]
            s.contains(x) <==> (cur.contains(x) || x == a || x == b))
}

/// The adjacency-collecting provider.
#[derive(Debug, Clone, Copy)]
pub struct ChaosMode;

impl<D: Dimension> SocketProvider<D> for ChaosMode {
    /// Every sighting widens the socket: the working set gains the source and
    /// the target variant.
    open spec fn find_spec(
        &self,
        current: Option<Seq<u64>>,
        dir: D,
        source: u64,
        target: u64,
    ) -> Result<Option<Seq<u64>>, NoSocket> {
        let cur = match current {
            Some(c) => c,
            None => Seq::empty(),
        };
        Ok(Some(chaos_union(cur, source, target)))
    }

    open spec fn finalize_spec(&self, dir: D, socket: Seq<u64>) -> Seq<u64> {
        socket
    }

    fn find(
        &self,
        current: Option<Vec<u64>>,
        dir: D,
        source: &u64,
        target: &u64,
    ) -> (r: FindResult<Vec<u64>>) {
        let ghost cur0 = crate::auto::view_opt(current);
        let mut out: Vec<u64> = Vec::new();
        let ghost curseq = match cur0 {
            Some(c) => c,
            None => Seq::<u64>::empty(),
        };
        match current {
            Some(c) => {
                // The recorded socket may arrive in any order; it is
                // renormalized value by value.
                let n = c.len();
                let mut k: usize = 0;
                while k < n
                    invariant
                        0 <= k <= n,
                        n == c@.len(),
                        c@ == curseq,
                        sorted_u64(out@),
                        forall|x: u64| #[trigger]
                            out@.contains(x) <==> curseq.take(k as int).contains(x),
                    decreases n - k,
                {
                    let ghost before = out@;
                    sorted_insert_u64(&mut out, c[k]);
                    proof {
                        let kk = k as int;
                        assert(curseq.take(kk + 1).drop_last() =~= curseq.take(kk));
                        assert(curseq.take(kk + 1).last() == curseq[kk]);
                        assert forall|x: u64| #[trigger]
                            out@.contains(x) <==> curseq.take(kk + 1).contains(x) by {
                            if out@.contains(x) {
                                if before.contains(x) {
                                    let j = choose|j: int|
                                        0 <= j < kk && #[trigger] curseq.take(kk)[j] == x;
                                    assert(curseq.take(kk + 1)[j] == x);
                                } else {
                                    assert(curseq.take(kk + 1)[kk] == x);
                                }
                            } else {
                                if curseq.take(kk + 1).contains(x) {
                                    let j = choose|j: int|
                                        0 <= j < kk + 1 && #[trigger] curseq.take(kk + 1)[j] == x;
                                    if j < kk {
                                        assert(curseq.take(kk)[j] == x);
                                        assert(before.contains(x));
                                    }
                                }
                            }
                        }
                    }
                    k = k + 1;
                }
                proof {
                    assert(curseq.take(n as int) =~= curseq);
                }
            },
            None => {},
        }
        sorted_insert_u64(&mut out, *source);
        sorted_insert_u64(&mut out, *target);
        proof {
            assert(sorted_u64(out@) && (forall|x: u64| #[trigger]
                out@.contains(x) <==> (curseq.contains(x) || x == *source || x == *target)));
            let canon = chaos_union(curseq, *source, *target);
            assert(sorted_u64(canon) && (forall|x: u64| #[trigger]
                canon.contains(x) <==> (curseq.contains(x) || x == *source || x == *target)));
            lemma_sorted_u64_members(out@, canon);
            assert(out@ == canon);
        }
        Ok(Some(out))
    }

    fn finalize(&self, dir: D, socket: Vec<u64>) -> (r: Vec<u64>) {
        socket
    }
}

} // verus!
