use vstd::prelude::*;
use vstd::set_lib::*;

use crate::relation::EdgeRecord;

verus! {

/// The tuple that joins `x` with a tuple `y` leaving `x`'s destination.
pub open spec fn joined(x: EdgeRecord, y: EdgeRecord) -> EdgeRecord {
    EdgeRecord { src: x.src, dst: y.dst }
}

/// Step `i` of the label sequence `p` is a tuple of `r`.
pub open spec fn link(r: Set<EdgeRecord>, p: Seq<usize>, i: int) -> bool {
    r.contains(EdgeRecord { src: p[i], dst: p[i + 1] })
}

/// `p` is a chain of one or more steps, each a tuple of `r`.
pub open spec fn is_chain(r: Set<EdgeRecord>, p: Seq<usize>) -> bool {
    &&& p.len() >= 2
    &&& forall|i: int| 0 <= i < p.len() - 1 ==> #[trigger] link(r, p, i)
}

/// Some chain of `r` leads from `a` to `c`.
pub open spec fn reaches(r: Set<EdgeRecord>, a: usize, c: usize) -> bool {
    exists|p: Seq<usize>| #[trigger] is_chain(r, p) && p[0] == a && p.last() == c
}

/// The transitive closure of `r`: the pairs (a, c) such that a chain of `r` leads from a to c.
pub open spec fn closure_of(r: Set<EdgeRecord>) -> Set<EdgeRecord> {
    Set::new(|e: EdgeRecord| reaches(r, e.src, e.dst))
}

/// Whenever (a, b) and (b, c) are in `s`, so is (a, c).
pub open spec fn is_transitive(s: Set<EdgeRecord>) -> bool {
    forall|x: EdgeRecord, y: EdgeRecord|
        #![trigger s.contains(x), s.contains(y)]
        s.contains(x) && s.contains(y) && x.dst == y.src ==> s.contains(joined(x, y))
}

/// Extending a tuple of `c` by a tuple of `r` gives a tuple of `c`.
pub open spec fn extends_right(c: Set<EdgeRecord>, r: Set<EdgeRecord>) -> bool {
    forall|x: EdgeRecord, z: EdgeRecord|
        #![trigger c.contains(x), r.contains(z)]
        c.contains(x) && r.contains(z) && x.dst == z.src ==> c.contains(joined(x, z))
}

/// Every tuple of `c` outside `pending` has been extended by every tuple of `r` it meets.
pub open spec fn extended_except(c: Set<EdgeRecord>, pending: Set<EdgeRecord>, r: Set<EdgeRecord>) -> bool {
    forall|x: EdgeRecord, z: EdgeRecord|
        #![trigger c.contains(x), r.contains(z)]
        c.contains(x) && !pending.contains(x) && r.contains(z) && x.dst == z.src ==> c.contains(
            joined(x, z),
        )
}

/// The pairs whose source lies in `a` and whose destination lies in `b`.
pub open spec fn product(a: Set<usize>, b: Set<usize>) -> Set<EdgeRecord> {
    Set::new(|e: EdgeRecord| a.contains(e.src) && b.contains(e.dst))
}

proof fn lemma_product_finite(a: Set<usize>, b: Set<usize>)
    requires
        a.finite(),
        b.finite(),
    ensures
        product(a, b).finite(),
    decreases a.len(),
{
    if a.len() == 0 {
        assert(product(a, b) =~= Set::empty());
    } else {
        let x = a.choose();
        let row = b.map(|d: usize| EdgeRecord { src: x, dst: d });
        lemma_map_size_bound(b, row, |d: usize| EdgeRecord { src: x, dst: d });
        lemma_product_finite(a.remove(x), b);
        assert forall|e: EdgeRecord| #[trigger] product(a, b).contains(e) implies product(
            a.remove(x),
            b,
        ).union(row).contains(e) by {
            if e.src == x {
                assert(row.contains(EdgeRecord { src: x, dst: e.dst }));
            }
        }
        lemma_len_subset(product(a, b), product(a.remove(x), b).union(row));
    }
}

/// A one-step chain.
proof fn lemma_single(r: Set<EdgeRecord>, e: EdgeRecord)
    requires
        r.contains(e),
    ensures
        reaches(r, e.src, e.dst),
{
    let p = seq![e.src, e.dst];
    assert(link(r, p, 0));
    assert(is_chain(r, p));
}

/// Two chains that meet make one chain.
proof fn lemma_concat(r: Set<EdgeRecord>, a: usize, b: usize, c: usize)
    requires
        reaches(r, a, b),
        reaches(r, b, c),
    ensures
        reaches(r, a, c),
{
    let p = choose|p: Seq<usize>| #[trigger] is_chain(r, p) && p[0] == a && p.last() == b;
    let q = choose|q: Seq<usize>| #[trigger] is_chain(r, q) && q[0] == b && q.last() == c;
    let pq = p + q.drop_first();
    assert forall|i: int| 0 <= i < pq.len() - 1 implies #[trigger] link(r, pq, i) by {
        if i < p.len() - 1 {
            assert(link(r, p, i));
        } else {
            assert(link(r, q, i - p.len() + 1));
        }
    }
    assert(is_chain(r, pq));
}

/// Every tuple of `r` is in its closure.
pub proof fn lemma_closure_contains(r: Set<EdgeRecord>)
    ensures
        r.subset_of(closure_of(r)),
{
    assert forall|e: EdgeRecord| r.contains(e) implies closure_of(r).contains(e) by {
        lemma_single(r, e);
    }
}

/// The closure of a relation is transitive.
pub proof fn lemma_closure_transitive(r: Set<EdgeRecord>)
    ensures
        is_transitive(closure_of(r)),
{
    assert forall|x: EdgeRecord, y: EdgeRecord|
        closure_of(r).contains(x) && closure_of(r).contains(y) && x.dst == y.src implies closure_of(
        r,
    ).contains(joined(x, y)) by {
        lemma_concat(r, x.src, x.dst, y.dst);
    }
}

proof fn lemma_chain_prefix(r: Set<EdgeRecord>, c: Set<EdgeRecord>, p: Seq<usize>, k: int)
    requires
        r.subset_of(c),
        extends_right(c, r),
        is_chain(r, p),
        1 <= k < p.len(),
    ensures
        c.contains(EdgeRecord { src: p[0], dst: p[k] }),
    decreases k,
{
    assert(link(r, p, k - 1));
    if k > 1 {
        lemma_chain_prefix(r, c, p, k - 1);
        let x = EdgeRecord { src: p[0], dst: p[k - 1] };
        let z = EdgeRecord { src: p[k - 1], dst: p[k] };
        assert(c.contains(x) && r.contains(z));
        assert(joined(x, z) == EdgeRecord { src: p[0], dst: p[k] });
    }
}

/// A relation that holds `r` and is closed under extension by `r` holds the closure of `r`.
pub proof fn lemma_closure_least_right(r: Set<EdgeRecord>, c: Set<EdgeRecord>)
    requires
        r.subset_of(c),
        extends_right(c, r),
    ensures
        closure_of(r).subset_of(c),
{
    assert forall|e: EdgeRecord| closure_of(r).contains(e) implies c.contains(e) by {
        let p = choose|p: Seq<usize>| #[trigger] is_chain(r, p) && p[0] == e.src && p.last() == e.dst;
        lemma_chain_prefix(r, c, p, p.len() - 1);
    }
}

/// The closure of `r` is the least transitive relation that holds `r`.
pub proof fn lemma_closure_least(r: Set<EdgeRecord>, t: Set<EdgeRecord>)
    requires
        r.subset_of(t),
        is_transitive(t),
    ensures
        closure_of(r).subset_of(t),
{
    assert forall|x: EdgeRecord, z: EdgeRecord| t.contains(x) && r.contains(z) && x.dst
        == z.src implies t.contains(joined(x, z)) by {
        assert(t.contains(z));
    }
    lemma_closure_least_right(r, t);
}

/// A relation between `r` and its closure that is closed under extension by `r`
/// is the closure itself.
pub proof fn lemma_fixpoint(r: Set<EdgeRecord>, c: Set<EdgeRecord>)
    requires
        r.subset_of(c),
        c.subset_of(closure_of(r)),
        extends_right(c, r),
    ensures
        c == closure_of(r),
{
    lemma_closure_least_right(r, c);
    assert(c =~= closure_of(r));
}

/// The closure of a finite relation is finite.
pub proof fn lemma_closure_finite(r: Set<EdgeRecord>)
    requires
        r.finite(),
    ensures
        closure_of(r).finite(),
{
    let srcs = r.map(|e: EdgeRecord| e.src);
    let dsts = r.map(|e: EdgeRecord| e.dst);
    lemma_map_size_bound(r, srcs, |e: EdgeRecord| e.src);
    lemma_map_size_bound(r, dsts, |e: EdgeRecord| e.dst);
    lemma_product_finite(srcs, dsts);
    assert forall|e: EdgeRecord| closure_of(r).contains(e) implies #[trigger] product(
        srcs,
        dsts,
    ).contains(e) by {
        let p = choose|p: Seq<usize>| #[trigger] is_chain(r, p) && p[0] == e.src && p.last() == e.dst;
        assert(link(r, p, 0));
        assert(link(r, p, p.len() - 2));
        assert(srcs.contains(EdgeRecord { src: p[0], dst: p[1] }.src));
        assert(dsts.contains(EdgeRecord { src: p[p.len() - 2], dst: p[p.len() - 1] }.dst));
    }
    lemma_len_subset(closure_of(r), product(srcs, dsts));
}

/// Closing a relation that is already closed changes nothing.
pub proof fn lemma_closure_idempotent(r: Set<EdgeRecord>)
    ensures
        closure_of(closure_of(r)) == closure_of(r),
{
    let c = closure_of(r);
    lemma_closure_transitive(r);
    lemma_closure_contains(c);
    lemma_closure_least(c, c);
    assert(closure_of(c) =~= c);
}

/// More tuples in the input never take a tuple out of the closure.
pub proof fn lemma_closure_monotone(r1: Set<EdgeRecord>, r2: Set<EdgeRecord>)
    requires
        r1.subset_of(r2),
    ensures
        closure_of(r1).subset_of(closure_of(r2)),
{
    assert forall|e: EdgeRecord| closure_of(r1).contains(e) implies closure_of(r2).contains(e) by {
        let p = choose|p: Seq<usize>| #[trigger] is_chain(r1, p) && p[0] == e.src && p.last() == e.dst;
        assert forall|i: int| 0 <= i < p.len() - 1 implies #[trigger] link(r2, p, i) by {
            assert(link(r1, p, i));
        }
        assert(is_chain(r2, p));
    }
}

/// (a, c) is in the closure exactly when a chain of input tuples leads from a to c.
pub proof fn lemma_closure_reachability(r: Set<EdgeRecord>, a: usize, c: usize)
    ensures
        closure_of(r).contains(EdgeRecord { src: a, dst: c }) <==> exists|p: Seq<usize>|
            #[trigger] is_chain(r, p) && p[0] == a && p[p.len() - 1] == c,
{
}

/// A tuple of the closure leaves a source of the input and enters a destination of it.
pub proof fn lemma_closure_endpoints(r: Set<EdgeRecord>, e: EdgeRecord)
    requires
        closure_of(r).contains(e),
    ensures
        exists|x: EdgeRecord| #[trigger] r.contains(x) && x.src == e.src,
        exists|y: EdgeRecord| #[trigger] r.contains(y) && y.dst == e.dst,
{
    let p = choose|p: Seq<usize>| #[trigger] is_chain(r, p) && p[0] == e.src && p.last() == e.dst;
    assert(link(r, p, 0));
    assert(link(r, p, p.len() - 2));
    assert(r.contains(EdgeRecord { src: p[0], dst: p[1] }));
    assert(r.contains(EdgeRecord { src: p[p.len() - 2], dst: p[p.len() - 2 + 1] }));
}

} // verus!
