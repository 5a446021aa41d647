use vstd::prelude::*;
use vstd::seq_lib::*;
use vstd::set_lib::*;

use crate::reach::{
    closure_of, extended_except, is_transitive, joined, lemma_closure_contains, lemma_closure_finite,
    lemma_closure_transitive, lemma_fixpoint,
};
use crate::relation::{edges_with_src, lemma_edges_with_src, EdgeRecord, EdgeRelation};

verus! {

/// A duplicate-free sequence of tuples of the closure of a finite `b` is no
/// longer than that closure.
proof fn lemma_size(b: Set<EdgeRecord>, c: Seq<EdgeRecord>)
    requires
        b.finite(),
        c.no_duplicates(),
        c.to_set().subset_of(closure_of(b)),
    ensures
        c.len() <= closure_of(b).len(),
{
    lemma_closure_finite(b);
    c.unique_seq_to_set();
    lemma_len_subset(c.to_set(), closure_of(b));
}

/// A copy of `input`, tuple for tuple.
pub fn copy_relation(input: &EdgeRelation) -> (r: EdgeRelation)
    requires
        input.wf(),
    ensures
        r.wf(),
        r@ == input@,
{
    let mut r = EdgeRelation::new();
    let mut i: usize = 0;
    while i < input.len()
        invariant
            input.wf(),
            r.wf(),
            i <= input@.len(),
            r@ == input@.subrange(0, i as int),
        decreases input@.len() - i,
    {
        let e = input.get(i);
        proof {
            input.lemma_distinct();
            assert(!input@.subrange(0, i as int).contains(e)) by {
                if input@.subrange(0, i as int).contains(e) {
                    let j = choose|j: int| 0 <= j < i && input@.subrange(0, i as int)[j] == e;
                    assert(input@[j] == input@[i as int]);
                }
            }
        }
        r.insert_edge(e.src, e.dst);
        i = i + 1;
        assert(r@ =~= input@.subrange(0, i as int));
    }
    assert(r@ =~= input@);
    r
}

/// Transitive closure by naive fixpoint iteration: each round joins every
/// tuple found so far with the input relation, until a round adds nothing.
pub fn naive_closure(input: &EdgeRelation) -> (r: EdgeRelation)
    requires
        input.wf(),
    ensures
        r.wf(),
        r@.to_set() == closure_of(input@.to_set()),
{
    let ghost b = input@.to_set();
    proof {
        seq_to_set_is_finite(input@);
        lemma_closure_contains(b);
        lemma_closure_transitive(b);
        lemma_closure_finite(b);
    }
    let mut closure = copy_relation(input);
    let mut batch = EdgeRelation::new();
    loop
        invariant_except_break
            input.wf(),
            b == input@.to_set(),
            b.finite(),
            b.subset_of(closure_of(b)),
            is_transitive(closure_of(b)),
            closure.wf(),
            batch.wf(),
            b.subset_of(closure@.to_set()),
            closure@.to_set().subset_of(closure_of(b)),
        ensures
            closure.wf(),
            closure@.to_set() == closure_of(b),
        decreases closure_of(b).len() - closure@.len(),
    {
        let ghost c0 = closure@;
        batch.clear();
        let mut i: usize = 0;
        while i < closure.len()
            invariant
                input.wf(),
                b == input@.to_set(),
                is_transitive(closure_of(b)),
                closure.wf(),
                batch.wf(),
                closure@ == c0,
                b.subset_of(c0.to_set()),
                c0.to_set().subset_of(closure_of(b)),
                i <= c0.len(),
                batch@.to_set().subset_of(closure_of(b)),
                forall|j: int, z: EdgeRecord|
                    0 <= j < i && #[trigger] b.contains(z) && c0[j].dst == z.src
                        ==> batch@.to_set().contains(#[trigger] joined(c0[j], z)),
            decreases c0.len() - i,
        {
            let x = closure.get(i);
            let from = input.edges_from(x.dst);
            proof {
                lemma_edges_with_src(input@, x.dst);
            }
            let mut k: usize = 0;
            while k < from.len()
                invariant
                    input.wf(),
                    b == input@.to_set(),
                    is_transitive(closure_of(b)),
                    batch.wf(),
                    closure@ == c0,
                    b.subset_of(c0.to_set()),
                    c0.to_set().subset_of(closure_of(b)),
                    i < c0.len(),
                    b.subset_of(closure_of(b)),
                    x == c0[i as int],
                    from@ == edges_with_src(input@, x.dst),
                    forall|e: EdgeRecord|
                        #[trigger] from@.contains(e) <==> (input@.contains(e) && e.src == x.dst),
                    k <= from.len(),
                    batch@.to_set().subset_of(closure_of(b)),
                    forall|j: int, z: EdgeRecord|
                        0 <= j < i && #[trigger] b.contains(z) && c0[j].dst == z.src
                            ==> batch@.to_set().contains(#[trigger] joined(c0[j], z)),
                    forall|m: int|
                        0 <= m < k ==> batch@.to_set().contains(#[trigger] joined(x, from@[m])),
                decreases from.len() - k,
            {
                let z = from[k];
                proof {
                    assert(from@.contains(z));
                    assert(input@.contains(z));
                    assert(b.contains(z));
                    assert(closure_of(b).contains(z));
                    assert(c0.to_set().contains(x));
                    assert(closure_of(b).contains(joined(x, z)));
                }
                batch.insert_edge(x.src, z.dst);
                k = k + 1;
            }
            proof {
                assert forall|j: int, z: EdgeRecord|
                    0 <= j < i + 1 && #[trigger] b.contains(z) && c0[j].dst == z.src
                        implies batch@.to_set().contains(#[trigger] joined(c0[j], z)) by {
                    if j == i {
                        assert(from@.contains(z));
                        let m = choose|m: int| 0 <= m < from@.len() && from@[m] == z;
                        assert(batch@.to_set().contains(joined(x, from@[m])));
                    }
                }
            }
            i = i + 1;
        }
        let mut changed = false;
        let mut i: usize = 0;
        while i < batch.len()
            invariant
                closure.wf(),
                batch.wf(),
                i <= batch@.len(),
                c0.to_set().subset_of(closure@.to_set()),
                closure@.to_set().subset_of(closure_of(b)),
                batch@.to_set().subset_of(closure_of(b)),
                forall|j: int| 0 <= j < i ==> closure@.contains(#[trigger] batch@[j]),
                closure@.len() >= c0.len(),
                changed <==> closure@.len() > c0.len(),
                !changed ==> closure@ == c0,
            decreases batch@.len() - i,
        {
            let e = batch.get(i);
            proof {
                assert(batch@.to_set().contains(e));
            }
            let is_new = closure.insert_edge(e.src, e.dst);
            changed = changed || is_new;
            i = i + 1;
        }
        proof {
            closure.lemma_distinct();
            lemma_size(b, closure@);
            assert forall|x: EdgeRecord| batch@.to_set().contains(x) implies closure@.to_set().contains(x) by {
                let j = choose|j: int| 0 <= j < batch@.len() && batch@[j] == x;
                assert(closure@.contains(batch@[j]));
            }
        }
        if !changed {
            proof {
                assert forall|x: EdgeRecord, z: EdgeRecord|
                    closure@.to_set().contains(x) && b.contains(z) && x.dst == z.src
                        implies closure@.to_set().contains(joined(x, z)) by {
                    let j = choose|j: int| 0 <= j < c0.len() && c0[j] == x;
                    assert(batch@.to_set().contains(joined(c0[j], z)));
                }
                lemma_fixpoint(b, closure@.to_set());
            }
            break;
        }
    }
    closure
}

/// Transitive closure by semi-naive iteration: each round joins only the
/// tuples that the previous round added with the closure found so far.
pub fn semi_naive_closure(input: &EdgeRelation) -> (r: EdgeRelation)
    requires
        input.wf(),
    ensures
        r.wf(),
        r@.to_set() == closure_of(input@.to_set()),
{
    let ghost b = input@.to_set();
    proof {
        seq_to_set_is_finite(input@);
        lemma_closure_contains(b);
        lemma_closure_transitive(b);
        lemma_closure_finite(b);
    }
    let mut closure = copy_relation(input);
    let mut delta = copy_relation(input);
    let mut tmp = EdgeRelation::new();
    loop
        invariant_except_break
            b.finite(),
            b.subset_of(closure_of(b)),
            is_transitive(closure_of(b)),
            closure.wf(),
            delta.wf(),
            tmp.wf(),
            b.subset_of(closure@.to_set()),
            closure@.to_set().subset_of(closure_of(b)),
            forall|x: EdgeRecord| #[trigger] delta@.contains(x) ==> closure@.contains(x),
            extended_except(closure@.to_set(), delta@.to_set(), b),
        ensures
            closure.wf(),
            closure@.to_set() == closure_of(b),
        decreases closure_of(b).len() - closure@.len(),
    {
        let ghost c0 = closure@;
        let ghost d0 = delta@;
        tmp.clear();
        let mut i: usize = 0;
        while i < delta.len()
            invariant
                is_transitive(closure_of(b)),
                b.subset_of(closure_of(b)),
                closure.wf(),
                delta.wf(),
                tmp.wf(),
                closure@ == c0,
                delta@ == d0,
                b.subset_of(c0.to_set()),
                c0.to_set().subset_of(closure_of(b)),
                forall|x: EdgeRecord| #[trigger] d0.contains(x) ==> c0.contains(x),
                i <= d0.len(),
                tmp@.to_set().subset_of(closure_of(b)),
                forall|j: int, z: EdgeRecord|
                    0 <= j < i && #[trigger] b.contains(z) && d0[j].dst == z.src
                        ==> tmp@.contains(#[trigger] joined(d0[j], z)),
            decreases d0.len() - i,
        {
            let x = delta.get(i);
            let from = closure.edges_from(x.dst);
            proof {
                lemma_edges_with_src(c0, x.dst);
                assert(d0.contains(x));
            }
            let mut k: usize = 0;
            while k < from.len()
                invariant
                    is_transitive(closure_of(b)),
                    b.subset_of(closure_of(b)),
                    tmp.wf(),
                    b.subset_of(c0.to_set()),
                    c0.to_set().subset_of(closure_of(b)),
                    c0.contains(x),
                    forall|e: EdgeRecord|
                        #[trigger] from@.contains(e) <==> (c0.contains(e) && e.src == x.dst),
                    k <= from.len(),
                    tmp@.to_set().subset_of(closure_of(b)),
                    forall|j: int, z: EdgeRecord|
                        0 <= j < i && #[trigger] b.contains(z) && d0[j].dst == z.src
                            ==> tmp@.contains(#[trigger] joined(d0[j], z)),
                    forall|m: int| 0 <= m < k ==> tmp@.contains(#[trigger] joined(x, from@[m])),
                decreases from.len() - k,
            {
                let z = from[k];
                proof {
                    assert(from@.contains(z));
                    assert(c0.to_set().contains(z));
                    assert(c0.to_set().contains(x));
                    assert(closure_of(b).contains(z));
                    assert(closure_of(b).contains(x));
                    assert(closure_of(b).contains(joined(x, z)));
                }
                tmp.insert_edge(x.src, z.dst);
                k = k + 1;
            }
            proof {
                assert forall|j: int, z: EdgeRecord|
                    0 <= j < i + 1 && #[trigger] b.contains(z) && d0[j].dst == z.src
                        implies tmp@.contains(#[trigger] joined(d0[j], z)) by {
                    if j == i {
                        assert(c0.to_set().contains(z));
                        assert(from@.contains(z));
                        let m = choose|m: int| 0 <= m < from@.len() && from@[m] == z;
                        assert(tmp@.contains(joined(x, from@[m])));
                    }
                }
            }
            i = i + 1;
        }
        delta.clear();
        let mut changed = false;
        let mut i: usize = 0;
        while i < tmp.len()
            invariant
                closure.wf(),
                delta.wf(),
                tmp.wf(),
                i <= tmp@.len(),
                forall|x: EdgeRecord| #[trigger] c0.contains(x) ==> closure@.contains(x),
                forall|x: EdgeRecord|
                    #[trigger] closure@.contains(x) ==> c0.contains(x) || delta@.contains(x),
                forall|x: EdgeRecord| #[trigger] delta@.contains(x) ==> closure@.contains(x),
                closure@.to_set().subset_of(closure_of(b)),
                tmp@.to_set().subset_of(closure_of(b)),
                forall|j: int| 0 <= j < i ==> closure@.contains(#[trigger] tmp@[j]),
                closure@.len() >= c0.len(),
                changed <==> closure@.len() > c0.len(),
                !changed ==> closure@ == c0 && delta@.len() == 0,
            decreases tmp@.len() - i,
        {
            let e = tmp.get(i);
            proof {
                assert(tmp@.to_set().contains(e));
            }
            let is_new = closure.insert_edge(e.src, e.dst);
            if is_new {
                delta.insert_edge(e.src, e.dst);
            }
            changed = changed || is_new;
            i = i + 1;
        }
        proof {
            closure.lemma_distinct();
            lemma_size(b, closure@);
            assert forall|x: EdgeRecord, z: EdgeRecord|
                #![trigger closure@.to_set().contains(x), b.contains(z)]
                closure@.to_set().contains(x) && !delta@.to_set().contains(x) && b.contains(z)
                    && x.dst == z.src implies closure@.to_set().contains(joined(x, z)) by {
                assert(c0.contains(x));
                if d0.contains(x) {
                    let j = choose|j: int| 0 <= j < d0.len() && d0[j] == x;
                    assert(tmp@.contains(joined(d0[j], z)));
                    let m = choose|m: int| 0 <= m < tmp@.len() && tmp@[m] == joined(x, z);
                    assert(closure@.contains(tmp@[m]));
                } else {
                    assert(c0.to_set().contains(x));
                    assert(c0.to_set().contains(joined(x, z)));
                }
            }
        }
        if !changed {
            proof {
                lemma_fixpoint(b, closure@.to_set());
            }
            break;
        }
    }
    closure
}

/// Transitive closure by a worklist: each tuple taken from the list is joined
/// with the closure found so far, and each tuple that this adds goes on the list.
pub fn worklist_closure(input: &EdgeRelation) -> (r: EdgeRelation)
    requires
        input.wf(),
    ensures
        r.wf(),
        r@.to_set() == closure_of(input@.to_set()),
{
    let ghost b = input@.to_set();
    proof {
        seq_to_set_is_finite(input@);
        lemma_closure_contains(b);
        lemma_closure_transitive(b);
        lemma_closure_finite(b);
        input.lemma_distinct();
    }
    let mut closure = copy_relation(input);
    let mut work: Vec<EdgeRecord> = Vec::new();
    let mut i: usize = 0;
    while i < input.len()
        invariant
            input.wf(),
            input@.no_duplicates(),
            i <= input@.len(),
            work@ == input@.subrange(0, i as int),
        decreases input@.len() - i,
    {
        work.push(input.get(i));
        i = i + 1;
        assert(work@ =~= input@.subrange(0, i as int));
    }
    assert(work@ =~= input@);
    proof {
        lemma_size(b, closure@);
    }
    loop
        invariant_except_break
            b.finite(),
            b.subset_of(closure_of(b)),
            is_transitive(closure_of(b)),
            closure.wf(),
            b.subset_of(closure@.to_set()),
            closure@.to_set().subset_of(closure_of(b)),
            closure@.len() <= closure_of(b).len(),
            work@.no_duplicates(),
            forall|x: EdgeRecord| #[trigger] work@.contains(x) ==> closure@.contains(x),
            extended_except(closure@.to_set(), work@.to_set(), b),
        ensures
            closure.wf(),
            closure@.to_set() == closure_of(b),
        decreases closure_of(b).len() - closure@.len(), work@.len(),
    {
        let ghost c0 = closure@;
        let ghost w0 = work@;
        match work.pop() {
            None => {
                proof {
                    assert(work@.len() == 0);
                    assert forall|x: EdgeRecord, z: EdgeRecord|
                        closure@.to_set().contains(x) && b.contains(z) && x.dst == z.src
                            implies closure@.to_set().contains(joined(x, z)) by {
                        assert(!work@.to_set().contains(x));
                    }
                    lemma_fixpoint(b, closure@.to_set());
                }
                break;
            },
            Some(x) => {
                let ghost w1 = work@;
                proof {
                    assert(w0 == w1.push(x));
                    assert(w0.contains(x)) by {
                        assert(w0[w0.len() - 1] == x);
                    }
                    assert(!w1.contains(x)) by {
                        if w1.contains(x) {
                            let j = choose|j: int| 0 <= j < w1.len() && w1[j] == x;
                            assert(w0[j] == w0[w0.len() - 1]);
                        }
                    }
                    assert forall|y: EdgeRecord| #[trigger] w1.contains(y) implies w0.contains(y) by {
                        let j = choose|j: int| 0 <= j < w1.len() && w1[j] == y;
                        assert(w0[j] == y);
                    }
                }
                let from = closure.edges_from(x.dst);
                proof {
                    lemma_edges_with_src(c0, x.dst);
                }
                let mut k: usize = 0;
                while k < from.len()
                    invariant
                        is_transitive(closure_of(b)),
                        b.subset_of(closure_of(b)),
                        closure.wf(),
                        c0.contains(x),
                        !w1.contains(x),
                        forall|e: EdgeRecord|
                            #[trigger] from@.contains(e) <==> (c0.contains(e) && e.src == x.dst),
                        k <= from.len(),
                        forall|y: EdgeRecord| #[trigger] c0.contains(y) ==> closure@.contains(y),
                        forall|y: EdgeRecord|
                            #[trigger] closure@.contains(y) ==> c0.contains(y) || work@.contains(y),
                        forall|y: EdgeRecord| #[trigger] work@.contains(y) ==> closure@.contains(y),
                        forall|y: EdgeRecord| #[trigger] w1.contains(y) ==> work@.contains(y),
                        forall|y: EdgeRecord| #[trigger] work@.contains(y) ==> w1.contains(y) || !c0.contains(y),
                        work@.no_duplicates(),
                        c0.to_set().subset_of(closure_of(b)),
                        closure@.to_set().subset_of(closure_of(b)),
                        closure@.len() >= c0.len(),
                        closure@.len() == c0.len() ==> work@ == w1,
                        forall|m: int| 0 <= m < k ==> closure@.contains(#[trigger] joined(x, from@[m])),
                    decreases from.len() - k,
                {
                    let z = from[k];
                    let ghost wk = work@;
                    proof {
                        assert(from@.contains(z));
                        assert(c0.to_set().contains(z));
                        assert(c0.to_set().contains(x));
                        assert(closure_of(b).contains(z));
                        assert(closure_of(b).contains(x));
                        assert(closure_of(b).contains(joined(x, z)));
                    }
                    let is_new = closure.insert_edge(x.src, z.dst);
                    if is_new {
                        work.push(EdgeRecord { src: x.src, dst: z.dst });
                        proof {
                            let e = EdgeRecord { src: x.src, dst: z.dst };
                            assert(!wk.contains(e));
                            assert forall|y: EdgeRecord| #[trigger] work@.contains(y) <==> (wk.contains(y) || y == e) by {
                                if work@.contains(y) && y != e {
                                    let j = choose|j: int| 0 <= j < work@.len() && work@[j] == y;
                                    assert(wk[j] == y);
                                }
                                if wk.contains(y) {
                                    let j = choose|j: int| 0 <= j < wk.len() && wk[j] == y;
                                    assert(work@[j] == y);
                                }
                                if y == e {
                                    assert(work@[wk.len() as int] == y);
                                }
                            }
                            assert forall|a: int, c: int| 0 <= a < work@.len() && 0 <= c < work@.len() && a != c implies work@[a] != work@[c] by {
                                if a < wk.len() && c < wk.len() {
                                    assert(wk[a] != wk[c]);
                                } else if a < wk.len() {
                                    assert(wk.contains(work@[a]));
                                } else {
                                    assert(wk.contains(work@[c]));
                                }
                            }
                        }
                    }
                    k = k + 1;
                }
                proof {
                    closure.lemma_distinct();
                    lemma_size(b, closure@);
                    assert forall|y: EdgeRecord, z: EdgeRecord|
                        #![trigger closure@.to_set().contains(y), b.contains(z)]
                        closure@.to_set().contains(y) && !work@.to_set().contains(y) && b.contains(z)
                            && y.dst == z.src implies closure@.to_set().contains(joined(y, z)) by {
                        assert(c0.contains(y));
                        if y == x {
                            assert(c0.to_set().contains(z));
                            assert(from@.contains(z));
                            let m = choose|m: int| 0 <= m < from@.len() && from@[m] == z;
                            assert(closure@.contains(joined(x, from@[m])));
                        } else {
                            assert(!w1.contains(y));
                            assert(!w0.contains(y));
                            assert(c0.to_set().contains(y));
                            assert(c0.to_set().contains(joined(y, z)));
                        }
                    }
                }
            },
        }
    }
    closure
}

} // verus!
