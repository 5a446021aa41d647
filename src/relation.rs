use std::collections::HashMap;
use vstd::prelude::*;

verus! {

broadcast use vstd::std_specs::hash::group_hash_axioms;

/// One tuple of the edge relation: an ordered pair of label handles.
#[derive(Clone, Copy, Debug, PartialEq, Eq, Structural)]
pub struct EdgeRecord {
    pub src: usize,
    pub dst: usize,
}

impl EdgeRecord {
    pub fn new(src: usize, dst: usize) -> (r: EdgeRecord)
        ensures
            r == (EdgeRecord { src, dst }),
    {
        EdgeRecord { src, dst }
    }
}

/// The positions in `s` of the tuples whose source is `l`, in increasing order.
pub open spec fn positions(s: Seq<EdgeRecord>, l: usize) -> Seq<usize>
    decreases s.len(),
{
    if s.len() == 0 {
        Seq::empty()
    } else {
        let p = positions(s.drop_last(), l);
        if s.last().src == l {
            p.push((s.len() - 1) as usize)
        } else {
            p
        }
    }
}

/// The tuples of `s` whose source is `l`, in the order of `s`.
pub open spec fn edges_with_src(s: Seq<EdgeRecord>, l: usize) -> Seq<EdgeRecord> {
    s.filter(|e: EdgeRecord| e.src == l)
}

/// `s` after an insertion of `e`: unchanged when `e` is already there, else `e` appended.
pub open spec fn inserted(s: Seq<EdgeRecord>, e: EdgeRecord) -> Seq<EdgeRecord> {
    if s.contains(e) {
        s
    } else {
        s.push(e)
    }
}

proof fn lemma_positions(s: Seq<EdgeRecord>, l: usize)
    requires
        s.len() <= usize::MAX,
    ensures
        forall|k: int|
            0 <= k < positions(s, l).len() ==> {
                let i = #[trigger] positions(s, l)[k];
                &&& 0 <= i < s.len()
                &&& s[i as int].src == l
            },
        forall|i: int|
            0 <= i < s.len() && #[trigger] s[i].src == l ==> positions(s, l).contains(i as usize),
        positions(s, l).map_values(|i: usize| s[i as int]) =~= edges_with_src(s, l),
    decreases s.len(),
{
    reveal_with_fuel(Seq::filter, 1);
    if s.len() > 0 {
        let t = s.drop_last();
        lemma_positions(t, l);
        let p = positions(t, l);
        assert(p.map_values(|i: usize| s[i as int]) =~= p.map_values(|i: usize| t[i as int]));
        assert forall|i: int| 0 <= i < s.len() && #[trigger] s[i].src == l implies positions(
            s,
            l,
        ).contains(i as usize) by {
            if i < s.len() - 1 {
                assert(t[i].src == l);
                let k = choose|k: int| 0 <= k < p.len() && p[k] == i as usize;
                if s.last().src == l {
                    assert(positions(s, l)[k] == i as usize);
                }
            } else {
                assert(positions(s, l).last() == i as usize);
            }
        }
    }
}

/// Inserting a tuple a second time changes nothing: after the first insertion
/// the tuple is present, so the second reports no addition and keeps the length.
pub proof fn lemma_insert_twice(s: Seq<EdgeRecord>, e: EdgeRecord)
    ensures
        inserted(s, e).contains(e),
        inserted(inserted(s, e), e) == inserted(s, e),
        inserted(inserted(s, e), e).len() == inserted(s, e).len(),
{
    if !s.contains(e) {
        assert(s.push(e)[s.len() as int] == e);
    }
}

/// A tuple is among those with source `l` exactly when it is in `s` and leaves `l`.
pub proof fn lemma_edges_with_src(s: Seq<EdgeRecord>, l: usize)
    ensures
        forall|e: EdgeRecord|
            #[trigger] edges_with_src(s, l).contains(e) <==> (s.contains(e) && e.src == l),
{
    let pred = |e: EdgeRecord| e.src == l;
    assert forall|e: EdgeRecord| #[trigger] edges_with_src(s, l).contains(e) <==> (s.contains(e)
        && e.src == l) by {
        if edges_with_src(s, l).contains(e) {
            s.lemma_filter_contains_rev(pred, e);
            let k = choose|k: int| 0 <= k < s.filter(pred).len() && s.filter(pred)[k] == e;
            s.lemma_filter_pred(pred, k);
        }
        if s.contains(e) && e.src == l {
            let i = choose|i: int| 0 <= i < s.len() && s[i] == e;
            s.lemma_filter_contains(pred, i);
        }
    }
}

/// A relation over label handles: a sequence of distinct tuples, with an index
/// from each source label to the positions of its tuples.
pub struct EdgeRelation {
    tuples: Vec<EdgeRecord>,
    src_index: HashMap<usize, Vec<usize>>,
}

impl View for EdgeRelation {
    type V = Seq<EdgeRecord>;

    closed spec fn view(&self) -> Seq<EdgeRecord> {
        self.tuples@
    }
}

impl EdgeRelation {
    /// What the index holds for `l`: an absent entry stands for no positions.
    closed spec fn index_of(&self, l: usize) -> Seq<usize> {
        if self.src_index@.contains_key(l) {
            self.src_index@[l]@
        } else {
            Seq::empty()
        }
    }

    /// The tuples are distinct, and the index of each label holds exactly the
    /// positions of the tuples with that source.
    pub closed spec fn wf(&self) -> bool {
        &&& self.tuples@.no_duplicates()
        &&& forall|l: usize| #[trigger] self.index_of(l) == positions(self.tuples@, l)
    }

    /// A well-formed relation holds no tuple twice.
    pub proof fn lemma_distinct(&self)
        requires
            self.wf(),
        ensures
            self@.no_duplicates(),
    {
    }

    pub fn new() -> (r: EdgeRelation)
        ensures
            r.wf(),
            r@ == Seq::<EdgeRecord>::empty(),
    {
        let r = EdgeRelation { tuples: Vec::new(), src_index: HashMap::new() };
        proof {
            assert forall|l: usize| #[trigger] r.index_of(l) == positions(r.tuples@, l) by {}
        }
        r
    }

    pub fn clear(&mut self)
        ensures
            final(self).wf(),
            final(self)@ == Seq::<EdgeRecord>::empty(),
    {
        self.tuples.clear();
        self.src_index.clear();
        proof {
            assert forall|l: usize| #[trigger] self.index_of(l) == positions(self.tuples@, l) by {}
        }
    }

    pub fn len(&self) -> (r: usize)
        ensures
            r == self@.len(),
    {
        self.tuples.len()
    }

    /// The tuple at position `i`.
    pub fn get(&self, i: usize) -> (r: EdgeRecord)
        requires
            i < self@.len(),
        ensures
            r == self@[i as int],
    {
        self.tuples[i]
    }

    /// Inserts the tuple (src, dst) unless it is already present; returns
    /// whether it was added.
    pub fn insert_edge(&mut self, src: usize, dst: usize) -> (r: bool)
        requires
            old(self).wf(),
        ensures
            final(self).wf(),
            r == !old(self)@.contains(EdgeRecord { src, dst }),
            final(self)@ == inserted(old(self)@, EdgeRecord { src, dst }),
            forall|x: EdgeRecord|
                #[trigger] final(self)@.contains(x) <==> (old(self)@.contains(x) || x == EdgeRecord {
                    src,
                    dst,
                }),
    {
        let e = EdgeRecord { src, dst };
        let ghost s = self.tuples@;
        let n = self.tuples.len();
        proof {
            lemma_positions(s, src);
            assert(self.index_of(src) == positions(s, src));
        }
        match self.src_index.get(&src) {
            Some(entries) => {
                let mut k: usize = 0;
                while k < entries.len()
                    invariant
                        self.wf(),
                        self.tuples@ == s,
                        entries@ == positions(s, src),
                        k <= entries.len(),
                        forall|j: int|
                            0 <= j < entries@.len() ==> #[trigger] entries@[j] < s.len() && s[entries@[j] as int].src == src,
                        forall|j: int| 0 <= j < k ==> s[#[trigger] entries@[j] as int].dst != dst,
                    decreases entries.len() - k,
                {
                    let i = entries[k];
                    assert(positions(s, src)[k as int] == i);
                    let found = self.tuples[i];
                    if found.dst == dst {
                        proof {
                            assert(entries@[k as int] == i);
                            assert(s[i as int].src == src);
                            assert(found == s[i as int]);
                            assert(found == (EdgeRecord { src, dst }));
                        }
                        return false;
                    }
                    k = k + 1;
                }
            },
            None => {},
        }
        proof {
            if s.contains(e) {
                let i = choose|i: int| 0 <= i < s.len() && s[i] == e;
                assert(s[i].src == src);
                let j = choose|j: int| 0 <= j < positions(s, src).len() && positions(s, src)[j] == i as usize;
                assert(self.index_of(src)[j] == i as usize);
            }
        }
        let mut entries = match self.src_index.remove(&src) {
            Some(v) => v,
            None => Vec::new(),
        };
        entries.push(n);
        self.tuples.push(e);
        self.src_index.insert(src, entries);
        proof {
            let t = self.tuples@;
            assert(t.drop_last() =~= s);
            assert forall|l: usize| #[trigger] self.index_of(l) == positions(t, l) by {
                assert(old(self).index_of(l) == positions(s, l));
            }
            assert forall|x: EdgeRecord| #[trigger] t.contains(x) <==> (s.contains(x) || x == e) by {
                if t.contains(x) && x != e {
                    let j = choose|j: int| 0 <= j < t.len() && t[j] == x;
                    assert(s[j] == x);
                }
                if s.contains(x) {
                    let j = choose|j: int| 0 <= j < s.len() && s[j] == x;
                    assert(t[j] == x);
                }
                if x == e {
                    assert(t[s.len() as int] == x);
                }
            }
            assert forall|a: int, b: int| 0 <= a < t.len() && 0 <= b < t.len() && a != b implies t[a]
                != t[b] by {
                if a < s.len() && b < s.len() {
                } else if a < s.len() {
                    assert(s.contains(t[a]));
                } else {
                    assert(s.contains(t[b]));
                }
            }
        }
        true
    }

    /// The tuples whose source is `src`, in insertion order, found through the index.
    pub fn edges_from(&self, src: usize) -> (r: Vec<EdgeRecord>)
        requires
            self.wf(),
        ensures
            r@ == edges_with_src(self@, src),
    {
        let ghost s = self.tuples@;
        let _n = self.tuples.len();
        proof {
            lemma_positions(s, src);
            assert(self.index_of(src) == positions(s, src));
        }
        let mut r: Vec<EdgeRecord> = Vec::new();
        match self.src_index.get(&src) {
            Some(entries) => {
                let mut k: usize = 0;
                while k < entries.len()
                    invariant
                        self.wf(),
                        self.tuples@ == s,
                        entries@ == positions(s, src),
                        k <= entries.len(),
                        forall|j: int|
                            0 <= j < entries@.len() ==> #[trigger] entries@[j] < s.len() && s[entries@[j] as int].src == src,
                        r@ =~= entries@.subrange(0, k as int).map_values(|i: usize| s[i as int]),
                    decreases entries.len() - k,
                {
                    let i = entries[k];
                    assert(positions(s, src)[k as int] == i);
                    r.push(self.tuples[i]);
                    k = k + 1;
                    assert(r@ =~= entries@.subrange(0, k as int).map_values(|i: usize| s[i as int]));
                }
                assert(entries@.subrange(0, k as int) =~= entries@);
            },
            None => {},
        }
        r
    }
}

} // verus!
