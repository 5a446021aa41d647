use vstd::prelude::*;

use crate::closure::{naive_closure, semi_naive_closure, worklist_closure};
use crate::interner::{interned, StringInterner};
use crate::reach::{closure_of, lemma_closure_endpoints};
use crate::relation::{EdgeRecord, EdgeRelation};

verus! {

/// How a closure is computed; every strategy gives the same tuples.
#[derive(Clone, Copy, Debug, PartialEq, Eq, Structural)]
pub enum ClosureStrategy {
    Naive,
    SemiNaive,
    Worklist,
}

/// An edge relation over string labels, stored as interned handles.
pub struct Database {
    interner: StringInterner,
    edges: EdgeRelation,
}

/// The labels of each tuple of `tuples`, resolved through `names`.
pub open spec fn labelled(names: Seq<Seq<char>>, tuples: Seq<EdgeRecord>) -> Seq<(Seq<char>, Seq<char>)> {
    tuples.map_values(|e: EdgeRecord| (names[e.src as int], names[e.dst as int]))
}

/// Every handle in `tuples` was given out by `names`.
pub open spec fn handles_in(names: Seq<Seq<char>>, tuples: Seq<EdgeRecord>) -> bool {
    forall|e: EdgeRecord| #[trigger] tuples.contains(e) ==> e.src < names.len() && e.dst < names.len()
}

proof fn lemma_labelled_contains(names: Seq<Seq<char>>, tuples: Seq<EdgeRecord>, s: usize, d: usize)
    requires
        names.no_duplicates(),
        handles_in(names, tuples),
        s < names.len(),
        d < names.len(),
    ensures
        labelled(names, tuples).contains((names[s as int], names[d as int])) <==> tuples.contains(
            EdgeRecord { src: s, dst: d },
        ),
{
    let l = labelled(names, tuples);
    let e = EdgeRecord { src: s, dst: d };
    if l.contains((names[s as int], names[d as int])) {
        let j = choose|j: int| 0 <= j < l.len() && l[j] == (names[s as int], names[d as int]);
        let f = tuples[j];
        assert(tuples.contains(f));
        assert(names[f.src as int] == names[s as int]);
        assert(names[f.dst as int] == names[d as int]);
        assert(f == e);
    }
    if tuples.contains(e) {
        let j = choose|j: int| 0 <= j < tuples.len() && tuples[j] == e;
        assert(l[j] == (names[s as int], names[d as int]));
    }
}

impl Database {
    /// The label strings, by handle.
    pub closed spec fn names(&self) -> Seq<Seq<char>> {
        self.interner@
    }

    /// The tuples of handles, in insertion order.
    pub closed spec fn tuples(&self) -> Seq<EdgeRecord> {
        self.edges@
    }

    /// The tuples with their labels resolved.
    pub open spec fn pairs(&self) -> Seq<(Seq<char>, Seq<char>)> {
        labelled(self.names(), self.tuples())
    }

    pub closed spec fn wf(&self) -> bool {
        &&& self.interner.wf()
        &&& self.edges.wf()
        &&& handles_in(self.interner@, self.edges@)
    }

    /// Distinct handles name distinct strings, and the tuples are distinct.
    pub proof fn lemma_wf(&self)
        requires
            self.wf(),
        ensures
            self.names().no_duplicates(),
            self.tuples().no_duplicates(),
            handles_in(self.names(), self.tuples()),
    {
        self.edges.lemma_distinct();
        self.interner.lemma_distinct();
    }

    pub fn new() -> (r: Database)
        ensures
            r.wf(),
            r.names() == Seq::<Seq<char>>::empty(),
            r.tuples() == Seq::<EdgeRecord>::empty(),
    {
        Database { interner: StringInterner::new(), edges: EdgeRelation::new() }
    }

    /// A database with the labels of `self` and the tuples of `rel`.
    fn from_relation(&self, rel: EdgeRelation) -> (r: Database)
        requires
            self.wf(),
            rel.wf(),
            handles_in(self.names(), rel@),
        ensures
            r.wf(),
            r.names() == self.names(),
            r.tuples() == rel@,
    {
        Database { interner: self.interner.copy(), edges: rel }
    }

    /// Inserts the tuple (src, dst), interning both labels; returns whether
    /// the tuple was new.
    pub fn insert_edge(&mut self, src: String, dst: String) -> (r: bool)
        requires
            old(self).wf(),
            old(self).names().len() + 2 <= usize::MAX,
        ensures
            final(self).wf(),
            final(self).names() == interned(interned(old(self).names(), src@), dst@),
            r == !old(self).pairs().contains((src@, dst@)),
            final(self).pairs() == if r {
                old(self).pairs().push((src@, dst@))
            } else {
                old(self).pairs()
            },
    {
        let ghost n0 = self.interner@;
        let ghost t0 = self.edges@;
        let s = self.interner.intern(src.as_str());
        let d = self.interner.intern(dst.as_str());
        let ghost n = self.interner@;
        proof {
            self.edges.lemma_distinct();
            self.interner.lemma_distinct();
            assert(n[s as int] == src@);
            assert forall|e: EdgeRecord| #[trigger] t0.contains(e) implies e.src < n.len() && e.dst
                < n.len() by {}
            assert(forall|i: int| 0 <= i < n0.len() ==> n[i] == n0[i]);
            assert forall|i: int| 0 <= i < t0.len() implies #[trigger] labelled(n, t0)[i] == labelled(
                n0,
                t0,
            )[i] by {
                assert(t0.contains(t0[i]));
            }
            assert(labelled(n, t0) =~= labelled(n0, t0));
            lemma_labelled_contains(n, t0, s, d);
        }
        let r = self.edges.insert_edge(s, d);
        proof {
            let t = self.edges@;
            assert(handles_in(n, t));
            if r {
                assert(t == t0.push(EdgeRecord { src: s, dst: d }));
                assert(labelled(n, t) =~= labelled(n, t0).push((src@, dst@)));
            }
        }
        r
    }

    /// The label of a handle, if the handle was given out.
    pub fn get_string(&self, index: usize) -> (r: Option<&str>)
        ensures
            r.is_some() <==> index < self.names().len(),
            r.is_some() ==> r.unwrap()@ == self.names()[index as int],
    {
        self.interner.get_string(index)
    }

    /// The source label of the tuple at position `index`, if there is one.
    pub fn get_element(&self, index: usize) -> (r: Option<&str>)
        requires
            self.wf(),
        ensures
            r.is_some() <==> index < self.pairs().len(),
            r.is_some() ==> r.unwrap()@ == self.pairs()[index as int].0,
    {
        if index < self.edges.len() {
            let e = self.edges.get(index);
            proof {
                assert(self.edges@.contains(e));
            }
            self.get_string(e.src)
        } else {
            None
        }
    }

    /// The number of tuples.
    pub fn len(&self) -> (r: usize)
        ensures
            r == self.pairs().len(),
    {
        self.edges.len()
    }

    /// The number of distinct labels interned so far.
    pub fn label_count(&self) -> (r: usize)
        ensures
            r == self.names().len(),
    {
        self.interner.len()
    }

    /// A cursor over the tuples, from the first.
    pub fn iter<'a>(&'a self) -> (r: DatabaseIterator<'a>)
        ensures
            r.database() == *self,
            r.position() == 0,
    {
        DatabaseIterator { db: self, index: 0 }
    }
}

/// One tuple with its labels resolved.
pub struct RecordView<'a> {
    pub src: &'a str,
    pub dst: &'a str,
}

/// A cursor over the tuples of a database, in insertion order.
pub struct DatabaseIterator<'a> {
    db: &'a Database,
    index: usize,
}

impl<'a> DatabaseIterator<'a> {
    pub closed spec fn database(&self) -> Database {
        *self.db
    }

    pub closed spec fn position(&self) -> usize {
        self.index
    }

    /// The tuple at the cursor, with the cursor moved past it; `None` at the end.
    pub fn next(&mut self) -> (r: Option<RecordView<'a>>)
        requires
            old(self).database().wf(),
        ensures
            final(self).database() == old(self).database(),
            old(self).position() < old(self).database().pairs().len() ==> {
                &&& r.is_some()
                &&& final(self).position() == old(self).position() + 1
                &&& r.unwrap().src@ == old(self).database().pairs()[old(self).position() as int].0
                &&& r.unwrap().dst@ == old(self).database().pairs()[old(self).position() as int].1
            },
            old(self).position() >= old(self).database().pairs().len() ==> {
                &&& r.is_none()
                &&& final(self).position() == old(self).position()
            },
    {
        if self.index < self.db.edges.len() {
            let e = self.db.edges.get(self.index);
            proof {
                assert(self.db.edges@.contains(e));
            }
            self.index = self.index + 1;
            let src = self.db.get_string(e.src);
            let dst = self.db.get_string(e.dst);
            match (src, dst) {
                (Some(s), Some(d)) => Some(RecordView { src: s, dst: d }),
                _ => None,
            }
        } else {
            None
        }
    }
}

/// The transitive closure of `db`'s tuples, computed by `strategy`, over the
/// same labels.
pub fn closure_with(db: &Database, strategy: ClosureStrategy) -> (r: Database)
    requires
        db.wf(),
    ensures
        r.wf(),
        r.names() == db.names(),
        r.tuples().to_set() == closure_of(db.tuples().to_set()),
{
    let rel = match strategy {
        ClosureStrategy::Naive => naive_closure(&db.edges),
        ClosureStrategy::SemiNaive => semi_naive_closure(&db.edges),
        ClosureStrategy::Worklist => worklist_closure(&db.edges),
    };
    proof {
        let b = db.edges@.to_set();
        assert forall|e: EdgeRecord| #[trigger] rel@.contains(e) implies e.src < db.names().len()
            && e.dst < db.names().len() by {
            assert(rel@.to_set().contains(e));
            lemma_closure_endpoints(b, e);
            let x = choose|x: EdgeRecord| #[trigger] b.contains(x) && x.src == e.src;
            let y = choose|y: EdgeRecord| #[trigger] b.contains(y) && y.dst == e.dst;
            assert(db.edges@.contains(x));
            assert(db.edges@.contains(y));
        }
    }
    db.from_relation(rel)
}

/// The transitive closure of `db`, by semi-naive iteration; `db` is left as it was.
pub fn closure(db: &mut Database) -> (r: Database)
    requires
        old(db).wf(),
    ensures
        *final(db) == *old(db),
        r.wf(),
        r.names() == old(db).names(),
        r.tuples().to_set() == closure_of(old(db).tuples().to_set()),
{
    closure_with(db, ClosureStrategy::SemiNaive)
}

/// The transitive closure of `db`, by a worklist; `db` is left as it was.
pub fn closure_tuple(db: &mut Database) -> (r: Database)
    requires
        old(db).wf(),
    ensures
        *final(db) == *old(db),
        r.wf(),
        r.names() == old(db).names(),
        r.tuples().to_set() == closure_of(old(db).tuples().to_set()),
{
    closure_with(db, ClosureStrategy::Worklist)
}

} // verus!
