use std::collections::BTreeSet;

use transitive_closure::{
    closure, closure_tuple, closure_with, naive_closure, semi_naive_closure, worklist_closure,
    ClosureStrategy, Database, EdgeRelation, StringInterner,
};

fn database_of(edges: &[(&str, &str)]) -> Database {
    let mut db = Database::new();
    for (s, d) in edges {
        db.insert_edge(s.to_string(), d.to_string());
    }
    db
}

fn pairs_of(db: &Database) -> BTreeSet<(String, String)> {
    let mut out = BTreeSet::new();
    let mut it = db.iter();
    while let Some(rec) = it.next() {
        out.insert((rec.src.to_string(), rec.dst.to_string()));
    }
    out
}

fn set_of(edges: &[(&str, &str)]) -> BTreeSet<(String, String)> {
    edges.iter().map(|(s, d)| (s.to_string(), d.to_string())).collect()
}

fn relation_of(edges: &[(usize, usize)]) -> EdgeRelation {
    let mut r = EdgeRelation::new();
    for (s, d) in edges {
        r.insert_edge(*s, *d);
    }
    r
}

fn tuples_of(r: &EdgeRelation) -> BTreeSet<(usize, usize)> {
    let mut out = BTreeSet::new();
    for i in 0..r.len() {
        let e = r.get(i);
        out.insert((e.src, e.dst));
    }
    out
}

#[test]
fn insert_twice_keeps_len() {
    let mut r = EdgeRelation::new();
    assert!(r.insert_edge(1, 2));
    assert_eq!(r.len(), 1);
    assert!(!r.insert_edge(1, 2));
    assert_eq!(r.len(), 1);
    assert!(r.insert_edge(2, 1));
    assert_eq!(r.len(), 2);
}

#[test]
fn database_insert_twice() {
    let mut db = Database::new();
    assert!(db.insert_edge("a".to_string(), "b".to_string()));
    assert!(!db.insert_edge("a".to_string(), "b".to_string()));
    assert_eq!(db.len(), 1);
    assert!(db.insert_edge("b".to_string(), "a".to_string()));
    assert_eq!(db.len(), 2);
}

#[test]
fn clear_empties_relation() {
    let mut r = relation_of(&[(1, 2), (2, 3)]);
    r.clear();
    assert_eq!(r.len(), 0);
    assert!(r.edges_from(1).is_empty());
    assert!(r.insert_edge(1, 2));
    assert_eq!(r.len(), 1);
}

#[test]
fn edges_from_follows_index() {
    let r = relation_of(&[(1, 2), (3, 4), (1, 5), (1, 2), (2, 1)]);
    let from: Vec<(usize, usize)> = r.edges_from(1).iter().map(|e| (e.src, e.dst)).collect();
    assert_eq!(from, vec![(1, 2), (1, 5)]);
    assert!(r.edges_from(9).is_empty());
}

#[test]
fn chain_closure() {
    let mut db = database_of(&[("1", "2"), ("2", "3"), ("3", "4")]);
    let c = closure(&mut db);
    assert_eq!(c.len(), 6);
    assert_eq!(
        pairs_of(&c),
        set_of(&[("1", "2"), ("2", "3"), ("3", "4"), ("1", "3"), ("2", "4"), ("1", "4")])
    );
    assert_eq!(db.len(), 3);
}

#[test]
fn cycle_closure() {
    let mut db = database_of(&[("1", "2"), ("2", "3"), ("3", "1")]);
    let c = closure_tuple(&mut db);
    assert_eq!(c.len(), 9);
    let mut expected = BTreeSet::new();
    for a in ["1", "2", "3"] {
        for b in ["1", "2", "3"] {
            expected.insert((a.to_string(), b.to_string()));
        }
    }
    assert_eq!(pairs_of(&c), expected);
}

#[test]
fn empty_closure() {
    let mut db = Database::new();
    let c = closure(&mut db);
    assert_eq!(c.len(), 0);
    let r = EdgeRelation::new();
    assert_eq!(naive_closure(&r).len(), 0);
    assert_eq!(semi_naive_closure(&r).len(), 0);
    assert_eq!(worklist_closure(&r).len(), 0);
}

#[test]
fn single_edge_closure() {
    let mut db = database_of(&[("1", "2")]);
    let c = closure(&mut db);
    assert_eq!(c.len(), 1);
    assert_eq!(pairs_of(&c), set_of(&[("1", "2")]));
}

#[test]
fn strategies_agree() {
    let inputs: Vec<Vec<(usize, usize)>> = vec![
        vec![(1, 2), (2, 3), (3, 4), (4, 2), (5, 1)],
        vec![(0, 0)],
        vec![(1, 2), (3, 4)],
        vec![(7, 6), (6, 5), (5, 4), (4, 3), (3, 2), (2, 1), (1, 7)],
        vec![(1, 2), (1, 3), (2, 4), (3, 4), (4, 5), (5, 6), (6, 4)],
    ];
    for edges in inputs {
        let r = relation_of(&edges);
        let a = tuples_of(&naive_closure(&r));
        let b = tuples_of(&semi_naive_closure(&r));
        let c = tuples_of(&worklist_closure(&r));
        assert_eq!(a, b);
        assert_eq!(b, c);
    }
}

#[test]
fn database_strategies_agree() {
    let db = database_of(&[("a", "b"), ("b", "c"), ("c", "a"), ("c", "d")]);
    let n = pairs_of(&closure_with(&db, ClosureStrategy::Naive));
    let s = pairs_of(&closure_with(&db, ClosureStrategy::SemiNaive));
    let w = pairs_of(&closure_with(&db, ClosureStrategy::Worklist));
    assert_eq!(n, s);
    assert_eq!(s, w);
    assert_eq!(n.len(), 12);
}

#[test]
fn closing_twice_changes_nothing() {
    let r = relation_of(&[(1, 2), (2, 3), (3, 1), (3, 4)]);
    let once = semi_naive_closure(&r);
    let twice = semi_naive_closure(&once);
    assert_eq!(tuples_of(&once), tuples_of(&twice));
    assert_eq!(once.len(), twice.len());
}

#[test]
fn more_edges_keep_closure_tuples() {
    let small = worklist_closure(&relation_of(&[(1, 2), (2, 3)]));
    let large = worklist_closure(&relation_of(&[(1, 2), (2, 3), (3, 4), (4, 1)]));
    let small_set = tuples_of(&small);
    let large_set = tuples_of(&large);
    assert!(small_set.is_subset(&large_set));
    assert_eq!(large_set.len(), 16);
}

#[test]
fn closure_is_reachability() {
    let r = relation_of(&[(1, 2), (2, 3), (4, 5)]);
    let c = tuples_of(&naive_closure(&r));
    assert!(c.contains(&(1, 3)));
    assert!(!c.contains(&(1, 4)));
    assert!(!c.contains(&(3, 1)));
    assert!(!c.contains(&(1, 1)));
    assert_eq!(c.len(), 4);
}

#[test]
fn closure_starts_with_input() {
    let r = relation_of(&[(3, 4), (1, 2), (2, 3)]);
    let c = semi_naive_closure(&r);
    let first: Vec<(usize, usize)> = (0..3).map(|i| {
        let e = c.get(i);
        (e.src, e.dst)
    }).collect();
    assert_eq!(first, vec![(3, 4), (1, 2), (2, 3)]);
}

#[test]
fn interner_gives_stable_handles() {
    let mut i = StringInterner::new();
    let a = i.intern("alpha");
    let b = i.intern("beta");
    assert_ne!(a, b);
    assert_eq!(i.intern("alpha"), a);
    assert_eq!(i.len(), 2);
    assert_eq!(i.get_string(a), Some("alpha"));
    assert_eq!(i.get_string(b), Some("beta"));
    assert_eq!(i.get_string(2), None);
}

#[test]
fn database_lookups() {
    let db = database_of(&[("x", "y"), ("y", "z")]);
    assert_eq!(db.get_string(0), Some("x"));
    assert_eq!(db.get_string(2), Some("z"));
    assert_eq!(db.get_string(3), None);
    assert_eq!(db.get_element(0), Some("x"));
    assert_eq!(db.get_element(1), Some("y"));
    assert_eq!(db.get_element(2), None);
}

#[test]
fn iterator_walks_in_order() {
    let db = database_of(&[("x", "y"), ("y", "z"), ("x", "y")]);
    let mut it = db.iter();
    let first = it.next().unwrap();
    assert_eq!((first.src, first.dst), ("x", "y"));
    let second = it.next().unwrap();
    assert_eq!((second.src, second.dst), ("y", "z"));
    assert!(it.next().is_none());
    assert!(it.next().is_none());
}

#[test]
fn long_chain_closure() {
    let mut db = Database::new();
    for i in 1..20 {
        db.insert_edge(i.to_string(), (i + 1).to_string());
    }
    let c = closure(&mut db);
    assert_eq!(c.len(), 19 * 20 / 2);
}

#[test]
fn edge_record_fields() {
    let e = transitive_closure::EdgeRecord::new(3, 7);
    assert_eq!((e.src, e.dst), (3, 7));
    let r = relation_of(&[(3, 7)]);
    assert_eq!(r.get(0), e);
}
