use sets::tree::Tree;
use sets::ord_set::Unit;
use std::sync::Arc;

fn map_of(pairs: Vec<(u64, u64)>) -> Tree<u64, u64> {
    let mut t = Tree::empty();
    for (k, v) in pairs {
        t = t.insert_pair(Arc::new(k), Arc::new(v));
    }
    t
}

#[test]
fn lookup_after_insert_returns_the_value() {
    let t = map_of(vec![(1, 10), (2, 20)]);
    assert_eq!(*t.lookup(&1).unwrap(), 10);
    assert_eq!(*t.lookup(&2).unwrap(), 20);
    assert!(t.lookup(&3).is_none());
}

#[test]
fn insert_replaces_the_value_of_an_existing_key() {
    let t = map_of(vec![(5, 1), (5, 2)]);
    assert_eq!(t.size(), 1);
    assert_eq!(*t.lookup(&5).unwrap(), 2);
}

#[test]
fn union_keeps_the_left_value_on_a_shared_key() {
    let a = map_of(vec![(1, 100), (2, 200)]);
    let b = map_of(vec![(2, 999), (3, 300)]);
    let u = a.union_with(&b);
    assert_eq!(u.size(), 3);
    assert_eq!(*u.lookup(&2).unwrap(), 200);
    assert_eq!(*u.lookup(&3).unwrap(), 300);
}

#[test]
fn intersection_takes_values_from_the_left() {
    let a = map_of(vec![(1, 100), (2, 200)]);
    let b = map_of(vec![(2, 999), (3, 300)]);
    let i = a.intersect_with(&b);
    assert_eq!(i.size(), 1);
    assert_eq!(*i.lookup(&2).unwrap(), 200);
}

#[test]
fn difference_drops_shared_keys() {
    let a = map_of(vec![(1, 100), (2, 200)]);
    let b = map_of(vec![(2, 999), (3, 300)]);
    let d = a.difference_with(&b);
    assert_eq!(d.size(), 1);
    assert!(d.lookup(&1).is_some());
}

#[test]
fn split_pair_returns_the_middle_value() {
    let t = map_of(vec![(1, 10), (2, 20), (3, 30)]);
    let (l, m, r) = t.split_pair(&2);
    assert_eq!(l.size(), 1);
    assert_eq!(*m.unwrap(), 20);
    assert_eq!(r.size(), 1);
    let (_, missing, _) = t.split_pair(&9);
    assert!(missing.is_none());
}

#[test]
fn submap_compares_values_too() {
    let a = map_of(vec![(1, 10)]);
    let b = map_of(vec![(1, 10), (2, 20)]);
    let c = map_of(vec![(1, 11), (2, 20)]);
    assert!(a.is_submap_of(&b));
    assert!(!a.is_submap_of(&c));
    assert!(!b.is_submap_of(&a));
}

#[test]
fn pop_extremes_return_key_and_value() {
    let t = map_of(vec![(2, 20), (1, 10), (3, 30)]);
    let (k, v, rest) = t.pop_min_pair();
    assert_eq!((*k, *v), (1, 10));
    assert_eq!(rest.size(), 2);
    let (k2, v2, rest2) = rest.pop_max_pair();
    assert_eq!((*k2, *v2), (3, 30));
    assert_eq!(rest2.size(), 1);
}

#[test]
fn iterator_walks_entries_in_key_order() {
    let t = map_of(vec![(3, 30), (1, 10), (2, 20)]);
    let mut it = t.iter();
    let mut seen = Vec::new();
    while let Some((k, v)) = it.next() {
        seen.push((*k, *v));
    }
    assert_eq!(seen, vec![(1, 10), (2, 20), (3, 30)]);
}

#[test]
fn validity_oracle_accepts_a_grown_and_shrunk_tree() {
    let mut t: Tree<u64, u64> = Tree::empty();
    for i in 0..200u64 {
        t = t.insert_pair(Arc::new((i * 7) % 97), Arc::new(i));
        assert!(t.valid());
    }
    for i in 0..60u64 {
        t = t.delete(&((i * 5) % 97));
        assert!(t.valid());
    }
    assert!(t.take_n(13).valid());
    assert!(t.drop_n(13).valid());
}

#[test]
fn unit_marker_values_compare_equal() {
    let a: Tree<u64, Unit> = Tree::empty()
        .insert_pair(Arc::new(1), Arc::new(Unit))
        .insert_pair(Arc::new(2), Arc::new(Unit));
    let b: Tree<u64, Unit> = Tree::empty()
        .insert_pair(Arc::new(2), Arc::new(Unit))
        .insert_pair(Arc::new(1), Arc::new(Unit))
        .insert_pair(Arc::new(3), Arc::new(Unit));
    assert!(a.is_submap_of(&b));
    assert!(!b.is_submap_of(&a));
}

#[test]
fn proper_submap_needs_a_missing_binding() {
    let a = map_of(vec![(1, 10)]);
    let b = map_of(vec![(1, 10), (2, 20)]);
    assert!(a.is_proper_submap_of(&b));
    assert!(!b.is_proper_submap_of(&b));
    assert!(!b.is_proper_submap_of(&a));
}
