use sets::ord_set::OrdSet;
use sets::order::Cmp;

fn elems(s: &OrdSet<u64>) -> Vec<u64> {
    s.to_vec().into_iter().map(|a| *a).collect()
}

fn set_of(v: Vec<u64>) -> OrdSet<u64> {
    OrdSet::from_vec(v)
}

#[test]
fn empty_set_has_nothing() {
    let s: OrdSet<u64> = OrdSet::empty();
    assert_eq!(s.size(), 0);
    assert!(!s.contains(&7));
    assert!(s.valid());
    assert!(s.lookup_min().is_none());
    assert!(s.lookup_max().is_none());
}

#[test]
fn singleton_contains_its_element() {
    let s = OrdSet::singleton(5u64);
    assert_eq!(s.size(), 1);
    assert!(s.contains(&5));
    assert!(!s.contains(&4));
    assert!(s.valid());
}

#[test]
fn insert_then_contains() {
    let s: OrdSet<u64> = OrdSet::empty();
    let s = s.insert(10);
    let s = s.insert(20);
    assert!(s.contains(&10));
    assert!(s.contains(&20));
    assert!(!s.contains(&15));
}

#[test]
fn insert_is_persistent() {
    let s0: OrdSet<u64> = OrdSet::empty();
    let s1 = s0.insert(1);
    let s2 = s1.insert(2);
    assert_eq!(s0.size(), 0);
    assert_eq!(s1.size(), 1);
    assert_eq!(s2.size(), 2);
    assert!(!s1.contains(&2));
    assert!(s2.contains(&1));
}

#[test]
fn delete_removes_and_absent_delete_is_noop() {
    let s = set_of(vec![1, 2, 3]);
    let d = s.delete(&2);
    assert!(!d.contains(&2));
    assert_eq!(d.size(), 2);
    let same = s.delete(&9);
    assert!(same.equals(&s));
    assert_eq!(same.size(), 3);
}

#[test]
fn size_law_for_insert_and_delete() {
    let s = set_of(vec![1, 2, 3]);
    assert_eq!(s.insert(4).size(), s.size() + 1);
    assert_eq!(s.insert(2).size(), s.size());
    assert_eq!(s.delete(&2).size(), s.size() - 1);
    assert_eq!(s.delete(&9).size(), s.size());
}

#[test]
fn inserting_3_1_2_iterates_ascending() {
    let s: OrdSet<u64> = OrdSet::empty();
    let s = s.insert(3).insert(1).insert(2);
    assert_eq!(elems(&s), vec![1, 2, 3]);
}

#[test]
fn union_intersection_difference_scenario() {
    let a = set_of(vec![1, 2, 3]);
    let b = set_of(vec![2, 3, 4]);
    assert!(a.union(&b).equals(&set_of(vec![1, 2, 3, 4])));
    assert!(a.intersection(&b).equals(&set_of(vec![2, 3])));
    assert!(a.difference(&b).equals(&set_of(vec![1])));
}

#[test]
fn union_intersection_size_identity() {
    let a = set_of(vec![1, 2, 3, 10, 11]);
    let b = set_of(vec![2, 3, 4, 11, 30]);
    assert_eq!(
        a.union(&b).size() + a.intersection(&b).size(),
        a.size() + b.size()
    );
}

#[test]
fn set_algebra_identities() {
    let a = set_of(vec![1, 5, 9]);
    let b = set_of(vec![5, 7]);
    assert!(a.union(&b).difference(&b).equals(&a.difference(&b)));
    assert!(a.union(&a).equals(&a));
    assert!(a.intersection(&a).equals(&a));
    assert_eq!(a.difference(&a).size(), 0);
}

#[test]
fn subset_scenarios() {
    let small = set_of(vec![1, 2]);
    let big = set_of(vec![1, 2, 3]);
    assert!(small.is_subset(&big));
    assert!(!big.is_proper_subset(&big));
    assert!(small.is_proper_subset(&big));
    assert!(!big.is_subset(&small));
}

#[test]
fn split_partitions_around_the_pivot() {
    let s = set_of(vec![1, 2, 3, 4, 5]);
    let (l, r) = s.split(&3);
    assert_eq!(elems(&l), vec![1, 2]);
    assert_eq!(elems(&r), vec![4, 5]);
    assert_eq!(l.size() + r.size() + 1, s.size());
    let (l2, r2) = s.split(&10);
    assert_eq!(l2.size(), 5);
    assert_eq!(r2.size(), 0);
}

#[test]
fn split_member_reports_presence() {
    let s = set_of(vec![1, 3, 5]);
    let (l, found, r) = s.split_member(&3);
    assert!(found);
    assert_eq!(elems(&l), vec![1]);
    assert_eq!(elems(&r), vec![5]);
    let (_, missing, _) = s.split_member(&2);
    assert!(!missing);
}

#[test]
fn take_and_drop_partition_the_sequence() {
    let s = set_of(vec![5, 1, 4, 2, 3]);
    for n in 0..7usize {
        let front = s.take(n);
        let back = s.drop(n);
        let mut joined = elems(&front);
        joined.extend(elems(&back));
        assert_eq!(joined, vec![1, 2, 3, 4, 5]);
        assert_eq!(front.size(), n.min(5));
        assert!(front.valid() && back.valid());
    }
}

#[test]
fn ordered_drain_matches_iteration() {
    let s = set_of(vec![8, 3, 5, 13, 1, 2, 21, 1]);
    let by_iter = elems(&s);
    let mut by_drain = Vec::new();
    let mut cur = s;
    loop {
        let (popped, rest) = cur.pop_min();
        match popped {
            None => break,
            Some(a) => by_drain.push(*a),
        }
        cur = rest;
    }
    assert_eq!(by_drain, by_iter);
}

#[test]
fn pop_max_takes_the_greatest() {
    let s = set_of(vec![4, 9, 2]);
    let (popped, rest) = s.pop_max();
    assert_eq!(*popped.unwrap(), 9);
    assert_eq!(elems(&rest), vec![2, 4]);
    let empty: OrdSet<u64> = OrdSet::empty();
    let (none, same) = empty.pop_max();
    assert!(none.is_none());
    assert_eq!(same.size(), 0);
}

#[test]
fn delete_min_and_max() {
    let s = set_of(vec![4, 9, 2]);
    assert_eq!(elems(&s.delete_min()), vec![4, 9]);
    assert_eq!(elems(&s.delete_max()), vec![2, 4]);
}

#[test]
fn lookup_extremes() {
    let s = set_of(vec![7, 3, 11]);
    assert_eq!(*s.lookup_min().unwrap(), 3);
    assert_eq!(*s.lookup_max().unwrap(), 11);
}

#[test]
fn round_trip_sorts_and_dedups() {
    let s = set_of(vec![3, 1, 2, 3, 1, 7, 7, 0]);
    assert_eq!(elems(&s), vec![0, 1, 2, 3, 7]);
    assert_eq!(s.size(), 5);
}

#[test]
fn unions_folds_over_all_sets() {
    let parts = vec![
        set_of(vec![1, 2]),
        set_of(vec![2, 3]),
        OrdSet::empty(),
        set_of(vec![10]),
    ];
    let all = OrdSet::unions(&parts);
    assert_eq!(elems(&all), vec![1, 2, 3, 10]);
}

#[test]
fn validity_preserved_by_mixed_workload() {
    let mut s: OrdSet<u64> = OrdSet::empty();
    for i in 0..300u64 {
        s = s.insert((i * 37) % 101);
        assert!(s.valid());
    }
    for i in 0..40u64 {
        s = s.delete(&((i * 11) % 101));
        assert!(s.valid());
    }
    let other = set_of((0..50).map(|i| i * 3).collect());
    assert!(s.union(&other).valid());
    assert!(s.intersection(&other).valid());
    assert!(s.difference(&other).valid());
    let (l, r) = s.split(&50);
    assert!(l.valid() && r.valid());
    assert!(s.take(10).valid());
    assert!(s.drop(10).valid());
    assert!(s.pop_min().1.valid());
    assert!(s.pop_max().1.valid());
}

#[test]
fn iterator_is_single_pass_and_restartable_from_the_set() {
    let s = set_of(vec![2, 1]);
    let mut it = s.iter();
    assert_eq!(*it.next().unwrap(), 1);
    assert_eq!(*it.next().unwrap(), 2);
    assert!(it.next().is_none());
    assert!(it.next().is_none());
    let mut again = s.iter();
    assert_eq!(*again.next().unwrap(), 1);
}

#[test]
fn clone_iter_hands_out_owned_values() {
    let s = set_of(vec![6, 4]);
    let mut it = s.clone_iter();
    let collected = vec![it.next().unwrap(), it.next().unwrap()];
    assert!(it.next().is_none());
    assert_eq!(collected, vec![4u64, 6u64]);
}

#[test]
fn insert_ref_shares_the_element() {
    let s: OrdSet<u64> = OrdSet::empty();
    let a = std::sync::Arc::new(42u64);
    let s = s.insert_ref(a.clone());
    assert!(s.contains(&42));
    assert_eq!(*s.lookup_min().unwrap(), 42);
}

#[test]
fn clone_shares_the_whole_tree() {
    let s = set_of(vec![1, 2, 3]);
    let c = s.clone();
    assert!(c.equals(&s));
    let bigger = c.insert(4);
    assert!(!bigger.equals(&s));
    assert_eq!(s.size(), 3);
}

#[test]
fn lexicographic_comparison_of_sets() {
    let a = set_of(vec![1, 2, 3]);
    let b = set_of(vec![1, 2, 4]);
    let c = set_of(vec![1, 2]);
    assert!(matches!(a.cmp_lex(&b), Cmp::Lt));
    assert!(matches!(b.cmp_lex(&a), Cmp::Gt));
    assert!(matches!(c.cmp_lex(&a), Cmp::Lt));
    assert!(matches!(a.cmp_lex(&a), Cmp::Eq));
    let e: OrdSet<u64> = OrdSet::empty();
    assert!(matches!(e.cmp_lex(&a), Cmp::Lt));
    assert!(matches!(e.cmp_lex(&e), Cmp::Eq));
}
