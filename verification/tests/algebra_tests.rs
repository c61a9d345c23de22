use rustable::index::iter::Difference;
use rustable::index::iter::Intersection;
use rustable::index::iter::SymmetricDifference;
use rustable::index::iter::Union;
use rustable::index::Index;

fn drain_difference(mut it: Difference<i32>) -> Vec<i32> {
    let mut out = Vec::new();
    while let Some(l) = it.next() {
        out.push(l);
    }
    out
}

fn drain_intersection(mut it: Intersection<i32>) -> Vec<i32> {
    let mut out = Vec::new();
    while let Some(l) = it.next() {
        out.push(l);
    }
    out
}

fn drain_symmetric_difference(mut it: SymmetricDifference<i32>) -> Vec<i32> {
    let mut out = Vec::new();
    while let Some(l) = it.next() {
        out.push(l);
    }
    out
}

fn drain_union(mut it: Union<i32>) -> Vec<i32> {
    let mut out = Vec::new();
    while let Some(l) = it.next() {
        out.push(l);
    }
    out
}

#[test]
fn difference_in_left_order() {
    let a = Index::from_vec(vec![1, 2, 3, 4]);
    let b = Index::from_vec(vec![2, 4, 6]);
    assert_eq!(drain_difference(a.difference(&b)), vec![1, 3]);
    assert_eq!(drain_difference(b.difference(&a)), vec![6]);
}

#[test]
fn intersection_in_left_order() {
    let a = Index::from_vec(vec![4, 1, 2, 3]);
    let b = Index::from_vec(vec![2, 4, 6]);
    assert_eq!(drain_intersection(a.intersection(&b)), vec![4, 2]);
}

#[test]
fn symmetric_difference_chains_both_sides() {
    let a = Index::from_vec(vec![1, 2, 3]);
    let b = Index::from_vec(vec![2, 3, 4, 5]);
    assert_eq!(drain_symmetric_difference(a.symmetric_difference(&b)), vec![1, 4, 5]);
}

#[test]
fn union_appends_missing_labels() {
    let a = Index::from_vec(vec![1, 2, 3]);
    let b = Index::from_vec(vec![2, 4]);
    assert_eq!(drain_union(a.union(&b)), vec![1, 2, 3, 4]);
}

#[test]
fn union_with_self_has_same_elements() {
    let a = Index::from_vec(vec![3, 1, 2]);
    assert_eq!(drain_union(a.union(&a)), vec![3, 1, 2]);
}

#[test]
fn difference_with_self_is_empty() {
    let a = Index::from_vec(vec![3, 1, 2]);
    let mut d = a.difference(&a);
    assert_eq!(d.next(), None);
}

#[test]
fn intersection_with_self_has_same_elements() {
    let a = Index::from_vec(vec![3, 1, 2]);
    assert_eq!(drain_intersection(a.intersection(&a)), vec![3, 1, 2]);
}

#[test]
fn set_algebra_backwards() {
    let a = Index::from_vec(vec![1, 2, 3, 4]);
    let b = Index::from_vec(vec![2, 4]);
    let mut d = a.difference(&b);
    assert_eq!(d.next_back(), Some(3));
    assert_eq!(d.next(), Some(1));
    assert_eq!(d.next_back(), None);

    let mut u = a.union(&b);
    assert_eq!(u.next_back(), Some(4));
    assert_eq!(u.next(), Some(1));

    let c = Index::from_vec(vec![3, 5]);
    let mut s = a.symmetric_difference(&c);
    assert_eq!(s.next_back(), Some(5));
    assert_eq!(s.next(), Some(1));

    let mut i = a.intersection(&b);
    assert_eq!(i.next_back(), Some(4));
    assert_eq!(i.next(), Some(2));
    assert_eq!(i.next(), None);
}

#[test]
fn iter_walks_both_directions() {
    let a = Index::from_vec(vec![7, 8, 9]);
    let mut it = a.iter();
    assert_eq!(it.len(), 3);
    assert_eq!(it.next(), Some(7));
    assert_eq!(it.next_back(), Some(9));
    assert_eq!(it.next(), Some(8));
    assert_eq!(it.next(), None);
    assert_eq!(it.next_back(), None);
}

#[test]
fn subset_mirrors_superset() {
    let a = Index::from_vec(vec![1, 2]);
    let b = Index::from_vec(vec![2, 1, 3]);
    assert!(a.is_subset(&b));
    assert!(b.is_superset(&a));
    assert_eq!(a.is_subset(&b), b.is_superset(&a));
    assert_eq!(b.is_subset(&a), a.is_superset(&b));
    assert!(a.is_strict_subset(&b));
    assert!(b.is_strict_superset(&a));
    assert!(!a.is_strict_subset(&a));
    assert!(a.is_subset(&a));
}

#[test]
fn disjoint_is_symmetric() {
    let a = Index::from_vec(vec![1, 2]);
    let b = Index::from_vec(vec![3, 4]);
    let c = Index::from_vec(vec![2, 3]);
    assert!(a.is_disjoint(&b));
    assert_eq!(a.is_disjoint(&b), b.is_disjoint(&a));
    assert!(!a.is_disjoint(&c));
    assert_eq!(a.is_disjoint(&c), c.is_disjoint(&a));
    let empty: Index<i32> = Index::new();
    assert!(empty.is_disjoint(&a));
    assert!(empty.is_disjoint(&empty));
}
