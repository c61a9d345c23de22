use std::cell::Cell;

use rustable::index::Index;
use rustable::series::Series;

fn sample_series() -> Series<i32, Option<char>> {
    Series::from_iter_checked(vec![
        (0, Some('a')),
        (1, None),
        (2, Some('b')),
        (3, Some('c')),
        (4, None),
        (5, None),
        (6, Some('d')),
        (7, Some('e')),
        (8, None),
        (9, Some('f')),
    ])
    .unwrap()
}

#[test]
fn fill_none() {
    let s = sample_series();

    let filled_s = s.fill_none('x');

    let (index, values) = filled_s.into_index_values();

    assert_eq!(index, Index::from_vec((0..=9).collect()));
    assert_eq!(values, vec!['a', 'x', 'b', 'c', 'x', 'x', 'd', 'e', 'x', 'f']);
}

#[test]
fn fill_none_with() {
    let caps = Cell::new(false);
    let fill_func = || {
        let ch = if caps.get() { 'X' } else { 'x' };
        caps.set(!caps.get());
        ch
    };

    let s = sample_series();

    let filled_s = s.fill_none_with(fill_func);

    let (index, values) = filled_s.into_index_values();

    assert_eq!(index, Index::from_vec((0..=9).collect()));
    assert_eq!(values, vec!['a', 'x', 'b', 'c', 'X', 'x', 'd', 'e', 'X', 'f']);
}

#[test]
fn drop_none() {
    let s = sample_series();

    let dropped_s = s.drop_none();

    let (index, values) = dropped_s.into_index_values();

    assert_eq!(index, Index::from_vec(vec![0, 2, 3, 6, 7, 9]));
    assert_eq!(values, vec!['a', 'b', 'c', 'd', 'e', 'f']);
}

#[test]
fn fill_none_keeps_index() {
    let s: Series<i32, Option<char>> =
        Series::from_iter_checked(vec![(0, Some('a')), (1, None), (2, Some('b'))]).unwrap();
    let filled = s.fill_none('x');
    assert_eq!(filled.index(), &Index::from_vec(vec![0, 1, 2]));
    assert_eq!(filled.values(), &vec!['a', 'x', 'b']);
}

#[test]
fn drop_none_shrinks_both_halves() {
    let s: Series<i32, Option<char>> =
        Series::from_iter_checked(vec![(0, Some('a')), (1, None), (2, Some('b'))]).unwrap();
    let dropped = s.drop_none();
    assert_eq!(dropped.index(), &Index::from_vec(vec![0, 2]));
    assert_eq!(dropped.values(), &vec!['a', 'b']);
}

#[test]
fn from_iter_checked_reports_first_duplicate() {
    let r = Series::from_iter_checked(vec![(0, Some('a')), (1, None), (0, Some('b'))]);
    match r {
        Ok(_) => panic!("duplicate label accepted"),
        Err(e) => assert_eq!(e.label, 0),
    }
}

#[test]
fn from_values_checks_lengths() {
    let index = Index::from_vec(vec![1, 2, 3]);
    let s = Series::from_values(index, vec!['a', 'b', 'c']).unwrap();
    assert_eq!(s.iloc(1), Some(&'b'));

    let index = Index::from_vec(vec![1, 2, 3]);
    match Series::from_values(index, vec!['a', 'b']) {
        Ok(_) => panic!("length mismatch accepted"),
        Err(e) => {
            assert_eq!(e.index.len(), 3);
            assert_eq!(e.values, vec!['a', 'b']);
        },
    }
}

#[test]
fn loc_and_iloc_look_up_values() {
    let s = Series::from_iter_checked(vec![(10, 'a'), (20, 'b'), (30, 'c')]).unwrap();
    assert_eq!(s.loc(&20), Some(&'b'));
    assert_eq!(s.loc(&99), None);
    assert_eq!(s.iloc(0), Some(&'a'));
    assert_eq!(s.iloc(3), None);
    assert!(s.contains_label(&30));
    assert!(!s.contains_label(&31));
}

#[test]
fn loc_mut_and_iloc_mut_rewrite_values() {
    let mut s = Series::from_iter_checked(vec![(10, 'a'), (20, 'b')]).unwrap();
    if let Some(v) = s.loc_mut(&10) {
        *v = 'z';
    }
    if let Some(v) = s.iloc_mut(1) {
        *v = 'y';
    }
    assert_eq!(s.loc_mut(&99), None);
    assert_eq!(s.iloc_mut(2), None);
    assert_eq!(s.values(), &vec!['z', 'y']);
}

#[test]
fn retain_keeps_pairs_where_predicate_true() {
    let mut s = Series::from_iter_checked(vec![(1, 'a'), (2, 'b'), (3, 'c'), (4, 'd')]).unwrap();
    s.retain(|l: &i32, _v: &char| *l % 2 == 0);
    assert_eq!(s.index(), &Index::from_vec(vec![2, 4]));
    assert_eq!(s.values(), &vec!['b', 'd']);
}

#[test]
fn retain_labels_and_values() {
    let mut s = Series::from_iter_checked(vec![(1, 'a'), (2, 'b'), (3, 'c')]).unwrap();
    s.retain_labels(|l: &i32| *l != 2);
    assert_eq!(s.values(), &vec!['a', 'c']);

    let mut s = Series::from_iter_checked(vec![(1, 'a'), (2, 'b'), (3, 'c')]).unwrap();
    s.retain_values(|v: &char| *v != 'a');
    assert_eq!(s.index(), &Index::from_vec(vec![2, 3]));
    assert_eq!(s.values(), &vec!['b', 'c']);
}

#[test]
fn map_transforms_values_only() {
    let s = Series::from_iter_checked(vec![(1, 2), (2, 3), (3, 4)]).unwrap();
    let mapped: Series<i32, i32> = s.map(|v: i32| v * 10);
    assert_eq!(mapped.index(), &Index::from_vec(vec![1, 2, 3]));
    assert_eq!(mapped.values(), &vec![20, 30, 40]);
}

#[test]
fn concat_checked_rejects_overlap() {
    let a = Series::from_iter_checked(vec![(1, 'a'), (2, 'b')]).unwrap();
    let b = Series::from_iter_checked(vec![(2, 'c'), (3, 'd')]).unwrap();
    assert!(a.concat_checked(b).is_err());

    let a = Series::from_iter_checked(vec![(1, 'a'), (2, 'b')]).unwrap();
    let c = Series::from_iter_checked(vec![(3, 'c'), (4, 'd')]).unwrap();
    let joined = a.concat_checked(c).unwrap();
    assert_eq!(joined.index(), &Index::from_vec(vec![1, 2, 3, 4]));
    assert_eq!(joined.values(), &vec!['a', 'b', 'c', 'd']);
}

#[test]
fn lengths_agree_after_every_mutation() {
    let mut s = Series::from_iter_checked(vec![
        (0, Some('a')),
        (1, None),
        (2, Some('b')),
        (3, None),
    ])
    .unwrap();
    assert_eq!(s.index().len(), s.values().len());

    s.retain(|l: &i32, _v: &Option<char>| *l != 2);
    assert_eq!(s.index().len(), s.values().len());

    let mapped = s.map(|v: Option<char>| v);
    assert_eq!(mapped.index().len(), mapped.values().len());

    let dropped = mapped.drop_none();
    assert_eq!(dropped.index().len(), dropped.values().len());

    let mut cleared = dropped;
    cleared.clear();
    assert_eq!(cleared.index().len(), cleared.values().len());
    assert!(cleared.is_empty());
}

#[test]
fn values_mut_rewrites_in_place() {
    let mut s = Series::from_iter_checked(vec![(1, 'a'), (2, 'b')]).unwrap();
    let values = s.values_mut();
    values[0] = 'q';
    assert_eq!(s.values(), &vec!['q', 'b']);
    assert_eq!(s.into_values(), vec!['q', 'b']);
}

#[test]
fn from_iter_keeps_first_position_last_value() {
    let s = Series::from_iter(vec![(1, 'a'), (2, 'b'), (1, 'c'), (3, 'd'), (2, 'e')]);
    assert_eq!(s.index(), &Index::from_vec(vec![1, 2, 3]));
    assert_eq!(s.values(), &vec!['c', 'e', 'd']);
}

#[test]
fn empty_series_behaves() {
    let s: Series<i32, char> = Series::new();
    assert!(s.is_empty());
    let d: Series<i32, char> = Default::default();
    assert!(d.is_empty());
    assert_eq!(d.iloc(0), None);
}

#[test]
fn series_iter_walks_pairs() {
    let s = Series::from_iter_checked(vec![(1, 'a'), (2, 'b'), (3, 'c')]).unwrap();
    let mut it = s.iter();
    assert_eq!(it.len(), 3);
    assert_eq!(it.next(), Some((1, 'a')));
    assert_eq!(it.next_back(), Some((3, 'c')));
    assert_eq!(it.next(), Some((2, 'b')));
    assert_eq!(it.next(), None);
    assert_eq!(it.next_back(), None);
}

#[test]
fn series_into_iter_consumes_pairs() {
    let s = Series::from_iter_checked(vec![(1, 'a'), (2, 'b'), (3, 'c')]).unwrap();
    let mut it = s.into_iter();
    assert_eq!(it.len(), 3);
    assert_eq!(it.next(), Some((1, 'a')));
    assert_eq!(it.next_back(), Some((3, 'c')));
    assert_eq!(it.next(), Some((2, 'b')));
    assert_eq!(it.next(), None);
    assert_eq!(it.next_back(), None);
}
