use rustable::index::Bound;
use rustable::index::Index;
use rustable::types::DType;

fn ideographs() -> Index<char> {
    Index::from_vec("ideographs".chars().collect())
}

#[test]
fn iloc() {
    let i = ideographs();

    assert_eq!(i.iloc(0), Some(&'i'));
    assert_eq!(i.iloc(1), Some(&'d'));
    assert_eq!(i.iloc(2), Some(&'e'));
    assert_eq!(i.iloc(3), Some(&'o'));
    assert_eq!(i.iloc(4), Some(&'g'));
    assert_eq!(i.iloc(5), Some(&'r'));
    assert_eq!(i.iloc(6), Some(&'a'));
    assert_eq!(i.iloc(7), Some(&'p'));
    assert_eq!(i.iloc(8), Some(&'h'));
    assert_eq!(i.iloc(9), Some(&'s'));
    assert_eq!(i.iloc(42), None);
}

#[test]
fn iloc_multi() {
    let i = ideographs();

    assert_eq!(i.iloc_multi(&vec![]), Some(vec![]));
    assert_eq!(i.iloc_multi(&vec![2]), Some(vec!['e']));
    assert_eq!(i.iloc_multi(&vec![4, 3, 3, 9, 2]), Some(vec!['g', 'o', 'o', 's', 'e']));
    assert_eq!(
        i.iloc_multi(&vec![9, 7, 8, 2, 5, 2]),
        Some(vec!['s', 'p', 'h', 'e', 'r', 'e'])
    );
    assert_eq!(i.iloc_multi(&vec![42]), None);
    assert_eq!(i.iloc_multi(&vec![42, 1, 2, 3, 4]), None);
    assert_eq!(i.iloc_multi(&vec![0, 1, 2, 3, 42]), None);
}

#[test]
fn iloc_range() {
    let i = ideographs();

    // Normal usage.
    assert_eq!(
        i.iloc_range(Bound::Included(2), Bound::Excluded(7)),
        Some(vec![2, 3, 4, 5, 6])
    );
    assert_eq!(
        i.iloc_range(Bound::Included(2), Bound::Included(7)),
        Some(vec![2, 3, 4, 5, 6, 7])
    );
    assert_eq!(
        i.iloc_range(Bound::Included(2), Bound::Unbounded),
        Some(vec![2, 3, 4, 5, 6, 7, 8, 9])
    );
    assert_eq!(
        i.iloc_range(Bound::Unbounded, Bound::Excluded(7)),
        Some(vec![0, 1, 2, 3, 4, 5, 6])
    );
    assert_eq!(
        i.iloc_range(Bound::Unbounded, Bound::Included(7)),
        Some(vec![0, 1, 2, 3, 4, 5, 6, 7])
    );
    assert_eq!(
        i.iloc_range(Bound::Unbounded, Bound::Unbounded),
        Some(vec![0, 1, 2, 3, 4, 5, 6, 7, 8, 9])
    );
    assert_eq!(i.iloc_range(Bound::Included(4), Bound::Excluded(5)), Some(vec![4]));
    assert_eq!(i.iloc_range(Bound::Included(4), Bound::Included(5)), Some(vec![4, 5]));
    assert_eq!(i.iloc_range(Bound::Included(4), Bound::Excluded(4)), Some(vec![]));
    assert_eq!(i.iloc_range(Bound::Included(4), Bound::Included(4)), Some(vec![4]));
    assert_eq!(i.iloc_range(Bound::Included(6), Bound::Excluded(3)), Some(vec![]));
    assert_eq!(i.iloc_range(Bound::Included(6), Bound::Included(3)), Some(vec![]));
    assert_eq!(i.iloc_range(Bound::Included(5), Bound::Excluded(4)), Some(vec![]));
    assert_eq!(i.iloc_range(Bound::Included(5), Bound::Included(4)), Some(vec![]));
    assert_eq!(i.iloc_range(Bound::Included(0), Bound::Excluded(42)), None);
    assert_eq!(i.iloc_range(Bound::Included(0), Bound::Included(42)), None);
    assert_eq!(i.iloc_range(Bound::Included(42), Bound::Excluded(9)), None);
    assert_eq!(i.iloc_range(Bound::Included(42), Bound::Included(9)), None);
    assert_eq!(i.iloc_range(Bound::Unbounded, Bound::Excluded(42)), None);
    assert_eq!(i.iloc_range(Bound::Unbounded, Bound::Included(42)), None);
    assert_eq!(i.iloc_range(Bound::Included(42), Bound::Unbounded), None);

    // Expected invariants.
    assert_eq!(
        i.iloc_range(Bound::Unbounded, Bound::Unbounded),
        i.iloc_range(Bound::Included(0), Bound::Excluded(i.len()))
    );
    assert_eq!(
        i.iloc_range(Bound::Unbounded, Bound::Unbounded),
        i.iloc_range(Bound::Included(0), Bound::Included(9))
    );
    assert_eq!(
        i.iloc_range(Bound::Unbounded, Bound::Excluded(7)),
        i.iloc_range(Bound::Included(0), Bound::Excluded(7))
    );
    assert_eq!(
        i.iloc_range(Bound::Unbounded, Bound::Included(7)),
        i.iloc_range(Bound::Included(0), Bound::Included(7))
    );
    assert_eq!(
        i.iloc_range(Bound::Included(2), Bound::Unbounded),
        i.iloc_range(Bound::Included(2), Bound::Included(9))
    );

    // Edge cases.
    let empty: Index<char> = Index::new();
    assert_eq!(empty.iloc_range(Bound::Included(0), Bound::Excluded(0)), Some(vec![]));
    assert_eq!(empty.iloc_range(Bound::Included(0), Bound::Included(0)), None);
    assert_eq!(empty.iloc_range(Bound::Included(0), Bound::Unbounded), Some(vec![]));
    assert_eq!(empty.iloc_range(Bound::Unbounded, Bound::Excluded(0)), Some(vec![]));
    assert_eq!(empty.iloc_range(Bound::Unbounded, Bound::Included(0)), None);
    assert_eq!(empty.iloc_range(Bound::Unbounded, Bound::Unbounded), Some(vec![]));

    let single = Index::from_vec(vec![10]);
    assert_eq!(single.iloc_range(Bound::Included(0), Bound::Excluded(1)), Some(vec![0]));
    assert_eq!(single.iloc_range(Bound::Included(0), Bound::Included(0)), Some(vec![0]));
    assert_eq!(single.iloc_range(Bound::Included(0), Bound::Included(1)), None);
    assert_eq!(single.iloc_range(Bound::Included(1), Bound::Excluded(1)), Some(vec![]));
    assert_eq!(single.iloc_range(Bound::Included(1), Bound::Included(1)), None);
    assert_eq!(single.iloc_range(Bound::Included(2), Bound::Excluded(2)), None);
    assert_eq!(single.iloc_range(Bound::Included(2), Bound::Excluded(1)), None);
    assert_eq!(single.iloc_range(Bound::Included(2), Bound::Included(2)), None);
    assert_eq!(single.iloc_range(Bound::Included(2), Bound::Included(1)), None);
    assert_eq!(single.iloc_range(Bound::Unbounded, Bound::Excluded(2)), None);
    assert_eq!(single.iloc_range(Bound::Unbounded, Bound::Included(2)), None);
    assert_eq!(single.iloc_range(Bound::Included(2), Bound::Unbounded), None);
}

#[test]
fn loc() {
    let i = ideographs();

    assert_eq!(i.loc(&'i'), Some(0));
    assert_eq!(i.loc(&'d'), Some(1));
    assert_eq!(i.loc(&'e'), Some(2));
    assert_eq!(i.loc(&'o'), Some(3));
    assert_eq!(i.loc(&'g'), Some(4));
    assert_eq!(i.loc(&'r'), Some(5));
    assert_eq!(i.loc(&'a'), Some(6));
    assert_eq!(i.loc(&'p'), Some(7));
    assert_eq!(i.loc(&'h'), Some(8));
    assert_eq!(i.loc(&'s'), Some(9));
    assert_eq!(i.loc(&'x'), None);
}

#[test]
fn loc_multi() {
    let i = ideographs();

    assert_eq!(i.loc_multi(&vec![]), Some(vec![]));
    assert_eq!(i.loc_multi(&vec!['e']), Some(vec![2]));
    assert_eq!(i.loc_multi(&vec!['g', 'o', 'o', 's', 'e']), Some(vec![4, 3, 3, 9, 2]));
    assert_eq!(
        i.loc_multi(&vec!['s', 'p', 'h', 'e', 'r', 'e']),
        Some(vec![9, 7, 8, 2, 5, 2])
    );
    assert_eq!(i.loc_multi(&vec!['x']), None);
    assert_eq!(i.loc_multi(&vec!['x', 'd', 'e', 'o', 'g']), None);
    assert_eq!(i.loc_multi(&vec!['i', 'd', 'e', 'o', 'x']), None);
}

#[test]
fn loc_range() {
    let i = ideographs();

    // Normal usage.
    assert_eq!(
        i.loc_range(Bound::Included('e'), Bound::Excluded('p')),
        Some(vec![2, 3, 4, 5, 6])
    );
    assert_eq!(
        i.loc_range(Bound::Included('e'), Bound::Included('p')),
        Some(vec![2, 3, 4, 5, 6, 7])
    );
    assert_eq!(
        i.loc_range(Bound::Included('e'), Bound::Unbounded),
        Some(vec![2, 3, 4, 5, 6, 7, 8, 9])
    );
    assert_eq!(
        i.loc_range(Bound::Unbounded, Bound::Excluded('p')),
        Some(vec![0, 1, 2, 3, 4, 5, 6])
    );
    assert_eq!(
        i.loc_range(Bound::Unbounded, Bound::Included('p')),
        Some(vec![0, 1, 2, 3, 4, 5, 6, 7])
    );
    assert_eq!(
        i.loc_range(Bound::Unbounded, Bound::Unbounded),
        Some(vec![0, 1, 2, 3, 4, 5, 6, 7, 8, 9])
    );
    assert_eq!(i.loc_range(Bound::Included('g'), Bound::Excluded('r')), Some(vec![4]));
    assert_eq!(i.loc_range(Bound::Included('g'), Bound::Included('r')), Some(vec![4, 5]));
    assert_eq!(i.loc_range(Bound::Included('g'), Bound::Excluded('g')), Some(vec![]));
    assert_eq!(i.loc_range(Bound::Included('g'), Bound::Included('g')), Some(vec![4]));
    assert_eq!(i.loc_range(Bound::Included('a'), Bound::Excluded('o')), Some(vec![]));
    assert_eq!(i.loc_range(Bound::Included('a'), Bound::Included('o')), Some(vec![]));
    assert_eq!(i.loc_range(Bound::Included('r'), Bound::Excluded('g')), Some(vec![]));
    assert_eq!(i.loc_range(Bound::Included('r'), Bound::Included('g')), Some(vec![]));
    assert_eq!(i.loc_range(Bound::Included('i'), Bound::Excluded('x')), None);
    assert_eq!(i.loc_range(Bound::Included('i'), Bound::Included('x')), None);
    assert_eq!(i.loc_range(Bound::Included('x'), Bound::Excluded('s')), None);
    assert_eq!(i.loc_range(Bound::Included('x'), Bound::Included('s')), None);
    assert_eq!(i.loc_range(Bound::Unbounded, Bound::Excluded('x')), None);
    assert_eq!(i.loc_range(Bound::Unbounded, Bound::Included('x')), None);
    assert_eq!(i.loc_range(Bound::Included('x'), Bound::Unbounded), None);

    // Expected invariants.
    assert_eq!(
        i.loc_range(Bound::Unbounded, Bound::Unbounded),
        i.loc_range(Bound::Included('i'), Bound::Included('s'))
    );
    assert_eq!(
        i.loc_range(Bound::Unbounded, Bound::Unbounded),
        i.iloc_range(Bound::Unbounded, Bound::Unbounded)
    );
    assert_eq!(
        i.loc_range(Bound::Unbounded, Bound::Excluded('p')),
        i.loc_range(Bound::Included('i'), Bound::Excluded('p'))
    );
    assert_eq!(
        i.loc_range(Bound::Unbounded, Bound::Excluded('p')),
        i.iloc_range(Bound::Unbounded, Bound::Excluded(7))
    );
    assert_eq!(
        i.loc_range(Bound::Unbounded, Bound::Included('p')),
        i.loc_range(Bound::Included('i'), Bound::Included('p'))
    );
    assert_eq!(
        i.loc_range(Bound::Unbounded, Bound::Included('p')),
        i.iloc_range(Bound::Unbounded, Bound::Included(7))
    );
    assert_eq!(
        i.loc_range(Bound::Included('e'), Bound::Unbounded),
        i.loc_range(Bound::Included('e'), Bound::Included('s'))
    );
    assert_eq!(
        i.loc_range(Bound::Included('e'), Bound::Unbounded),
        i.iloc_range(Bound::Included(2), Bound::Unbounded)
    );

    // Edge cases.
    let empty: Index<char> = Index::new();
    assert_eq!(empty.loc_range(Bound::Included('x'), Bound::Excluded('x')), None);
    assert_eq!(empty.loc_range(Bound::Included('x'), Bound::Included('x')), None);
    assert_eq!(empty.loc_range(Bound::Included('x'), Bound::Unbounded), None);
    assert_eq!(empty.loc_range(Bound::Unbounded, Bound::Excluded('x')), None);
    assert_eq!(empty.loc_range(Bound::Unbounded, Bound::Included('x')), None);
    assert_eq!(empty.loc_range(Bound::Unbounded, Bound::Unbounded), Some(vec![]));

    let index = Index::from_vec(vec![10]);
    assert_eq!(index.loc_range(Bound::Included(10), Bound::Excluded(20)), None);
    assert_eq!(index.loc_range(Bound::Included(10), Bound::Included(10)), Some(vec![0]));
    assert_eq!(index.loc_range(Bound::Included(10), Bound::Included(20)), None);
    assert_eq!(index.loc_range(Bound::Included(20), Bound::Excluded(20)), None);
    assert_eq!(index.loc_range(Bound::Included(20), Bound::Included(20)), None);
    assert_eq!(index.loc_range(Bound::Unbounded, Bound::Excluded(20)), None);
    assert_eq!(index.loc_range(Bound::Unbounded, Bound::Included(20)), None);
    assert_eq!(index.loc_range(Bound::Included(20), Bound::Unbounded), None);
}

#[test]
fn loc_range_validates_even_empty() {
    let i = ideographs();
    assert_eq!(i.loc_range(Bound::Included('g'), Bound::Excluded('g')), Some(vec![]));
    assert_eq!(i.loc_range(Bound::Included('x'), Bound::Excluded('x')), None);
}

#[test]
fn loc_range_concrete_positions() {
    let i = Index::from_vec(vec![10, 20, 30, 40, 50]);
    assert_eq!(i.loc_range(Bound::Included(20), Bound::Excluded(40)), Some(vec![1, 2]));
}

#[test]
fn loc_iloc_roundtrip() {
    let i = ideographs();
    for p in 0..i.len() {
        let label = *i.iloc(p).unwrap();
        assert_eq!(i.loc(&label), Some(p));
    }
    for c in "ideographs".chars() {
        let p = i.loc(&c).unwrap();
        assert_eq!(i.iloc(p), Some(&c));
    }
}

#[test]
fn push_dedups_and_keeps_order() {
    let mut i: Index<i32> = Index::new();
    assert!(i.push(3));
    assert!(i.push(1));
    assert!(!i.push(3));
    assert!(i.push(2));
    assert_eq!(i.len(), 3);
    assert!(i.contains(&1));
    assert!(!i.contains(&7));
    assert_eq!(i.into_vec(), vec![3, 1, 2]);
}

#[test]
fn from_vec_keeps_first_occurrence() {
    let i = Index::from_vec(vec![5, 2, 5, 9, 2, 5]);
    assert_eq!(i.into_vec(), vec![5, 2, 9]);
}

#[test]
fn reverse_twice_is_identity() {
    let original = Index::from_vec(vec![4, 7, 1, 9]);
    let mut index = original.duplicate();
    index.reverse();
    assert_eq!(index.duplicate().into_vec(), vec![9, 1, 7, 4]);
    index.reverse();
    assert_eq!(index, original);
}

#[test]
fn sort_orders_labels() {
    let mut i = Index::from_vec(vec![9, 5, 3, 8, 6, 0, 1, 2, 7, 4]);
    assert!(!i.is_sorted());
    i.sort();
    assert!(i.is_sorted());
    assert_eq!(i.into_vec(), vec![0, 1, 2, 3, 4, 5, 6, 7, 8, 9]);
}

#[test]
fn arg_sort_concrete() {
    let i = Index::from_vec(vec![9, 5, 3, 8, 6, 0, 1, 2, 7, 4]);
    assert_eq!(i.arg_sort(), vec![5, 6, 7, 2, 9, 1, 4, 8, 3, 0]);
}

#[test]
fn arg_sort_is_permutation() {
    let i = Index::from_vec(vec![9, 5, 3, 8, 6, 0, 1, 2, 7, 4]);
    let mut positions = i.arg_sort();
    positions.sort();
    assert_eq!(positions, (0..10).collect::<Vec<usize>>());
}

#[test]
fn bloc_selects_positions() {
    let i = Index::from_vec(vec![10, 20, 30, 40]);
    assert_eq!(
        i.bloc(&vec![true, false, false, true]),
        Some(vec![0, 3])
    );
    assert_eq!(i.bloc(&vec![false, false, false, false]), Some(vec![]));
    assert_eq!(i.bloc(&vec![true, true, true]), None);
}

#[test]
fn loc_multi_each_reports_per_label() {
    let i = ideographs();
    assert_eq!(
        i.loc_multi_each(&vec!['g', 'x', 'e']),
        vec![Some(4), None, Some(2)]
    );
}

#[test]
fn sort_by_permutes_with_comparator() {
    let mut i = Index::from_vec(vec![3, 1, 2]);
    i.sort_by(|a: &i32, b: &i32| b.cmp(a));
    let mut labels = i.into_vec();
    assert_eq!(labels, vec![3, 2, 1]);
    labels.sort();
    assert_eq!(labels, vec![1, 2, 3]);
}

#[test]
fn sort_by_key_orders_by_key() {
    let mut i = Index::from_vec(vec![3, -1, 2, -4]);
    i.sort_by_key(|l: &i32| if *l < 0 { -*l } else { *l });
    assert_eq!(i.into_vec(), vec![-1, 2, 3, -4]);
}

#[test]
fn arg_sort_by_is_permutation() {
    let i = Index::from_vec(vec![30, 10, 20]);
    let mut order = i.arg_sort_by(|a: &i32, b: &i32| b.cmp(a));
    assert_eq!(order, vec![0, 2, 1]);
    order.sort();
    assert_eq!(order, vec![0, 1, 2]);
}

#[test]
fn arg_sort_by_key_is_permutation() {
    let i = Index::from_vec(vec![-3, 1, 2]);
    let order = i.arg_sort_by_key(|l: &i32| if *l < 0 { -*l } else { *l });
    assert_eq!(order, vec![1, 2, 0]);
}

#[test]
fn is_sorted_by_follows_comparator() {
    let i = Index::from_vec(vec![3, 2, 1]);
    assert!(!i.is_sorted());
    assert!(i.is_sorted_by(|a: &i32, b: &i32| b.cmp(a)));
    assert!(!i.is_sorted_by(|a: &i32, b: &i32| a.cmp(b)));
    let empty: Index<i32> = Index::new();
    assert!(empty.is_sorted());
    assert!(empty.is_sorted_by(|a: &i32, b: &i32| a.cmp(b)));
}

#[test]
fn is_sorted_by_key_follows_key() {
    let i = Index::from_vec(vec![-1, 2, -3]);
    assert!(i.is_sorted_by_key(|l: &i32| if *l < 0 { -*l } else { *l }));
    assert!(!i.is_sorted_by_key(|l: &i32| *l));
}

#[test]
fn capacity_covers_length() {
    let mut i = Index::with_capacity(2);
    i.push(1);
    i.push(2);
    i.push(3);
    assert!(i.capacity() >= i.len());
}

#[test]
fn dtype_reports_label_type() {
    let i: Index<i32> = Index::new();
    assert_eq!(i.dtype(), DType::I32);
    let c: Index<char> = Index::new();
    assert_eq!(c.dtype(), DType::Char);
}

#[test]
fn iloc_multi_each_reports_per_position() {
    let i = ideographs();
    assert_eq!(
        i.iloc_multi_each(&vec![4, 42, 2]),
        vec![Some('g'), None, Some('e')]
    );
}

#[test]
fn into_iter_consumes_labels() {
    let i = Index::from_vec(vec![7, 8, 9]);
    let mut it = i.into_iter();
    assert_eq!(it.len(), 3);
    assert_eq!(it.next(), Some(7));
    assert_eq!(it.next_back(), Some(9));
    assert_eq!(it.next(), Some(8));
    assert_eq!(it.next(), None);
    assert_eq!(it.next_back(), None);
}
