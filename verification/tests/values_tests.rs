use rustable::series::values::ValueStoreImpl;

#[test]
fn store_grows_and_shrinks() {
    let mut s: ValueStoreImpl<i32> = ValueStoreImpl::new();
    assert!(s.is_empty());
    s.push(1);
    s.push(2);
    s.push(3);
    assert_eq!(s.len(), 3);
    assert_eq!(s.as_slice(), &[1, 2, 3]);
    assert_eq!(s.pop(), Some(3));
    assert_eq!(s.pop(), Some(2));
    assert_eq!(s.pop(), Some(1));
    assert_eq!(s.pop(), None);
}

#[test]
fn store_capacity_covers_length() {
    let mut s: ValueStoreImpl<i32> = ValueStoreImpl::with_capacity(2);
    assert_eq!(s.len(), 0);
    s.push(1);
    s.push(2);
    s.push(3);
    assert!(s.capacity() >= s.len());
    s.shrink_to_fit();
    assert_eq!(s.as_slice(), &[1, 2, 3]);
    assert!(s.capacity() >= s.len());
    s.reserve(10);
    assert!(s.capacity() >= 13);
    assert_eq!(s.as_slice(), &[1, 2, 3]);
}

#[test]
fn store_insert_remove() {
    let mut s: ValueStoreImpl<i32> = ValueStoreImpl::new();
    assert_eq!(s.insert(1, 9), None);
    assert_eq!(s.insert(0, 1), Some(()));
    assert_eq!(s.insert(1, 3), Some(()));
    assert_eq!(s.insert(1, 2), Some(()));
    assert_eq!(s.as_slice(), &[1, 2, 3]);
    assert_eq!(s.remove(5), None);
    assert_eq!(s.remove(1), Some(2));
    assert_eq!(s.as_slice(), &[1, 3]);
    assert_eq!(s.swap_remove(5), None);
    s.push(7);
    s.push(8);
    assert_eq!(s.swap_remove(0), Some(1));
    assert_eq!(s.as_slice(), &[8, 3, 7]);
}

#[test]
fn store_truncate_retain_clear() {
    let mut s: ValueStoreImpl<i32> = ValueStoreImpl::new();
    for v in [5, 6, 7, 8, 9] {
        s.push(v);
    }
    s.truncate(9);
    assert_eq!(s.len(), 5);
    s.truncate(4);
    assert_eq!(s.as_slice(), &[5, 6, 7, 8]);
    s.retain(|v: &i32| *v % 2 == 0);
    assert_eq!(s.as_slice(), &[6, 8]);
    s.clear();
    assert!(s.is_empty());
}

#[test]
fn borrowed_store_copies_on_first_write() {
    let backing = vec![1, 2, 3];
    let mut s: ValueStoreImpl<i32> = ValueStoreImpl::from_slice(backing.as_slice());
    assert_eq!(s.len(), 3);
    assert_eq!(s.capacity(), 3);
    assert_eq!(s.as_slice(), &[1, 2, 3]);
    s.push(4);
    assert_eq!(s.as_slice(), &[1, 2, 3, 4]);
    let slice = s.as_mut_slice();
    slice[0] = 9;
    assert_eq!(s.as_slice(), &[9, 2, 3, 4]);
    assert_eq!(backing, vec![1, 2, 3]);
}

#[test]
fn default_store_is_empty() {
    let s: ValueStoreImpl<i32> = Default::default();
    assert!(s.is_empty());
}

#[test]
fn store_dedup_collapses_runs() {
    let mut s: ValueStoreImpl<i32> = ValueStoreImpl::new();
    for v in [1, 1, 2, 2, 2, 3, 1] {
        s.push(v);
    }
    s.dedup();
    assert_eq!(s.as_slice(), &[1, 2, 3, 1]);
}
