use vstd::prelude::*;

use crate::series::mask_filter;
use crate::traits::Label;
use crate::traits::RawType;
use crate::traits::Storable;

verus! {

/// The capacity of a vector. Relies on `Vec::capacity` of std: the
/// documentation states that a vector always holds at most `capacity`
/// elements, so the capacity is never below the length.
#[verifier::external_body]
pub(crate) fn vec_capacity<T>(v: &Vec<T>) -> (r: usize)
    ensures
        r >= v@.len(),
{
    v.capacity()
}

/// Shrinks a vector's spare capacity. Relies on `Vec::shrink_to_fit` of
/// std: the documentation states that it only drops excess capacity and
/// leaves the elements untouched.
#[verifier::external_body]
fn vec_shrink_to_fit<T>(v: &mut Vec<T>)
    ensures
        final(v)@ == old(v)@,
{
    v.shrink_to_fit()
}

/// `s` with runs of consecutive equal values collapsed to their first
/// value.
pub open spec fn dedup_adjacent<T>(s: Seq<T>) -> Seq<T>
    decreases s.len(),
{
    if s.len() <= 1 {
        s
    } else {
        let prefix = dedup_adjacent(s.drop_last());
        if s.last() == s[s.len() - 2] {
            prefix
        } else {
            prefix.push(s.last())
        }
    }
}

/// Backing storage for a value column: a read-only borrowed slice, or an
/// owned, growable vector.
enum CowValues<'a, T> {
    Borrowed(&'a [T]),
    Owned(Vec<T>),
}

/// A borrow-or-owned value store. Construction from a borrowed slice
/// copies nothing; the first mutating call materializes an owned copy,
/// and read calls serve either variant directly.
pub struct ValueStoreImpl<'a, T: Storable> {
    data: CowValues<'a, T>,
}

impl<'a, T: Storable> View for ValueStoreImpl<'a, T> {
    type V = Seq<T>;

    closed spec fn view(&self) -> Seq<T> {
        match self.data {
            CowValues::Borrowed(s) => s@,
            CowValues::Owned(v) => v@,
        }
    }
}

impl<'a, T: Storable> ValueStoreImpl<'a, T> {
    /// Whether the store still wraps the borrowed slice it was built
    /// around; the first mutation makes it owned.
    pub closed spec fn is_borrowed(&self) -> bool {
        self.data is Borrowed
    }

    /// Creates an empty store.
    pub fn new() -> (r: Self)
        ensures
            r@ == Seq::<T>::empty(),
            !r.is_borrowed(),
    {
        ValueStoreImpl { data: CowValues::Owned(Vec::new()) }
    }

    /// Wraps a borrowed slice without copying it.
    pub fn from_slice(values: &'a [T]) -> (r: Self)
        ensures
            r@ == values@,
            r.is_borrowed(),
    {
        ValueStoreImpl { data: CowValues::Borrowed(values) }
    }

    /// Creates an empty store with room for at least `capacity` values;
    /// a request for no room allocates nothing.
    pub fn with_capacity(capacity: usize) -> (r: Self)
        ensures
            r@ == Seq::<T>::empty(),
            !r.is_borrowed(),
    {
        if capacity == 0 {
            Self::new()
        } else {
            ValueStoreImpl { data: CowValues::Owned(Vec::with_capacity(capacity)) }
        }
    }

    /// Materializes an owned vector, cloning a borrowed slice on the
    /// first mutation.
    fn to_mut(&mut self) -> (r: &mut Vec<T>)
        ensures
            r@ == old(self)@,
            final(self)@ == final(r)@,
    {
        let replacement: Option<Vec<T>> = match &self.data {
            CowValues::Borrowed(s) => {
                let n = s.len();
                let mut v: Vec<T> = Vec::with_capacity(n);
                let mut i: usize = 0;
                while i < n
                    invariant
                        i <= n,
                        n == s@.len(),
                        v@ == s@.take(i as int),
                    decreases n - i,
                {
                    v.push(s[i].clone_value());
                    proof {
                        assert(v@ =~= s@.take(i as int + 1));
                    }
                    i += 1;
                }
                proof {
                    assert(v@ =~= s@);
                }
                Some(v)
            },
            CowValues::Owned(_) => None,
        };
        if let Some(v) = replacement {
            self.data = CowValues::Owned(v);
        }
        match &mut self.data {
            CowValues::Owned(v) => v,
            CowValues::Borrowed(_) => vstd::pervasive::unreached(),
        }
    }

    /// How many values the store can hold without growing: the true
    /// capacity of an owned vector, the length of a borrowed slice.
    pub fn capacity(&self) -> (r: usize)
        ensures
            r >= self@.len(),
            self.is_borrowed() ==> r == self@.len(),
    {
        match &self.data {
            CowValues::Owned(v) => vec_capacity(v),
            CowValues::Borrowed(s) => s.len(),
        }
    }

    /// Makes room for at least `additional` more values, materializing an
    /// owned copy first; the values are untouched.
    pub fn reserve(&mut self, additional: usize)
        ensures
            final(self)@ == old(self)@,
    {
        self.to_mut().reserve(additional)
    }

    /// Drops excess capacity of an owned vector; a borrowed slice has
    /// none to drop. The values are untouched.
    pub fn shrink_to_fit(&mut self)
        ensures
            final(self)@ == old(self)@,
    {
        match &mut self.data {
            CowValues::Owned(v) => vec_shrink_to_fit(v),
            CowValues::Borrowed(_) => {},
        }
    }

    /// Cuts the store down to its first `len` values; does nothing when
    /// it is already short enough.
    pub fn truncate(&mut self, len: usize)
        ensures
            len < old(self)@.len() ==> final(self)@ == old(self)@.take(len as int),
            len >= old(self)@.len() ==> final(self)@ == old(self)@,
    {
        if len < self.len() {
            self.to_mut().truncate(len);
        }
    }

    /// The values as a read-only slice.
    pub fn as_slice(&self) -> (r: &[T])
        ensures
            r@ == self@,
    {
        match &self.data {
            CowValues::Owned(v) => v.as_slice(),
            CowValues::Borrowed(s) => s,
        }
    }

    /// The values as a mutable slice, materializing an owned copy first.
    pub fn as_mut_slice(&mut self) -> (r: &mut [T])
        ensures
            r@ == old(self)@,
            final(self)@ == final(r)@,
    {
        self.to_mut().as_mut_slice()
    }

    /// Removes the value at `index` by swapping the last value into its
    /// place, in constant time; reports `None` and does nothing when
    /// `index` is out of bounds.
    pub fn swap_remove(&mut self, index: usize) -> (r: Option<T>)
        ensures
            index >= old(self)@.len() ==> r is None && final(self)@ == old(self)@,
            index < old(self)@.len() ==> r == Some(old(self)@[index as int]) && final(self)@
                == old(self)@.update(index as int, old(self)@.last()).drop_last(),
    {
        if index >= self.len() {
            None
        } else {
            Some(self.to_mut().swap_remove(index))
        }
    }

    /// Inserts `value` at `index`, shifting what follows to the right;
    /// reports `None` and does nothing when `index` is past the end.
    pub fn insert(&mut self, index: usize, value: T) -> (r: Option<()>)
        ensures
            index > old(self)@.len() ==> r is None && final(self)@ == old(self)@,
            index <= old(self)@.len() ==> r is Some && final(self)@ == old(self)@.insert(
                index as int,
                value,
            ),
    {
        if index > self.len() {
            None
        } else {
            self.to_mut().insert(index, value);
            Some(())
        }
    }

    /// Removes and returns the value at `index`, shifting what follows to
    /// the left; reports `None` and does nothing when `index` is out of
    /// bounds.
    pub fn remove(&mut self, index: usize) -> (r: Option<T>)
        ensures
            index >= old(self)@.len() ==> r is None && final(self)@ == old(self)@,
            index < old(self)@.len() ==> r == Some(old(self)@[index as int]) && final(self)@
                == old(self)@.remove(index as int),
    {
        if index >= self.len() {
            None
        } else {
            Some(self.to_mut().remove(index))
        }
    }

    /// Keeps exactly the values for which the predicate answers `true`,
    /// preserving their order. The witness mask in the contract records
    /// one answer per original value.
    pub fn retain<F: Fn(&T) -> bool>(&mut self, func: F)
        requires
            forall|t: T| call_requires(func, (&t,)),
        ensures
            exists|keep: Seq<bool>|
                {
                    &&& keep.len() == old(self)@.len()
                    &&& (forall|k: int|
                        0 <= k < keep.len() ==> call_ensures(
                            func,
                            (&old(self)@[k],),
                            #[trigger] keep[k],
                        ))
                    &&& final(self)@ == mask_filter(old(self)@, keep)
                },
    {
        let ghost orig = self@;
        let n = self.len();
        let mut out: Vec<T> = Vec::new();
        let ghost mut keep: Seq<bool> = Seq::empty();
        let mut i: usize = 0;
        while i < n
            invariant
                i <= n,
                n == orig.len(),
                self@ == orig,
                keep.len() == i,
                forall|k: int|
                    0 <= k < i ==> call_ensures(func, (&orig[k],), #[trigger] keep[k]),
                out@ == mask_filter(orig.subrange(0, i as int), keep),
                forall|t: T| call_requires(func, (&t,)),
            decreases n - i,
        {
            let v = &self.as_slice()[i];
            let keep_it = func(v);
            let ghost pre_keep = keep;
            proof {
                keep = keep.push(keep_it);
                assert(keep.drop_last() =~= pre_keep);
                assert(orig.subrange(0, i as int + 1).drop_last() =~= orig.subrange(0, i as int));
                assert(orig.subrange(0, i as int + 1).last() == orig[i as int]);
            }
            if keep_it {
                out.push(v.clone_value());
            }
            i += 1;
        }
        proof {
            assert(orig.subrange(0, n as int) =~= orig);
        }
        self.data = CowValues::Owned(out);
    }

    /// Collapses each run of consecutive equal values to its first value.
    /// Equality of values is decided through the `Label` capability.
    pub fn dedup(&mut self) where T: Label
        ensures
            final(self)@ == dedup_adjacent(old(self)@),
    {
        let n = self.len();
        if n > 1 {
            let ghost orig = self@;
            let mut out: Vec<T> = Vec::new();
            let mut prev = self.as_slice()[0].clone_value();
            out.push(prev.clone_value());
            proof {
                assert(out@ =~= dedup_adjacent(orig.subrange(0, 1)));
            }
            let mut i: usize = 1;
            while i < n
                invariant
                    1 <= i <= n,
                    n == orig.len(),
                    self@ == orig,
                    prev == orig[i - 1],
                    out@ == dedup_adjacent(orig.subrange(0, i as int)),
                decreases n - i,
            {
                let cur = self.as_slice()[i].clone_value();
                proof {
                    let next = orig.subrange(0, i as int + 1);
                    assert(next.drop_last() =~= orig.subrange(0, i as int));
                    assert(next.last() == orig[i as int]);
                    assert(next[next.len() - 2] == orig[i as int - 1]);
                }
                if !cur.eq_label(&prev) {
                    out.push(cur.clone_value());
                }
                prev = cur;
                i += 1;
            }
            proof {
                assert(orig.subrange(0, n as int) =~= orig);
            }
            self.data = CowValues::Owned(out);
        } else {
            proof {
                assert(dedup_adjacent(self@) == self@);
            }
        }
    }

    /// Appends `value` at the end.
    pub fn push(&mut self, value: T)
        ensures
            final(self)@ == old(self)@.push(value),
    {
        self.to_mut().push(value)
    }

    /// Removes and returns the last value; `None` when the store is
    /// empty.
    pub fn pop(&mut self) -> (r: Option<T>)
        ensures
            old(self)@.len() > 0 ==> r == Some(old(self)@.last()) && final(self)@ == old(
                self,
            )@.drop_last(),
            old(self)@.len() == 0 ==> r is None && final(self)@ == old(self)@,
    {
        if self.len() > 0 {
            let r = self.to_mut().pop();
            proof {
                assert(self@ =~= old(self)@.drop_last());
            }
            r
        } else {
            None
        }
    }

    /// Removes every value.
    pub fn clear(&mut self)
        ensures
            final(self)@ == Seq::<T>::empty(),
    {
        if self.len() > 0 {
            self.to_mut().clear()
        } else {
            proof {
                assert(self@ =~= Seq::<T>::empty());
            }
        }
    }

    /// How many values the store holds.
    pub fn len(&self) -> (r: usize)
        ensures
            r == self@.len(),
    {
        match &self.data {
            CowValues::Owned(v) => v.len(),
            CowValues::Borrowed(s) => s.len(),
        }
    }

    /// Whether the store holds no values.
    pub fn is_empty(&self) -> (r: bool)
        ensures
            r == (self@.len() == 0),
    {
        self.len() == 0
    }
}

impl<'a, T: Storable> Default for ValueStoreImpl<'a, T> {
    /// The default store is empty.
    fn default() -> (r: Self)
        ensures
            r@ == Seq::<T>::empty(),
    {
        ValueStoreImpl::new()
    }
}

/// A value store of plain values, backing a dense column.
pub struct DenseValueStore<'a, V: Storable>(pub ValueStoreImpl<'a, V>);

/// A value store of optional values, backing a column with holes.
pub struct SparseValueStore<'a, V: RawType>(pub ValueStoreImpl<'a, Option<V>>);

} // verus!
