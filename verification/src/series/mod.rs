pub mod error;
pub mod iter;
pub mod values;

use vstd::prelude::*;

use crate::index::disjoint_spec;
use crate::index::loc_spec;
use crate::index::Index;
use crate::series::error::DuplicateIndexLabel;
use crate::series::error::LengthMismatch;
use crate::series::error::OverlappingIndex;
use crate::traits::Label;
use crate::traits::RawType;
use crate::traits::Storable;

verus! {

/// The labels of a pair sequence, in order.
pub open spec fn labels_of<L, V>(pairs: Seq<(L, V)>) -> Seq<L> {
    pairs.map_values(|p: (L, V)| p.0)
}

/// The values of a pair sequence, in order.
pub open spec fn values_of<L, V>(pairs: Seq<(L, V)>) -> Seq<V> {
    pairs.map_values(|p: (L, V)| p.1)
}

/// Position `j` of `ls` repeats a label that already occurred earlier.
pub open spec fn repeats_at<L>(ls: Seq<L>, j: int) -> bool {
    0 <= j < ls.len() && ls.subrange(0, j).contains(ls[j])
}

/// The elements of `s` whose flag in `keep` is true, order preserved.
pub open spec fn mask_filter<T>(s: Seq<T>, keep: Seq<bool>) -> Seq<T>
    recommends
        s.len() == keep.len(),
    decreases s.len(),
{
    if s.len() == 0 {
        Seq::empty()
    } else {
        let prefix = mask_filter(s.drop_last(), keep.drop_last());
        if keep.len() == s.len() && keep.last() {
            prefix.push(s.last())
        } else {
            prefix
        }
    }
}

/// Filtering never invents elements.
pub proof fn lemma_mask_filter_contains<T>(s: Seq<T>, keep: Seq<bool>, x: T)
    ensures
        mask_filter(s, keep).contains(x) ==> s.contains(x),
    decreases s.len(),
{
    if s.len() > 0 {
        lemma_mask_filter_contains(s.drop_last(), keep.drop_last(), x);
        if mask_filter(s, keep).contains(x) {
            let prefix = mask_filter(s.drop_last(), keep.drop_last());
            if keep.len() == s.len() && keep.last() {
                let whole = prefix.push(s.last());
                let i = choose|i: int| 0 <= i < whole.len() && whole[i] == x;
                if i < prefix.len() {
                    assert(prefix[i] == x);
                }
            }
            if s.drop_last().contains(x) {
                let i = choose|i: int| 0 <= i < s.drop_last().len() && s.drop_last()[i] == x;
                assert(s[i] == x);
            } else if s.last() == x {
                assert(s[s.len() - 1] == x);
            }
        }
    }
}

/// Filtering keeps a duplicate-free sequence duplicate-free.
pub proof fn lemma_mask_filter_no_duplicates<T>(s: Seq<T>, keep: Seq<bool>)
    requires
        s.no_duplicates(),
    ensures
        mask_filter(s, keep).no_duplicates(),
    decreases s.len(),
{
    if s.len() > 0 {
        assert forall|i: int, j: int|
            0 <= i < s.drop_last().len() && 0 <= j < s.drop_last().len() && i != j implies s.drop_last()[i]
            != s.drop_last()[j] by {
            assert(s[i] == s.drop_last()[i]);
            assert(s[j] == s.drop_last()[j]);
        }
        lemma_mask_filter_no_duplicates(s.drop_last(), keep.drop_last());
        if keep.len() == s.len() && keep.last() {
            let prefix = mask_filter(s.drop_last(), keep.drop_last());
            lemma_mask_filter_contains(s.drop_last(), keep.drop_last(), s.last());
            assert(!s.drop_last().contains(s.last())) by {
                if s.drop_last().contains(s.last()) {
                    let i = choose|i: int|
                        0 <= i < s.drop_last().len() && s.drop_last()[i] == s.last();
                    assert(s[i] == s[s.len() - 1]);
                }
            }
            let whole = prefix.push(s.last());
            assert forall|i: int, j: int|
                0 <= i < whole.len() && 0 <= j < whole.len() && i != j implies whole[i]
                != whole[j] by {
                if i < prefix.len() && j < prefix.len() {
                } else if i < prefix.len() && j == prefix.len() {
                    assert(whole[i] == prefix[i]);
                    if prefix[i] == s.last() {
                        assert(prefix.contains(s.last()));
                    }
                } else if j < prefix.len() && i == prefix.len() {
                    assert(whole[j] == prefix[j]);
                    if prefix[j] == s.last() {
                        assert(prefix.contains(s.last()));
                    }
                }
            }
        }
    }
}

/// Two columns of equal length filtered by one mask keep equal lengths.
pub proof fn lemma_mask_filter_len_eq<A, B>(a: Seq<A>, b: Seq<B>, keep: Seq<bool>)
    requires
        a.len() == b.len(),
    ensures
        mask_filter(a, keep).len() == mask_filter(b, keep).len(),
    decreases a.len(),
{
    if a.len() > 0 {
        lemma_mask_filter_len_eq(a.drop_last(), b.drop_last(), keep.drop_last());
    }
}

/// Flags the positions of `vals` that hold a value.
pub open spec fn some_mask<R>(vals: Seq<Option<R>>) -> Seq<bool> {
    Seq::new(vals.len(), |i: int| vals[i] is Some)
}

/// The values of `vals` with the `None`s dropped, order preserved.
pub open spec fn unwrap_somes<R>(vals: Seq<Option<R>>) -> Seq<R>
    decreases vals.len(),
{
    if vals.len() == 0 {
        Seq::empty()
    } else {
        let prefix = unwrap_somes(vals.drop_last());
        match vals.last() {
            Some(v) => prefix.push(v),
            None => prefix,
        }
    }
}

/// Dropping the `None`s from a value column keeps as many values as the
/// label half keeps labels, when filtered by the same presence mask.
pub proof fn lemma_drop_none_len<T, R>(labels: Seq<T>, vals: Seq<Option<R>>)
    requires
        labels.len() == vals.len(),
    ensures
        mask_filter(labels, some_mask(vals)).len() == unwrap_somes(vals).len(),
    decreases labels.len(),
{
    if labels.len() > 0 {
        lemma_drop_none_len(labels.drop_last(), vals.drop_last());
        assert(some_mask(vals).drop_last() =~= some_mask(vals.drop_last()));
        assert(some_mask(vals).last() == (vals.last() is Some));
    }
}

/// The value of the last pair of `pairs` that carries the label `l`.
pub open spec fn last_value_of<L, V>(pairs: Seq<(L, V)>, l: L) -> V
    recommends
        labels_of(pairs).contains(l),
    decreases pairs.len(),
{
    if pairs.len() == 0 {
        vstd::pervasive::arbitrary()
    } else if pairs.last().0 == l {
        pairs.last().1
    } else {
        last_value_of(pairs.drop_last(), l)
    }
}

/// One `Index` of labels beside one column of values, in lockstep: the
/// value at position `i` belongs to the label at position `i`. The two
/// halves always have the same length; `wf` states that invariant, every
/// constructor establishes it and every operation preserves it.
#[derive(Debug)]
pub struct Series<L, V> {
    index: Index<L>,
    values: Vec<V>,
}

impl<L, V> View for Series<L, V> {
    type V = (Seq<L>, Seq<V>);

    closed spec fn view(&self) -> (Seq<L>, Seq<V>) {
        (self.index@, self.values@)
    }
}

impl<L: Label, V: Storable> Series<L, V> {
    /// The structural invariant: duplicate-free labels, and as many values
    /// as labels.
    pub open spec fn wf(&self) -> bool {
        self@.0.no_duplicates() && self@.0.len() == self@.1.len()
    }

    /// Creates an empty `Series`.
    pub fn new() -> (r: Self)
        ensures
            r@.0 == Seq::<L>::empty(),
            r@.1 == Seq::<V>::empty(),
            r.wf(),
    {
        Series { index: Index::new(), values: Vec::new() }
    }

    /// Builds a `Series` from label/value pairs, in order. The whole
    /// construction fails on the first repeated label, handing that label
    /// back; nothing partially built escapes.
    pub fn from_iter_checked(pairs: Vec<(L, V)>) -> (r: Result<Self, DuplicateIndexLabel<L>>)
        ensures
            r is Ok <==> labels_of(pairs@).no_duplicates(),
            r is Ok ==> r->Ok_0@.0 == labels_of(pairs@) && r->Ok_0@.1 == values_of(pairs@)
                && r->Ok_0.wf(),
            r is Err ==> exists|j: int|
                #[trigger] repeats_at(labels_of(pairs@), j) && (forall|k: int|
                    0 <= k < j ==> !repeats_at(labels_of(pairs@), k)) && r->Err_0.label
                    == labels_of(pairs@)[j],
    {
        let ghost ls = labels_of(pairs@);
        let ghost vs = values_of(pairs@);
        let n = pairs.len();
        let mut index = Index::<L>::new();
        let mut values: Vec<V> = Vec::with_capacity(n);
        let mut i: usize = 0;
        while i < n
            invariant
                i <= n,
                n == pairs@.len(),
                ls == labels_of(pairs@),
                vs == values_of(pairs@),
                index.wf(),
                index@ == ls.subrange(0, i as int),
                values@ == vs.subrange(0, i as int),
                forall|k: int| 0 <= k < i ==> !repeats_at(ls, k),
            decreases n - i,
        {
            let label = pairs[i].0.clone_value();
            let value = pairs[i].1.clone_value();
            proof {
                assert(ls[i as int] == pairs@[i as int].0);
                assert(vs[i as int] == pairs@[i as int].1);
            }
            if index.contains(&label) {
                proof {
                    assert(repeats_at(ls, i as int));
                    let w = choose|w: int|
                        0 <= w < i && ls.subrange(0, i as int)[w] == ls[i as int];
                    assert(ls[w] == ls[i as int]);
                    assert(!ls.no_duplicates());
                }
                return Err(DuplicateIndexLabel { label });
            }
            index.push(label);
            values.push(value);
            proof {
                assert(index@ =~= ls.subrange(0, i as int + 1));
                assert(values@ =~= vs.subrange(0, i as int + 1));
                assert(!repeats_at(ls, i as int));
            }
            i += 1;
        }
        proof {
            assert(index@ =~= ls);
            assert(values@ =~= vs);
        }
        Ok(Series { index, values })
    }

    /// Builds a `Series` from label/value pairs, silently collapsing
    /// repeated labels: the label keeps its first position, and the last
    /// value given for it wins.
    pub fn from_iter(pairs: Vec<(L, V)>) -> (r: Self)
        ensures
            r@.0 == crate::index::dedup_first(labels_of(pairs@)),
            r@.1.len() == r@.0.len(),
            forall|k: int|
                0 <= k < r@.0.len() ==> r@.1[k] == last_value_of(pairs@, #[trigger] r@.0[k]),
            r.wf(),
    {
        let ghost ls = labels_of(pairs@);
        let n = pairs.len();
        let mut index = Index::<L>::new();
        let mut values: Vec<V> = Vec::new();
        let mut i: usize = 0;
        while i < n
            invariant
                i <= n,
                n == pairs@.len(),
                ls == labels_of(pairs@),
                index.wf(),
                index@ == crate::index::dedup_first(ls.subrange(0, i as int)),
                values@.len() == index@.len(),
                forall|k: int|
                    0 <= k < index@.len() ==> values@[k] == last_value_of(
                        pairs@.subrange(0, i as int),
                        #[trigger] index@[k],
                    ),
            decreases n - i,
        {
            let label = pairs[i].0.clone_value();
            let value = pairs[i].1.clone_value();
            let ghost prefix = ls.subrange(0, i as int);
            let ghost pair_prefix = pairs@.subrange(0, i as int);
            let ghost next = ls.subrange(0, i as int + 1);
            let ghost pair_next = pairs@.subrange(0, i as int + 1);
            proof {
                assert(next.drop_last() =~= prefix);
                assert(next.last() == ls[i as int]);
                assert(ls[i as int] == pairs@[i as int].0);
                assert(pair_next.drop_last() =~= pair_prefix);
                assert(pair_next.last() == pairs@[i as int]);
                crate::index::lemma_dedup_first_contains(prefix, ls[i as int]);
            }
            match index.index_of(&label) {
                Some(p) => {
                    values[p] = value;
                    proof {
                        assert(index@ == crate::index::dedup_first(next));
                        assert forall|k: int| 0 <= k < index@.len() implies values@[k]
                            == last_value_of(pair_next, #[trigger] index@[k]) by {
                            if k == p {
                                assert(index@[k] == label);
                                assert(pair_next.last().0 == index@[k]);
                            } else {
                                assert(index@[k] != index@[p as int]);
                                assert(pair_next.last().0 != index@[k]);
                            }
                        }
                    }
                },
                None => {
                    index.push(label);
                    values.push(value);
                    proof {
                        assert(index@ == crate::index::dedup_first(next));
                        let pre_len = index@.len() - 1;
                        assert forall|k: int| 0 <= k < index@.len() implies values@[k]
                            == last_value_of(pair_next, #[trigger] index@[k]) by {
                            if k == pre_len {
                                assert(index@[k] == ls[i as int]);
                                assert(pair_next.last().0 == index@[k]);
                            } else {
                                assert(index@[k] == crate::index::dedup_first(prefix)[k]);
                                assert(crate::index::dedup_first(prefix).contains(index@[k]));
                                assert(prefix.contains(index@[k])) by {
                                    crate::index::lemma_dedup_first_contains(prefix, index@[k]);
                                }
                                assert(index@[k] != ls[i as int]);
                                assert(pair_next.last().0 != index@[k]);
                            }
                        }
                    }
                },
            }
            i += 1;
        }
        proof {
            assert(ls.subrange(0, n as int) =~= ls);
            assert(pairs@.subrange(0, n as int) =~= pairs@);
        }
        Series { index, values }
    }

    /// Pairs an existing `Index` with a value column of the same length;
    /// hands both back inside the error when the lengths differ.
    pub fn from_values(index: Index<L>, values: Vec<V>) -> (r: Result<Self, LengthMismatch<L, V>>)
        requires
            index.wf(),
        ensures
            r is Ok <==> index@.len() == values@.len(),
            r is Ok ==> r->Ok_0@.0 == index@ && r->Ok_0@.1 == values@ && r->Ok_0.wf(),
            r is Err ==> r->Err_0.index@ == index@ && r->Err_0.values@ == values@,
    {
        if index.len() != values.len() {
            Err(LengthMismatch { index, values })
        } else {
            Ok(Series { index, values })
        }
    }

    /// A read-only borrow of the `Index` half.
    pub fn index(&self) -> (r: &Index<L>)
        ensures
            r@ == self@.0,
    {
        &self.index
    }

    /// A read-only borrow of the value column.
    pub fn values(&self) -> (r: &Vec<V>)
        ensures
            r@ == self@.1,
    {
        &self.values
    }

    /// A mutable borrow of the value column, as a slice: values may be
    /// rewritten in place, and the slice type itself keeps the column's
    /// length — and with it the length invariant — intact.
    pub fn values_mut(&mut self) -> (r: &mut [V])
        ensures
            r@ == old(self)@.1,
            final(self)@.1 == final(r)@,
            final(self)@.0 == old(self)@.0,
    {
        self.values.as_mut_slice()
    }

    /// The value at position `pos`, writable, or `None` if `pos` is out of
    /// bounds.
    pub fn iloc_mut(&mut self, pos: usize) -> (r: Option<&mut V>)
        ensures
            pos >= old(self)@.1.len() ==> r is None && final(self)@ == old(self)@,
            pos < old(self)@.1.len() ==> r is Some && *r.unwrap() == old(self)@.1[pos as int]
                && final(self)@.1 == old(self)@.1.update(pos as int, *final(r.unwrap()))
                && final(self)@.0 == old(self)@.0,
    {
        if pos < self.values.len() {
            Some(&mut self.values[pos])
        } else {
            None
        }
    }

    /// The value at position `pos`, or `None` if `pos` is out of bounds.
    pub fn iloc(&self, pos: usize) -> (r: Option<&V>)
        ensures
            r is Some <==> pos < self@.1.len(),
            r is Some ==> *r.unwrap() == self@.1[pos as int],
    {
        if pos < self.values.len() {
            Some(&self.values[pos])
        } else {
            None
        }
    }

    /// The value belonging to `label`, or `None` if the label is absent.
    pub fn loc(&self, label: &L) -> (r: Option<&V>)
        requires
            self.wf(),
        ensures
            r is Some <==> self@.0.contains(*label),
            r is Some ==> *r.unwrap() == self@.1[loc_spec(self@.0, *label).unwrap() as int],
    {
        match self.index.index_of(label) {
            Some(pos) => Some(&self.values[pos]),
            None => None,
        }
    }

    /// The value belonging to `label`, writable, or `None` if the label is
    /// absent.
    pub fn loc_mut(&mut self, label: &L) -> (r: Option<&mut V>)
        requires
            old(self).wf(),
        ensures
            r is None ==> !old(self)@.0.contains(*label) && final(self)@ == old(self)@,
            r is Some ==> old(self)@.0.contains(*label) && *r.unwrap() == old(self)@.1[loc_spec(
                old(self)@.0,
                *label,
            ).unwrap() as int] && final(self)@.1 == old(self)@.1.update(
                loc_spec(old(self)@.0, *label).unwrap() as int,
                *final(r.unwrap()),
            ) && final(self)@.0 == old(self)@.0,
    {
        let pos = match self.index.index_of(label) {
            Some(p) => p,
            None => {
                return None;
            },
        };
        Some(&mut self.values[pos])
    }

    /// Consumes the `Series` and hands out a single-pass cursor over its
    /// label/value pairs, front to back or back to front.
    pub fn into_iter(self) -> (r: iter::IntoIter<L, V>)
        requires
            self.wf(),
        ensures
            r.wf(),
            r.remaining() == self@,
    {
        iter::IntoIter::new(self)
    }

    /// Consumes the `Series` and returns its `Index`.
    pub fn into_index(self) -> (r: Index<L>)
        ensures
            r@ == self@.0,
    {
        self.index
    }

    /// Consumes the `Series` and returns its value column.
    pub fn into_values(self) -> (r: Vec<V>)
        ensures
            r@ == self@.1,
    {
        self.values
    }

    /// Consumes the `Series` and returns both halves.
    pub fn into_index_values(self) -> (r: (Index<L>, Vec<V>))
        ensures
            r.0@ == self@.0,
            r.1@ == self@.1,
    {
        (self.index, self.values)
    }

    /// Removes every label/value pair.
    pub fn clear(&mut self)
        ensures
            final(self)@.0 == Seq::<L>::empty(),
            final(self)@.1 == Seq::<V>::empty(),
            final(self).wf(),
    {
        self.index.clear();
        self.values.clear();
    }

    /// Whether this `Series` holds no pairs.
    pub fn is_empty(&self) -> (r: bool)
        requires
            self.wf(),
        ensures
            r == (self@.0.len() == 0),
    {
        self.index.is_empty()
    }

    /// Whether `label` occurs in the `Index` half.
    pub fn contains_label(&self, label: &L) -> (r: bool)
        ensures
            r == self@.0.contains(*label),
    {
        self.index.contains(label)
    }

    /// A single-pass cursor over the label/value pairs, front to back or
    /// back to front.
    pub fn iter<'a>(&'a self) -> (r: iter::Iter<'a, L, V>)
        requires
            self.wf(),
        ensures
            r.wf(),
            r.remaining() == self@,
    {
        iter::Iter::new(self)
    }

    /// Keeps exactly the pairs for which the predicate answers `true`,
    /// preserving relative order in both halves in lockstep. The witness
    /// mask in the contract records one answer per original pair.
    pub fn retain<F: Fn(&L, &V) -> bool>(&mut self, pred: F)
        requires
            old(self).wf(),
            forall|l: L, v: V| call_requires(pred, (&l, &v)),
        ensures
            final(self).wf(),
            exists|keep: Seq<bool>|
                {
                    &&& keep.len() == old(self)@.0.len()
                    &&& (forall|k: int|
                        0 <= k < keep.len() ==> call_ensures(
                            pred,
                            (&old(self)@.0[k], &old(self)@.1[k]),
                            #[trigger] keep[k],
                        ))
                    &&& final(self)@.0 == mask_filter(old(self)@.0, keep)
                    &&& final(self)@.1 == mask_filter(old(self)@.1, keep)
                },
    {
        let ghost orig_labels = self@.0;
        let ghost orig_values = self@.1;
        let n = self.values.len();
        let mut new_labels: Vec<L> = Vec::new();
        let mut new_values: Vec<V> = Vec::new();
        let ghost mut keep: Seq<bool> = Seq::empty();
        let mut i: usize = 0;
        while i < n
            invariant
                i <= n,
                n == orig_labels.len(),
                n == orig_values.len(),
                self@.0 == orig_labels,
                self@.1 == orig_values,
                self.wf(),
                keep.len() == i,
                forall|k: int|
                    0 <= k < i ==> call_ensures(
                        pred,
                        (&orig_labels[k], &orig_values[k]),
                        #[trigger] keep[k],
                    ),
                new_labels@ == mask_filter(orig_labels.subrange(0, i as int), keep),
                new_values@ == mask_filter(orig_values.subrange(0, i as int), keep),
                forall|l: L, v: V| call_requires(pred, (&l, &v)),
            decreases n - i,
        {
            let l = self.index.label_at(i);
            let v = &self.values[i];
            let keep_it = pred(l, v);
            let ghost pre_keep = keep;
            proof {
                keep = keep.push(keep_it);
                assert(keep.drop_last() =~= pre_keep);
                assert(keep.last() == keep_it);
                assert(orig_labels.subrange(0, i as int + 1).drop_last() =~= orig_labels.subrange(
                    0,
                    i as int,
                ));
                assert(orig_labels.subrange(0, i as int + 1).last() == orig_labels[i as int]);
                assert(orig_values.subrange(0, i as int + 1).drop_last() =~= orig_values.subrange(
                    0,
                    i as int,
                ));
                assert(orig_values.subrange(0, i as int + 1).last() == orig_values[i as int]);
            }
            if keep_it {
                new_labels.push(l.clone_value());
                new_values.push(v.clone_value());
            }
            i += 1;
        }
        proof {
            assert(orig_labels.subrange(0, n as int) =~= orig_labels);
            assert(orig_values.subrange(0, n as int) =~= orig_values);
            lemma_mask_filter_no_duplicates(orig_labels, keep);
            lemma_mask_filter_len_eq(orig_labels, orig_values, keep);
        }
        self.index = Index::from_vec_unchecked(new_labels);
        self.values = new_values;
    }

    /// `retain`, deciding from the label alone.
    pub fn retain_labels<F: Fn(&L) -> bool>(&mut self, pred: F)
        requires
            old(self).wf(),
            forall|l: L| call_requires(pred, (&l,)),
        ensures
            final(self).wf(),
            exists|keep: Seq<bool>|
                {
                    &&& keep.len() == old(self)@.0.len()
                    &&& (forall|k: int|
                        0 <= k < keep.len() ==> call_ensures(
                            pred,
                            (&old(self)@.0[k],),
                            #[trigger] keep[k],
                        ))
                    &&& final(self)@.0 == mask_filter(old(self)@.0, keep)
                    &&& final(self)@.1 == mask_filter(old(self)@.1, keep)
                },
    {
        let ghost orig_labels = self@.0;
        let ghost orig_values = self@.1;
        let n = self.values.len();
        let mut new_labels: Vec<L> = Vec::new();
        let mut new_values: Vec<V> = Vec::new();
        let ghost mut keep: Seq<bool> = Seq::empty();
        let mut i: usize = 0;
        while i < n
            invariant
                i <= n,
                n == orig_labels.len(),
                n == orig_values.len(),
                self@.0 == orig_labels,
                self@.1 == orig_values,
                self.wf(),
                keep.len() == i,
                forall|k: int|
                    0 <= k < i ==> call_ensures(pred, (&orig_labels[k],), #[trigger] keep[k]),
                new_labels@ == mask_filter(orig_labels.subrange(0, i as int), keep),
                new_values@ == mask_filter(orig_values.subrange(0, i as int), keep),
                forall|l: L| call_requires(pred, (&l,)),
            decreases n - i,
        {
            let l = self.index.label_at(i);
            let v = &self.values[i];
            let keep_it = pred(l);
            let ghost pre_keep = keep;
            proof {
                keep = keep.push(keep_it);
                assert(keep.drop_last() =~= pre_keep);
                assert(keep.last() == keep_it);
                assert(orig_labels.subrange(0, i as int + 1).drop_last() =~= orig_labels.subrange(
                    0,
                    i as int,
                ));
                assert(orig_labels.subrange(0, i as int + 1).last() == orig_labels[i as int]);
                assert(orig_values.subrange(0, i as int + 1).drop_last() =~= orig_values.subrange(
                    0,
                    i as int,
                ));
                assert(orig_values.subrange(0, i as int + 1).last() == orig_values[i as int]);
            }
            if keep_it {
                new_labels.push(l.clone_value());
                new_values.push(v.clone_value());
            }
            i += 1;
        }
        proof {
            assert(orig_labels.subrange(0, n as int) =~= orig_labels);
            assert(orig_values.subrange(0, n as int) =~= orig_values);
            lemma_mask_filter_no_duplicates(orig_labels, keep);
            lemma_mask_filter_len_eq(orig_labels, orig_values, keep);
        }
        self.index = Index::from_vec_unchecked(new_labels);
        self.values = new_values;
    }

    /// `retain`, deciding from the value alone.
    pub fn retain_values<F: Fn(&V) -> bool>(&mut self, pred: F)
        requires
            old(self).wf(),
            forall|v: V| call_requires(pred, (&v,)),
        ensures
            final(self).wf(),
            exists|keep: Seq<bool>|
                {
                    &&& keep.len() == old(self)@.0.len()
                    &&& (forall|k: int|
                        0 <= k < keep.len() ==> call_ensures(
                            pred,
                            (&old(self)@.1[k],),
                            #[trigger] keep[k],
                        ))
                    &&& final(self)@.0 == mask_filter(old(self)@.0, keep)
                    &&& final(self)@.1 == mask_filter(old(self)@.1, keep)
                },
    {
        let ghost orig_labels = self@.0;
        let ghost orig_values = self@.1;
        let n = self.values.len();
        let mut new_labels: Vec<L> = Vec::new();
        let mut new_values: Vec<V> = Vec::new();
        let ghost mut keep: Seq<bool> = Seq::empty();
        let mut i: usize = 0;
        while i < n
            invariant
                i <= n,
                n == orig_labels.len(),
                n == orig_values.len(),
                self@.0 == orig_labels,
                self@.1 == orig_values,
                self.wf(),
                keep.len() == i,
                forall|k: int|
                    0 <= k < i ==> call_ensures(pred, (&orig_values[k],), #[trigger] keep[k]),
                new_labels@ == mask_filter(orig_labels.subrange(0, i as int), keep),
                new_values@ == mask_filter(orig_values.subrange(0, i as int), keep),
                forall|v: V| call_requires(pred, (&v,)),
            decreases n - i,
        {
            let l = self.index.label_at(i);
            let v = &self.values[i];
            let keep_it = pred(v);
            let ghost pre_keep = keep;
            proof {
                keep = keep.push(keep_it);
                assert(keep.drop_last() =~= pre_keep);
                assert(keep.last() == keep_it);
                assert(orig_labels.subrange(0, i as int + 1).drop_last() =~= orig_labels.subrange(
                    0,
                    i as int,
                ));
                assert(orig_labels.subrange(0, i as int + 1).last() == orig_labels[i as int]);
                assert(orig_values.subrange(0, i as int + 1).drop_last() =~= orig_values.subrange(
                    0,
                    i as int,
                ));
                assert(orig_values.subrange(0, i as int + 1).last() == orig_values[i as int]);
            }
            if keep_it {
                new_labels.push(l.clone_value());
                new_values.push(v.clone_value());
            }
            i += 1;
        }
        proof {
            assert(orig_labels.subrange(0, n as int) =~= orig_labels);
            assert(orig_values.subrange(0, n as int) =~= orig_values);
            lemma_mask_filter_no_duplicates(orig_labels, keep);
            lemma_mask_filter_len_eq(orig_labels, orig_values, keep);
        }
        self.index = Index::from_vec_unchecked(new_labels);
        self.values = new_values;
    }

    /// Applies a function to every value and produces a new `Series` with
    /// the transformed column; the `Index` and the order are untouched.
    pub fn map<C: Storable, F: Fn(V) -> C>(self, map_func: F) -> (r: Series<L, C>)
        requires
            self.wf(),
            forall|v: V| call_requires(map_func, (v,)),
        ensures
            r@.0 == self@.0,
            r@.1.len() == self@.1.len(),
            forall|k: int|
                0 <= k < self@.1.len() ==> call_ensures(
                    map_func,
                    (self@.1[k],),
                    #[trigger] r@.1[k],
                ),
            r.wf(),
    {
        let index = self.index;
        let values = self.values;
        let n = values.len();
        let mut out: Vec<C> = Vec::with_capacity(n);
        let mut i: usize = 0;
        while i < n
            invariant
                i <= n,
                n == values@.len(),
                out@.len() == i,
                forall|k: int|
                    0 <= k < i ==> call_ensures(map_func, (values@[k],), #[trigger] out@[k]),
                forall|v: V| call_requires(map_func, (v,)),
            decreases n - i,
        {
            out.push(map_func(values[i].clone_value()));
            i += 1;
        }
        Series { index, values: out }
    }

    /// Appends `other`'s pairs after this `Series`'s pairs, provided the
    /// two indexes share no label; fails with `OverlappingIndex` exactly
    /// when they do.
    pub fn concat_checked(self, other: Self) -> (r: Result<Self, OverlappingIndex>)
        requires
            self.wf(),
            other.wf(),
        ensures
            r is Ok <==> disjoint_spec(self@.0, other@.0),
            r is Ok ==> r->Ok_0@.0 == self@.0 + other@.0 && r->Ok_0@.1 == self@.1 + other@.1
                && r->Ok_0.wf(),
    {
        if self.index.is_disjoint(&other.index) {
            let mut labels = self.index.into_vec();
            let mut other_labels = other.index.into_vec();
            let ghost a = labels@;
            let ghost b = other_labels@;
            labels.append(&mut other_labels);
            let mut values = self.values;
            let mut other_values = other.values;
            values.append(&mut other_values);
            proof {
                assert forall|i: int, j: int|
                    0 <= i < labels@.len() && 0 <= j < labels@.len() && i != j implies labels@[i]
                    != labels@[j] by {
                    if i < a.len() && j < a.len() {
                    } else if i >= a.len() && j >= a.len() {
                        assert(labels@[i] == b[i - a.len()]);
                        assert(labels@[j] == b[j - a.len()]);
                    } else if i < a.len() && j >= a.len() {
                        if labels@[i] == labels@[j] {
                            assert(b[j - a.len()] == a[i]);
                            assert(b.contains(a[i]));
                        }
                    } else {
                        if labels@[i] == labels@[j] {
                            assert(b[i - a.len()] == a[j]);
                            assert(b.contains(a[j]));
                        }
                    }
                }
            }
            Ok(Series { index: Index::from_vec_unchecked(labels), values })
        } else {
            Err(OverlappingIndex)
        }
    }
}

impl<L: Label, R: RawType> Series<L, Option<R>> {
    /// Replaces every `None` in the value column with a copy of `value`,
    /// producing a `Series` of plain values; index and order untouched.
    pub fn fill_none(self, value: R) -> (r: Series<L, R>)
        requires
            self.wf(),
        ensures
            r@.0 == self@.0,
            r@.1.len() == self@.1.len(),
            forall|k: int|
                0 <= k < self@.1.len() ==> r@.1[k] == (match self@.1[k] {
                    Some(v) => v,
                    None => value,
                }),
            r.wf(),
    {
        let index = self.index;
        let values = self.values;
        let n = values.len();
        let mut out: Vec<R> = Vec::with_capacity(n);
        let mut i: usize = 0;
        while i < n
            invariant
                i <= n,
                n == values@.len(),
                out@.len() == i,
                forall|k: int|
                    0 <= k < i ==> out@[k] == (match values@[k] {
                        Some(v) => v,
                        None => value,
                    }),
            decreases n - i,
        {
            match &values[i] {
                Some(v) => {
                    out.push(v.clone_value());
                },
                None => {
                    out.push(value.clone_value());
                },
            }
            i += 1;
        }
        Series { index, values: out }
    }

    /// Replaces every `None` in the value column with a value the given
    /// function produces, called once per missing entry in position order;
    /// index and order untouched.
    pub fn fill_none_with<F: Fn() -> R>(self, func: F) -> (r: Series<L, R>)
        requires
            self.wf(),
            call_requires(func, ()),
        ensures
            r@.0 == self@.0,
            r@.1.len() == self@.1.len(),
            forall|k: int|
                0 <= k < self@.1.len() ==> match self@.1[k] {
                    Some(v) => r@.1[k] == v,
                    None => call_ensures(func, (), #[trigger] r@.1[k]),
                },
            r.wf(),
    {
        let index = self.index;
        let values = self.values;
        let n = values.len();
        let mut out: Vec<R> = Vec::with_capacity(n);
        let mut i: usize = 0;
        while i < n
            invariant
                i <= n,
                n == values@.len(),
                out@.len() == i,
                forall|k: int|
                    0 <= k < i ==> match values@[k] {
                        Some(v) => out@[k] == v,
                        None => call_ensures(func, (), #[trigger] out@[k]),
                    },
                call_requires(func, ()),
            decreases n - i,
        {
            match &values[i] {
                Some(v) => {
                    out.push(v.clone_value());
                },
                None => {
                    out.push(func());
                },
            }
            i += 1;
        }
        Series { index, values: out }
    }

    /// Drops every pair whose value is `None`, removing the matching
    /// labels from the index as well, and re-establishing the length
    /// invariant on what remains.
    pub fn drop_none(self) -> (r: Series<L, R>)
        requires
            self.wf(),
        ensures
            r@.0 == mask_filter(self@.0, some_mask(self@.1)),
            r@.1 == unwrap_somes(self@.1),
            r.wf(),
    {
        let ghost orig_labels = self@.0;
        let ghost orig_values = self@.1;
        let index = self.index;
        let values = self.values;
        let n = values.len();
        let mut new_labels: Vec<L> = Vec::new();
        let mut new_values: Vec<R> = Vec::with_capacity(n);
        let mut i: usize = 0;
        while i < n
            invariant
                i <= n,
                n == orig_labels.len(),
                n == orig_values.len(),
                index@ == orig_labels,
                values@ == orig_values,
                new_labels@ == mask_filter(
                    orig_labels.subrange(0, i as int),
                    some_mask(orig_values.subrange(0, i as int)),
                ),
                new_values@ == unwrap_somes(orig_values.subrange(0, i as int)),
            decreases n - i,
        {
            proof {
                let lp = orig_labels.subrange(0, i as int + 1);
                let vp = orig_values.subrange(0, i as int + 1);
                assert(lp.drop_last() =~= orig_labels.subrange(0, i as int));
                assert(vp.drop_last() =~= orig_values.subrange(0, i as int));
                assert(some_mask(vp).drop_last() =~= some_mask(vp.drop_last()));
                assert(some_mask(vp).last() == (orig_values[i as int] is Some));
            }
            match &values[i] {
                Some(v) => {
                    new_labels.push(index.label_at(i).clone_value());
                    new_values.push(v.clone_value());
                },
                None => {
                },
            }
            i += 1;
        }
        proof {
            assert(orig_labels.subrange(0, n as int) =~= orig_labels);
            assert(orig_values.subrange(0, n as int) =~= orig_values);
            lemma_mask_filter_no_duplicates(orig_labels, some_mask(orig_values));
            lemma_drop_none_len(orig_labels, orig_values);
        }
        Series { index: Index::from_vec_unchecked(new_labels), values: new_values }
    }
}

impl<L: Label, V: Storable> Default for Series<L, V> {
    /// The default `Series` is empty.
    fn default() -> (r: Self)
        ensures
            r@.0 == Seq::<L>::empty(),
            r@.1 == Seq::<V>::empty(),
            r.wf(),
    {
        Series::new()
    }
}

} // verus!
