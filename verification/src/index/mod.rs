pub mod iter;

use vstd::prelude::*;

use vstd::multiset::Multiset;

use crate::traits::label_le;
use crate::traits::lemma_label_le_total_ordering;
use crate::traits::Label;
use crate::types::DType;

verus! {

/// An ordered, duplicate-free collection of labels with lookup in both
/// directions: a position addresses its label (`iloc`), a label addresses
/// its position (`loc`). Order is insertion order until `sort` or `reverse`
/// rearranges it; positions are dense in `[0, len)` and not stable across
/// such rearrangements.
#[derive(Debug)]
pub struct Index<L> {
    labels: Vec<L>,
}

impl<L> View for Index<L> {
    type V = Seq<L>;

    closed spec fn view(&self) -> Seq<L> {
        self.labels@
    }
}

/// The position a label occupies in a label sequence, if it occurs there.
pub open spec fn loc_spec<L>(s: Seq<L>, l: L) -> Option<usize> {
    if s.contains(l) {
        Some(s.index_of(l) as usize)
    } else {
        None
    }
}

/// The labels of `s` in order of first occurrence, later repetitions dropped.
pub open spec fn dedup_first<L>(s: Seq<L>) -> Seq<L>
    decreases s.len(),
{
    if s.len() == 0 {
        Seq::empty()
    } else {
        let prefix = dedup_first(s.drop_last());
        if s.drop_last().contains(s.last()) {
            prefix
        } else {
            prefix.push(s.last())
        }
    }
}

/// `dedup_first` keeps exactly the elements of its input.
pub proof fn lemma_dedup_first_contains<L>(s: Seq<L>, x: L)
    ensures
        dedup_first(s).contains(x) <==> s.contains(x),
    decreases s.len(),
{
    if s.len() > 0 {
        lemma_dedup_first_contains(s.drop_last(), x);
        assert(s.contains(x) <==> (s.drop_last().contains(x) || s.last() == x)) by {
            if s.contains(x) {
                let i = choose|i: int| 0 <= i < s.len() && s[i] == x;
                if i < s.len() - 1 {
                    assert(s.drop_last()[i] == x);
                }
            }
            if s.drop_last().contains(x) {
                let i = choose|i: int| 0 <= i < s.drop_last().len() && s.drop_last()[i] == x;
                assert(s[i] == x);
            }
            if s.last() == x {
                assert(s[s.len() - 1] == x);
            }
        }
        if !s.drop_last().contains(s.last()) {
            let prefix = dedup_first(s.drop_last());
            assert forall|y: L| prefix.push(s.last()).contains(y) implies prefix.contains(y)
                || s.last() == y by {
                let i = choose|i: int|
                    0 <= i < prefix.push(s.last()).len() && prefix.push(s.last())[i] == y;
                if i < prefix.len() {
                    assert(prefix[i] == y);
                }
            }
            assert(prefix.push(s.last())[prefix.len() as int] == s.last());
            assert forall|y: L| prefix.contains(y) implies prefix.push(s.last()).contains(y) by {
                let i = choose|i: int| 0 <= i < prefix.len() && prefix[i] == y;
                assert(prefix.push(s.last())[i] == y);
            }
        }
    }
}

/// `dedup_first` yields a duplicate-free sequence.
pub proof fn lemma_dedup_first_no_duplicates<L>(s: Seq<L>)
    ensures
        dedup_first(s).no_duplicates(),
    decreases s.len(),
{
    if s.len() > 0 {
        lemma_dedup_first_no_duplicates(s.drop_last());
        if !s.drop_last().contains(s.last()) {
            lemma_dedup_first_contains(s.drop_last(), s.last());
            let prefix = dedup_first(s.drop_last());
            assert(!prefix.contains(s.last()));
            assert forall|i: int, j: int|
                0 <= i < prefix.push(s.last()).len() && 0 <= j < prefix.push(s.last()).len() && i
                    != j implies prefix.push(s.last())[i] != prefix.push(s.last())[j] by {
                if i < prefix.len() && j < prefix.len() {
                } else if i < prefix.len() && j == prefix.len() {
                    assert(prefix[i] == prefix.push(s.last())[i]);
                    if prefix[i] == s.last() {
                        assert(prefix.contains(s.last()));
                    }
                } else if j < prefix.len() && i == prefix.len() {
                    assert(prefix[j] == prefix.push(s.last())[j]);
                    if prefix[j] == s.last() {
                        assert(prefix.contains(s.last()));
                    }
                }
            }
        }
    }
}

/// One edge of a range of positions or labels.
#[derive(Debug, Clone, Copy)]
pub enum Bound<T> {
    /// The edge value itself lies inside the range.
    Included(T),
    /// The edge value lies just outside the range.
    Excluded(T),
    /// The range extends to the end of the index on this side.
    Unbounded,
}

/// The first position inside a range whose start edge is `b`, against an
/// index of length `len`; `None` when the edge does not resolve.
pub open spec fn resolve_start(b: Bound<usize>, len: int) -> Option<int> {
    match b {
        Bound::Included(i) => if i <= len {
            Some(i as int)
        } else {
            None
        },
        Bound::Excluded(i) => if i + 1 <= len {
            Some(i + 1)
        } else {
            None
        },
        Bound::Unbounded => Some(0),
    }
}

/// The first position beyond a range whose end edge is `b`, against an
/// index of length `len`; `None` when the edge does not resolve.
pub open spec fn resolve_end(b: Bound<usize>, len: int) -> Option<int> {
    match b {
        Bound::Included(i) => if i + 1 <= len {
            Some(i + 1)
        } else {
            None
        },
        Bound::Excluded(i) => if i <= len {
            Some(i as int)
        } else {
            None
        },
        Bound::Unbounded => Some(len),
    }
}

/// The positions `start <= p < end`, ascending; empty when `start >= end`.
pub open spec fn range_positions(start: int, end: int) -> Seq<usize> {
    if start < end {
        Seq::new((end - start) as nat, |k: int| (start + k) as usize)
    } else {
        Seq::empty()
    }
}

/// What `iloc_range` returns: both edges resolved independently against the
/// length, then the concrete interval between them.
pub open spec fn iloc_range_spec(len: int, start: Bound<usize>, end: Bound<usize>) -> Option<
    Seq<usize>,
> {
    match (resolve_start(start, len), resolve_end(end, len)) {
        (Some(lo), Some(hi)) => Some(range_positions(lo, hi)),
        _ => None,
    }
}

/// A label edge turned into a position edge by looking the label up;
/// `None` when the label is absent.
pub open spec fn resolve_label_bound<L>(b: Bound<L>, s: Seq<L>) -> Option<Bound<usize>> {
    match b {
        Bound::Included(l) => match loc_spec(s, l) {
            Some(p) => Some(Bound::Included(p)),
            None => None,
        },
        Bound::Excluded(l) => match loc_spec(s, l) {
            Some(p) => Some(Bound::Excluded(p)),
            None => None,
        },
        Bound::Unbounded => Some(Bound::Unbounded),
    }
}

/// What `loc_range` returns: both label edges resolved to positions, then
/// the interval between the resolved edges.
pub open spec fn loc_range_spec<L>(s: Seq<L>, start: Bound<L>, end: Bound<L>) -> Option<
    Seq<usize>,
> {
    match (resolve_label_bound(start, s), resolve_label_bound(end, s)) {
        (Some(bs), Some(be)) => iloc_range_spec(s.len() as int, bs, be),
        _ => None,
    }
}

/// The positions of `mask` that hold `true`, ascending.
pub open spec fn mask_positions(mask: Seq<bool>) -> Seq<usize>
    decreases mask.len(),
{
    if mask.len() == 0 {
        Seq::empty()
    } else {
        let prefix = mask_positions(mask.drop_last());
        if mask.last() {
            prefix.push((mask.len() - 1) as usize)
        } else {
            prefix
        }
    }
}

/// The labels of `s` stand in ascending order of the label type's total
/// order.
pub open spec fn sorted<L: Label>(s: Seq<L>) -> bool {
    forall|i: int, j: int| 0 <= i < j < s.len() ==> s[i].le_spec(s[j])
}

/// `sorted` agrees with the sortedness predicate of the standard proof
/// library, over the packaged relation `label_le`.
pub proof fn lemma_sorted_is_sorted_by<L: Label>(s: Seq<L>)
    ensures
        sorted::<L>(s) == vstd::relations::sorted_by(s, label_le::<L>()),
{
    let leq = label_le::<L>();
    if sorted::<L>(s) {
        assert forall|i: int, j: int| 0 <= i < j < s.len() implies #[trigger] leq(s[i], s[j]) by {
            assert(s[i].le_spec(s[j]));
        }
        assert(vstd::relations::sorted_by(s, leq));
    }
    if vstd::relations::sorted_by(s, leq) {
        assert forall|i: int, j: int| 0 <= i < j < s.len() implies s[i].le_spec(s[j]) by {
            assert(leq(s[i], s[j]));
        }
        assert(sorted::<L>(s));
    }
}

/// A sequence whose adjacent labels are in order is sorted throughout.
pub proof fn lemma_adjacent_sorted<L: Label>(s: Seq<L>)
    requires
        forall|k: int| 0 <= k < s.len() - 1 ==> #[trigger] s[k].le_spec(s[k + 1]),
    ensures
        sorted::<L>(s),
    decreases s.len(),
{
    if s.len() > 1 {
        let prefix = s.drop_last();
        assert forall|k: int| 0 <= k < prefix.len() - 1 implies #[trigger] prefix[k].le_spec(
            prefix[k + 1],
        ) by {
            assert(s[k].le_spec(s[k + 1]));
            assert(prefix[k] == s[k]);
            assert(prefix[k + 1] == s[k + 1]);
        }
        lemma_adjacent_sorted::<L>(prefix);
        let t = s.len() - 2;
        assert(s[t].le_spec(s[t + 1]));
        assert forall|i: int, j: int| 0 <= i < j < s.len() implies s[i].le_spec(s[j]) by {
            if j < s.len() - 1 {
                assert(prefix[i].le_spec(prefix[j]));
                assert(prefix[i] == s[i] && prefix[j] == s[j]);
            } else {
                if i == t {
                } else {
                    assert(prefix[i].le_spec(prefix[t]));
                    assert(prefix[i] == s[i] && prefix[t] == s[t]);
                    L::lemma_le_trans(s[i], s[t], s[j]);
                }
            }
        }
    }
}

/// The position within `idx` whose label (looked up in `v`) is least.
fn min_pos_of<L: Label>(v: &Vec<L>, idx: &Vec<usize>) -> (r: usize)
    requires
        idx@.len() > 0,
        forall|k: int| 0 <= k < idx@.len() ==> idx@[k] < v@.len(),
    ensures
        r < idx@.len(),
        forall|k: int|
            0 <= k < idx@.len() ==> v@[idx@[r as int] as int].le_spec(v@[idx@[k] as int]),
{
    let n = idx.len();
    let mut best: usize = 0;
    let mut i: usize = 1;
    proof {
        L::lemma_le_refl(v@[idx@[0] as int]);
    }
    while i < n
        invariant
            n == idx@.len(),
            forall|k: int| 0 <= k < n ==> idx@[k] < v@.len(),
            1 <= i <= n,
            best < i,
            forall|k: int| 0 <= k < i ==> v@[idx@[best as int] as int].le_spec(v@[idx@[k] as int]),
        decreases n - i,
    {
        if v[idx[i]].le_label(&v[idx[best]]) {
            proof {
                let x = v@[idx@[i as int] as int];
                assert forall|k: int| 0 <= k < i + 1 implies x.le_spec(v@[idx@[k] as int]) by {
                    if k < i {
                        L::lemma_le_trans(x, v@[idx@[best as int] as int], v@[idx@[k] as int]);
                    } else {
                        L::lemma_le_refl(x);
                    }
                }
            }
            best = i;
        } else {
            proof {
                L::lemma_le_total(v@[idx@[best as int] as int], v@[idx@[i as int] as int]);
            }
        }
        i += 1;
    }
    best
}

/// No label of `a` occurs in `b`.
pub open spec fn disjoint_spec<L>(a: Seq<L>, b: Seq<L>) -> bool {
    forall|i: int| 0 <= i < a.len() ==> !b.contains(#[trigger] a[i])
}

/// Every label of `a` occurs in `b`, and `a` has no more labels than `b`.
pub open spec fn subset_spec<L>(a: Seq<L>, b: Seq<L>) -> bool {
    a.len() <= b.len() && forall|i: int| 0 <= i < a.len() ==> b.contains(#[trigger] a[i])
}

/// As `subset_spec`, with strictly fewer labels in `a`.
pub open spec fn strict_subset_spec<L>(a: Seq<L>, b: Seq<L>) -> bool {
    a.len() < b.len() && forall|i: int| 0 <= i < a.len() ==> b.contains(#[trigger] a[i])
}

/// Disjointness does not depend on the order of its two arguments.
pub proof fn lemma_disjoint_symmetric<L>(a: Seq<L>, b: Seq<L>)
    ensures
        disjoint_spec(a, b) == disjoint_spec(b, a),
{
    assert forall|x: Seq<L>, y: Seq<L>| disjoint_spec(x, y) implies disjoint_spec(y, x) by {
        assert forall|i: int| 0 <= i < y.len() implies !x.contains(#[trigger] y[i]) by {
            if x.contains(y[i]) {
                let w = choose|w: int| 0 <= w < x.len() && x[w] == y[i];
                assert(y.contains(x[w]));
            }
        }
    }
}

/// For a duplicate-free `a`, containment alone decides the subset
/// relation: the length comparison that `subset_spec` carries follows
/// from it.
pub proof fn lemma_subset_spec_characterization<L>(a: Seq<L>, b: Seq<L>)
    requires
        a.no_duplicates(),
    ensures
        subset_spec(a, b) <==> (forall|i: int| 0 <= i < a.len() ==> b.contains(#[trigger] a[i])),
{
    broadcast use vstd::seq_lib::seq_to_set_is_finite;

    if forall|i: int| 0 <= i < a.len() ==> b.contains(#[trigger] a[i]) {
        a.unique_seq_to_set();
        b.lemma_cardinality_of_set();
        assert(a.to_set().subset_of(b.to_set())) by {
            assert forall|x: L| a.to_set().contains(x) implies b.to_set().contains(x) by {
                assert(a.contains(x));
                let i = choose|i: int| 0 <= i < a.len() && a[i] == x;
                assert(b.contains(a[i]));
            }
        }
        vstd::set_lib::lemma_len_subset(a.to_set(), b.to_set());
    }
}

/// Position and label lookup invert each other: the label at a valid
/// position looks up to exactly that position, and the position of a
/// contained label holds exactly that label.
pub proof fn lemma_loc_iloc_roundtrip<L>(s: Seq<L>, p: int, l: L)
    requires
        s.no_duplicates(),
        s.len() <= usize::MAX,
    ensures
        0 <= p < s.len() ==> loc_spec(s, s[p]) == Some(p as usize),
        s.contains(l) ==> loc_spec(s, l) is Some && s[loc_spec(s, l).unwrap() as int] == l,
{
    if 0 <= p < s.len() {
        assert(s.contains(s[p]));
        let w = s.index_of(s[p]);
        assert(s[w] == s[p]);
        if w != p {
            assert(s[w] != s[p]);
        }
    }
    if s.contains(l) {
        let w = s.index_of(l);
        assert(s[w] == l);
    }
}

/// Reversing twice restores the original order.
pub proof fn lemma_reverse_involutive<L>(s: Seq<L>)
    ensures
        s.reverse().reverse() == s,
{
    assert(s.reverse().reverse() =~= s);
}

/// Sorting leaves the labels in ascending order: the sequence `sort`
/// produces satisfies the predicate `is_sorted` decides.
pub proof fn lemma_sort_then_is_sorted<L: Label>(s: Seq<L>)
    ensures
        sorted::<L>(s.sort_by(label_le::<L>())),
{
    lemma_label_le_total_ordering::<L>();
    s.lemma_sort_by_ensures(label_le::<L>());
    lemma_sorted_is_sorted_by::<L>(s.sort_by(label_le::<L>()));
}

/// The position of the least label of `v`.
fn min_label_pos<L: Label>(v: &Vec<L>) -> (r: usize)
    requires
        v@.len() > 0,
    ensures
        r < v@.len(),
        forall|k: int| 0 <= k < v@.len() ==> v@[r as int].le_spec(v@[k]),
{
    let n = v.len();
    let mut best: usize = 0;
    let mut i: usize = 1;
    proof {
        L::lemma_le_refl(v@[0]);
    }
    while i < n
        invariant
            n == v@.len(),
            1 <= i <= n,
            best < i,
            forall|k: int| 0 <= k < i ==> v@[best as int].le_spec(v@[k]),
        decreases n - i,
    {
        if v[i].le_label(&v[best]) {
            proof {
                let x = v@[i as int];
                assert forall|k: int| 0 <= k < i + 1 implies x.le_spec(v@[k]) by {
                    if k < i {
                        L::lemma_le_trans(x, v@[best as int], v@[k]);
                    } else {
                        L::lemma_le_refl(x);
                    }
                }
            }
            best = i;
        } else {
            proof {
                L::lemma_le_total(v@[best as int], v@[i as int]);
            }
        }
        i += 1;
    }
    best
}

impl<L: Label> Index<L> {
    /// The structural invariant: no two positions hold equal labels.
    pub open spec fn wf(&self) -> bool {
        self@.no_duplicates()
    }

    /// Creates an empty `Index`.
    pub fn new() -> (r: Self)
        ensures
            r@ == Seq::<L>::empty(),
            r.wf(),
    {
        Index { labels: Vec::new() }
    }

    /// Creates an empty `Index` with room for at least `capacity` labels.
    pub fn with_capacity(capacity: usize) -> (r: Self)
        ensures
            r@ == Seq::<L>::empty(),
            r.wf(),
    {
        Index { labels: Vec::with_capacity(capacity) }
    }

    /// The tag of the label type of this `Index`.
    pub fn dtype(&self) -> (r: DType)
        ensures
            r == L::dtype_spec(),
    {
        L::dtype()
    }

    /// The number of labels.
    pub fn len(&self) -> (r: usize)
        ensures
            r == self@.len(),
    {
        self.labels.len()
    }

    /// Whether this `Index` holds no labels.
    pub fn is_empty(&self) -> (r: bool)
        ensures
            r == (self@.len() == 0),
    {
        self.labels.len() == 0
    }

    /// Removes every label.
    pub fn clear(&mut self)
        ensures
            final(self)@ == Seq::<L>::empty(),
            final(self).wf(),
    {
        self.labels.clear();
    }

    /// Whether `label` occurs in this `Index`.
    pub fn contains(&self, label: &L) -> (r: bool)
        ensures
            r == self@.contains(*label),
    {
        let n = self.labels.len();
        let mut i: usize = 0;
        while i < n
            invariant
                i <= n,
                n == self@.len(),
                forall|k: int| 0 <= k < i ==> self@[k] != *label,
            decreases n - i,
        {
            if self.labels[i].eq_label(label) {
                return true;
            }
            i += 1;
        }
        false
    }

    /// Appends `key` if it is not already present; reports whether it was
    /// inserted. The duplicate-free invariant is preserved either way.
    pub fn push(&mut self, key: L) -> (r: bool)
        requires
            old(self).wf(),
        ensures
            final(self).wf(),
            r == !old(self)@.contains(key),
            r ==> final(self)@ == old(self)@.push(key),
            !r ==> final(self)@ == old(self)@,
    {
        if self.contains(&key) {
            false
        } else {
            proof {
                let s = self@.push(key);
                assert forall|i: int, j: int|
                    0 <= i < s.len() && 0 <= j < s.len() && i != j implies s[i] != s[j] by {
                    if i < self@.len() && j < self@.len() {
                    } else if i < self@.len() && j == self@.len() {
                        assert(s[i] == self@[i]);
                    } else if j < self@.len() && i == self@.len() {
                        assert(s[j] == self@[j]);
                    }
                }
            }
            self.labels.push(key);
            true
        }
    }

    /// The position of `label`, or `None` if it is absent.
    pub fn index_of(&self, label: &L) -> (r: Option<usize>)
        requires
            self.wf(),
        ensures
            r == loc_spec(self@, *label),
            r is Some ==> r.unwrap() < self@.len() && self@[r.unwrap() as int] == *label,
            r is None ==> !self@.contains(*label),
    {
        let n = self.labels.len();
        let mut i: usize = 0;
        while i < n
            invariant
                self.wf(),
                i <= n,
                n == self@.len(),
                forall|k: int| 0 <= k < i ==> self@[k] != *label,
            decreases n - i,
        {
            if self.labels[i].eq_label(label) {
                proof {
                    assert(self@[i as int] == *label);
                    assert(self@.contains(*label));
                    let w = self@.index_of(*label);
                    assert(self@[w] == *label);
                    if w != i as int {
                        assert(self@[w] != self@[i as int]);
                    }
                }
                return Some(i);
            }
            i += 1;
        }
        proof {
            if self@.contains(*label) {
                let w = choose|k: int| 0 <= k < self@.len() && self@[k] == *label;
                assert(self@[w] != *label);
            }
        }
        None
    }

    /// The position of `label`, or `None` if it is absent.
    pub fn loc(&self, label: &L) -> (r: Option<usize>)
        requires
            self.wf(),
        ensures
            r == loc_spec(self@, *label),
            r is Some ==> r.unwrap() < self@.len() && self@[r.unwrap() as int] == *label,
            r is None ==> !self@.contains(*label),
    {
        self.index_of(label)
    }

    /// The label at position `pos`, or `None` if `pos` is out of bounds.
    pub fn iloc(&self, pos: usize) -> (r: Option<&L>)
        ensures
            r is Some <==> pos < self@.len(),
            r is Some ==> *r.unwrap() == self@[pos as int],
    {
        if pos < self.labels.len() {
            Some(&self.labels[pos])
        } else {
            None
        }
    }

    /// Consumes the `Index` and hands its labels out as a vector, in
    /// order.
    pub fn into_vec(self) -> (r: Vec<L>)
        ensures
            r@ == self@,
    {
        self.labels
    }

    /// Wraps a label vector already known to be duplicate-free.
    pub(crate) fn from_vec_unchecked(labels: Vec<L>) -> (r: Self)
        requires
            labels@.no_duplicates(),
        ensures
            r@ == labels@,
            r.wf(),
    {
        Index { labels }
    }

    /// The label at a position known to be in bounds.
    pub(crate) fn label_at(&self, pos: usize) -> (r: &L)
        requires
            pos < self@.len(),
        ensures
            *r == self@[pos as int],
    {
        &self.labels[pos]
    }

    /// A single-pass cursor over the labels, front to back or back to
    /// front.
    pub fn iter<'a>(&'a self) -> (r: iter::Iter<'a, L>)
        ensures
            r.wf(),
            r.remaining() == self@,
    {
        iter::Iter::new(self)
    }

    /// Consumes the `Index` and hands out a single-pass cursor over its
    /// labels, front to back or back to front.
    pub fn into_iter(self) -> (r: iter::IntoIter<L>)
        ensures
            r.remaining() == self@,
    {
        iter::IntoIter::new(self)
    }

    /// A lazy, single-pass sequence of the labels of this `Index` that do
    /// not occur in `other`, in this `Index`'s order.
    pub fn difference<'a>(&'a self, other: &'a Self) -> (r: iter::Difference<'a, L>)
        ensures
            r.wf(),
            r.remaining() == iter::seq_difference(self@, other@),
    {
        iter::Difference::new(self, other)
    }

    /// A lazy, single-pass sequence: the labels only in this `Index`, then
    /// the labels only in `other`.
    pub fn symmetric_difference<'a>(&'a self, other: &'a Self) -> (r: iter::SymmetricDifference<
        'a,
        L,
    >)
        ensures
            r.wf(),
            r.remaining() == iter::seq_symmetric_difference(self@, other@),
    {
        iter::SymmetricDifference::new(self, other)
    }

    /// A lazy, single-pass sequence of the labels of this `Index` that also
    /// occur in `other`, in this `Index`'s order.
    pub fn intersection<'a>(&'a self, other: &'a Self) -> (r: iter::Intersection<'a, L>)
        ensures
            r.wf(),
            r.remaining() == iter::seq_intersection(self@, other@),
    {
        iter::Intersection::new(self, other)
    }

    /// A lazy, single-pass sequence: this `Index`'s labels, then the labels
    /// of `other` that this `Index` lacks. Duplicates drop out by
    /// construction.
    pub fn union<'a>(&'a self, other: &'a Self) -> (r: iter::Union<'a, L>)
        ensures
            r.wf(),
            r.remaining() == iter::seq_union(self@, other@),
    {
        iter::Union::new(self, other)
    }

    /// Produces a copy with the same labels in the same order.
    pub fn duplicate(&self) -> (r: Self)
        ensures
            r@ == self@,
    {
        let n = self.labels.len();
        let mut out: Vec<L> = Vec::with_capacity(n);
        let mut i: usize = 0;
        while i < n
            invariant
                i <= n,
                n == self@.len(),
                out@ == self@.take(i as int),
            decreases n - i,
        {
            out.push(self.labels[i].clone_value());
            proof {
                assert(out@ =~= self@.take(i as int + 1));
            }
            i += 1;
        }
        proof {
            assert(out@ =~= self@);
        }
        Index { labels: out }
    }

    /// Builds an `Index` from the labels of `v`, keeping the first occurrence
    /// of each label and silently dropping later repetitions.
    pub fn from_vec(v: Vec<L>) -> (r: Self)
        ensures
            r@ == dedup_first(v@),
            r.wf(),
    {
        let n = v.len();
        let mut out = Index::<L>::new();
        let mut i: usize = 0;
        while i < n
            invariant
                i <= n,
                n == v@.len(),
                out.wf(),
                out@ == dedup_first(v@.take(i as int)),
            decreases n - i,
        {
            proof {
                let prefix = v@.take(i as int);
                let next = v@.take(i as int + 1);
                assert(next.drop_last() =~= prefix);
                assert(next.last() == v@[i as int]);
                lemma_dedup_first_contains(prefix, v@[i as int]);
            }
            out.push(v[i].clone_value());
            i += 1;
        }
        proof {
            assert(v@.take(n as int) =~= v@);
        }
        out
    }

    /// The labels at the given positions, in the callers' order, or `None`
    /// as soon as any position is out of bounds.
    pub fn iloc_multi(&self, positions: &Vec<usize>) -> (r: Option<Vec<L>>)
        ensures
            r is Some <==> (forall|k: int|
                0 <= k < positions@.len() ==> positions@[k] < self@.len()),
            r is Some ==> r.unwrap()@.len() == positions@.len() && (forall|k: int|
                0 <= k < positions@.len() ==> r.unwrap()@[k] == self@[positions@[k] as int]),
    {
        let n = positions.len();
        let mut out: Vec<L> = Vec::with_capacity(n);
        let mut i: usize = 0;
        while i < n
            invariant
                i <= n,
                n == positions@.len(),
                out@.len() == i,
                forall|k: int| 0 <= k < i ==> positions@[k] < self@.len(),
                forall|k: int| 0 <= k < i ==> out@[k] == self@[positions@[k] as int],
            decreases n - i,
        {
            let p = positions[i];
            if p >= self.labels.len() {
                return None;
            }
            out.push(self.labels[p].clone_value());
            i += 1;
        }
        Some(out)
    }

    /// Per-element flavor of `iloc_multi`: one lookup outcome for each
    /// requested position, an out-of-bounds position reported as `None`
    /// in place instead of aborting the whole call.
    pub fn iloc_multi_each(&self, positions: &Vec<usize>) -> (r: Vec<Option<L>>)
        ensures
            r@.len() == positions@.len(),
            forall|k: int|
                0 <= k < positions@.len() ==> r@[k] == (if positions@[k] < self@.len() {
                    Some(self@[positions@[k] as int])
                } else {
                    None::<L>
                }),
    {
        let n = positions.len();
        let mut out: Vec<Option<L>> = Vec::with_capacity(n);
        let mut i: usize = 0;
        while i < n
            invariant
                i <= n,
                n == positions@.len(),
                out@.len() == i,
                forall|k: int|
                    0 <= k < i ==> out@[k] == (if positions@[k] < self@.len() {
                        Some(self@[positions@[k] as int])
                    } else {
                        None::<L>
                    }),
            decreases n - i,
        {
            let p = positions[i];
            if p < self.labels.len() {
                out.push(Some(self.labels[p].clone_value()));
            } else {
                out.push(None);
            }
            i += 1;
        }
        out
    }

    /// The positions of the given labels, in the callers' order, or `None`
    /// as soon as any label is absent.
    pub fn loc_multi(&self, labels: &Vec<L>) -> (r: Option<Vec<usize>>)
        requires
            self.wf(),
        ensures
            r is Some <==> (forall|k: int|
                0 <= k < labels@.len() ==> self@.contains(labels@[k])),
            r is Some ==> r.unwrap()@.len() == labels@.len() && (forall|k: int|
                0 <= k < labels@.len() ==> Some(r.unwrap()@[k]) == loc_spec(
                    self@,
                    labels@[k],
                )),
    {
        let n = labels.len();
        let mut out: Vec<usize> = Vec::with_capacity(n);
        let mut i: usize = 0;
        while i < n
            invariant
                self.wf(),
                i <= n,
                n == labels@.len(),
                out@.len() == i,
                forall|k: int| 0 <= k < i ==> self@.contains(labels@[k]),
                forall|k: int| 0 <= k < i ==> Some(out@[k]) == loc_spec(self@, labels@[k]),
            decreases n - i,
        {
            match self.index_of(&labels[i]) {
                Some(p) => {
                    out.push(p);
                },
                None => {
                    return None;
                },
            }
            i += 1;
        }
        Some(out)
    }

    /// Per-element flavor of `loc_multi`: one lookup outcome for each
    /// requested label, an absent label reported as `None` in place instead
    /// of aborting the whole call.
    pub fn loc_multi_each(&self, labels: &Vec<L>) -> (r: Vec<Option<usize>>)
        requires
            self.wf(),
        ensures
            r@.len() == labels@.len(),
            forall|k: int| 0 <= k < labels@.len() ==> r@[k] == loc_spec(self@, labels@[k]),
    {
        let n = labels.len();
        let mut out: Vec<Option<usize>> = Vec::with_capacity(n);
        let mut i: usize = 0;
        while i < n
            invariant
                self.wf(),
                i <= n,
                n == labels@.len(),
                out@.len() == i,
                forall|k: int| 0 <= k < i ==> out@[k] == loc_spec(self@, labels@[k]),
            decreases n - i,
        {
            out.push(self.index_of(&labels[i]));
            i += 1;
        }
        out
    }

    /// Translates a pair of position edges into the concrete interval of
    /// positions between them. Both edges are validated independently, even
    /// when the interval comes out empty; an edge that does not resolve makes
    /// the whole call `None`. A resolved but inverted pair yields an empty
    /// interval, not `None`.
    pub fn iloc_range(&self, start: Bound<usize>, end: Bound<usize>) -> (r: Option<Vec<usize>>)
        ensures
            r is Some <==> iloc_range_spec(self@.len() as int, start, end) is Some,
            r is Some ==> r.unwrap()@ == iloc_range_spec(self@.len() as int, start, end).unwrap(),
    {
        let len = self.labels.len();
        let lo: usize = match start {
            Bound::Included(i) => {
                if i <= len {
                    i
                } else {
                    return None;
                }
            },
            Bound::Excluded(i) => {
                if i < len {
                    i + 1
                } else {
                    return None;
                }
            },
            Bound::Unbounded => 0,
        };
        let hi: usize = match end {
            Bound::Included(i) => {
                if i < len {
                    i + 1
                } else {
                    return None;
                }
            },
            Bound::Excluded(i) => {
                if i <= len {
                    i
                } else {
                    return None;
                }
            },
            Bound::Unbounded => len,
        };
        let mut out: Vec<usize> = Vec::new();
        let mut p: usize = lo;
        while p < hi
            invariant
                lo <= p,
                p <= hi || p == lo,
                out@ == range_positions(lo as int, p as int),
            decreases hi - p,
        {
            out.push(p);
            proof {
                assert(out@ =~= range_positions(lo as int, p as int + 1));
            }
            p += 1;
        }
        proof {
            if lo >= hi {
                assert(out@ =~= range_positions(lo as int, hi as int));
            }
        }
        Some(out)
    }

    /// Translates a pair of label edges into the concrete interval of
    /// positions between them. Each label is looked up independently; an
    /// absent label makes the whole call `None`, even when the interval
    /// would have been empty.
    pub fn loc_range(&self, start: Bound<L>, end: Bound<L>) -> (r: Option<Vec<usize>>)
        requires
            self.wf(),
        ensures
            r is Some <==> loc_range_spec(self@, start, end) is Some,
            r is Some ==> r.unwrap()@ == loc_range_spec(self@, start, end).unwrap(),
    {
        let start_pos: Bound<usize> = match start {
            Bound::Included(l) => {
                match self.index_of(&l) {
                    Some(p) => Bound::Included(p),
                    None => {
                        return None;
                    },
                }
            },
            Bound::Excluded(l) => {
                match self.index_of(&l) {
                    Some(p) => Bound::Excluded(p),
                    None => {
                        return None;
                    },
                }
            },
            Bound::Unbounded => Bound::Unbounded,
        };
        let end_pos: Bound<usize> = match end {
            Bound::Included(l) => {
                match self.index_of(&l) {
                    Some(p) => Bound::Included(p),
                    None => {
                        return None;
                    },
                }
            },
            Bound::Excluded(l) => {
                match self.index_of(&l) {
                    Some(p) => Bound::Excluded(p),
                    None => {
                        return None;
                    },
                }
            },
            Bound::Unbounded => Bound::Unbounded,
        };
        proof {
            assert(resolve_label_bound(start, self@) == Some(start_pos));
            assert(resolve_label_bound(end, self@) == Some(end_pos));
        }
        self.iloc_range(start_pos, end_pos)
    }

    /// The positions whose mask entry is `true`, ascending; `None` when the
    /// mask length differs from the index length.
    pub fn bloc(&self, mask: &Vec<bool>) -> (r: Option<Vec<usize>>)
        ensures
            r is Some <==> mask@.len() == self@.len(),
            r is Some ==> r.unwrap()@ == mask_positions(mask@),
    {
        if mask.len() != self.labels.len() {
            return None;
        }
        let n = mask.len();
        let mut out: Vec<usize> = Vec::new();
        let mut i: usize = 0;
        while i < n
            invariant
                i <= n,
                n == mask@.len(),
                out@ == mask_positions(mask@.take(i as int)),
            decreases n - i,
        {
            proof {
                let next = mask@.take(i as int + 1);
                assert(next.drop_last() =~= mask@.take(i as int));
                assert(next.last() == mask@[i as int]);
            }
            if mask[i] {
                out.push(i);
            }
            i += 1;
        }
        proof {
            assert(mask@.take(n as int) =~= mask@);
        }
        Some(out)
    }

    /// Reverses the order of the labels in place. Positions are renumbered
    /// accordingly; applying `reverse` twice restores the original order.
    pub fn reverse(&mut self)
        requires
            old(self).wf(),
        ensures
            final(self)@ == old(self)@.reverse(),
            final(self).wf(),
    {
        let n = self.labels.len();
        let mut out: Vec<L> = Vec::with_capacity(n);
        let mut i: usize = 0;
        while i < n
            invariant
                i <= n,
                n == self@.len(),
                out@.len() == i,
                forall|k: int| 0 <= k < i ==> out@[k] == self@[n - 1 - k],
            decreases n - i,
        {
            out.push(self.labels[n - 1 - i].clone_value());
            i += 1;
        }
        proof {
            assert(out@ =~= self@.reverse());
            assert forall|i: int, j: int|
                0 <= i < out@.len() && 0 <= j < out@.len() && i != j implies out@[i]
                != out@[j] by {
                assert(out@[i] == self@[n - 1 - i]);
                assert(out@[j] == self@[n - 1 - j]);
            }
        }
        self.labels = out;
    }

    /// Sorts the labels in place into the ascending order of the label
    /// type's total order. All previously handed-out positions are
    /// invalidated.
    pub fn sort(&mut self)
        requires
            old(self).wf(),
        ensures
            final(self)@ == old(self)@.sort_by(label_le::<L>()),
            sorted::<L>(final(self)@),
            final(self)@.to_multiset() == old(self)@.to_multiset(),
            final(self).wf(),
    {
        let ghost orig = self@;
        let n = self.labels.len();
        let mut out: Vec<L> = Vec::with_capacity(n);
        proof {
            broadcast use vstd::seq_lib::group_to_multiset_ensures;
            broadcast use vstd::multiset::group_multiset_axioms;

            assert(out@.to_multiset().add(self@.to_multiset()) =~= orig.to_multiset());
        }
        while self.labels.len() > 0
            invariant
                sorted::<L>(out@),
                out@.to_multiset().add(self@.to_multiset()) == orig.to_multiset(),
                forall|i: int, j: int|
                    0 <= i < out@.len() && 0 <= j < self@.len() ==> out@[i].le_spec(self@[j]),
            decreases self.labels.len(),
        {
            let m = min_label_pos::<L>(&self.labels);
            let ghost pre = self@;
            let ghost pre_out = out@;
            let x = self.labels.remove(m);
            out.push(x);
            proof {
                broadcast use vstd::seq_lib::group_to_multiset_ensures;
                broadcast use vstd::multiset::group_multiset_axioms;

                assert(out@ == pre_out.push(x));
                assert(self@ == pre.remove(m as int));
                assert(out@.to_multiset() =~= pre_out.to_multiset().insert(x));
                assert(self@.to_multiset() =~= pre.to_multiset().remove(x));
                assert(pre.to_multiset().contains(x)) by {
                    assert(pre.contains(x));
                }
                assert(out@.to_multiset().add(self@.to_multiset()) =~= pre_out.to_multiset().add(
                    pre.to_multiset(),
                ));
                pre.remove_ensures(m as int);
                assert forall|i: int, j: int|
                    0 <= i < out@.len() && 0 <= j < self@.len() implies out@[i].le_spec(
                    self@[j],
                ) by {
                    let y = self@[j];
                    assert(pre.contains(y)) by {
                        if j < m {
                            assert(self@[j] == pre[j]);
                        } else {
                            assert(self@[j] == pre[j + 1]);
                        }
                    }
                    let w = choose|w: int| 0 <= w < pre.len() && pre[w] == y;
                    assert(x.le_spec(y)) by {
                        assert(pre[m as int].le_spec(pre[w]));
                    }
                    if i < pre_out.len() {
                        assert(pre_out[i].le_spec(y)) by {
                            if j < m {
                                assert(pre_out[i].le_spec(pre[j]));
                            } else {
                                assert(pre_out[i].le_spec(pre[j + 1]));
                            }
                        }
                    }
                }
                assert forall|i: int, j: int| 0 <= i < j < out@.len() implies out@[i].le_spec(
                    out@[j],
                ) by {
                    if j == out@.len() - 1 {
                        assert(pre_out[i].le_spec(pre[m as int]));
                    }
                }
            }
        }
        proof {
            broadcast use vstd::seq_lib::group_to_multiset_ensures;
            broadcast use vstd::multiset::group_multiset_axioms;

            assert(self@.to_multiset() =~= Multiset::<L>::empty());
            assert(out@.to_multiset() =~= orig.to_multiset());
            lemma_label_le_total_ordering::<L>();
            orig.lemma_sort_by_ensures(label_le::<L>());
            lemma_sorted_is_sorted_by::<L>(out@);
            vstd::seq_lib::lemma_sorted_unique(out@, orig.sort_by(label_le::<L>()), label_le::<L>());
            orig.lemma_multiset_has_no_duplicates();
            out@.lemma_multiset_has_no_duplicates_conv();
        }
        self.labels = out;
    }

    /// The permutation of `[0, len)` that `sort` would apply: position
    /// `k` of the result names the label that ends up at position `k`
    /// after sorting. The `Index` itself is left untouched.
    pub fn arg_sort(&self) -> (r: Vec<usize>)
        requires
            self.wf(),
        ensures
            r@.len() == self@.len(),
            r@.no_duplicates(),
            forall|k: int| 0 <= k < r@.len() ==> r@[k] < self@.len(),
            forall|p: usize| p < self@.len() ==> r@.contains(p),
            forall|i: int, j: int|
                0 <= i < j < r@.len() ==> self@[r@[i] as int].le_spec(self@[r@[j] as int]),
    {
        let n = self.labels.len();
        let ghost all = Seq::<usize>::new(n as nat, |i: int| i as usize);
        let mut rest: Vec<usize> = Vec::with_capacity(n);
        let mut i: usize = 0;
        while i < n
            invariant
                i <= n,
                rest@ == Seq::<usize>::new(i as nat, |k: int| k as usize),
            decreases n - i,
        {
            rest.push(i);
            proof {
                assert(rest@ =~= Seq::<usize>::new(i as nat + 1, |k: int| k as usize));
            }
            i += 1;
        }
        let mut out: Vec<usize> = Vec::with_capacity(n);
        proof {
            broadcast use vstd::seq_lib::group_to_multiset_ensures;
            broadcast use vstd::multiset::group_multiset_axioms;

            assert(rest@ == all);
            assert(out@.to_multiset().add(rest@.to_multiset()) =~= all.to_multiset());
        }
        while rest.len() > 0
            invariant
                n == self@.len(),
                all == Seq::<usize>::new(n as nat, |i: int| i as usize),
                out@.to_multiset().add(rest@.to_multiset()) == all.to_multiset(),
                forall|k: int| 0 <= k < out@.len() ==> out@[k] < n,
                forall|k: int| 0 <= k < rest@.len() ==> rest@[k] < n,
                forall|i: int, j: int|
                    0 <= i < j < out@.len() ==> self@[out@[i] as int].le_spec(
                        self@[out@[j] as int],
                    ),
                forall|i: int, j: int|
                    0 <= i < out@.len() && 0 <= j < rest@.len() ==> self@[out@[i] as int].le_spec(
                        self@[rest@[j] as int],
                    ),
            decreases rest.len(),
        {
            let m = min_pos_of::<L>(&self.labels, &rest);
            let ghost pre_rest = rest@;
            let ghost pre_out = out@;
            let p = rest.remove(m);
            out.push(p);
            proof {
                broadcast use vstd::seq_lib::group_to_multiset_ensures;
                broadcast use vstd::multiset::group_multiset_axioms;

                assert(out@ == pre_out.push(p));
                assert(rest@ == pre_rest.remove(m as int));
                assert(out@.to_multiset() =~= pre_out.to_multiset().insert(p));
                assert(rest@.to_multiset() =~= pre_rest.to_multiset().remove(p));
                assert(pre_rest.to_multiset().contains(p)) by {
                    assert(pre_rest.contains(p));
                }
                assert(out@.to_multiset().add(rest@.to_multiset()) =~= pre_out.to_multiset().add(
                    pre_rest.to_multiset(),
                ));
                pre_rest.remove_ensures(m as int);
                assert forall|i: int, j: int|
                    0 <= i < out@.len() && 0 <= j < rest@.len() implies self@[out@[i] as int].le_spec(
                    self@[rest@[j] as int],
                ) by {
                    let q = rest@[j];
                    assert(pre_rest.contains(q)) by {
                        if j < m {
                            assert(rest@[j] == pre_rest[j]);
                        } else {
                            assert(rest@[j] == pre_rest[j + 1]);
                        }
                    }
                    let w = choose|w: int| 0 <= w < pre_rest.len() && pre_rest[w] == q;
                    assert(self@[p as int].le_spec(self@[q as int])) by {
                        assert(self@[pre_rest[m as int] as int].le_spec(self@[pre_rest[w] as int]));
                    }
                    if i < pre_out.len() {
                        assert(self@[pre_out[i] as int].le_spec(self@[q as int])) by {
                            if j < m {
                                assert(self@[pre_out[i] as int].le_spec(self@[pre_rest[j] as int]));
                            } else {
                                assert(self@[pre_out[i] as int].le_spec(
                                    self@[pre_rest[j + 1] as int],
                                ));
                            }
                        }
                    }
                }
                assert forall|i: int, j: int|
                    0 <= i < j < out@.len() implies self@[out@[i] as int].le_spec(
                    self@[out@[j] as int],
                ) by {
                    if j == out@.len() - 1 {
                        assert(self@[pre_out[i] as int].le_spec(self@[pre_rest[m as int] as int]));
                    }
                }
            }
        }
        proof {
            broadcast use vstd::seq_lib::group_to_multiset_ensures;
            broadcast use vstd::multiset::group_multiset_axioms;

            assert(rest@.to_multiset() =~= Multiset::<usize>::empty());
            assert(out@.to_multiset() =~= all.to_multiset());
            assert(all.no_duplicates());
            all.lemma_multiset_has_no_duplicates();
            out@.lemma_multiset_has_no_duplicates_conv();
            assert(out@.len() == all.len()) by {
                assert(out@.to_multiset().len() == out@.len());
                assert(all.to_multiset().len() == all.len());
            }
            assert forall|p: usize| p < self@.len() implies out@.contains(p) by {
                assert(all[p as int] == p);
                assert(all.contains(p));
                assert(all.to_multiset().count(p) > 0);
                assert(out@.to_multiset().count(p) > 0);
            }
        }
        out
    }

    /// How many labels this `Index` can hold without growing.
    pub fn capacity(&self) -> (r: usize)
        ensures
            r >= self@.len(),
    {
        crate::series::values::vec_capacity(&self.labels)
    }

    /// Reorders the labels in place with a caller-supplied comparison.
    /// The contract certifies the order pair by pair: for each adjacent
    /// pair of the result there is a witnessed comparison outcome that
    /// puts it in order, taken forward (not `Greater`) or backward (not
    /// `Less`) as recorded by the direction flags; the labels are a
    /// permutation of the old ones and the invariant is kept. `sort`
    /// carries the deterministic ordering contract.
    pub fn sort_by<F: Fn(&L, &L) -> core::cmp::Ordering>(&mut self, compare: F)
        requires
            old(self).wf(),
            forall|a: L, b: L| call_requires(compare, (&a, &b)),
        ensures
            final(self)@.to_multiset() == old(self)@.to_multiset(),
            final(self).wf(),
            exists|os: Seq<core::cmp::Ordering>, ds: Seq<bool>|
                {
                    &&& os.len() == (if final(self)@.len() == 0 {
                        0int
                    } else {
                        final(self)@.len() - 1
                    })
                    &&& ds.len() == os.len()
                    &&& (forall|p: int|
                        0 <= p < os.len() ==> if ds[p] {
                            call_ensures(
                                compare,
                                (&final(self)@[p], &final(self)@[p + 1]),
                                #[trigger] os[p],
                            ) && os[p] != core::cmp::Ordering::Greater
                        } else {
                            call_ensures(compare, (&final(self)@[p + 1], &final(self)@[p]), os[p])
                                && os[p] != core::cmp::Ordering::Less
                        })
                },
    {
        let ghost orig = self@;
        let mut out: Vec<L> = Vec::with_capacity(self.labels.len());
        let ghost mut os: Seq<core::cmp::Ordering> = Seq::empty();
        let ghost mut ds: Seq<bool> = Seq::empty();
        proof {
            broadcast use vstd::seq_lib::group_to_multiset_ensures;
            broadcast use vstd::multiset::group_multiset_axioms;

            assert(out@.to_multiset().add(self@.to_multiset()) =~= orig.to_multiset());
        }
        while self.labels.len() > 0
            invariant
                out@.to_multiset().add(self@.to_multiset()) == orig.to_multiset(),
                os.len() == (if out@.len() == 0 {
                    0int
                } else {
                    out@.len() - 1
                }),
                ds.len() == os.len(),
                forall|p: int|
                    0 <= p < os.len() ==> if ds[p] {
                        call_ensures(compare, (&out@[p], &out@[p + 1]), #[trigger] os[p]) && os[p]
                            != core::cmp::Ordering::Greater
                    } else {
                        call_ensures(compare, (&out@[p + 1], &out@[p]), os[p]) && os[p]
                            != core::cmp::Ordering::Less
                    },
                forall|a: L, b: L| call_requires(compare, (&a, &b)),
            decreases self.labels.len(),
        {
            let ghost pre = self@;
            let ghost pre_out = out@;
            let ghost pre_os = os;
            let ghost pre_ds = ds;
            let x = self.labels.pop().unwrap();
            let n_out = out.len();
            let mut k: usize = 0;
            let mut found = false;
            let ghost mut last_o: core::cmp::Ordering = core::cmp::Ordering::Equal;
            while k < n_out && !found
                invariant
                    k <= n_out,
                    n_out == out@.len(),
                    out@ == pre_out,
                    found ==> k < n_out && call_ensures(
                        compare,
                        (&x, &out@[k as int]),
                        core::cmp::Ordering::Less,
                    ),
                    k > 0 ==> call_ensures(compare, (&x, &out@[k - 1]), last_o) && last_o
                        != core::cmp::Ordering::Less,
                    forall|a: L, b: L| call_requires(compare, (&a, &b)),
                decreases n_out - k + (if found {
                    0int
                } else {
                    1int
                }),
            {
                let c = compare(&x, &out[k]);
                if matches!(c, core::cmp::Ordering::Less) {
                    found = true;
                } else {
                    proof {
                        last_o = c;
                    }
                    k += 1;
                }
            }
            out.insert(k, x);
            proof {
                broadcast use vstd::seq_lib::group_to_multiset_ensures;
                broadcast use vstd::multiset::group_multiset_axioms;

                assert(x == pre.last());
                assert(self@ =~= pre.remove(pre.len() - 1));
                assert(self@.to_multiset() =~= pre.to_multiset().remove(x));
                assert(pre.to_multiset().contains(x)) by {
                    assert(pre.contains(x));
                }
                assert(out@ == pre_out.insert(k as int, x));
                assert(out@.to_multiset() =~= pre_out.to_multiset().insert(x));
                assert(out@.to_multiset().add(self@.to_multiset()) =~= pre_out.to_multiset().add(
                    pre.to_multiset(),
                ));
                pre_out.insert_ensures(k as int, x);
                let pair_count = out@.len() - 1;
                os = Seq::<core::cmp::Ordering>::new(
                    pair_count as nat,
                    |p: int|
                        if p < k - 1 {
                            pre_os[p]
                        } else if p == k - 1 {
                            last_o
                        } else if p == k {
                            core::cmp::Ordering::Less
                        } else {
                            pre_os[p - 1]
                        },
                );
                ds = Seq::<bool>::new(
                    pair_count as nat,
                    |p: int|
                        if p < k - 1 {
                            pre_ds[p]
                        } else if p == k - 1 {
                            false
                        } else if p == k {
                            true
                        } else {
                            pre_ds[p - 1]
                        },
                );
                assert forall|p: int| 0 <= p < os.len() implies if ds[p] {
                    call_ensures(compare, (&out@[p], &out@[p + 1]), #[trigger] os[p]) && os[p]
                        != core::cmp::Ordering::Greater
                } else {
                    call_ensures(compare, (&out@[p + 1], &out@[p]), os[p]) && os[p]
                        != core::cmp::Ordering::Less
                } by {
                    if p < k - 1 {
                        assert(out@[p] == pre_out[p]);
                        assert(out@[p + 1] == pre_out[p + 1]);
                        assert(os[p] == pre_os[p] && ds[p] == pre_ds[p]);
                    } else if p == k - 1 {
                        assert(out@[p] == pre_out[p]);
                        assert(out@[p + 1] == x);
                        assert(call_ensures(compare, (&x, &pre_out[k - 1]), last_o));
                    } else if p == k {
                        assert(out@[p] == x);
                        assert(out@[p + 1] == pre_out[p]);
                        assert(call_ensures(compare, (&x, &pre_out[k as int]), core::cmp::Ordering::Less));
                    } else {
                        assert(out@[p] == pre_out[p - 1]);
                        assert(out@[p + 1] == pre_out[p]);
                        assert(os[p] == pre_os[p - 1] && ds[p] == pre_ds[p - 1]);
                    }
                }
            }
        }
        proof {
            broadcast use vstd::seq_lib::group_to_multiset_ensures;
            broadcast use vstd::multiset::group_multiset_axioms;

            assert(self@.to_multiset() =~= Multiset::<L>::empty());
            assert(out@.to_multiset() =~= orig.to_multiset());
            orig.lemma_multiset_has_no_duplicates();
            out@.lemma_multiset_has_no_duplicates_conv();
        }
        self.labels = out;
    }

    /// Reorders the labels in place by a caller-supplied key. The
    /// contract certifies the order through a key column: one key
    /// outcome per resulting label, ascending throughout in the key
    /// type's total order; the labels are a permutation of the old ones
    /// and the invariant is kept.
    pub fn sort_by_key<K: Label, F: Fn(&L) -> K>(&mut self, get_key: F)
        requires
            old(self).wf(),
            forall|l: L| call_requires(get_key, (&l,)),
        ensures
            final(self)@.to_multiset() == old(self)@.to_multiset(),
            final(self).wf(),
            exists|ks: Seq<K>|
                {
                    &&& ks.len() == final(self)@.len()
                    &&& (forall|k: int|
                        0 <= k < ks.len() ==> call_ensures(
                            get_key,
                            (&final(self)@[k],),
                            #[trigger] ks[k],
                        ))
                    &&& sorted::<K>(ks)
                },
    {
        let ghost orig = self@;
        let n = self.labels.len();
        let mut out: Vec<L> = Vec::with_capacity(n);
        let mut keys: Vec<K> = Vec::with_capacity(n);
        proof {
            broadcast use vstd::seq_lib::group_to_multiset_ensures;
            broadcast use vstd::multiset::group_multiset_axioms;

            assert(out@.to_multiset().add(self@.to_multiset()) =~= orig.to_multiset());
        }
        while self.labels.len() > 0
            invariant
                out@.to_multiset().add(self@.to_multiset()) == orig.to_multiset(),
                keys@.len() == out@.len(),
                forall|i: int|
                    0 <= i < out@.len() ==> call_ensures(get_key, (&out@[i],), #[trigger] keys@[i]),
                sorted::<K>(keys@),
                forall|l: L| call_requires(get_key, (&l,)),
            decreases self.labels.len(),
        {
            let ghost pre = self@;
            let ghost pre_out = out@;
            let ghost pre_keys = keys@;
            let x = self.labels.pop().unwrap();
            let key_x = get_key(&x);
            let n_out = out.len();
            let mut k: usize = 0;
            let mut found = false;
            while k < n_out && !found
                invariant
                    k <= n_out,
                    n_out == keys@.len(),
                    out@ == pre_out,
                    keys@ == pre_keys,
                    found ==> k < n_out && key_x.le_spec(keys@[k as int]),
                    forall|j: int| 0 <= j < k ==> (#[trigger] keys@[j]).le_spec(key_x),
                decreases n_out - k + (if found {
                    0int
                } else {
                    1int
                }),
            {
                if key_x.le_label(&keys[k]) {
                    found = true;
                } else {
                    proof {
                        K::lemma_le_total(key_x, keys@[k as int]);
                    }
                    k += 1;
                }
            }
            out.insert(k, x);
            keys.insert(k, key_x);
            proof {
                broadcast use vstd::seq_lib::group_to_multiset_ensures;
                broadcast use vstd::multiset::group_multiset_axioms;

                assert(x == pre.last());
                assert(self@ =~= pre.remove(pre.len() - 1));
                assert(self@.to_multiset() =~= pre.to_multiset().remove(x));
                assert(pre.to_multiset().contains(x)) by {
                    assert(pre.contains(x));
                }
                assert(out@ == pre_out.insert(k as int, x));
                assert(keys@ == pre_keys.insert(k as int, key_x));
                assert(out@.to_multiset() =~= pre_out.to_multiset().insert(x));
                assert(out@.to_multiset().add(self@.to_multiset()) =~= pre_out.to_multiset().add(
                    pre.to_multiset(),
                ));
                pre_out.insert_ensures(k as int, x);
                pre_keys.insert_ensures(k as int, key_x);
                assert forall|i: int| 0 <= i < out@.len() implies call_ensures(
                    get_key,
                    (&out@[i],),
                    #[trigger] keys@[i],
                ) by {
                    if i < k {
                        assert(out@[i] == pre_out[i]);
                        assert(keys@[i] == pre_keys[i]);
                    } else if i > k {
                        assert(out@[i] == pre_out[i - 1]);
                        assert(keys@[i] == pre_keys[i - 1]);
                    }
                }
                assert forall|i: int, j: int| 0 <= i < j < keys@.len() implies keys@[i].le_spec(
                    keys@[j],
                ) by {
                    if i < k && j < k {
                        assert(keys@[i] == pre_keys[i]);
                        assert(keys@[j] == pre_keys[j]);
                    } else if i > k && j > k {
                        assert(keys@[i] == pre_keys[i - 1]);
                        assert(keys@[j] == pre_keys[j - 1]);
                    } else if i < k && j == k {
                        assert(keys@[i] == pre_keys[i]);
                        assert(pre_keys[i].le_spec(key_x));
                    } else if i == k && j > k {
                        assert(keys@[j] == pre_keys[j - 1]);
                        assert(key_x.le_spec(pre_keys[k as int]));
                        if j - 1 > k {
                            K::lemma_le_trans(key_x, pre_keys[k as int], pre_keys[j - 1]);
                        }
                    } else {
                        assert(i < k && j > k);
                        assert(keys@[i] == pre_keys[i]);
                        assert(keys@[j] == pre_keys[j - 1]);
                        assert(pre_keys[i].le_spec(pre_keys[j - 1]));
                    }
                }
            }
        }
        proof {
            broadcast use vstd::seq_lib::group_to_multiset_ensures;
            broadcast use vstd::multiset::group_multiset_axioms;

            assert(self@.to_multiset() =~= Multiset::<L>::empty());
            assert(out@.to_multiset() =~= orig.to_multiset());
            orig.lemma_multiset_has_no_duplicates();
            out@.lemma_multiset_has_no_duplicates_conv();
        }
        self.labels = out;
    }

    /// The order `sort_by` would apply, as a permutation of `[0, len)`,
    /// without mutating the `Index`. The contract certifies the order of
    /// the arrangement pair by pair, as `sort_by` does: for each adjacent
    /// pair of positions there is a witnessed comparison outcome on their
    /// labels that puts the pair in order, forward or backward as the
    /// direction flags record.
    pub fn arg_sort_by<F: Fn(&L, &L) -> core::cmp::Ordering>(&self, compare: F) -> (r: Vec<usize>)
        requires
            forall|a: L, b: L| call_requires(compare, (&a, &b)),
        ensures
            r@.len() == self@.len(),
            r@.no_duplicates(),
            forall|k: int| 0 <= k < r@.len() ==> r@[k] < self@.len(),
            forall|p: usize| p < self@.len() ==> r@.contains(p),
            exists|os: Seq<core::cmp::Ordering>, ds: Seq<bool>|
                #![trigger os.len(), ds.len()]
                {
                    &&& os.len() == (if r@.len() == 0 {
                        0int
                    } else {
                        r@.len() - 1
                    })
                    &&& ds.len() == os.len()
                    &&& (forall|q: int|
                        0 <= q < os.len() ==> if ds[q] {
                            call_ensures(
                                compare,
                                (&self@[r@[q] as int], &self@[r@[q + 1] as int]),
                                #[trigger] os[q],
                            ) && os[q] != core::cmp::Ordering::Greater
                        } else {
                            call_ensures(
                                compare,
                                (&self@[r@[q + 1] as int], &self@[r@[q] as int]),
                                os[q],
                            ) && os[q] != core::cmp::Ordering::Less
                        })
                },
    {
        let n = self.labels.len();
        let ghost all = Seq::<usize>::new(n as nat, |i: int| i as usize);
        let mut out: Vec<usize> = Vec::with_capacity(n);
        let ghost mut os: Seq<core::cmp::Ordering> = Seq::empty();
        let ghost mut ds: Seq<bool> = Seq::empty();
        proof {
            broadcast use vstd::seq_lib::group_to_multiset_ensures;
            broadcast use vstd::multiset::group_multiset_axioms;

            assert(out@.to_multiset() =~= all.subrange(0, 0).to_multiset());
        }
        let mut p: usize = 0;
        while p < n
            invariant
                p <= n,
                n == self@.len(),
                all == Seq::<usize>::new(n as nat, |i: int| i as usize),
                out@.to_multiset() == all.subrange(0, p as int).to_multiset(),
                forall|k: int| 0 <= k < out@.len() ==> out@[k] < p,
                os.len() == (if out@.len() == 0 {
                    0int
                } else {
                    out@.len() - 1
                }),
                ds.len() == os.len(),
                forall|q: int|
                    0 <= q < os.len() ==> if ds[q] {
                        call_ensures(
                            compare,
                            (&self@[out@[q] as int], &self@[out@[q + 1] as int]),
                            #[trigger] os[q],
                        ) && os[q] != core::cmp::Ordering::Greater
                    } else {
                        call_ensures(
                            compare,
                            (&self@[out@[q + 1] as int], &self@[out@[q] as int]),
                            os[q],
                        ) && os[q] != core::cmp::Ordering::Less
                    },
                forall|a: L, b: L| call_requires(compare, (&a, &b)),
            decreases n - p,
        {
            let ghost pre_out = out@;
            let ghost pre_os = os;
            let ghost pre_ds = ds;
            let n_out = out.len();
            let mut k: usize = 0;
            let mut found = false;
            let ghost mut last_o: core::cmp::Ordering = core::cmp::Ordering::Equal;
            while k < n_out && !found
                invariant
                    k <= n_out,
                    n_out == out@.len(),
                    out@ == pre_out,
                    n == self@.len(),
                    p < n,
                    forall|j: int| 0 <= j < out@.len() ==> out@[j] < n,
                    found ==> k < n_out && call_ensures(
                        compare,
                        (&self@[p as int], &self@[out@[k as int] as int]),
                        core::cmp::Ordering::Less,
                    ),
                    k > 0 ==> call_ensures(
                        compare,
                        (&self@[p as int], &self@[out@[k - 1] as int]),
                        last_o,
                    ) && last_o != core::cmp::Ordering::Less,
                    forall|a: L, b: L| call_requires(compare, (&a, &b)),
                decreases n_out - k + (if found {
                    0int
                } else {
                    1int
                }),
            {
                let c = compare(self.label_at(p), self.label_at(out[k]));
                if matches!(c, core::cmp::Ordering::Less) {
                    found = true;
                } else {
                    proof {
                        last_o = c;
                    }
                    k += 1;
                }
            }
            out.insert(k, p);
            proof {
                broadcast use vstd::seq_lib::group_to_multiset_ensures;
                broadcast use vstd::multiset::group_multiset_axioms;

                assert(out@ == pre_out.insert(k as int, p));
                assert(out@.to_multiset() =~= pre_out.to_multiset().insert(p));
                assert(all.subrange(0, p as int + 1).to_multiset() =~= all.subrange(
                    0,
                    p as int,
                ).to_multiset().insert(p)) by {
                    assert(all.subrange(0, p as int + 1) =~= all.subrange(0, p as int).push(p));
                }
                pre_out.insert_ensures(k as int, p);
                assert forall|j: int| 0 <= j < out@.len() implies out@[j] < p + 1 by {
                }
                let pair_count = out@.len() - 1;
                os = Seq::<core::cmp::Ordering>::new(
                    pair_count as nat,
                    |q: int|
                        if q < k - 1 {
                            pre_os[q]
                        } else if q == k - 1 {
                            last_o
                        } else if q == k {
                            core::cmp::Ordering::Less
                        } else {
                            pre_os[q - 1]
                        },
                );
                ds = Seq::<bool>::new(
                    pair_count as nat,
                    |q: int|
                        if q < k - 1 {
                            pre_ds[q]
                        } else if q == k - 1 {
                            false
                        } else if q == k {
                            true
                        } else {
                            pre_ds[q - 1]
                        },
                );
                assert forall|q: int| 0 <= q < os.len() implies if ds[q] {
                    call_ensures(
                        compare,
                        (&self@[out@[q] as int], &self@[out@[q + 1] as int]),
                        #[trigger] os[q],
                    ) && os[q] != core::cmp::Ordering::Greater
                } else {
                    call_ensures(
                        compare,
                        (&self@[out@[q + 1] as int], &self@[out@[q] as int]),
                        os[q],
                    ) && os[q] != core::cmp::Ordering::Less
                } by {
                    if q < k - 1 {
                        assert(out@[q] == pre_out[q]);
                        assert(out@[q + 1] == pre_out[q + 1]);
                        assert(os[q] == pre_os[q] && ds[q] == pre_ds[q]);
                    } else if q == k - 1 {
                        assert(out@[q] == pre_out[q]);
                        assert(out@[q + 1] == p);
                        assert(call_ensures(
                            compare,
                            (&self@[p as int], &self@[pre_out[k - 1] as int]),
                            last_o,
                        ));
                    } else if q == k {
                        assert(out@[q] == p);
                        assert(out@[q + 1] == pre_out[q]);
                        assert(call_ensures(
                            compare,
                            (&self@[p as int], &self@[pre_out[k as int] as int]),
                            core::cmp::Ordering::Less,
                        ));
                    } else {
                        assert(out@[q] == pre_out[q - 1]);
                        assert(out@[q + 1] == pre_out[q]);
                        assert(os[q] == pre_os[q - 1] && ds[q] == pre_ds[q - 1]);
                    }
                }
            }
            p += 1;
        }
        proof {
            broadcast use vstd::seq_lib::group_to_multiset_ensures;
            broadcast use vstd::multiset::group_multiset_axioms;

            assert(all.subrange(0, n as int) =~= all);
            assert(out@.to_multiset() =~= all.to_multiset());
            assert(all.no_duplicates());
            all.lemma_multiset_has_no_duplicates();
            out@.lemma_multiset_has_no_duplicates_conv();
            assert(out@.len() == all.len()) by {
                assert(out@.to_multiset().len() == out@.len());
                assert(all.to_multiset().len() == all.len());
            }
            assert forall|q: usize| q < self@.len() implies out@.contains(q) by {
                assert(all[q as int] == q);
                assert(all.contains(q));
                assert(all.to_multiset().count(q) > 0);
                assert(out@.to_multiset().count(q) > 0);
            }
        }
        out
    }

    /// The order `sort_by_key` would apply, as a permutation of
    /// `[0, len)`, without mutating the `Index`. The contract certifies
    /// the order through a key column, as `sort_by_key` does: one key
    /// outcome per arranged label, ascending throughout.
    pub fn arg_sort_by_key<K: Label, F: Fn(&L) -> K>(&self, get_key: F) -> (r: Vec<usize>)
        requires
            forall|l: L| call_requires(get_key, (&l,)),
        ensures
            r@.len() == self@.len(),
            r@.no_duplicates(),
            forall|k: int| 0 <= k < r@.len() ==> r@[k] < self@.len(),
            forall|p: usize| p < self@.len() ==> r@.contains(p),
            exists|ks: Seq<K>|
                {
                    &&& ks.len() == r@.len()
                    &&& (forall|q: int|
                        0 <= q < ks.len() ==> call_ensures(
                            get_key,
                            (&self@[r@[q] as int],),
                            #[trigger] ks[q],
                        ))
                    &&& sorted::<K>(ks)
                },
    {
        let n = self.labels.len();
        let ghost all = Seq::<usize>::new(n as nat, |i: int| i as usize);
        let mut out: Vec<usize> = Vec::with_capacity(n);
        let mut keys: Vec<K> = Vec::with_capacity(n);
        proof {
            broadcast use vstd::seq_lib::group_to_multiset_ensures;
            broadcast use vstd::multiset::group_multiset_axioms;

            assert(out@.to_multiset() =~= all.subrange(0, 0).to_multiset());
        }
        let mut p: usize = 0;
        while p < n
            invariant
                p <= n,
                n == self@.len(),
                all == Seq::<usize>::new(n as nat, |i: int| i as usize),
                out@.to_multiset() == all.subrange(0, p as int).to_multiset(),
                forall|k: int| 0 <= k < out@.len() ==> out@[k] < p,
                keys@.len() == out@.len(),
                forall|q: int|
                    0 <= q < out@.len() ==> call_ensures(
                        get_key,
                        (&self@[out@[q] as int],),
                        #[trigger] keys@[q],
                    ),
                sorted::<K>(keys@),
                forall|l: L| call_requires(get_key, (&l,)),
            decreases n - p,
        {
            let ghost pre_out = out@;
            let ghost pre_keys = keys@;
            let key_p = get_key(self.label_at(p));
            let n_out = out.len();
            let mut k: usize = 0;
            let mut found = false;
            while k < n_out && !found
                invariant
                    k <= n_out,
                    n_out == keys@.len(),
                    out@ == pre_out,
                    keys@ == pre_keys,
                    found ==> k < n_out && key_p.le_spec(keys@[k as int]),
                    forall|j: int| 0 <= j < k ==> (#[trigger] keys@[j]).le_spec(key_p),
                decreases n_out - k + (if found {
                    0int
                } else {
                    1int
                }),
            {
                if key_p.le_label(&keys[k]) {
                    found = true;
                } else {
                    proof {
                        K::lemma_le_total(key_p, keys@[k as int]);
                    }
                    k += 1;
                }
            }
            out.insert(k, p);
            keys.insert(k, key_p);
            proof {
                broadcast use vstd::seq_lib::group_to_multiset_ensures;
                broadcast use vstd::multiset::group_multiset_axioms;

                assert(out@ == pre_out.insert(k as int, p));
                assert(keys@ == pre_keys.insert(k as int, key_p));
                assert(out@.to_multiset() =~= pre_out.to_multiset().insert(p));
                assert(all.subrange(0, p as int + 1).to_multiset() =~= all.subrange(
                    0,
                    p as int,
                ).to_multiset().insert(p)) by {
                    assert(all.subrange(0, p as int + 1) =~= all.subrange(0, p as int).push(p));
                }
                pre_out.insert_ensures(k as int, p);
                pre_keys.insert_ensures(k as int, key_p);
                assert forall|j: int| 0 <= j < out@.len() implies out@[j] < p + 1 by {
                }
                assert forall|q: int| 0 <= q < out@.len() implies call_ensures(
                    get_key,
                    (&self@[out@[q] as int],),
                    #[trigger] keys@[q],
                ) by {
                    if q < k {
                        assert(out@[q] == pre_out[q]);
                        assert(keys@[q] == pre_keys[q]);
                    } else if q > k {
                        assert(out@[q] == pre_out[q - 1]);
                        assert(keys@[q] == pre_keys[q - 1]);
                    }
                }
                assert forall|i: int, j: int| 0 <= i < j < keys@.len() implies keys@[i].le_spec(
                    keys@[j],
                ) by {
                    if i < k && j < k {
                        assert(keys@[i] == pre_keys[i]);
                        assert(keys@[j] == pre_keys[j]);
                    } else if i > k && j > k {
                        assert(keys@[i] == pre_keys[i - 1]);
                        assert(keys@[j] == pre_keys[j - 1]);
                    } else if i < k && j == k {
                        assert(keys@[i] == pre_keys[i]);
                        assert(pre_keys[i].le_spec(key_p));
                    } else if i == k && j > k {
                        assert(keys@[j] == pre_keys[j - 1]);
                        assert(key_p.le_spec(pre_keys[k as int]));
                        if j - 1 > k {
                            K::lemma_le_trans(key_p, pre_keys[k as int], pre_keys[j - 1]);
                        }
                    } else {
                        assert(i < k && j > k);
                        assert(keys@[i] == pre_keys[i]);
                        assert(keys@[j] == pre_keys[j - 1]);
                        assert(pre_keys[i].le_spec(pre_keys[j - 1]));
                    }
                }
            }
            p += 1;
        }
        proof {
            broadcast use vstd::seq_lib::group_to_multiset_ensures;
            broadcast use vstd::multiset::group_multiset_axioms;

            assert(all.subrange(0, n as int) =~= all);
            assert(out@.to_multiset() =~= all.to_multiset());
            assert(all.no_duplicates());
            all.lemma_multiset_has_no_duplicates();
            out@.lemma_multiset_has_no_duplicates_conv();
            assert(out@.len() == all.len()) by {
                assert(out@.to_multiset().len() == out@.len());
                assert(all.to_multiset().len() == all.len());
            }
            assert forall|q: usize| q < self@.len() implies out@.contains(q) by {
                assert(all[q as int] == q);
                assert(all.contains(q));
                assert(all.to_multiset().count(q) > 0);
                assert(out@.to_multiset().count(q) > 0);
            }
        }
        out
    }

    /// Whether each adjacent pair of labels passed the caller-supplied
    /// comparison: a `true` answer certifies one non-`Greater` comparison
    /// outcome per adjacent pair, a `false` answer certifies a `Greater`
    /// outcome for some pair.
    pub fn is_sorted_by<F: Fn(&L, &L) -> core::cmp::Ordering>(&self, compare: F) -> (r: bool)
        requires
            forall|a: L, b: L| call_requires(compare, (&a, &b)),
        ensures
            r ==> exists|os: Seq<core::cmp::Ordering>|
                {
                    &&& os.len() == (if self@.len() == 0 {
                        0int
                    } else {
                        self@.len() - 1
                    })
                    &&& (forall|k: int|
                        0 <= k < os.len() ==> call_ensures(
                            compare,
                            (&self@[k], &self@[k + 1]),
                            #[trigger] os[k],
                        ) && os[k] != core::cmp::Ordering::Greater)
                },
            !r ==> exists|k: int|
                0 <= k < self@.len() - 1 && #[trigger] call_ensures(
                    compare,
                    (&self@[k], &self@[k + 1]),
                    core::cmp::Ordering::Greater,
                ),
    {
        let n = self.labels.len();
        let ghost mut outcomes: Seq<core::cmp::Ordering> = Seq::empty();
        let mut i: usize = 0;
        while n > 0 && i < n - 1
            invariant
                n == self@.len(),
                i <= n,
                n == 0 ==> i == 0,
                n > 0 ==> i <= n - 1,
                outcomes.len() == i,
                forall|k: int|
                    0 <= k < i ==> call_ensures(
                        compare,
                        (&self@[k], &self@[k + 1]),
                        #[trigger] outcomes[k],
                    ) && outcomes[k] != core::cmp::Ordering::Greater,
                forall|a: L, b: L| call_requires(compare, (&a, &b)),
            decreases n - i,
        {
            let c = compare(self.label_at(i), self.label_at(i + 1));
            if matches!(c, core::cmp::Ordering::Greater) {
                proof {
                    assert(call_ensures(
                        compare,
                        (&self@[i as int], &self@[i as int + 1]),
                        core::cmp::Ordering::Greater,
                    ));
                }
                return false;
            }
            proof {
                outcomes = outcomes.push(c);
            }
            i += 1;
        }
        proof {
            assert(outcomes.len() == (if self@.len() == 0 {
                0int
            } else {
                self@.len() - 1
            }));
        }
        true
    }

    /// Whether the keys of the labels stand in ascending order of the
    /// key type's total order: a `true` answer certifies one key outcome
    /// per label, in order throughout; a `false` answer certifies a pair
    /// of adjacent key outcomes out of order.
    pub fn is_sorted_by_key<K: Label, F: Fn(&L) -> K>(&self, get_key: F) -> (r: bool)
        requires
            forall|l: L| call_requires(get_key, (&l,)),
        ensures
            r ==> exists|ks: Seq<K>|
                {
                    &&& ks.len() == self@.len()
                    &&& (forall|k: int|
                        0 <= k < ks.len() ==> call_ensures(
                            get_key,
                            (&self@[k],),
                            #[trigger] ks[k],
                        ))
                    &&& (forall|k: int|
                        #![trigger ks[k]]
                        0 <= k < ks.len() - 1 ==> ks[k].le_spec(ks[k + 1]))
                },
            !r ==> exists|k: int, k1: K, k2: K|
                #![trigger call_ensures(get_key, (&self@[k],), k1), call_ensures(get_key, (&self@[k + 1],), k2)]
                0 <= k < self@.len() - 1 && call_ensures(get_key, (&self@[k],), k1)
                    && call_ensures(get_key, (&self@[k + 1],), k2) && !k1.le_spec(k2),
    {
        let n = self.labels.len();
        if n == 0 {
            proof {
                let ks = Seq::<K>::empty();
                assert(ks.len() == self@.len() && (forall|k: int|
                    0 <= k < ks.len() ==> call_ensures(get_key, (&self@[k],), #[trigger] ks[k]))
                    && (forall|k: int|
                    #![trigger ks[k]]
                    0 <= k < ks.len() - 1 ==> ks[k].le_spec(ks[k + 1])));
            }
            return true;
        }
        let mut prev = get_key(self.label_at(0));
        let ghost mut ks: Seq<K> = seq![prev];
        let mut i: usize = 1;
        while i < n
            invariant
                n == self@.len(),
                1 <= i <= n,
                ks.len() == i,
                forall|k: int| 0 <= k < i ==> call_ensures(get_key, (&self@[k],), #[trigger] ks[k]),
                forall|k: int| #![trigger ks[k]] 0 <= k < i - 1 ==> ks[k].le_spec(ks[k + 1]),
                prev == ks[i - 1],
                forall|l: L| call_requires(get_key, (&l,)),
            decreases n - i,
        {
            let cur = get_key(self.label_at(i));
            if !prev.le_label(&cur) {
                proof {
                    let j = i as int - 1;
                    assert(j < self@.len() - 1 && call_ensures(get_key, (&self@[j],), prev)
                        && call_ensures(get_key, (&self@[j + 1],), cur) && !prev.le_spec(cur));
                }
                return false;
            }
            proof {
                ks = ks.push(cur);
            }
            prev = cur;
            i += 1;
        }
        proof {
            assert(ks.len() == self@.len() && (forall|k: int|
                0 <= k < ks.len() ==> call_ensures(get_key, (&self@[k],), #[trigger] ks[k])) && (
            forall|k: int| #![trigger ks[k]] 0 <= k < ks.len() - 1 ==> ks[k].le_spec(ks[k + 1])));
        }
        true
    }
    /// Whether the labels stand in ascending order of the label type's
    /// total order. Nothing is mutated.
    pub fn is_sorted(&self) -> (r: bool)
        ensures
            r == sorted::<L>(self@),
    {
        let n = self.labels.len();
        let mut i: usize = 0;
        while n > 0 && i < n - 1
            invariant
                n == self@.len(),
                i <= n,
                forall|k: int| 0 <= k < i ==> #[trigger] self@[k].le_spec(self@[k + 1]),
            decreases n - i,
        {
            if !self.labels[i].le_label(&self.labels[i + 1]) {
                proof {
                    L::lemma_le_total(self@[i as int], self@[i as int + 1]);
                    assert(!self@[i as int].le_spec(self@[i as int + 1]));
                }
                return false;
            }
            i += 1;
        }
        proof {
            lemma_adjacent_sorted::<L>(self@);
        }
        true
    }

    /// Whether this `Index` and `other` have no label in common.
    pub fn is_disjoint(&self, other: &Self) -> (r: bool)
        ensures
            r == disjoint_spec(self@, other@),
    {
        let n = self.labels.len();
        let mut i: usize = 0;
        while i < n
            invariant
                i <= n,
                n == self@.len(),
                forall|k: int| 0 <= k < i ==> !other@.contains(#[trigger] self@[k]),
            decreases n - i,
        {
            if other.contains(&self.labels[i]) {
                return false;
            }
            i += 1;
        }
        true
    }

    /// Whether every label of this `Index` occurs in `other`.
    pub fn is_subset(&self, other: &Self) -> (r: bool)
        ensures
            r == subset_spec(self@, other@),
    {
        if self.labels.len() > other.labels.len() {
            return false;
        }
        self.all_contained_in(other)
    }

    /// Whether every label of this `Index` occurs in `other`, and `other`
    /// holds strictly more labels.
    pub fn is_strict_subset(&self, other: &Self) -> (r: bool)
        ensures
            r == strict_subset_spec(self@, other@),
    {
        if self.labels.len() >= other.labels.len() {
            return false;
        }
        self.all_contained_in(other)
    }

    /// Whether every label of `other` occurs in this `Index`: the mirror
    /// call of `is_subset`.
    pub fn is_superset(&self, other: &Self) -> (r: bool)
        ensures
            r == subset_spec(other@, self@),
    {
        other.is_subset(self)
    }

    /// Whether every label of `other` occurs in this `Index`, and this
    /// `Index` holds strictly more labels: the mirror call of
    /// `is_strict_subset`.
    pub fn is_strict_superset(&self, other: &Self) -> (r: bool)
        ensures
            r == strict_subset_spec(other@, self@),
    {
        other.is_strict_subset(self)
    }

    /// Whether every label of this `Index` occurs in `other`, with no
    /// length comparison.
    fn all_contained_in(&self, other: &Self) -> (r: bool)
        ensures
            r == forall|i: int| 0 <= i < self@.len() ==> other@.contains(#[trigger] self@[i]),
    {
        let n = self.labels.len();
        let mut i: usize = 0;
        while i < n
            invariant
                i <= n,
                n == self@.len(),
                forall|k: int| 0 <= k < i ==> other@.contains(#[trigger] self@[k]),
            decreases n - i,
        {
            if !other.contains(&self.labels[i]) {
                return false;
            }
            i += 1;
        }
        true
    }
}

impl<L: Label> PartialEq for Index<L> {
    /// Two `Index` values are equal when they hold equal labels in the same
    /// order.
    fn eq(&self, other: &Self) -> (r: bool) {
        let n = self.labels.len();
        if n != other.labels.len() {
            return false;
        }
        let mut i: usize = 0;
        while i < n
            invariant
                i <= n,
                n == self@.len(),
                n == other@.len(),
                forall|k: int| 0 <= k < i ==> self@[k] == other@[k],
            decreases n - i,
        {
            if !self.labels[i].eq_label(&other.labels[i]) {
                proof {
                    assert(self@[i as int] != other@[i as int]);
                }
                return false;
            }
            i += 1;
        }
        proof {
            assert(self@ =~= other@);
        }
        true
    }
}

impl<L: Label> vstd::std_specs::cmp::PartialEqSpecImpl for Index<L> {
    open spec fn obeys_eq_spec() -> bool {
        true
    }

    open spec fn eq_spec(&self, other: &Self) -> bool {
        self@ == other@
    }
}

impl<L: Label> Default for Index<L> {
    /// The default `Index` is empty.
    fn default() -> (r: Self)
        ensures
            r@ == Seq::<L>::empty(),
            r.wf(),
    {
        Index::new()
    }
}

} // verus!
