use vstd::prelude::*;

use crate::index::Index;
use crate::traits::Label;

verus! {

/// The labels of `a` that do not occur in `b`, in `a`'s order.
pub open spec fn seq_difference<L>(a: Seq<L>, b: Seq<L>) -> Seq<L>
    decreases a.len(),
{
    if a.len() == 0 {
        Seq::empty()
    } else if b.contains(a.first()) {
        seq_difference(a.drop_first(), b)
    } else {
        seq![a.first()] + seq_difference(a.drop_first(), b)
    }
}

/// The labels of `a` that also occur in `b`, in `a`'s order.
pub open spec fn seq_intersection<L>(a: Seq<L>, b: Seq<L>) -> Seq<L>
    decreases a.len(),
{
    if a.len() == 0 {
        Seq::empty()
    } else if b.contains(a.first()) {
        seq![a.first()] + seq_intersection(a.drop_first(), b)
    } else {
        seq_intersection(a.drop_first(), b)
    }
}

/// The labels only in `a`, then the labels only in `b`.
pub open spec fn seq_symmetric_difference<L>(a: Seq<L>, b: Seq<L>) -> Seq<L> {
    seq_difference(a, b) + seq_difference(b, a)
}

/// The labels of `a`, then the labels of `b` that `a` lacks.
pub open spec fn seq_union<L>(a: Seq<L>, b: Seq<L>) -> Seq<L> {
    a + seq_difference(b, a)
}

/// Peeling the difference from the back: the last label of `a` survives
/// exactly when `b` lacks it.
pub proof fn lemma_seq_difference_last<L>(a: Seq<L>, b: Seq<L>)
    requires
        a.len() > 0,
    ensures
        b.contains(a.last()) ==> seq_difference(a, b) == seq_difference(a.drop_last(), b),
        !b.contains(a.last()) ==> seq_difference(a, b) == seq_difference(a.drop_last(), b).push(
            a.last(),
        ),
    decreases a.len(),
{
    if a.len() == 1 {
        assert(a.drop_first() =~= Seq::<L>::empty());
        assert(a.drop_last() =~= Seq::<L>::empty());
        assert(a.first() == a.last());
        if !b.contains(a.last()) {
            assert(seq![a.first()] + seq_difference(a.drop_first(), b) =~= seq_difference(
                a.drop_last(),
                b,
            ).push(a.last()));
        }
    } else {
        let rest = a.drop_first();
        lemma_seq_difference_last(rest, b);
        assert(rest.last() == a.last());
        assert(rest.drop_last() =~= a.drop_last().drop_first());
        assert(a.drop_last().len() > 0);
        assert(a.drop_last().first() == a.first());
        if b.contains(a.first()) {
            assert(seq_difference(a, b) == seq_difference(rest, b));
            assert(seq_difference(a.drop_last(), b) == seq_difference(a.drop_last().drop_first(), b));
        } else {
            assert(seq_difference(a, b) == seq![a.first()] + seq_difference(rest, b));
            assert(seq_difference(a.drop_last(), b) == seq![a.first()] + seq_difference(
                a.drop_last().drop_first(),
                b,
            ));
            if !b.contains(a.last()) {
                assert(seq![a.first()] + seq_difference(rest.drop_last(), b).push(a.last())
                    =~= (seq![a.first()] + seq_difference(rest.drop_last(), b)).push(a.last()));
            }
        }
    }
}

/// Peeling the intersection from the back: the last label of `a` survives
/// exactly when `b` holds it.
pub proof fn lemma_seq_intersection_last<L>(a: Seq<L>, b: Seq<L>)
    requires
        a.len() > 0,
    ensures
        !b.contains(a.last()) ==> seq_intersection(a, b) == seq_intersection(a.drop_last(), b),
        b.contains(a.last()) ==> seq_intersection(a, b) == seq_intersection(
            a.drop_last(),
            b,
        ).push(a.last()),
    decreases a.len(),
{
    if a.len() == 1 {
        assert(a.drop_first() =~= Seq::<L>::empty());
        assert(a.drop_last() =~= Seq::<L>::empty());
        assert(a.first() == a.last());
        if b.contains(a.last()) {
            assert(seq![a.first()] + seq_intersection(a.drop_first(), b) =~= seq_intersection(
                a.drop_last(),
                b,
            ).push(a.last()));
        }
    } else {
        let rest = a.drop_first();
        lemma_seq_intersection_last(rest, b);
        assert(rest.last() == a.last());
        assert(rest.drop_last() =~= a.drop_last().drop_first());
        assert(a.drop_last().len() > 0);
        assert(a.drop_last().first() == a.first());
        if !b.contains(a.first()) {
            assert(seq_intersection(a, b) == seq_intersection(rest, b));
            assert(seq_intersection(a.drop_last(), b) == seq_intersection(
                a.drop_last().drop_first(),
                b,
            ));
        } else {
            assert(seq_intersection(a, b) == seq![a.first()] + seq_intersection(rest, b));
            assert(seq_intersection(a.drop_last(), b) == seq![a.first()] + seq_intersection(
                a.drop_last().drop_first(),
                b,
            ));
            if b.contains(a.last()) {
                assert(seq![a.first()] + seq_intersection(rest.drop_last(), b).push(a.last())
                    =~= (seq![a.first()] + seq_intersection(rest.drop_last(), b)).push(a.last()));
            }
        }
    }
}

/// When every label of `a` occurs in `b`, nothing survives the difference.
pub proof fn lemma_difference_all_present<L>(a: Seq<L>, b: Seq<L>)
    requires
        forall|i: int| 0 <= i < a.len() ==> b.contains(#[trigger] a[i]),
    ensures
        seq_difference(a, b) == Seq::<L>::empty(),
    decreases a.len(),
{
    if a.len() > 0 {
        assert(b.contains(a[0]));
        assert forall|i: int| 0 <= i < a.drop_first().len() implies b.contains(
            #[trigger] a.drop_first()[i],
        ) by {
            assert(a.drop_first()[i] == a[i + 1]);
        }
        lemma_difference_all_present(a.drop_first(), b);
    }
}

/// When every label of `a` occurs in `b`, the intersection keeps all of
/// `a`, unchanged.
pub proof fn lemma_intersection_all_present<L>(a: Seq<L>, b: Seq<L>)
    requires
        forall|i: int| 0 <= i < a.len() ==> b.contains(#[trigger] a[i]),
    ensures
        seq_intersection(a, b) == a,
    decreases a.len(),
{
    if a.len() > 0 {
        assert(b.contains(a[0]));
        assert forall|i: int| 0 <= i < a.drop_first().len() implies b.contains(
            #[trigger] a.drop_first()[i],
        ) by {
            assert(a.drop_first()[i] == a[i + 1]);
        }
        lemma_intersection_all_present(a.drop_first(), b);
        assert(seq![a.first()] + a.drop_first() =~= a);
    }
}

/// The difference of an index with itself is empty.
pub proof fn lemma_difference_self<L>(a: Seq<L>)
    ensures
        seq_difference(a, a) == Seq::<L>::empty(),
{
    lemma_difference_all_present(a, a);
}

/// The intersection of an index with itself holds exactly its own labels.
pub proof fn lemma_intersection_self<L>(a: Seq<L>)
    ensures
        seq_intersection(a, a) == a,
{
    lemma_intersection_all_present(a, a);
}

/// The union of an index with itself holds exactly its own labels.
pub proof fn lemma_union_self<L>(a: Seq<L>)
    ensures
        seq_union(a, a) == a,
{
    lemma_difference_self(a);
    assert(a + Seq::<L>::empty() =~= a);
}

/// A forward-and-backward cursor over the labels of an `Index`: one pass,
/// not restartable.
pub struct Iter<'a, L: Label> {
    index: &'a Index<L>,
    front: usize,
    back: usize,
}

impl<'a, L: Label> Iter<'a, L> {
    /// The cursor points inside its source.
    pub closed spec fn wf(&self) -> bool {
        self.front <= self.back <= self.index@.len()
    }

    /// The labels not yet consumed from either end.
    pub closed spec fn remaining(&self) -> Seq<L> {
        self.index@.subrange(self.front as int, self.back as int)
    }

    pub(crate) fn new(index: &'a Index<L>) -> (r: Self)
        ensures
            r.wf(),
            r.remaining() == index@,
    {
        let r = Iter { index, front: 0, back: index.len() };
        proof {
            assert(r.remaining() =~= index@);
        }
        r
    }

    /// How many labels remain.
    pub fn len(&self) -> (r: usize)
        requires
            self.wf(),
        ensures
            r == self.remaining().len(),
    {
        self.back - self.front
    }

    /// Takes the next label from the front; `None` once the pass is over.
    pub fn next(&mut self) -> (r: Option<L>)
        requires
            old(self).wf(),
        ensures
            final(self).wf(),
            old(self).remaining().len() > 0 ==> r == Some(old(self).remaining().first())
                && final(self).remaining() == old(self).remaining().drop_first(),
            old(self).remaining().len() == 0 ==> r is None && final(self).remaining() == old(
                self,
            ).remaining(),
    {
        if self.front < self.back {
            let l = self.index.label_at(self.front).clone_value();
            self.front = self.front + 1;
            proof {
                assert(self.remaining() =~= old(self).remaining().drop_first());
            }
            Some(l)
        } else {
            None
        }
    }

    /// Takes the next label from the back; `None` once the pass is over.
    pub fn next_back(&mut self) -> (r: Option<L>)
        requires
            old(self).wf(),
        ensures
            final(self).wf(),
            old(self).remaining().len() > 0 ==> r == Some(old(self).remaining().last())
                && final(self).remaining() == old(self).remaining().drop_last(),
            old(self).remaining().len() == 0 ==> r is None && final(self).remaining() == old(
                self,
            ).remaining(),
    {
        if self.front < self.back {
            let l = self.index.label_at(self.back - 1).clone_value();
            self.back = self.back - 1;
            proof {
                assert(self.remaining() =~= old(self).remaining().drop_last());
            }
            Some(l)
        } else {
            None
        }
    }
}

/// A lazy, single-pass sequence of the labels in `a` but not in `b`.
pub struct Difference<'a, L: Label> {
    a: &'a Index<L>,
    b: &'a Index<L>,
    front: usize,
    back: usize,
}

impl<'a, L: Label> Difference<'a, L> {
    /// The cursor points inside its first source.
    pub closed spec fn wf(&self) -> bool {
        self.front <= self.back <= self.a@.len()
    }

    /// The labels the cursor has not yet produced or discarded.
    pub closed spec fn remaining(&self) -> Seq<L> {
        seq_difference(self.a@.subrange(self.front as int, self.back as int), self.b@)
    }

    pub(crate) fn new(a: &'a Index<L>, b: &'a Index<L>) -> (r: Self)
        ensures
            r.wf(),
            r.remaining() == seq_difference(a@, b@),
    {
        let r = Difference { a, b, front: 0, back: a.len() };
        proof {
            assert(r.a@.subrange(r.front as int, r.back as int) =~= a@);
        }
        r
    }

    /// Produces the next surviving label from the front; `None` once the
    /// pass is over.
    pub fn next(&mut self) -> (r: Option<L>)
        requires
            old(self).wf(),
        ensures
            final(self).wf(),
            old(self).remaining().len() > 0 ==> r == Some(old(self).remaining().first())
                && final(self).remaining() == old(self).remaining().drop_first(),
            old(self).remaining().len() == 0 ==> r is None && final(self).remaining() == old(
                self,
            ).remaining(),
    {
        while self.front < self.back
            invariant
                self.wf(),
                self.a == old(self).a,
                self.b == old(self).b,
                self.back == old(self).back,
                self.remaining() == old(self).remaining(),
            decreases self.back - self.front,
        {
            let ghost pre = self.a@.subrange(self.front as int, self.back as int);
            let l = self.a.label_at(self.front);
            proof {
                assert(pre.first() == self.a@[self.front as int]);
                assert(pre.drop_first() =~= self.a@.subrange(
                    self.front as int + 1,
                    self.back as int,
                ));
            }
            if self.b.contains(l) {
                self.front = self.front + 1;
            } else {
                let out = l.clone_value();
                self.front = self.front + 1;
                proof {
                    let whole = seq![pre.first()] + seq_difference(pre.drop_first(), self.b@);
                    assert(whole.first() == pre.first());
                    assert(whole.drop_first() =~= seq_difference(pre.drop_first(), self.b@));
                }
                return Some(out);
            }
        }
        None
    }

    /// Produces the next surviving label from the back; `None` once the
    /// pass is over.
    pub fn next_back(&mut self) -> (r: Option<L>)
        requires
            old(self).wf(),
        ensures
            final(self).wf(),
            old(self).remaining().len() > 0 ==> r == Some(old(self).remaining().last())
                && final(self).remaining() == old(self).remaining().drop_last(),
            old(self).remaining().len() == 0 ==> r is None && final(self).remaining() == old(
                self,
            ).remaining(),
    {
        while self.front < self.back
            invariant
                self.wf(),
                self.a == old(self).a,
                self.b == old(self).b,
                self.front == old(self).front,
                self.remaining() == old(self).remaining(),
            decreases self.back - self.front,
        {
            let ghost pre = self.a@.subrange(self.front as int, self.back as int);
            let l = self.a.label_at(self.back - 1);
            proof {
                assert(pre.last() == self.a@[self.back as int - 1]);
                assert(pre.drop_last() =~= self.a@.subrange(
                    self.front as int,
                    self.back as int - 1,
                ));
                lemma_seq_difference_last(pre, self.b@);
            }
            if self.b.contains(l) {
                self.back = self.back - 1;
            } else {
                let out = l.clone_value();
                self.back = self.back - 1;
                return Some(out);
            }
        }
        None
    }
}

/// A lazy, single-pass sequence of the labels in both `a` and `b`, in
/// `a`'s order.
pub struct Intersection<'a, L: Label> {
    a: &'a Index<L>,
    b: &'a Index<L>,
    front: usize,
    back: usize,
}

impl<'a, L: Label> Intersection<'a, L> {
    /// The cursor points inside its first source.
    pub closed spec fn wf(&self) -> bool {
        self.front <= self.back <= self.a@.len()
    }

    /// The labels the cursor has not yet produced or discarded.
    pub closed spec fn remaining(&self) -> Seq<L> {
        seq_intersection(self.a@.subrange(self.front as int, self.back as int), self.b@)
    }

    pub(crate) fn new(a: &'a Index<L>, b: &'a Index<L>) -> (r: Self)
        ensures
            r.wf(),
            r.remaining() == seq_intersection(a@, b@),
    {
        let r = Intersection { a, b, front: 0, back: a.len() };
        proof {
            assert(r.a@.subrange(r.front as int, r.back as int) =~= a@);
        }
        r
    }

    /// Produces the next shared label from the front; `None` once the pass
    /// is over.
    pub fn next(&mut self) -> (r: Option<L>)
        requires
            old(self).wf(),
        ensures
            final(self).wf(),
            old(self).remaining().len() > 0 ==> r == Some(old(self).remaining().first())
                && final(self).remaining() == old(self).remaining().drop_first(),
            old(self).remaining().len() == 0 ==> r is None && final(self).remaining() == old(
                self,
            ).remaining(),
    {
        while self.front < self.back
            invariant
                self.wf(),
                self.a == old(self).a,
                self.b == old(self).b,
                self.back == old(self).back,
                self.remaining() == old(self).remaining(),
            decreases self.back - self.front,
        {
            let ghost pre = self.a@.subrange(self.front as int, self.back as int);
            let l = self.a.label_at(self.front);
            proof {
                assert(pre.first() == self.a@[self.front as int]);
                assert(pre.drop_first() =~= self.a@.subrange(
                    self.front as int + 1,
                    self.back as int,
                ));
            }
            if self.b.contains(l) {
                let out = l.clone_value();
                self.front = self.front + 1;
                proof {
                    let whole = seq![pre.first()] + seq_intersection(pre.drop_first(), self.b@);
                    assert(whole.first() == pre.first());
                    assert(whole.drop_first() =~= seq_intersection(pre.drop_first(), self.b@));
                }
                return Some(out);
            } else {
                self.front = self.front + 1;
            }
        }
        None
    }

    /// Produces the next shared label from the back; `None` once the pass
    /// is over.
    pub fn next_back(&mut self) -> (r: Option<L>)
        requires
            old(self).wf(),
        ensures
            final(self).wf(),
            old(self).remaining().len() > 0 ==> r == Some(old(self).remaining().last())
                && final(self).remaining() == old(self).remaining().drop_last(),
            old(self).remaining().len() == 0 ==> r is None && final(self).remaining() == old(
                self,
            ).remaining(),
    {
        while self.front < self.back
            invariant
                self.wf(),
                self.a == old(self).a,
                self.b == old(self).b,
                self.front == old(self).front,
                self.remaining() == old(self).remaining(),
            decreases self.back - self.front,
        {
            let ghost pre = self.a@.subrange(self.front as int, self.back as int);
            let l = self.a.label_at(self.back - 1);
            proof {
                assert(pre.last() == self.a@[self.back as int - 1]);
                assert(pre.drop_last() =~= self.a@.subrange(
                    self.front as int,
                    self.back as int - 1,
                ));
                lemma_seq_intersection_last(pre, self.b@);
            }
            if self.b.contains(l) {
                let out = l.clone_value();
                self.back = self.back - 1;
                return Some(out);
            } else {
                self.back = self.back - 1;
            }
        }
        None
    }
}

/// A lazy, single-pass sequence: the labels only in `a`, then the labels
/// only in `b`.
pub struct SymmetricDifference<'a, L: Label> {
    head: Difference<'a, L>,
    tail: Difference<'a, L>,
}

impl<'a, L: Label> SymmetricDifference<'a, L> {
    /// Both halves of the chain point inside their sources.
    pub closed spec fn wf(&self) -> bool {
        self.head.wf() && self.tail.wf()
    }

    /// The labels the cursor has not yet produced or discarded.
    pub closed spec fn remaining(&self) -> Seq<L> {
        self.head.remaining() + self.tail.remaining()
    }

    pub(crate) fn new(a: &'a Index<L>, b: &'a Index<L>) -> (r: Self)
        ensures
            r.wf(),
            r.remaining() == seq_symmetric_difference(a@, b@),
    {
        SymmetricDifference { head: Difference::new(a, b), tail: Difference::new(b, a) }
    }

    /// Produces the next label from the front; `None` once the pass is
    /// over.
    pub fn next(&mut self) -> (r: Option<L>)
        requires
            old(self).wf(),
        ensures
            final(self).wf(),
            old(self).remaining().len() > 0 ==> r == Some(old(self).remaining().first())
                && final(self).remaining() == old(self).remaining().drop_first(),
            old(self).remaining().len() == 0 ==> r is None && final(self).remaining() == old(
                self,
            ).remaining(),
    {
        let ghost h = self.head.remaining();
        let ghost t = self.tail.remaining();
        match self.head.next() {
            Some(l) => {
                proof {
                    assert((h + t).first() == h.first());
                    assert(h.drop_first() + t =~= (h + t).drop_first());
                }
                Some(l)
            },
            None => {
                let r = self.tail.next();
                proof {
                    assert(h + t =~= t);
                    if t.len() > 0 {
                        assert(h + t.drop_first() =~= t.drop_first());
                    }
                }
                r
            },
        }
    }

    /// Produces the next label from the back; `None` once the pass is
    /// over.
    pub fn next_back(&mut self) -> (r: Option<L>)
        requires
            old(self).wf(),
        ensures
            final(self).wf(),
            old(self).remaining().len() > 0 ==> r == Some(old(self).remaining().last())
                && final(self).remaining() == old(self).remaining().drop_last(),
            old(self).remaining().len() == 0 ==> r is None && final(self).remaining() == old(
                self,
            ).remaining(),
    {
        let ghost h = self.head.remaining();
        let ghost t = self.tail.remaining();
        match self.tail.next_back() {
            Some(l) => {
                proof {
                    assert((h + t).last() == t.last());
                    assert(h + t.drop_last() =~= (h + t).drop_last());
                }
                Some(l)
            },
            None => {
                let r = self.head.next_back();
                proof {
                    assert(h + t =~= h);
                    if h.len() > 0 {
                        assert(h.drop_last() + t =~= h.drop_last());
                    }
                }
                r
            },
        }
    }
}

/// A lazy, single-pass sequence: the labels of `a`, then the labels of
/// `b` that `a` lacks.
pub struct Union<'a, L: Label> {
    head: Iter<'a, L>,
    tail: Difference<'a, L>,
}

impl<'a, L: Label> Union<'a, L> {
    /// Both halves of the chain point inside their sources.
    pub closed spec fn wf(&self) -> bool {
        self.head.wf() && self.tail.wf()
    }

    /// The labels the cursor has not yet produced or discarded.
    pub closed spec fn remaining(&self) -> Seq<L> {
        self.head.remaining() + self.tail.remaining()
    }

    pub(crate) fn new(a: &'a Index<L>, b: &'a Index<L>) -> (r: Self)
        ensures
            r.wf(),
            r.remaining() == seq_union(a@, b@),
    {
        Union { head: a.iter(), tail: Difference::new(b, a) }
    }

    /// Produces the next label from the front; `None` once the pass is
    /// over.
    pub fn next(&mut self) -> (r: Option<L>)
        requires
            old(self).wf(),
        ensures
            final(self).wf(),
            old(self).remaining().len() > 0 ==> r == Some(old(self).remaining().first())
                && final(self).remaining() == old(self).remaining().drop_first(),
            old(self).remaining().len() == 0 ==> r is None && final(self).remaining() == old(
                self,
            ).remaining(),
    {
        let ghost h = self.head.remaining();
        let ghost t = self.tail.remaining();
        match self.head.next() {
            Some(l) => {
                proof {
                    assert((h + t).first() == h.first());
                    assert(h.drop_first() + t =~= (h + t).drop_first());
                }
                Some(l)
            },
            None => {
                let r = self.tail.next();
                proof {
                    assert(h + t =~= t);
                    if t.len() > 0 {
                        assert(h + t.drop_first() =~= t.drop_first());
                    }
                }
                r
            },
        }
    }

    /// Produces the next label from the back; `None` once the pass is
    /// over.
    pub fn next_back(&mut self) -> (r: Option<L>)
        requires
            old(self).wf(),
        ensures
            final(self).wf(),
            old(self).remaining().len() > 0 ==> r == Some(old(self).remaining().last())
                && final(self).remaining() == old(self).remaining().drop_last(),
            old(self).remaining().len() == 0 ==> r is None && final(self).remaining() == old(
                self,
            ).remaining(),
    {
        let ghost h = self.head.remaining();
        let ghost t = self.tail.remaining();
        match self.tail.next_back() {
            Some(l) => {
                proof {
                    assert((h + t).last() == t.last());
                    assert(h + t.drop_last() =~= (h + t).drop_last());
                }
                Some(l)
            },
            None => {
                let r = self.head.next_back();
                proof {
                    assert(h + t =~= h);
                    if h.len() > 0 {
                        assert(h.drop_last() + t =~= h.drop_last());
                    }
                }
                r
            },
        }
    }
}

/// A consuming single-pass cursor: the `Index` is taken apart and its
/// labels handed out one at a time, front to back or back to front.
pub struct IntoIter<L: Label> {
    labels: Vec<L>,
}

impl<L: Label> IntoIter<L> {
    /// The labels not yet handed out.
    pub closed spec fn remaining(&self) -> Seq<L> {
        self.labels@
    }

    pub(crate) fn new(index: Index<L>) -> (r: Self)
        ensures
            r.remaining() == index@,
    {
        IntoIter { labels: index.into_vec() }
    }

    /// How many labels remain.
    pub fn len(&self) -> (r: usize)
        ensures
            r == self.remaining().len(),
    {
        self.labels.len()
    }

    /// Hands out the next label from the front; `None` once the pass is
    /// over.
    pub fn next(&mut self) -> (r: Option<L>)
        ensures
            old(self).remaining().len() > 0 ==> r == Some(old(self).remaining().first())
                && final(self).remaining() == old(self).remaining().drop_first(),
            old(self).remaining().len() == 0 ==> r is None && final(self).remaining() == old(
                self,
            ).remaining(),
    {
        if self.labels.len() > 0 {
            let l = self.labels.remove(0);
            proof {
                assert(self.labels@ =~= old(self).remaining().drop_first());
            }
            Some(l)
        } else {
            None
        }
    }

    /// Hands out the next label from the back; `None` once the pass is
    /// over.
    pub fn next_back(&mut self) -> (r: Option<L>)
        ensures
            old(self).remaining().len() > 0 ==> r == Some(old(self).remaining().last())
                && final(self).remaining() == old(self).remaining().drop_last(),
            old(self).remaining().len() == 0 ==> r is None && final(self).remaining() == old(
                self,
            ).remaining(),
    {
        let r = self.labels.pop();
        proof {
            if old(self).remaining().len() > 0 {
                assert(self.labels@ =~= old(self).remaining().drop_last());
            }
        }
        r
    }
}

} // verus!
