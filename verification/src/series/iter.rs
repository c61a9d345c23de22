use vstd::prelude::*;

use crate::series::Series;
use crate::traits::Label;
use crate::traits::Storable;

verus! {

/// A single-pass cursor over the label/value pairs of a `Series`, front
/// to back or back to front; the pairs come out as copies, in lockstep
/// with the positions they occupy.
pub struct Iter<'a, L: Label, V: Storable> {
    series: &'a Series<L, V>,
    front: usize,
    back: usize,
}

impl<'a, L: Label, V: Storable> Iter<'a, L, V> {
    /// The cursor points inside its source, and the source is well
    /// formed.
    pub closed spec fn wf(&self) -> bool {
        self.front <= self.back <= self.series@.0.len() && self.series.wf()
    }

    /// The labels and values not yet consumed from either end.
    pub closed spec fn remaining(&self) -> (Seq<L>, Seq<V>) {
        (
            self.series@.0.subrange(self.front as int, self.back as int),
            self.series@.1.subrange(self.front as int, self.back as int),
        )
    }

    pub(crate) fn new(series: &'a Series<L, V>) -> (r: Self)
        requires
            series.wf(),
        ensures
            r.wf(),
            r.remaining() == series@,
    {
        let r = Iter { series, front: 0, back: series.index().len() };
        proof {
            assert(r.remaining().0 =~= series@.0);
            assert(r.remaining().1 =~= series@.1);
        }
        r
    }

    /// How many pairs remain.
    pub fn len(&self) -> (r: usize)
        requires
            self.wf(),
        ensures
            r == self.remaining().0.len(),
    {
        self.back - self.front
    }

    /// Takes the next pair from the front; `None` once the pass is over.
    pub fn next(&mut self) -> (r: Option<(L, V)>)
        requires
            old(self).wf(),
        ensures
            final(self).wf(),
            old(self).remaining().0.len() > 0 ==> r == Some(
                (old(self).remaining().0.first(), old(self).remaining().1.first()),
            ) && final(self).remaining().0 == old(self).remaining().0.drop_first()
                && final(self).remaining().1 == old(self).remaining().1.drop_first(),
            old(self).remaining().0.len() == 0 ==> r is None
                && final(self).remaining() == old(self).remaining(),
    {
        if self.front < self.back {
            let label = self.series.index().label_at(self.front).clone_value();
            let value = self.series.values()[self.front].clone_value();
            self.front = self.front + 1;
            proof {
                assert(self.remaining().0 =~= old(self).remaining().0.drop_first());
                assert(self.remaining().1 =~= old(self).remaining().1.drop_first());
            }
            Some((label, value))
        } else {
            None
        }
    }

    /// Takes the next pair from the back; `None` once the pass is over.
    pub fn next_back(&mut self) -> (r: Option<(L, V)>)
        requires
            old(self).wf(),
        ensures
            final(self).wf(),
            old(self).remaining().0.len() > 0 ==> r == Some(
                (old(self).remaining().0.last(), old(self).remaining().1.last()),
            ) && final(self).remaining().0 == old(self).remaining().0.drop_last()
                && final(self).remaining().1 == old(self).remaining().1.drop_last(),
            old(self).remaining().0.len() == 0 ==> r is None
                && final(self).remaining() == old(self).remaining(),
    {
        if self.front < self.back {
            let label = self.series.index().label_at(self.back - 1).clone_value();
            let value = self.series.values()[self.back - 1].clone_value();
            self.back = self.back - 1;
            proof {
                assert(self.remaining().0 =~= old(self).remaining().0.drop_last());
                assert(self.remaining().1 =~= old(self).remaining().1.drop_last());
            }
            Some((label, value))
        } else {
            None
        }
    }
}

/// A consuming single-pass cursor: the `Series` is taken apart and its
/// label/value pairs handed out one at a time, front to back or back to
/// front.
pub struct IntoIter<L: Label, V: Storable> {
    labels: Vec<L>,
    values: Vec<V>,
}

impl<L: Label, V: Storable> IntoIter<L, V> {
    /// The pairs still in step: as many labels as values.
    pub closed spec fn wf(&self) -> bool {
        self.labels@.len() == self.values@.len()
    }

    /// The labels and values not yet handed out.
    pub closed spec fn remaining(&self) -> (Seq<L>, Seq<V>) {
        (self.labels@, self.values@)
    }

    pub(crate) fn new(series: Series<L, V>) -> (r: Self)
        requires
            series.wf(),
        ensures
            r.wf(),
            r.remaining() == series@,
    {
        let (index, values) = series.into_index_values();
        IntoIter { labels: index.into_vec(), values }
    }

    /// How many pairs remain.
    pub fn len(&self) -> (r: usize)
        ensures
            r == self.remaining().0.len(),
    {
        self.labels.len()
    }

    /// Hands out the next pair from the front; `None` once the pass is
    /// over.
    pub fn next(&mut self) -> (r: Option<(L, V)>)
        requires
            old(self).wf(),
        ensures
            final(self).wf(),
            old(self).remaining().0.len() > 0 ==> r == Some(
                (old(self).remaining().0.first(), old(self).remaining().1.first()),
            ) && final(self).remaining().0 == old(self).remaining().0.drop_first()
                && final(self).remaining().1 == old(self).remaining().1.drop_first(),
            old(self).remaining().0.len() == 0 ==> r is None
                && final(self).remaining() == old(self).remaining(),
    {
        if self.labels.len() > 0 {
            let label = self.labels.remove(0);
            let value = self.values.remove(0);
            proof {
                assert(self.labels@ =~= old(self).remaining().0.drop_first());
                assert(self.values@ =~= old(self).remaining().1.drop_first());
            }
            Some((label, value))
        } else {
            None
        }
    }

    /// Hands out the next pair from the back; `None` once the pass is
    /// over.
    pub fn next_back(&mut self) -> (r: Option<(L, V)>)
        requires
            old(self).wf(),
        ensures
            final(self).wf(),
            old(self).remaining().0.len() > 0 ==> r == Some(
                (old(self).remaining().0.last(), old(self).remaining().1.last()),
            ) && final(self).remaining().0 == old(self).remaining().0.drop_last()
                && final(self).remaining().1 == old(self).remaining().1.drop_last(),
            old(self).remaining().0.len() == 0 ==> r is None
                && final(self).remaining() == old(self).remaining(),
    {
        if self.labels.len() > 0 {
            let label = self.labels.pop().unwrap();
            let value = self.values.pop().unwrap();
            proof {
                assert(self.labels@ =~= old(self).remaining().0.drop_last());
                assert(self.values@ =~= old(self).remaining().1.drop_last());
            }
            Some((label, value))
        } else {
            None
        }
    }
}

} // verus!
