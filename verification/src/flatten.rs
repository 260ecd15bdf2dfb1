//! Flattening a vector of vectors from both ends.
//!
//! The adapter keeps the outer items that nobody has opened yet, plus one open
//! inner cursor per end. Items come out of the front in concatenation order and
//! out of the back in reverse concatenation order; every item leaves exactly once.

use crate::cursor::into_deque;
use std::collections::VecDeque;
use vstd::prelude::*;

verus! {

/// Mathematical state of a [`Flatten`]: what is still to be delivered, and where it sits.
pub struct FlattenView<T> {
    /// Unread items of the inner sequence opened at the front.
    pub front: Seq<T>,
    /// Inner sequences that neither end has opened yet, in order.
    pub outer: Seq<Seq<T>>,
    /// Unread items of the inner sequence opened at the back.
    pub back: Seq<T>,
}

/// Index of the first non-empty sequence of `outer`, or `outer.len()` if all are empty.
pub open spec fn first_nonempty<T>(outer: Seq<Seq<T>>) -> int
    decreases outer.len(),
{
    if outer.len() == 0 {
        0
    } else if outer.first().len() > 0 {
        0
    } else {
        1 + first_nonempty(outer.drop_first())
    }
}

/// Index of the last non-empty sequence of `outer`, or `-1` if all are empty.
pub open spec fn last_nonempty<T>(outer: Seq<Seq<T>>) -> int
    decreases outer.len(),
{
    if outer.len() == 0 {
        -1
    } else if outer.last().len() > 0 {
        outer.len() - 1
    } else {
        last_nonempty(outer.drop_last())
    }
}

impl<T> FlattenView<T> {
    /// Everything still to be delivered, in front-to-back order.
    pub open spec fn remaining(self) -> Seq<T> {
        self.front + self.outer.flatten() + self.back
    }

    /// The item a forward pull delivers, if any is left.
    pub open spec fn head(self) -> Option<T> {
        if self.remaining().len() > 0 {
            Some(self.remaining().first())
        } else {
            None
        }
    }

    /// The item a backward pull delivers, if any is left.
    pub open spec fn tail(self) -> Option<T> {
        if self.remaining().len() > 0 {
            Some(self.remaining().last())
        } else {
            None
        }
    }

    /// The state after one forward pull.
    ///
    /// The open front sequence is read first. When it is used up, the outer
    /// sequences are opened from the front until a non-empty one appears. When
    /// none is left, the pull falls back on the sequence opened at the back.
    pub open spec fn after_next(self) -> Self {
        if self.front.len() > 0 {
            FlattenView { front: self.front.drop_first(), outer: self.outer, back: self.back }
        } else {
            let k = first_nonempty(self.outer);
            if k < self.outer.len() {
                FlattenView {
                    front: self.outer[k].drop_first(),
                    outer: self.outer.subrange(k + 1, self.outer.len() as int),
                    back: self.back,
                }
            } else {
                FlattenView {
                    front: Seq::empty(),
                    outer: Seq::empty(),
                    back: if self.back.len() > 0 {
                        self.back.drop_first()
                    } else {
                        self.back
                    },
                }
            }
        }
    }

    /// The state after one backward pull: the mirror image of [`Self::after_next`].
    pub open spec fn after_next_back(self) -> Self {
        if self.back.len() > 0 {
            FlattenView { front: self.front, outer: self.outer, back: self.back.drop_last() }
        } else {
            let k = last_nonempty(self.outer);
            if k >= 0 {
                FlattenView {
                    front: self.front,
                    outer: self.outer.subrange(0, k),
                    back: self.outer[k].drop_last(),
                }
            } else {
                FlattenView {
                    front: if self.front.len() > 0 {
                        self.front.drop_last()
                    } else {
                        self.front
                    },
                    outer: Seq::empty(),
                    back: Seq::empty(),
                }
            }
        }
    }
}

/// What [`first_nonempty`] finds: everything before it is empty, and the
/// concatenation starts with the sequence it points at.
pub proof fn lemma_first_nonempty<T>(outer: Seq<Seq<T>>)
    ensures
        0 <= first_nonempty(outer) <= outer.len(),
        forall|j: int| 0 <= j < first_nonempty(outer) ==> (#[trigger] outer[j]).len() == 0,
        first_nonempty(outer) < outer.len() ==> outer[first_nonempty(outer)].len() > 0,
        first_nonempty(outer) < outer.len() ==> outer.flatten() == outer[first_nonempty(outer)]
            + outer.subrange(first_nonempty(outer) + 1, outer.len() as int).flatten(),
        first_nonempty(outer) == outer.len() ==> outer.flatten() == Seq::<T>::empty(),
    decreases outer.len(),
{
    if outer.len() == 0 {
    } else if outer.first().len() > 0 {
        assert(outer.subrange(1, outer.len() as int) =~= outer.drop_first());
    } else {
        let rest = outer.drop_first();
        lemma_first_nonempty(rest);
        let k = first_nonempty(rest);
        assert forall|j: int| 0 <= j < 1 + k implies (#[trigger] outer[j]).len() == 0 by {
            if j > 0 {
                assert(outer[j] == rest[j - 1]);
            }
        }
        assert(outer.flatten() =~= rest.flatten());
        if k < rest.len() {
            assert(rest.subrange(k + 1, rest.len() as int) =~= outer.subrange(
                k + 2,
                outer.len() as int,
            ));
        }
    }
}

/// Where every inner sequence is empty, and where there is none at all, the
/// concatenation holds nothing: such an adapter delivers nothing at either end.
pub proof fn lemma_all_empty_flatten<T>(outer: Seq<Seq<T>>)
    requires
        forall|j: int| 0 <= j < outer.len() ==> (#[trigger] outer[j]).len() == 0,
    ensures
        outer.flatten() == Seq::<T>::empty(),
{
    lemma_first_nonempty(outer);
}

/// What [`last_nonempty`] finds: everything after it is empty, and the
/// concatenation ends with the sequence it points at.
pub proof fn lemma_last_nonempty<T>(outer: Seq<Seq<T>>)
    ensures
        -1 <= last_nonempty(outer) < outer.len(),
        forall|j: int| last_nonempty(outer) < j < outer.len() ==> (#[trigger] outer[j]).len() == 0,
        last_nonempty(outer) >= 0 ==> outer[last_nonempty(outer)].len() > 0,
        last_nonempty(outer) >= 0 ==> outer.flatten() == outer.subrange(
            0,
            last_nonempty(outer),
        ).flatten() + outer[last_nonempty(outer)],
        last_nonempty(outer) == -1 ==> outer.flatten() == Seq::<T>::empty(),
    decreases outer.len(),
{
    if outer.len() == 0 {
    } else {
        let init = outer.drop_last();
        assert(outer =~= init.push(outer.last()));
        init.lemma_flatten_push(outer.last());
        if outer.last().len() > 0 {
            assert(outer.subrange(0, outer.len() - 1) =~= init);
        } else {
            lemma_last_nonempty(init);
            let k = last_nonempty(init);
            assert(outer.flatten() =~= init.flatten());
            if k >= 0 {
                assert(init.subrange(0, k) =~= outer.subrange(0, k));
            }
        }
    }
}

impl<T> FlattenView<T> {
    /// A forward pull delivers the first remaining item and leaves the rest,
    /// in the same order; on an exhausted state it delivers nothing and nothing remains.
    pub proof fn lemma_after_next(self)
        ensures
            self.remaining().len() > 0 ==> self.after_next().remaining()
                == self.remaining().drop_first(),
            self.remaining().len() == 0 ==> self.after_next().remaining() == Seq::<T>::empty(),
    {
        lemma_first_nonempty(self.outer);
        let next = self.after_next();
        if self.front.len() > 0 {
            assert(next.remaining() =~= self.remaining().drop_first());
        } else if first_nonempty(self.outer) < self.outer.len() {
            assert(next.remaining() =~= self.remaining().drop_first());
        } else {
            assert(Seq::<Seq<T>>::empty().flatten() =~= Seq::<T>::empty());
            if self.back.len() > 0 {
                assert(next.remaining() =~= self.remaining().drop_first());
            } else {
                assert(next.remaining() =~= Seq::<T>::empty());
            }
        }
    }

    /// A backward pull delivers the last remaining item and leaves the rest,
    /// in the same order; on an exhausted state it delivers nothing and nothing remains.
    pub proof fn lemma_after_next_back(self)
        ensures
            self.remaining().len() > 0 ==> self.after_next_back().remaining()
                == self.remaining().drop_last(),
            self.remaining().len() == 0 ==> self.after_next_back().remaining() == Seq::<
                T,
            >::empty(),
    {
        lemma_last_nonempty(self.outer);
        let next = self.after_next_back();
        if self.back.len() > 0 {
            assert(next.remaining() =~= self.remaining().drop_last());
        } else if last_nonempty(self.outer) >= 0 {
            assert(next.remaining() =~= self.remaining().drop_last());
        } else {
            assert(Seq::<Seq<T>>::empty().flatten() =~= Seq::<T>::empty());
            if self.front.len() > 0 {
                assert(next.remaining() =~= self.remaining().drop_last());
            } else {
                assert(next.remaining() =~= Seq::<T>::empty());
            }
        }
    }
}

/// The view of an optional cursor: nothing when there is none.
pub open spec fn cursor_view<T>(cursor: Option<VecDeque<T>>) -> Seq<T> {
    match cursor {
        Some(items) => items@,
        None => Seq::empty(),
    }
}

/// Flattens a vector of vectors lazily, from the front and from the back.
pub struct Flatten<T> {
    outer: VecDeque<Vec<T>>,
    front_inner: Option<VecDeque<T>>,
    back_inner: Option<VecDeque<T>>,
}

impl<T> View for Flatten<T> {
    type V = FlattenView<T>;

    closed spec fn view(&self) -> FlattenView<T> {
        FlattenView {
            front: cursor_view(self.front_inner),
            outer: inner_views(self.outer@),
            back: cursor_view(self.back_inner),
        }
    }
}

impl<T> Flatten<T> {
    /// Delivers the first remaining item, or `None` when nothing is left.
    pub fn next(&mut self) -> (item: Option<T>)
        ensures
            item == old(self)@.head(),
            final(self)@ == old(self)@.after_next(),
            old(self)@.remaining().len() > 0 ==> final(self)@.remaining() == old(
                self,
            )@.remaining().drop_first(),
            old(self)@.remaining().len() == 0 ==> final(self)@.remaining() == Seq::<T>::empty(),
    {
        let ghost start = self@;
        loop
            invariant
                start == old(self)@,
                self@.head() == start.head(),
                self@.after_next() == start.after_next(),
            decreases self.outer@.len(),
        {
            let ghost here = self@;
            proof {
                start.lemma_after_next();
                lemma_first_nonempty(here.outer);
            }
            if let Some(front) = &mut self.front_inner {
                if let Some(next) = front.pop_front() {
                    assert(here.remaining()[0] == here.front[0]);
                    assert(self@ == here.after_next());
                    return Some(next);
                }
            }
            if let Some(outer) = self.outer.pop_front() {
                self.front_inner = Some(into_deque(outer));
                proof {
                    let now = self@;
                    assert(now.outer =~= here.outer.drop_first());
                    assert(now.front == here.outer[0]);
                    assert(now.back == here.back);
                    lemma_first_nonempty(now.outer);
                    assert(here.outer.flatten() == here.outer[0] + now.outer.flatten());
                    assert(now.remaining() =~= here.remaining());
                    if here.outer[0].len() > 0 {
                        assert(here.outer.subrange(1, here.outer.len() as int) =~= now.outer);
                    } else {
                        let k = first_nonempty(now.outer);
                        if k < now.outer.len() {
                            assert(now.outer.subrange(k + 1, now.outer.len() as int)
                                =~= here.outer.subrange(k + 2, here.outer.len() as int));
                        }
                    }
                }
            } else {
                assert(here.outer =~= Seq::<Seq<T>>::empty());
                if let Some(back) = &mut self.back_inner {
                    if let Some(next) = back.pop_front() {
                        assert(here.remaining()[0] == here.back[0]);
                        assert(self@ == here.after_next());
                        return Some(next);
                    }
                }
                assert(here.remaining() =~= Seq::<T>::empty());
                assert(self@ == here.after_next());
                return None;
            }
        }
    }

    /// Delivers the last remaining item, or `None` when nothing is left.
    pub fn next_back(&mut self) -> (item: Option<T>)
        ensures
            item == old(self)@.tail(),
            final(self)@ == old(self)@.after_next_back(),
            old(self)@.remaining().len() > 0 ==> final(self)@.remaining() == old(
                self,
            )@.remaining().drop_last(),
            old(self)@.remaining().len() == 0 ==> final(self)@.remaining() == Seq::<T>::empty(),
    {
        let ghost start = self@;
        loop
            invariant
                start == old(self)@,
                self@.tail() == start.tail(),
                self@.after_next_back() == start.after_next_back(),
            decreases self.outer@.len(),
        {
            let ghost here = self@;
            proof {
                start.lemma_after_next_back();
                lemma_last_nonempty(here.outer);
            }
            if let Some(back) = &mut self.back_inner {
                if let Some(next) = back.pop_back() {
                    assert(here.remaining().last() == here.back.last());
                    assert(self@ == here.after_next_back());
                    return Some(next);
                }
            }
            if let Some(outer) = self.outer.pop_back() {
                self.back_inner = Some(into_deque(outer));
                proof {
                    let now = self@;
                    assert(now.outer =~= here.outer.drop_last());
                    assert(now.back == here.outer.last());
                    assert(now.front == here.front);
                    lemma_last_nonempty(now.outer);
                    assert(here.outer =~= now.outer.push(here.outer.last()));
                    now.outer.lemma_flatten_push(here.outer.last());
                    assert(now.remaining() =~= here.remaining());
                    if here.outer.last().len() > 0 {
                        assert(here.outer.subrange(0, here.outer.len() - 1) =~= now.outer);
                    } else {
                        let k = last_nonempty(now.outer);
                        if k >= 0 {
                            assert(now.outer.subrange(0, k) =~= here.outer.subrange(0, k));
                        }
                    }
                }
            } else {
                assert(here.outer =~= Seq::<Seq<T>>::empty());
                if let Some(front) = &mut self.front_inner {
                    if let Some(next) = front.pop_back() {
                        assert(here.remaining().last() == here.front.last());
                        assert(self@.back =~= Seq::<T>::empty());
                        assert(self@.outer =~= Seq::<Seq<T>>::empty());
                        assert(self@ == here.after_next_back());
                        return Some(next);
                    }
                }
                assert(here.remaining() =~= Seq::<T>::empty());
                assert(self@ == here.after_next_back());
                return None;
            }
        }
    }

    /// Pulls forward until nothing is left and returns the delivered items in
    /// order: everything that remained, front to back.
    pub fn collect(self) -> (items: Vec<T>)
        ensures
            items@ == self@.remaining(),
    {
        let mut adapter = self;
        let mut items: Vec<T> = Vec::new();
        assert(items@ + adapter@.remaining() =~= self@.remaining());
        loop
            invariant
                items@ + adapter@.remaining() == self@.remaining(),
            decreases adapter@.remaining().len(),
        {
            let ghost sofar = items@;
            let ghost left = adapter@.remaining();
            match adapter.next() {
                Some(item) => {
                    items.push(item);
                    assert(items@ + adapter@.remaining() =~= sofar + left);
                },
                None => {
                    assert(items@ =~= sofar + left);
                    return items;
                },
            }
        }
    }
}

/// The inner sequences of `source`, as mathematical sequences.
pub open spec fn inner_views<T>(source: Seq<Vec<T>>) -> Seq<Seq<T>> {
    source.map_values(|inner: Vec<T>| inner@)
}

/// Starts flattening `i`: nothing is opened yet, and what remains is the
/// concatenation of all inner vectors in order.
pub fn flatten<T>(i: Vec<Vec<T>>) -> (adapter: Flatten<T>)
    ensures
        adapter@.front == Seq::<T>::empty(),
        adapter@.outer == inner_views(i@),
        adapter@.back == Seq::<T>::empty(),
        adapter@.remaining() == inner_views(i@).flatten(),
{
    let adapter = Flatten { outer: into_deque(i), front_inner: None, back_inner: None };
    assert(adapter@.remaining() =~= inner_views(i@).flatten());
    adapter
}

} // verus!
