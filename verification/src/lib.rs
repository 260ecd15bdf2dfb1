//! Lazy sequence adapters over owned vectors: endless repetition, map-then-flatten,
//! and flattening from either end.
//!
//! Every adapter is a small state machine with a mathematical view; each pull
//! operation is specified by what it returns and how the view changes.
//!
//! The crate root holds the forward-only flattening adapter. It is the two-ended
//! adapter of [`flatten`](crate::flatten) restricted to forward pulls, and shares
//! its model.

pub mod cursor;
pub mod cycle;
pub mod flatmap;
pub mod flatten;
pub mod pulls;

use crate::cursor::into_deque;
use crate::flatten::{cursor_view, inner_views, lemma_first_nonempty, FlattenView, first_nonempty};
use std::collections::VecDeque;
use vstd::prelude::*;

verus! {

/// Flattens a vector of vectors lazily, front to back.
pub struct Flatten<T> {
    outer: VecDeque<Vec<T>>,
    inner: Option<VecDeque<T>>,
}

impl<T> View for Flatten<T> {
    type V = FlattenView<T>;

    /// The state of a two-ended adapter on which nothing was ever opened at the back.
    closed spec fn view(&self) -> FlattenView<T> {
        FlattenView {
            front: cursor_view(self.inner),
            outer: inner_views(self.outer@),
            back: Seq::empty(),
        }
    }
}

impl<T> Flatten<T> {
    /// Delivers the first remaining item, or `None` when nothing is left.
    pub fn next(&mut self) -> (item: Option<T>)
        ensures
            item == old(self)@.head(),
            final(self)@ == old(self)@.after_next(),
            final(self)@.back == Seq::<T>::empty(),
            old(self)@.remaining().len() > 0 ==> final(self)@.remaining() == old(
                self,
            )@.remaining().drop_first(),
            old(self)@.remaining().len() == 0 ==> final(self)@.remaining() == Seq::<T>::empty(),
    {
        let ghost start = self@;
        loop
            invariant
                start == old(self)@,
                self@.head() == start.head(),
                self@.after_next() == start.after_next(),
            decreases self.outer@.len(),
        {
            let ghost here = self@;
            proof {
                start.lemma_after_next();
                lemma_first_nonempty(here.outer);
            }
            if let Some(inner) = &mut self.inner {
                if let Some(next) = inner.pop_front() {
                    assert(here.remaining()[0] == here.front[0]);
                    assert(self@ == here.after_next());
                    return Some(next);
                }
            }
            if let Some(outer) = self.outer.pop_front() {
                self.inner = Some(into_deque(outer));
                proof {
                    let now = self@;
                    assert(now.outer =~= here.outer.drop_first());
                    assert(now.front == here.outer[0]);
                    lemma_first_nonempty(now.outer);
                    assert(here.outer.flatten() == here.outer[0] + now.outer.flatten());
                    assert(now.remaining() =~= here.remaining());
                    if here.outer[0].len() > 0 {
                        assert(here.outer.subrange(1, here.outer.len() as int) =~= now.outer);
                    } else {
                        let k = first_nonempty(now.outer);
                        if k < now.outer.len() {
                            assert(now.outer.subrange(k + 1, now.outer.len() as int)
                                =~= here.outer.subrange(k + 2, here.outer.len() as int));
                        }
                    }
                }
            } else {
                assert(here.outer =~= Seq::<Seq<T>>::empty());
                assert(here.remaining() =~= Seq::<T>::empty());
                assert(self@.front =~= Seq::<T>::empty());
                assert(self@ == here.after_next());
                return None;
            }
        }
    }

    /// Pulls forward until nothing is left and returns the delivered items in
    /// order: everything that remained, front to back.
    pub fn collect(self) -> (items: Vec<T>)
        ensures
            items@ == self@.remaining(),
    {
        let mut adapter = self;
        let mut items: Vec<T> = Vec::new();
        assert(items@ + adapter@.remaining() =~= self@.remaining());
        loop
            invariant
                items@ + adapter@.remaining() == self@.remaining(),
            decreases adapter@.remaining().len(),
        {
            let ghost sofar = items@;
            let ghost left = adapter@.remaining();
            match adapter.next() {
                Some(item) => {
                    items.push(item);
                    assert(items@ + adapter@.remaining() =~= sofar + left);
                },
                None => {
                    assert(items@ =~= sofar + left);
                    return items;
                },
            }
        }
    }
}

/// Starts flattening `i`: what remains is the concatenation of all inner
/// vectors in order.
pub fn flatten<T>(i: Vec<Vec<T>>) -> (adapter: Flatten<T>)
    ensures
        adapter@.front == Seq::<T>::empty(),
        adapter@.outer == inner_views(i@),
        adapter@.back == Seq::<T>::empty(),
        adapter@.remaining() == inner_views(i@).flatten(),
{
    let adapter = Flatten { outer: into_deque(i), inner: None };
    assert(adapter@.remaining() =~= inner_views(i@).flatten());
    adapter
}

} // verus!
