//! Endless repetition of a finite sequence.
//!
//! The adapter keeps the source as a template and reads a copy of it, one pass
//! at a time. A pass that is used up is replaced by a fresh one, once per pull,
//! so an empty source is answered with `None` and never with a loop.

use crate::cursor::fresh_pass;
use std::collections::VecDeque;
use vstd::prelude::*;

verus! {

/// Mathematical state of a [`Cycle`].
pub struct CycleView<T> {
    /// The template: the items of one pass, in order.
    pub source: Seq<T>,
    /// The unread items of the current pass.
    pub pending: Seq<T>,
}

impl<T> CycleView<T> {
    /// The current pass is a pass over the template: its unread items are a
    /// suffix of the source.
    pub open spec fn well_formed(self) -> bool {
        &&& self.pending.len() <= self.source.len()
        &&& self.pending == self.source.subrange(
            self.source.len() - self.pending.len(),
            self.source.len() as int,
        )
    }

    /// How many items of the current pass have been read.
    pub open spec fn offset(self) -> int {
        self.source.len() - self.pending.len()
    }

    /// The item that the next pull delivers: the next of the current pass, or
    /// the first of a new pass; nothing if the source is empty.
    pub open spec fn head(self) -> Option<T> {
        if self.pending.len() > 0 {
            Some(self.pending.first())
        } else if self.source.len() > 0 {
            Some(self.source.first())
        } else {
            None
        }
    }

    /// The state after one pull.
    pub open spec fn after_next(self) -> Self {
        if self.pending.len() > 0 {
            CycleView { source: self.source, pending: self.pending.drop_first() }
        } else if self.source.len() > 0 {
            CycleView { source: self.source, pending: self.source.drop_first() }
        } else {
            CycleView { source: self.source, pending: self.source }
        }
    }

    /// The state after `count` pulls.
    pub open spec fn after_pulls(self, count: nat) -> Self
        decreases count,
    {
        if count == 0 {
            self
        } else {
            self.after_next().after_pulls((count - 1) as nat)
        }
    }

    /// The item that the pull after `count` earlier pulls delivers.
    pub open spec fn item_at(self, count: nat) -> Option<T> {
        self.after_pulls(count).head()
    }

    /// A pull keeps the template and leaves a pass over it.
    pub proof fn lemma_after_next_well_formed(self)
        requires
            self.well_formed(),
        ensures
            self.after_next().well_formed(),
            self.after_next().source == self.source,
    {
        let next = self.after_next();
        let n = self.source.len() as int;
        assert(next.pending =~= next.source.subrange(n - next.pending.len(), n));
    }

    /// An empty source never delivers anything, however often it is pulled.
    pub proof fn lemma_empty_source_stays_empty(self, count: nat)
        requires
            self.well_formed(),
            self.source.len() == 0,
        ensures
            self.item_at(count) is None,
            self.after_pulls(count) == self,
        decreases count,
    {
        assert(self.pending =~= self.source);
        if count > 0 {
            assert(self.after_next() == self);
            self.lemma_empty_source_stays_empty((count - 1) as nat);
        }
    }

    /// Periodicity: with a source of `n > 0` items of which `offset` are read
    /// in the current pass, the pull after `count` earlier pulls delivers the
    /// item at index `(offset + count) % n` of the source.
    pub proof fn lemma_periodic(self, count: nat)
        requires
            self.well_formed(),
            self.source.len() > 0,
        ensures
            self.item_at(count) == Some(
                self.source[(self.offset() + count) % (self.source.len() as int)],
            ),
        decreases count,
    {
        let n = self.source.len() as int;
        let p = self.offset();
        if count == 0 {
            if self.pending.len() > 0 {
                assert(p % n == p) by (nonlinear_arith)
                    requires
                        0 <= p < n,
                ;
                assert(self.pending.first() == self.source[p]);
            } else {
                assert(p % n == 0) by (nonlinear_arith)
                    requires
                        p == n,
                        n > 0,
                ;
            }
        } else {
            let next = self.after_next();
            self.lemma_after_next_well_formed();
            next.lemma_periodic((count - 1) as nat);
            let q = next.offset();
            assert((q + (count - 1)) % n == (p + count) % n) by (nonlinear_arith)
                requires
                    n > 0,
                    q == p + 1 || (p == n && q == 1),
            ;
        }
    }

    /// From the start, the pulls deliver the source over and over:
    /// the pull after `count` earlier ones delivers the item at `count % n`.
    pub proof fn lemma_periodic_from_start(self, count: nat)
        requires
            self.pending == self.source,
            self.source.len() > 0,
        ensures
            self.item_at(count) == Some(self.source[count as int % (self.source.len() as int)]),
    {
        assert(self.source =~= self.source.subrange(0, self.source.len() as int));
        self.lemma_periodic(count);
    }
}

/// Repeats the items of a vector forever.
pub struct Cycle<T: Copy> {
    copy: Vec<T>,
    iter: VecDeque<T>,
}

impl<T: Copy> View for Cycle<T> {
    type V = CycleView<T>;

    closed spec fn view(&self) -> CycleView<T> {
        CycleView { source: self.copy@, pending: self.iter@ }
    }
}

impl<T: Copy> Cycle<T> {
    /// Delivers the next item of the current pass. When the pass is used up, a
    /// fresh pass over the source replaces it and is asked once: for its first
    /// item, or for `None` if the source is empty.
    pub fn next(&mut self) -> (item: Option<T>)
        requires
            old(self)@.well_formed(),
        ensures
            final(self)@.well_formed(),
            item == old(self)@.head(),
            final(self)@ == old(self)@.after_next(),
            final(self)@.source == old(self)@.source,
            item is None <==> old(self)@.source.len() == 0,
    {
        proof {
            self@.lemma_after_next_well_formed();
        }
        let ghost start = self@;
        if let Some(next) = self.iter.pop_front() {
            return Some(next);
        }
        assert(start.pending.len() == 0);
        self.iter = fresh_pass(&self.copy);
        let item = self.iter.pop_front();
        proof {
            if start.source.len() == 0 {
                assert(self@.pending =~= start.source);
            }
        }
        item
    }
}

/// Starts repeating `iterable`: the first pass is about to begin.
pub fn cycle<T: Copy>(iterable: Vec<T>) -> (adapter: Cycle<T>)
    ensures
        adapter@.source == iterable@,
        adapter@.pending == iterable@,
        adapter@.well_formed(),
{
    let iter = fresh_pass(&iterable);
    assert(iterable@ =~= iterable@.subrange(0, iterable@.len() as int));
    Cycle { copy: iterable, iter }
}

} // verus!
