//! Map-then-flatten: every outer item is turned into a vector by a caller's
//! function, lazily, and the vectors are delivered item by item.

use crate::cursor::into_deque;
use std::collections::VecDeque;
use vstd::prelude::*;
use vstd::seq_lib::*;

verus! {

/// Mathematical state of a [`FlatMap`].
pub struct FlatMapView<T, U> {
    /// Outer items that have not been handed to the function yet, in order.
    pub outer: Seq<T>,
    /// Unread items of the vector that the function returned last.
    pub inner: Seq<U>,
}

/// `f` may answer `x` with a vector that holds exactly `items`.
pub open spec fn maps_to<T, U, F: Fn(T) -> Vec<U>>(f: F, x: T, items: Seq<U>) -> bool {
    exists|v: Vec<U>| call_ensures(f, (x,), v) && v@ == items
}

/// `opened` holds, item for item, an answer of `f` to the first `opened.len()` items of `outer`.
pub open spec fn expands<T, U, F: Fn(T) -> Vec<U>>(
    f: F,
    outer: Seq<T>,
    opened: Seq<Seq<U>>,
) -> bool {
    &&& opened.len() <= outer.len()
    &&& forall|i: int| 0 <= i < opened.len() ==> maps_to(f, outer[i], #[trigger] opened[i])
}

/// `f` accepts every item of `outer`.
pub open spec fn accepts_all<T, U, F: Fn(T) -> Vec<U>>(f: F, outer: Seq<T>) -> bool {
    forall|i: int| 0 <= i < outer.len() ==> call_requires(f, (#[trigger] outer[i],))
}

/// One forward pull, given the answers `opened` that the function gave during it.
///
/// While unread items are left, the pull reads one and calls nothing. Otherwise
/// it hands outer items to the function, one after the other, until an answer
/// is not empty or no outer item is left.
pub open spec fn pulls<T, U>(
    pre: FlatMapView<T, U>,
    opened: Seq<Seq<U>>,
    item: Option<U>,
    post: FlatMapView<T, U>,
) -> bool {
    &&& opened.len() <= pre.outer.len()
    &&& post.outer == pre.outer.subrange(opened.len() as int, pre.outer.len() as int)
    &&& forall|i: int| 0 <= i < opened.len() - 1 ==> (#[trigger] opened[i]).len() == 0
    &&& if pre.inner.len() > 0 {
        &&& opened.len() == 0
        &&& item == Some(pre.inner.first())
        &&& post.inner == pre.inner.drop_first()
    } else {
        match item {
            Some(x) => {
                &&& opened.len() > 0
                &&& opened.last().len() > 0
                &&& x == opened.last().first()
                &&& post.inner == opened.last().drop_first()
            },
            None => {
                &&& opened.len() == pre.outer.len()
                &&& opened.len() > 0 ==> opened.last().len() == 0
                &&& post.inner == Seq::<U>::empty()
            },
        }
    }
}

/// What one pull adds to the stream: the answers given during a pull hold
/// nothing but, at most, the unread rest and the delivered item.
pub proof fn lemma_pulls_conserves<T, U>(
    pre: FlatMapView<T, U>,
    opened: Seq<Seq<U>>,
    item: Option<U>,
    post: FlatMapView<T, U>,
)
    requires
        pulls(pre, opened, item, post),
    ensures
        pre.inner + opened.flatten() == (match item {
            Some(x) => seq![x],
            None => Seq::empty(),
        }) + post.inner,
{
    if opened.len() == 0 {
        if pre.inner.len() > 0 {
            assert(pre.inner + opened.flatten() =~= seq![pre.inner.first()] + post.inner);
        } else {
            assert(pre.inner + opened.flatten() =~= Seq::<U>::empty() + post.inner);
        }
    } else {
        lemma_flatten_all_but_last_empty(opened);
        match item {
            Some(x) => {
                assert(pre.inner + opened.flatten() =~= seq![x] + post.inner);
            },
            None => {
                assert(pre.inner + opened.flatten() =~= Seq::<U>::empty() + post.inner);
            },
        }
    }
}

/// Where every sequence but the last is empty, the concatenation is the last one.
pub proof fn lemma_flatten_all_but_last_empty<U>(opened: Seq<Seq<U>>)
    requires
        opened.len() > 0,
        forall|i: int| 0 <= i < opened.len() - 1 ==> (#[trigger] opened[i]).len() == 0,
    ensures
        opened.flatten() == opened.last(),
    decreases opened.len(),
{
    if opened.len() == 1 {
        opened.lemma_flatten_one_element();
    } else {
        let rest = opened.drop_first();
        assert(opened[0].len() == 0);
        assert forall|i: int| 0 <= i < rest.len() - 1 implies (#[trigger] rest[i]).len() == 0 by {
            assert(rest[i] == opened[i + 1]);
        }
        lemma_flatten_all_but_last_empty(rest);
        assert(opened.flatten() =~= rest.flatten());
        assert(rest.last() == opened.last());
    }
}

/// Where `f` answers every item in one way only, namely with the items `g`
/// names, the answers to a whole sequence are determined: they are `g` applied
/// to each item. The full forward stream of such an adapter is then the
/// concatenation of `g(o)` over the outer items `o`, in order.
pub proof fn lemma_answers_determined<T, U, F: Fn(T) -> Vec<U>>(
    f: F,
    g: spec_fn(T) -> Seq<U>,
    outer: Seq<T>,
    opened: Seq<Seq<U>>,
)
    requires
        forall|x: T, v: Vec<U>| call_ensures(f, (x,), v) ==> v@ == g(x),
        expands(f, outer, opened),
        opened.len() == outer.len(),
    ensures
        opened == outer.map_values(g),
        opened.flatten() == outer.map_values(g).flatten(),
{
    assert forall|i: int| 0 <= i < opened.len() implies opened[i] == g(outer[i]) by {
        assert(maps_to(f, outer[i], opened[i]));
    }
    assert(opened =~= outer.map_values(g));
}

/// Lazily maps each outer item to a vector and delivers the vectors' items in order.
#[verifier::reject_recursive_types(T)]
#[verifier::reject_recursive_types(U)]
pub struct FlatMap<T, U, F> where F: Fn(T) -> Vec<U> {
    outer: VecDeque<T>,
    inner: Option<VecDeque<U>>,
    mapper: F,
}

impl<T, U, F> View for FlatMap<T, U, F> where F: Fn(T) -> Vec<U> {
    type V = FlatMapView<T, U>;

    closed spec fn view(&self) -> FlatMapView<T, U> {
        FlatMapView {
            outer: self.outer@,
            inner: match self.inner {
                Some(items) => items@,
                None => Seq::empty(),
            },
        }
    }
}

impl<T, U, F> FlatMap<T, U, F> where F: Fn(T) -> Vec<U> {
    /// The function that turns an outer item into a vector.
    pub closed spec fn mapper(&self) -> F {
        self.mapper
    }

    /// The function accepts every outer item that is still to come.
    pub open spec fn well_formed(&self) -> bool {
        accepts_all(self.mapper(), self@.outer)
    }

    /// Delivers the next item, or `None` when the outer items are used up and
    /// the last answer is read to its end.
    pub fn next(&mut self) -> (item: Option<U>)
        requires
            old(self).well_formed(),
        ensures
            final(self).well_formed(),
            final(self).mapper() == old(self).mapper(),
            exists|opened: Seq<Seq<U>>|
                expands(old(self).mapper(), old(self)@.outer, opened) && pulls(
                    old(self)@,
                    opened,
                    item,
                    final(self)@,
                ),
    {
        let ghost start = self@;
        let ghost mut opened: Seq<Seq<U>> = Seq::empty();
        assert(self@.outer =~= start.outer.subrange(0, start.outer.len() as int));
        loop
            invariant
                start == old(self)@,
                self.mapper() == old(self).mapper(),
                accepts_all(self.mapper(), start.outer),
                expands(self.mapper(), start.outer, opened),
                self@.outer == start.outer.subrange(opened.len() as int, start.outer.len() as int),
                forall|i: int| 0 <= i < opened.len() - 1 ==> (#[trigger] opened[i]).len() == 0,
                opened.len() == 0 ==> self@.inner == start.inner,
                opened.len() > 0 ==> start.inner.len() == 0 && self@.inner == opened.last(),
            decreases self.outer@.len(),
        {
            let ghost before = opened;
            if let Some(inner) = &mut self.inner {
                if let Some(next) = inner.pop_front() {
                    assert(pulls(start, opened, Some(next), self@));
                    return Some(next);
                }
            }
            if let Some(outer) = self.outer.pop_front() {
                assert(outer == start.outer[before.len() as int]);
                let answer = (self.mapper)(outer);
                proof {
                    opened = before.push(answer@);
                    assert(maps_to(self.mapper(), outer, answer@));
                    assert(self.outer@ =~= start.outer.subrange(
                        opened.len() as int,
                        start.outer.len() as int,
                    ));
                }
                self.inner = Some(into_deque(answer));
            } else {
                assert(self@.inner =~= Seq::<U>::empty());
                assert(pulls(start, opened, None::<U>, self@));
                return None;
            }
        }
    }

    /// Pulls until nothing is left and returns all delivered items in order: the
    /// unread items, then an answer of the function to each outer item in turn.
    pub fn collect(self) -> (items: Vec<U>)
        requires
            self.well_formed(),
        ensures
            exists|opened: Seq<Seq<U>>|
                opened.len() == self@.outer.len() && expands(self.mapper(), self@.outer, opened)
                    && items@ == self@.inner + opened.flatten(),
    {
        let ghost start = self@;
        let ghost mut done: Seq<Seq<U>> = Seq::empty();
        let mut adapter = self;
        let mut items: Vec<U> = Vec::new();
        assert(adapter@.outer =~= start.outer.subrange(0, start.outer.len() as int));
        assert(items@ + adapter@.inner =~= start.inner + done.flatten());
        loop
            invariant
                start == self@,
                adapter.well_formed(),
                adapter.mapper() == self.mapper(),
                expands(self.mapper(), start.outer, done),
                adapter@.outer == start.outer.subrange(done.len() as int, start.outer.len() as int),
                items@ + adapter@.inner == start.inner + done.flatten(),
            decreases adapter@.outer.len(), adapter@.inner.len(),
        {
            let ghost pre = adapter@;
            let ghost sofar = items@;
            let pulled = adapter.next();
            proof {
                let opened = choose|opened: Seq<Seq<U>>|
                    expands(self.mapper(), pre.outer, opened) && pulls(
                        pre,
                        opened,
                        pulled,
                        adapter@,
                    );
                lemma_pulls_conserves(pre, opened, pulled, adapter@);
                lemma_flatten_concat(done, opened);
                let all = done + opened;
                assert forall|i: int| 0 <= i < all.len() implies maps_to(
                    self.mapper(),
                    start.outer[i],
                    #[trigger] all[i],
                ) by {
                    if i >= done.len() {
                        assert(all[i] == opened[i - done.len()]);
                        assert(start.outer[i] == pre.outer[i - done.len()]);
                    } else {
                        assert(all[i] == done[i]);
                    }
                }
                assert(adapter@.outer =~= start.outer.subrange(
                    all.len() as int,
                    start.outer.len() as int,
                ));
                assert(start.inner + all.flatten() =~= sofar + (pre.inner + opened.flatten()));
                done = all;
            }
            match pulled {
                Some(item) => {
                    items.push(item);
                    assert(items@ + adapter@.inner =~= sofar + (seq![item] + adapter@.inner));
                },
                None => {
                    assert(items@ + adapter@.inner =~= sofar + (Seq::<U>::empty()
                        + adapter@.inner));
                    assert(items@ =~= items@ + adapter@.inner);
                    return items;
                },
            }
        }
    }
}

/// Starts mapping the items of `i` with `f`. Nothing is handed to `f` before
/// the first pull.
pub fn flat_map<T, U, F>(i: Vec<T>, f: F) -> (adapter: FlatMap<T, U, F>) where F: Fn(T) -> Vec<U>
    requires
        accepts_all(f, i@),
    ensures
        adapter.well_formed(),
        adapter.mapper() == f,
        adapter@.outer == i@,
        adapter@.inner == Seq::<U>::empty(),
{
    FlatMap { outer: into_deque(i), inner: None, mapper: f }
}

} // verus!
