//! Arbitrary interleavings of forward and backward pulls on the two-ended
//! flattening adapter, and what they deliver.

use crate::flatten::FlattenView;
use vstd::prelude::*;
use vstd::multiset::Multiset;
use vstd::seq_lib::*;

verus! {

/// The end of the adapter that a pull takes from.
pub enum End {
    /// A forward pull.
    Front,
    /// A backward pull.
    Back,
}

/// An optional item as a sequence of length zero or one.
pub open spec fn item_seq<T>(item: Option<T>) -> Seq<T> {
    match item {
        Some(x) => seq![x],
        None => Seq::empty(),
    }
}

impl<T> FlattenView<T> {
    /// The item that one pull at `end` delivers.
    pub open spec fn delivered(self, end: End) -> Option<T> {
        match end {
            End::Front => self.head(),
            End::Back => self.tail(),
        }
    }

    /// The state after one pull at `end`.
    pub open spec fn after(self, end: End) -> Self {
        match end {
            End::Front => self.after_next(),
            End::Back => self.after_next_back(),
        }
    }

    /// The state after the pulls of `pulls`, made in that order.
    pub open spec fn after_all(self, pulls: Seq<End>) -> Self
        decreases pulls.len(),
    {
        if pulls.len() == 0 {
            self
        } else {
            self.after(pulls.first()).after_all(pulls.drop_first())
        }
    }

    /// The items that the pulls of `pulls` deliver, in the order of the calls.
    /// A pull that finds nothing contributes nothing.
    pub open spec fn delivered_all(self, pulls: Seq<End>) -> Seq<T>
        decreases pulls.len(),
    {
        if pulls.len() == 0 {
            Seq::empty()
        } else {
            item_seq(self.delivered(pulls.first())) + self.after(pulls.first()).delivered_all(
                pulls.drop_first(),
            )
        }
    }

    /// The items that the forward pulls among `pulls` deliver, in the order of the calls.
    pub open spec fn delivered_front(self, pulls: Seq<End>) -> Seq<T>
        decreases pulls.len(),
    {
        if pulls.len() == 0 {
            Seq::empty()
        } else {
            let rest = self.after(pulls.first()).delivered_front(pulls.drop_first());
            match pulls.first() {
                End::Front => item_seq(self.head()) + rest,
                End::Back => rest,
            }
        }
    }

    /// The items that the backward pulls among `pulls` deliver, the last call's item first.
    pub open spec fn delivered_back(self, pulls: Seq<End>) -> Seq<T>
        decreases pulls.len(),
    {
        if pulls.len() == 0 {
            Seq::empty()
        } else {
            let rest = self.after(pulls.first()).delivered_back(pulls.drop_first());
            match pulls.first() {
                End::Front => rest,
                End::Back => rest + item_seq(self.tail()),
            }
        }
    }

    /// One pull splits what remains into the delivered item and the rest, at the
    /// end that the pull took from.
    pub proof fn lemma_after(self, end: End)
        ensures
            end is Front ==> self.remaining() == item_seq(self.delivered(end)) + self.after(
                end,
            ).remaining(),
            end is Back ==> self.remaining() == self.after(end).remaining() + item_seq(
                self.delivered(end),
            ),
    {
        self.lemma_after_next();
        self.lemma_after_next_back();
        match end {
            End::Front => {
                assert(self.remaining() =~= item_seq(self.head()) + self.after_next().remaining());
            },
            End::Back => {
                assert(self.remaining() =~= self.after_next_back().remaining() + item_seq(
                    self.tail(),
                ));
            },
        }
    }

    /// Order: whatever the interleaving, the forward pulls deliver a prefix of
    /// the concatenation in order, the backward pulls deliver a suffix of it in
    /// reverse order, and what remains lies between the two. No item is skipped
    /// and none is delivered twice.
    pub proof fn lemma_pulls_in_order(self, pulls: Seq<End>)
        ensures
            self.remaining() == self.delivered_front(pulls) + self.after_all(pulls).remaining()
                + self.delivered_back(pulls),
        decreases pulls.len(),
    {
        if pulls.len() == 0 {
            assert(self.remaining() =~= Seq::<T>::empty() + self.remaining() + Seq::<T>::empty());
        } else {
            let end = pulls.first();
            let next = self.after(end);
            let rest = pulls.drop_first();
            self.lemma_after(end);
            next.lemma_pulls_in_order(rest);
            match end {
                End::Front => {
                    assert(self.remaining() =~= (item_seq(self.head()) + next.delivered_front(rest))
                        + next.after_all(rest).remaining() + next.delivered_back(rest));
                },
                End::Back => {
                    assert(self.remaining() =~= next.delivered_front(rest) + next.after_all(
                        rest,
                    ).remaining() + (next.delivered_back(rest) + item_seq(self.tail())));
                },
            }
        }
    }

    /// Exactly once: the items delivered by any interleaving of pulls, together
    /// with what still remains, are the items that remained at the start, each
    /// as often as it occurred there.
    pub proof fn lemma_pulls_exactly_once(self, pulls: Seq<End>)
        ensures
            self.delivered_all(pulls).to_multiset().add(
                self.after_all(pulls).remaining().to_multiset(),
            ) == self.remaining().to_multiset(),
        decreases pulls.len(),
    {
        broadcast use lemma_multiset_commutative;

        if pulls.len() == 0 {
            assert(Seq::<T>::empty() + self.remaining() =~= self.remaining());
        } else {
            let end = pulls.first();
            let next = self.after(end);
            let rest = pulls.drop_first();
            let one = item_seq(self.delivered(end));
            self.lemma_after(end);
            next.lemma_pulls_exactly_once(rest);
            assert(self.remaining().to_multiset() =~= one.to_multiset().add(
                next.remaining().to_multiset(),
            ));
            assert(self.delivered_all(pulls).to_multiset() =~= one.to_multiset().add(
                next.delivered_all(rest).to_multiset(),
            ));
            assert(self.delivered_all(pulls).to_multiset().add(
                self.after_all(pulls).remaining().to_multiset(),
            ) =~= self.remaining().to_multiset());
        }
    }

    /// Once the pulls have exhausted the adapter, so that a pull at either end
    /// finds nothing, the delivered items are all the items of the start, each
    /// exactly as often as it occurred there.
    pub proof fn lemma_drained_exactly_once(self, pulls: Seq<End>)
        requires
            self.after_all(pulls).head() is None,
            self.after_all(pulls).tail() is None,
        ensures
            self.delivered_all(pulls).to_multiset() == self.remaining().to_multiset(),
    {
        self.lemma_pulls_exactly_once(pulls);
        let left = self.after_all(pulls).remaining();
        assert(left =~= Seq::<T>::empty());
        assert(left.to_multiset() =~= Multiset::<T>::empty()) by {
            left.to_multiset_ensures();
        }
        assert(self.delivered_all(pulls).to_multiset().add(Multiset::<T>::empty())
            =~= self.delivered_all(pulls).to_multiset());
    }
}

} // verus!
