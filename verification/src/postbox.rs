//! The message channel of one connection: what has arrived and waits to be
//! handled, and what waits to be sent.

use vstd::prelude::*;
use std::collections::VecDeque;
use crate::queue::take_all;

verus! {

/// The items of `items` whose entry in `mask` equals `want`, in their order.
pub open spec fn pick<T>(items: Seq<T>, mask: Seq<bool>, want: bool) -> Seq<T>
    decreases items.len(),
{
    if items.len() == 0 || mask.len() != items.len() {
        Seq::empty()
    } else {
        let rest = pick(items.drop_last(), mask.drop_last(), want);
        if mask.last() == want {
            rest.push(items.last())
        } else {
            rest
        }
    }
}

/// `mask` holds, item by item, an answer that `predicate` may give.
pub open spec fn answers<T, F: Fn(&T) -> bool>(predicate: F, items: Seq<T>, mask: Seq<bool>) -> bool {
    &&& mask.len() == items.len()
    &&& forall|i: int| 0 <= i < items.len() ==> predicate.ensures((&#[trigger] items[i],), mask[i])
}

/// Where the mask follows a pure condition, picking by the mask is
/// selecting by the condition, and what is left is the selection by its
/// opposite.
pub proof fn lemma_pick_is_filter<T>(
    items: Seq<T>,
    mask: Seq<bool>,
    keep: spec_fn(T) -> bool,
    reject: spec_fn(T) -> bool,
)
    requires
        mask.len() == items.len(),
        forall|i: int| 0 <= i < items.len() ==> mask[i] == keep(#[trigger] items[i]),
        forall|i: int| 0 <= i < items.len() ==> mask[i] != reject(#[trigger] items[i]),
    ensures
        pick(items, mask, true) == items.filter(keep),
        pick(items, mask, false) == items.filter(reject),
    decreases items.len(),
{
    reveal(Seq::filter);
    if items.len() > 0 {
        lemma_pick_is_filter(items.drop_last(), mask.drop_last(), keep, reject);
    }
}

/// Inbox and outbox of one connection, both first in, first out.
pub struct PostBox<In, Out> {
    inbox: VecDeque<In>,
    outbox: Vec<Out>,
}

impl<In, Out> PostBox<In, Out> {
    /// The messages that have arrived and were not drained, oldest first.
    pub closed spec fn inbox(&self) -> Seq<In> {
        self.inbox@
    }

    /// The messages that wait to be sent, oldest first.
    pub closed spec fn outbox(&self) -> Seq<Out> {
        self.outbox@
    }

    pub fn new() -> (r: Self)
        ensures
            r.inbox() == Seq::<In>::empty(),
            r.outbox() == Seq::<Out>::empty(),
    {
        PostBox { inbox: VecDeque::new(), outbox: Vec::new() }
    }

    /// Queues `message` for sending.
    pub fn send(&mut self, message: Out)
        ensures
            final(self).outbox() == old(self).outbox().push(message),
            final(self).inbox() == old(self).inbox(),
    {
        self.outbox.push(message);
    }

    /// Files a message that has arrived.
    pub fn add_to_inbox(&mut self, message: In)
        ensures
            final(self).inbox() == old(self).inbox().push(message),
            final(self).outbox() == old(self).outbox(),
    {
        self.inbox.push_back(message);
    }

    pub fn empty_inbox(&self) -> (r: bool)
        ensures
            r == (self.inbox().len() == 0),
    {
        self.inbox.len() == 0
    }

    pub fn empty_outbox(&self) -> (r: bool)
        ensures
            r == (self.outbox().len() == 0),
    {
        self.outbox.len() == 0
    }

    /// Takes out of the inbox the messages for which `predicate` answers
    /// `true`, in arrival order. The others stay, in arrival order, for a
    /// later call.
    pub fn drain_inbox<F: Fn(&In) -> bool>(&mut self, predicate: F) -> (r: Vec<In>)
        requires
            forall|message: &In| #[trigger] predicate.requires((message,)),
        ensures
            final(self).outbox() == old(self).outbox(),
            exists|mask: Seq<bool>|
                {
                    &&& #[trigger] answers(predicate, old(self).inbox(), mask)
                    &&& r@ == pick(old(self).inbox(), mask, true)
                    &&& final(self).inbox() == pick(old(self).inbox(), mask, false)
                },
    {
        let ghost arrived = self.inbox@;
        let ghost mut mask: Seq<bool> = Seq::empty();
        let count: usize = self.inbox.len();
        let mut taken: Vec<In> = Vec::new();
        let mut i: usize = 0;
        while i < count
            invariant
                i <= count,
                count == arrived.len(),
                self.outbox@ == old(self).outbox@,
                forall|message: &In| #[trigger] predicate.requires((message,)),
                answers(predicate, arrived.take(i as int), mask),
                taken@ == pick(arrived.take(i as int), mask, true),
                self.inbox@ == arrived.skip(i as int) + pick(arrived.take(i as int), mask, false),
            decreases count - i,
        {
            let ghost before = self.inbox@;
            let front = self.inbox.pop_front();
            match front {
                Some(message) => {
                    assert(message == arrived[i as int]) by {
                        assert(before[0] == arrived.skip(i as int)[0]);
                    }
                    let wanted = predicate(&message);
                    proof {
                        let seen = arrived.take(i as int + 1);
                        assert(seen.drop_last() =~= arrived.take(i as int));
                        assert(mask.push(wanted).drop_last() =~= mask);
                        assert(self.inbox@ =~= arrived.skip(i as int + 1) + pick(
                            arrived.take(i as int),
                            mask,
                            false,
                        ));
                        mask = mask.push(wanted);
                    }
                    if wanted {
                        taken.push(message);
                    } else {
                        self.inbox.push_back(message);
                        assert(self.inbox@ =~= arrived.skip(i as int + 1) + pick(
                            arrived.take(i as int + 1),
                            mask,
                            false,
                        ));
                    }
                },
                None => {
                    assert(false);
                },
            }
            i += 1;
        }
        proof {
            assert(arrived.take(count as int) =~= arrived);
            assert(self.inbox@ =~= pick(arrived, mask, false));
            assert(answers(predicate, old(self).inbox(), mask));
            assert(taken@ == pick(old(self).inbox(), mask, true));
        }
        taken
    }

    /// Takes every message out of the inbox, in arrival order.
    pub fn drain_all_inbox(&mut self) -> (r: Vec<In>)
        ensures
            r@ == old(self).inbox(),
            final(self).inbox() == Seq::<In>::empty(),
            final(self).outbox() == old(self).outbox(),
    {
        take_all(&mut self.inbox)
    }

    /// Takes every message out of the outbox, oldest first, for the
    /// transport to send.
    pub fn drain_outbox(&mut self) -> (r: Vec<Out>)
        ensures
            r@ == old(self).outbox(),
            final(self).outbox() == Seq::<Out>::empty(),
            final(self).inbox() == old(self).inbox(),
    {
        let mut sent: Vec<Out> = Vec::new();
        std::mem::swap(&mut sent, &mut self.outbox);
        sent
    }
}

} // verus!
