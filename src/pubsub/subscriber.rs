//! The subscriber side of a channel.
use vstd::prelude::*;

use super::{PubSubChannel, WaitResult};
use crate::waitqueue::{MultiWakerStore, WakeHandle};

verus! {

/// A subscriber to a channel: the id of the next message it will read.
pub struct Sub {
    next_message_id: u64,
    token: Ghost<nat>,
    waker: MultiWakerStore,
}

impl Sub {
    /// The id of the next message to read.
    pub closed spec fn id(&self) -> u64 {
        self.next_message_id
    }

    /// The number under which the channel knows this subscriber.
    pub closed spec fn token(&self) -> nat {
        self.token@
    }

    /// The slot in which this subscriber waits.
    pub closed spec fn store(&self) -> MultiWakerStore {
        self.waker
    }

    pub(crate) fn new(next_message_id: u64, token: Ghost<nat>, waker: MultiWakerStore) -> (r: Sub)
        ensures
            r.id() == next_message_id,
            r.token() == token@,
            r.store() == waker,
    {
        Sub { next_message_id, token, waker }
    }

    /// Reads the next message if there is one; nothing is peeked. A read that
    /// finds the subscriber behind reports how far and moves it up.
    pub fn try_next_message<T: Clone, const CAP: usize>(&mut self, ch: &mut PubSubChannel<T, CAP>) -> (r: Option<WaitResult<T>>)
        requires
            old(ch).wf(),
            old(ch).owns_sub(old(self)),
        ensures
            final(ch).wf(),
            final(ch).keeps_stores(old(ch)),
            final(ch).owns_sub(final(self)),
            PubSubChannel::read_post(*old(ch), *final(ch), old(self).id(), old(self).token(), r),
            final(ch).next_id() == old(ch).next_id(),
            final(ch).subscribers() == old(ch).subscribers(),
            final(ch).publishers() == old(ch).publishers(),
            final(ch).subscriber_wakers() == old(ch).subscriber_wakers(),
            final(self).token() == old(self).token(),
            final(self).store() == old(self).store(),
            final(self).id() == match r {
                Some(WaitResult::Lagged(n)) => old(self).id() + n,
                Some(WaitResult::Message(_)) => old(self).id() + 1,
                None => old(self).id() as int,
            },
    {
        let r = ch.get_message(self.next_message_id, self.token);
        match &r {
            Some(WaitResult::Lagged(lagged)) => {
                self.next_message_id = self.next_message_id + *lagged;
            },
            Some(WaitResult::Message(_)) => {
                self.next_message_id = self.next_message_id + 1;
            },
            None => {},
        }
        r
    }

    /// Reads the next message if there is one, passing over a report of
    /// having fallen behind.
    pub fn try_next_message_pure<T: Clone, const CAP: usize>(&mut self, ch: &mut PubSubChannel<T, CAP>) -> (r: Option<T>)
        requires
            old(ch).wf(),
            old(ch).owns_sub(old(self)),
        ensures
            final(ch).wf(),
            final(ch).keeps_stores(old(ch)),
            final(ch).owns_sub(final(self)),
            final(self).token() == old(self).token(),
            final(self).store() == old(self).store(),
            ({
                let st = old(ch).start_id();
                let from = if old(self).id() < st { st } else { old(self).id() as int };
                let q = old(ch).messages();
                &&& r is Some <==> from < old(ch).next_id()
                &&& r matches Some(m) ==> (m == q[from - st].0 || vstd::pervasive::strictly_cloned(q[from - st].0, m))
                &&& final(self).id() == if from < old(ch).next_id() { from + 1 } else { from }
            }),
    {
        let ghost ch0 = *ch;
        let first = self.try_next_message(ch);
        let ghost r1 = first;
        let ghost ch1 = *ch;
        match first {
            Some(WaitResult::Message(m)) => Some(m),
            None => None,
            Some(WaitResult::Lagged(_)) => {
                proof {
                    assert(r1 is Some && r1->Some_0 is Lagged);
                    assert(ch1.start_id() == ch0.start_id());
                }
                match self.try_next_message(ch) {
                    Some(WaitResult::Message(m)) => Some(m),
                    _ => None,
                }
            },
        }
    }

    /// The number of messages published that this subscriber has not read.
    pub fn available<T, const CAP: usize>(&self, ch: &PubSubChannel<T, CAP>) -> (r: u64)
        requires
            ch.wf(),
            ch.owns_sub(self),
        ensures
            r == ch.next_id() - self.id(),
    {
        proof {
            ch.lemma_sub_id(self.token(), self.id());
        }
        ch.available(self.next_message_id)
    }

    /// A wait for the next message.
    pub fn next_message(&mut self) -> (r: SubscriberWaitFuture)
        ensures
            *final(self) == *old(self),
    {
        SubscriberWaitFuture::new()
    }

    /// Ends the subscription: the messages it had yet to read no longer
    /// wait for it.
    pub fn release<T, const CAP: usize>(self, ch: &mut PubSubChannel<T, CAP>)
        requires
            old(ch).wf(),
            old(ch).owns_sub(&self),
        ensures
            final(ch).wf(),
            final(ch).subscribers() == old(ch).subscribers() - 1,
            final(ch).subs() == old(ch).subs().update(self.token() as int, None),
            final(ch).next_id() == old(ch).next_id(),
    {
        let Sub { next_message_id, token, waker } = self;
        ch.unregister_subscriber(next_message_id, token);
        ch.remove_subscriber_store(waker);
    }
}

/// A subscriber's wait for its next message: each poll reads, and registers
/// the task to be woken when there is nothing to read yet.
pub struct SubscriberWaitFuture {
    registered: bool,
}

impl SubscriberWaitFuture {
    /// Whether the last poll found nothing and registered the task.
    pub closed spec fn registered(&self) -> bool {
        self.registered
    }

    pub fn new() -> (r: SubscriberWaitFuture)
        ensures
            !r.registered(),
    {
        SubscriberWaitFuture { registered: false }
    }

    /// Tries to read for `sub`; when nothing is there, registers `waker` and
    /// returns `None`, to be polled again once woken.
    pub fn poll<T: Clone, const CAP: usize>(
        &mut self,
        sub: &mut Sub,
        ch: &mut PubSubChannel<T, CAP>,
        waker: &WakeHandle,
    ) -> (r: Option<WaitResult<T>>)
        requires
            old(ch).wf(),
            old(ch).owns_sub(old(sub)),
        ensures
            final(ch).wf(),
            final(ch).keeps_stores(old(ch)),
            final(ch).owns_sub(final(sub)),
            final(sub).token() == old(sub).token(),
            r is Some ==> PubSubChannel::read_post(*old(ch), *final(ch), old(sub).id(), old(sub).token(), r),
            r is None ==> old(ch).next_id() <= old(sub).id() && final(sub).id() == old(sub).id()
                && final(ch).messages() == old(ch).messages(),
            final(self).registered() == (r is None),
            r is None ==> crate::waitqueue::multi_waker::updated(
                old(ch).subscriber_wakers().list(),
                old(sub).store().slot(),
                *waker,
                final(ch).subscriber_wakers().list(),
            ),
    {
        let r = sub.try_next_message(ch);
        self.registered = r.is_none();
        if r.is_none() {
            ch.register_subscriber(&sub.waker, waker);
        }
        r
    }
}

} // verus!
