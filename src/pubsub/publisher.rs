//! The publisher side of a channel.
use vstd::prelude::*;

use super::PubSubChannel;
use crate::waitqueue::{MultiWakerStore, WakeHandle};

verus! {

/// A publisher to a channel.
pub struct Pub {
    waker: MultiWakerStore,
}

impl Pub {
    /// The slot in which this publisher waits.
    pub closed spec fn store(&self) -> MultiWakerStore {
        self.waker
    }

    pub(crate) fn new(waker: MultiWakerStore) -> (r: Pub)
        ensures
            r.store() == waker,
    {
        Pub { waker }
    }

    /// Publishes `message` at once, dropping the oldest buffered message
    /// when the buffer is full.
    pub fn publish_immediate<T, const CAP: usize>(&self, ch: &mut PubSubChannel<T, CAP>, message: T)
        requires
            old(ch).wf(),
            old(ch).next_id() < u64::MAX,
        ensures
            final(ch).wf(),
            final(ch).keeps_stores(old(ch)),
            final(ch).subscribers() == old(ch).subscribers(),
            final(ch).subs() == old(ch).subs(),
            ({
                let kept = if old(ch).messages().len() == CAP {
                    old(ch).messages().skip(1)
                } else {
                    old(ch).messages()
                };
                if old(ch).subscribers() == 0 {
                    final(ch).messages() == kept && final(ch).next_id() == old(ch).next_id()
                } else {
                    final(ch).messages() == kept.push((message, old(ch).subscribers()))
                        && final(ch).next_id() == old(ch).next_id() + 1
                }
            }),
    {
        ch.publish_immediate(message)
    }

    /// Publishes `message` if there is room; see
    /// [`PubSubChannel::try_publish`].
    pub fn try_publish<T, const CAP: usize>(&self, ch: &mut PubSubChannel<T, CAP>, message: T) -> (r: Result<(), T>)
        requires
            old(ch).wf(),
            old(ch).next_id() < u64::MAX,
        ensures
            final(ch).wf(),
            final(ch).keeps_stores(old(ch)),
            final(ch).subscribers() == old(ch).subscribers(),
            final(ch).subs() == old(ch).subs(),
            old(ch).subscribers() == 0 ==> r is Ok && final(ch).messages() == old(ch).messages()
                && final(ch).next_id() == old(ch).next_id(),
            old(ch).subscribers() > 0 && old(ch).messages().len() == CAP ==> r == Err::<(), T>(message)
                && final(ch).messages() == old(ch).messages() && final(ch).next_id() == old(ch).next_id(),
            old(ch).subscribers() > 0 && old(ch).messages().len() < CAP ==> r is Ok && final(ch).messages()
                == old(ch).messages().push((message, old(ch).subscribers())) && final(ch).next_id()
                == old(ch).next_id() + 1,
    {
        ch.try_publish(message)
    }

    /// The number of messages that can be published before the buffer is
    /// full.
    pub fn space<T, const CAP: usize>(&self, ch: &PubSubChannel<T, CAP>) -> (r: usize)
        requires
            ch.wf(),
        ensures
            r == CAP - ch.messages().len(),
    {
        ch.space()
    }

    /// A publish of `message` that waits for room.
    pub fn publish<T>(&self, message: T) -> (r: PublisherWaitFuture<T>)
        ensures
            r.message() == Some(message),
    {
        PublisherWaitFuture::new(message)
    }

    /// Ends the publisher.
    pub fn release<T, const CAP: usize>(self, ch: &mut PubSubChannel<T, CAP>)
        requires
            old(ch).wf(),
            old(ch).owns_pub(&self),
            old(ch).publishers() > 0,
        ensures
            final(ch).wf(),
            final(ch).publishers() == old(ch).publishers() - 1,
            final(ch).messages() == old(ch).messages(),
            final(ch).subs() == old(ch).subs(),
    {
        let Pub { waker } = self;
        ch.unregister_publisher();
        ch.remove_publisher_store(waker);
    }
}

/// A publish that waits for room: each poll tries to publish, and registers
/// the task to be woken when the buffer is still full.
pub struct PublisherWaitFuture<T> {
    message: Option<T>,
}

impl<T> PublisherWaitFuture<T> {
    /// The message still to publish.
    pub closed spec fn message(&self) -> Option<T> {
        self.message
    }

    pub fn new(message: T) -> (r: PublisherWaitFuture<T>)
        ensures
            r.message() == Some(message),
    {
        PublisherWaitFuture { message: Some(message) }
    }

    /// Tries to publish the message; when the buffer is full, registers
    /// `waker` for `publisher` and returns `false`, to be polled again once
    /// woken. Returns `true` once the message went out.
    pub fn poll<const CAP: usize>(
        &mut self,
        publisher: &Pub,
        ch: &mut PubSubChannel<T, CAP>,
        waker: &WakeHandle,
    ) -> (r: bool)
        requires
            old(ch).wf(),
            old(ch).owns_pub(publisher),
            old(ch).next_id() < u64::MAX,
            old(self).message() is Some,
        ensures
            final(ch).wf(),
            final(ch).keeps_stores(old(ch)),
            final(ch).owns_pub(publisher),
            final(ch).subscribers() == old(ch).subscribers(),
            final(ch).publishers() == old(ch).publishers(),
            final(ch).subs() == old(ch).subs(),
            r == (old(ch).subscribers() == 0 || old(ch).messages().len() < CAP),
            r ==> final(self).message() is None,
            !r ==> final(self).message() == old(self).message() && final(ch).messages() == old(ch).messages()
                && final(ch).next_id() == old(ch).next_id(),
            !r ==> crate::waitqueue::multi_waker::updated(
                old(ch).publisher_wakers().list(),
                publisher.store().slot(),
                *waker,
                final(ch).publisher_wakers().list(),
            ),
            old(ch).subscribers() == 0 ==> final(ch).messages() == old(ch).messages() && final(ch).next_id()
                == old(ch).next_id(),
            old(ch).subscribers() > 0 && r ==> final(ch).messages() == old(ch).messages().push(
                (old(self).message()->Some_0, old(ch).subscribers()),
            ) && final(ch).next_id() == old(ch).next_id() + 1,
    {
        proof {
            ch.lemma_len_le_cap();
        }
        let mut m = None;
        core::mem::swap(&mut m, &mut self.message);
        let message = m.unwrap();
        match ch.try_publish(message) {
            Ok(()) => true,
            Err(back) => {
                self.message = Some(back);
                ch.register_publisher(&publisher.waker, waker);
                false
            },
        }
    }
}

} // verus!
