//! A broadcast channel: every message published reaches every subscriber.
//!
//! Messages wait in a ring buffer next to the number of subscribers that
//! have yet to read them. A subscriber holds only the id of the next message
//! it will read; a message leaves the buffer when its last reader has read
//! it, or earlier when an immediate publish needs the room.
use vstd::prelude::*;

pub mod publisher;
pub mod subscriber;


pub use publisher::Pub;
pub use subscriber::Sub;

use crate::deque::Deque;
use crate::waitqueue::multi_waker::populated;
use crate::waitqueue::{MultiWaker, MultiWakerStore, WakeHandle};

verus! {

/// The number of live subscriber ids in `subs` that are at most `x`.
pub open spec fn count_upto(subs: Seq<Option<u64>>, x: int) -> nat
    decreases subs.len(),
{
    if subs.len() == 0 {
        0
    } else {
        count_upto(subs.drop_last(), x) + if subs.last() matches Some(s) && s <= x {
            1nat
        } else {
            0nat
        }
    }
}

/// The number of live subscriber ids in `subs`.
pub open spec fn count_live(subs: Seq<Option<u64>>) -> nat
    decreases subs.len(),
{
    if subs.len() == 0 {
        0
    } else {
        count_live(subs.drop_last()) + if subs.last() is Some {
            1nat
        } else {
            0nat
        }
    }
}

proof fn lemma_count_update(subs: Seq<Option<u64>>, k: int, v: Option<u64>, x: int)
    requires
        0 <= k < subs.len(),
    ensures
        count_upto(subs.update(k, v), x) + (if subs[k] matches Some(s) && s <= x { 1nat } else { 0nat })
            == count_upto(subs, x) + (if v matches Some(s) && s <= x { 1nat } else { 0nat }),
        count_live(subs.update(k, v)) + (if subs[k] is Some { 1nat } else { 0nat })
            == count_live(subs) + (if v is Some { 1nat } else { 0nat }),
    decreases subs.len(),
{
    let us = subs.update(k, v);
    if k < subs.len() - 1 {
        assert(us.drop_last() =~= subs.drop_last().update(k, v));
        lemma_count_update(subs.drop_last(), k, v, x);
    } else {
        assert(us.drop_last() =~= subs.drop_last());
    }
}

proof fn lemma_count_all(subs: Seq<Option<u64>>, x: int)
    requires
        forall|t: int| 0 <= t < subs.len() ==> (#[trigger] subs[t] matches Some(s) ==> s <= x),
    ensures
        count_upto(subs, x) == count_live(subs),
    decreases subs.len(),
{
    if subs.len() > 0 {
        assert forall|t: int| 0 <= t < subs.drop_last().len() implies (#[trigger] subs.drop_last()[t] matches Some(s) ==> s <= x) by {
            assert(subs.drop_last()[t] == subs[t]);
        }
        lemma_count_all(subs.drop_last(), x);
        let _ = subs[subs.len() - 1];
    }
}

/// The ways a publish can be refused.
#[derive(Clone, Copy, Debug, PartialEq, Eq, Structural)]
pub enum Error {
    /// Every subscriber place is taken.
    MaximumSubscribersReached,
    /// Every publisher place is taken.
    MaximumPublishersReached,
}

/// What a subscriber gets from a read.
#[derive(Clone, Debug, PartialEq, Eq)]
pub enum WaitResult<T> {
    /// The subscriber fell behind and missed this many messages.
    Lagged(u64),
    /// The next message.
    Message(T),
}

impl<T> WaitResult<T> {
    /// How far the read moves the subscriber's next message id.
    pub fn msg_id_incr(&self) -> (r: u64)
        ensures
            r == match self {
                WaitResult::Lagged(n) => *n,
                WaitResult::Message(_) => 1,
            },
    {
        match self {
            WaitResult::Lagged(n) => *n,
            WaitResult::Message(_) => 1,
        }
    }
}

/// A broadcast channel whose buffer holds at most `CAP` messages.
pub struct PubSubChannel<T, const CAP: usize> {
    next_message_id: u64,
    subscriber_count: usize,
    publisher_count: usize,
    queue: Deque<(T, usize), CAP>,
    subscriber_wakers: MultiWaker,
    publisher_wakers: MultiWaker,
    woken: Vec<WakeHandle>,
    subs: Ghost<Seq<Option<u64>>>,
}

impl<T, const CAP: usize> PubSubChannel<T, CAP> {
    /// The buffered messages, oldest first, each with the number of
    /// subscribers that have yet to read it.
    pub closed spec fn messages(&self) -> Seq<(T, usize)> {
        self.queue.queue()@
    }

    /// The id the next published message gets.
    pub closed spec fn next_id(&self) -> u64 {
        self.next_message_id
    }

    /// The id of the oldest buffered message.
    pub open spec fn start_id(&self) -> int {
        self.next_id() - self.messages().len()
    }

    pub closed spec fn subscribers(&self) -> usize {
        self.subscriber_count
    }

    pub closed spec fn publishers(&self) -> usize {
        self.publisher_count
    }

    /// The next message id of each subscriber ever made, `None` once it left.
    pub closed spec fn subs(&self) -> Seq<Option<u64>> {
        self.subs@
    }

    /// The wake handles handed out and not yet taken.
    pub closed spec fn woken(&self) -> Seq<WakeHandle> {
        self.woken@
    }

    pub closed spec fn subscriber_wakers(&self) -> MultiWaker {
        self.subscriber_wakers
    }

    pub closed spec fn publisher_wakers(&self) -> MultiWaker {
        self.publisher_wakers
    }

    /// Whether the subscriber made as number `token` is live and next reads
    /// message `id`.
    pub open spec fn has_sub(&self, token: nat, id: u64) -> bool {
        &&& token < self.subs().len()
        &&& self.subs()[token as int] == Some(id)
    }

    pub closed spec fn wf(&self) -> bool {
        let q = self.queue.queue();
        let subs = self.subs@;
        &&& q.wf()
        &&& q.cap() == CAP
        &&& CAP > 0
        &&& q@.len() <= self.next_message_id
        &&& self.subscriber_count == count_live(subs)
        &&& forall|t: int| 0 <= t < subs.len() ==> (#[trigger] subs[t] matches Some(s) ==> s <= self.next_message_id)
        &&& forall|k: int| 0 <= k < q@.len() ==> (#[trigger] q@[k]).1 == count_upto(subs, self.next_message_id - q@.len() + k)
        &&& self.subscriber_wakers.wf()
        &&& self.publisher_wakers.wf()
    }

    /// An empty channel with no subscriber and no publisher; a channel
    /// needs room for at least one message.
    pub fn new() -> (r: PubSubChannel<T, CAP>)
        requires
            CAP > 0,
        ensures
            r.wf(),
            r.messages() == Seq::<(T, usize)>::empty(),
            r.next_id() == 0,
            r.subscribers() == 0,
            r.publishers() == 0,
            r.subs() == Seq::<Option<u64>>::empty(),
            r.woken() == Seq::<WakeHandle>::empty(),
            r.subscriber_wakers().list().slots() == 0,
            r.publisher_wakers().list().slots() == 0,
    {
        PubSubChannel {
            next_message_id: 0,
            subscriber_count: 0,
            publisher_count: 0,
            queue: Deque::new(),
            subscriber_wakers: MultiWaker::new(),
            publisher_wakers: MultiWaker::new(),
            woken: Vec::new(),
            subs: Ghost(Seq::empty()),
        }
    }

    /// Takes the wake handles that the channel's events produced, for the
    /// caller to invoke.
    pub fn take_wakes(&mut self) -> (r: Vec<WakeHandle>)
        requires
            old(self).wf(),
        ensures
            final(self).wf(),
            final(self).keeps_stores(old(self)),
            r@ == old(self).woken(),
            final(self).woken() == Seq::<WakeHandle>::empty(),
            final(self).messages() == old(self).messages(),
            final(self).next_id() == old(self).next_id(),
            final(self).subscribers() == old(self).subscribers(),
            final(self).publishers() == old(self).publishers(),
            final(self).subs() == old(self).subs(),
    {
        let mut r = Vec::new();
        core::mem::swap(&mut r, &mut self.woken);
        r
    }

    /// The buffer never holds more than `CAP` messages.
    pub proof fn lemma_len_le_cap(&self)
        requires
            self.wf(),
        ensures
            self.messages().len() <= CAP,
            self.messages().len() <= self.next_id(),
    {
        self.queue.queue().lemma_len_le_cap();
    }

    /// A live subscriber's next message id is at most the next id.
    pub proof fn lemma_sub_id(&self, token: nat, id: u64)
        requires
            self.wf(),
            self.has_sub(token, id),
        ensures
            id <= self.next_id(),
    {
        let _ = self.subs@[token as int];
    }

    /// Every live registration slot of `earlier` is still live.
    pub open spec fn keeps_stores(&self, earlier: &Self) -> bool {
        &&& self.subscriber_wakers().keeps_stores(&earlier.subscriber_wakers())
        &&& self.publisher_wakers().keeps_stores(&earlier.publisher_wakers())
    }

    /// Whether `sub` is a live subscriber of this channel.
    pub open spec fn owns_sub(&self, sub: &Sub) -> bool {
        &&& self.has_sub(sub.token(), sub.id())
        &&& self.subscriber_wakers().owns(&sub.store())
    }

    /// Whether `publisher` is a live publisher of this channel.
    pub open spec fn owns_pub(&self, publisher: &Pub) -> bool {
        self.publisher_wakers().owns(&publisher.store())
    }

    /// A new subscriber; it reads the messages published from now on.
    pub fn subscriber(&mut self) -> (r: Sub)
        requires
            old(self).wf(),
            old(self).subscribers() < usize::MAX,
            old(self).subscriber_wakers().list().slots() + 2 < usize::MAX,
        ensures
            final(self).wf(),
            final(self).keeps_stores(old(self)),
            final(self).owns_sub(&r),
            r.id() == old(self).next_id(),
            r.token() == old(self).subs().len(),
            final(self).subs() == old(self).subs().push(Some(old(self).next_id())),
            final(self).subscribers() == old(self).subscribers() + 1,
            final(self).publishers() == old(self).publishers(),
            final(self).messages() == old(self).messages(),
            final(self).next_id() == old(self).next_id(),
            final(self).woken() == old(self).woken(),
            final(self).subscriber_wakers().list().slots() <= old(self).subscriber_wakers().list().slots() + 1,
            final(self).publisher_wakers() == old(self).publisher_wakers(),
    {
        let id = self.next_message_id;
        let ghost token = self.subs@.len();
        self.subscriber_count = self.subscriber_count + 1;
        self.subs = Ghost(self.subs@.push(Some(id)));
        let store = self.subscriber_wakers.store();
        proof {
            let subs = self.subs@;
            assert(subs.drop_last() =~= old(self).subs@);
            let q = self.queue.queue()@;
            assert forall|k: int| 0 <= k < q.len() implies (#[trigger] q[k]).1 == count_upto(
                subs,
                self.next_message_id - q.len() + k,
            ) by {
                let _ = old(self).queue.queue()@[k];
            }
            assert forall|t: int| 0 <= t < subs.len() implies (#[trigger] subs[t] matches Some(s) ==> s <= self.next_message_id) by {
                if t < subs.len() - 1 {
                    assert(subs[t] == old(self).subs@[t]);
                }
            }
        }
        Sub::new(id, Ghost(token), store)
    }

    /// A new publisher.
    pub fn publisher(&mut self) -> (r: Pub)
        requires
            old(self).wf(),
            old(self).publishers() < usize::MAX,
            old(self).publisher_wakers().list().slots() + 2 < usize::MAX,
        ensures
            final(self).wf(),
            final(self).keeps_stores(old(self)),
            final(self).owns_pub(&r),
            final(self).publishers() == old(self).publishers() + 1,
            final(self).subscribers() == old(self).subscribers(),
            final(self).subs() == old(self).subs(),
            final(self).messages() == old(self).messages(),
            final(self).next_id() == old(self).next_id(),
            final(self).woken() == old(self).woken(),
            final(self).subscriber_wakers() == old(self).subscriber_wakers(),
            final(self).publisher_wakers().list().slots() <= old(self).publisher_wakers().list().slots() + 1,
    {
        self.publisher_count = self.publisher_count + 1;
        let store = self.publisher_wakers.store();
        Pub::new(store)
    }

    /// Whether `subscriber` may be called: the subscriber count and the
    /// registration table still have room.
    pub fn can_subscribe(&self) -> (r: bool)
        requires
            self.wf(),
        ensures
            r == (self.subscribers() < usize::MAX && self.subscriber_wakers().list().slots() + 2 < usize::MAX),
    {
        self.subscriber_count < usize::MAX && self.subscriber_wakers.slot_count() < usize::MAX - 2
    }

    /// Whether `publisher` may be called: the publisher count and the
    /// registration table still have room.
    pub fn can_add_publisher(&self) -> (r: bool)
        requires
            self.wf(),
        ensures
            r == (self.publishers() < usize::MAX && self.publisher_wakers().list().slots() + 2 < usize::MAX),
    {
        self.publisher_count < usize::MAX && self.publisher_wakers.slot_count() < usize::MAX - 2
    }

    /// Whether a publish may be made: message ids are not used up.
    pub fn can_publish(&self) -> (r: bool)
        requires
            self.wf(),
        ensures
            r == (self.next_id() < u64::MAX),
    {
        self.next_message_id < u64::MAX
    }

    /// Whether the publisher count can go down.
    pub fn has_publishers(&self) -> (r: bool)
        ensures
            r == (self.publishers() > 0),
    {
        self.publisher_count > 0
    }

    /// The number of messages that can be published before the buffer is
    /// full.
    pub fn space(&self) -> (r: usize)
        requires
            self.wf(),
        ensures
            r == CAP - self.messages().len(),
    {
        proof {
            self.queue.queue().lemma_len_le_cap();
        }
        CAP - self.queue.len()
    }

    /// The number of messages published from `next_message_id` on.
    pub fn available(&self, next_message_id: u64) -> (r: u64)
        requires
            self.wf(),
            next_message_id <= self.next_id(),
        ensures
            r == self.next_id() - next_message_id,
    {
        self.next_message_id - next_message_id
    }

    /// Publishes `message` if there is room. With no subscriber it succeeds
    /// and the message goes nowhere; with a full buffer it is handed back.
    /// Otherwise it is buffered for every current subscriber and the waiting
    /// subscribers are woken.
    pub fn try_publish(&mut self, message: T) -> (r: Result<(), T>)
        requires
            old(self).wf(),
            old(self).next_id() < u64::MAX,
        ensures
            final(self).wf(),
            final(self).keeps_stores(old(self)),
            final(self).subscribers() == old(self).subscribers(),
            final(self).publishers() == old(self).publishers(),
            final(self).subs() == old(self).subs(),
            final(self).publisher_wakers() == old(self).publisher_wakers(),
            old(self).subscribers() == 0 ==> {
                &&& r is Ok
                &&& final(self).messages() == old(self).messages()
                &&& final(self).next_id() == old(self).next_id()
            },
            old(self).subscribers() > 0 && old(self).messages().len() == CAP ==> {
                &&& r == Err::<(), T>(message)
                &&& final(self).messages() == old(self).messages()
                &&& final(self).next_id() == old(self).next_id()
            },
            old(self).subscribers() > 0 && old(self).messages().len() < CAP ==> {
                &&& r is Ok
                &&& final(self).messages() == old(self).messages().push((message, old(self).subscribers()))
                &&& final(self).next_id() == old(self).next_id() + 1
                &&& final(self).woken() == old(self).woken() + populated(old(self).subscriber_wakers().list()@)
                &&& final(self).subscriber_wakers().list()@.len() == 0
            },
            !(old(self).subscribers() > 0 && old(self).messages().len() < CAP) ==> {
                &&& final(self).woken() == old(self).woken()
                &&& final(self).subscriber_wakers() == old(self).subscriber_wakers()
            },
    {
        if self.subscriber_count == 0 {
            return Ok(());
        }
        proof {
            self.queue.queue().lemma_len_le_cap();
        }
        if self.queue.is_full() {
            return Err(message);
        }
        let n = self.subscriber_count;
        let pushed = self.queue.push_back((message, n));
        self.next_message_id = self.next_message_id + 1;
        proof {
            let subs = self.subs@;
            lemma_count_all(subs, old(self).next_message_id as int);
            let q = self.queue.queue()@;
            assert forall|k: int| 0 <= k < q.len() implies (#[trigger] q[k]).1 == count_upto(
                subs,
                self.next_message_id - q.len() + k,
            ) by {
                if k < q.len() - 1 {
                    assert(q[k] == old(self).queue.queue()@[k]);
                }
            }
        }
        self.wake_subscribers();
        Ok(())
    }

    /// Publishes `message` at once, dropping the oldest buffered message when
    /// the buffer is full; a subscriber that had not read it will find that
    /// it lagged.
    pub fn publish_immediate(&mut self, message: T)
        requires
            old(self).wf(),
            old(self).next_id() < u64::MAX,
        ensures
            final(self).wf(),
            final(self).keeps_stores(old(self)),
            final(self).subscribers() == old(self).subscribers(),
            final(self).publishers() == old(self).publishers(),
            final(self).subs() == old(self).subs(),
            final(self).publisher_wakers() == old(self).publisher_wakers(),
            ({
                let kept = if old(self).messages().len() == CAP {
                    old(self).messages().skip(1)
                } else {
                    old(self).messages()
                };
                if old(self).subscribers() == 0 {
                    final(self).messages() == kept && final(self).next_id() == old(self).next_id()
                } else {
                    final(self).messages() == kept.push((message, old(self).subscribers()))
                        && final(self).next_id() == old(self).next_id() + 1
                }
            }),
    {
        proof {
            self.queue.queue().lemma_len_le_cap();
        }
        if self.queue.is_full() {
            self.queue.pop_front();
            proof {
                let q = self.queue.queue()@;
                assert forall|k: int| 0 <= k < q.len() implies (#[trigger] q[k]).1 == count_upto(
                    self.subs@,
                    self.next_message_id - q.len() + k,
                ) by {
                    assert(q[k] == old(self).queue.queue()@[k + 1]);
                }
            }
        }
        let r = self.try_publish(message);
        match r {
            Ok(()) => {},
            Err(_) => {},
        }
    }

    /// Removes the live subscriber `t`, which next reads message `id`: each
    /// buffered message it had yet to read has one reader less, and the
    /// oldest messages that no one has yet to read leave the buffer.
    pub(crate) fn unregister_subscriber(&mut self, id: u64, Ghost(t): Ghost<nat>)
        requires
            old(self).wf(),
            old(self).has_sub(t, id),
        ensures
            final(self).wf(),
            final(self).keeps_stores(old(self)),
            final(self).next_id() == old(self).next_id(),
            final(self).subscribers() == old(self).subscribers() - 1,
            final(self).publishers() == old(self).publishers(),
            final(self).subs() == old(self).subs().update(t as int, None),
            final(self).subscriber_wakers() == old(self).subscriber_wakers(),
            final(self).publisher_wakers().list().same_slots(&old(self).publisher_wakers().list()),
            ({
                let st = old(self).start_id();
                let q = old(self).messages();
                let dropped = Seq::new(
                    q.len(),
                    |k: int|
                        if st + k >= id {
                            (q[k].0, (q[k].1 - 1) as usize)
                        } else {
                            q[k]
                        },
                );
                exists|n: int|
                    0 <= n <= q.len() && final(self).messages() == dropped.skip(n) && (forall|j: int|
                        0 <= j < n ==> (#[trigger] dropped[j]).1 == 0) && (n < q.len() ==> dropped[n].1 != 0)
            }),
    {
        proof {
            self.queue.queue().lemma_len_le_cap();
            lemma_count_update(self.subs@, t as int, None, 0);
        }
        let ghost subs0 = self.subs@;
        let ghost q0 = self.queue.queue()@;
        let ghost st = self.next_message_id - q0.len();
        self.subscriber_count = self.subscriber_count - 1;
        self.subs = Ghost(subs0.update(t as int, None));
        let len = self.queue.len();
        let start_id = self.next_message_id - len as u64;
        let mut k: usize = if id >= start_id {
            (id - start_id) as usize
        } else {
            0
        };
        let ghost from = k as int;
        proof {
            if id >= start_id {
                assert(from == id - st);
            }
        }
        while k < len
            invariant
                self.queue.queue().wf(),
                self.queue.queue().cap() == CAP,
                self.queue.queue()@.len() == len,
                q0.len() == len,
                self.next_message_id == old(self).next_message_id,
                st == self.next_message_id - len,
                self.subs@ == subs0.update(t as int, None),
                0 <= from <= k <= len,
                from <= len,
                id >= st ==> from == id - st,
                id < st ==> from == 0,
                forall|j: int| 0 <= j < k ==> #[trigger] self.queue.queue()@[j] == if j >= from {
                    (q0[j].0, (q0[j].1 - 1) as usize)
                } else {
                    q0[j]
                },
                forall|j: int| k <= j < len ==> #[trigger] self.queue.queue()@[j] == q0[j],
                forall|j: int| 0 <= j < len ==> (#[trigger] q0[j]).1 == count_upto(subs0, st + j),
                subs0[t as int] == Some(id),
                0 <= t < subs0.len(),
                CAP > 0,
                len <= self.next_message_id,
                self.subscriber_count == count_live(self.subs@),
                self.subscriber_count == old(self).subscriber_count - 1,
                self.publisher_count == old(self).publisher_count,
                self.subscriber_wakers == old(self).subscriber_wakers,
                self.publisher_wakers == old(self).publisher_wakers,
                forall|u: int| 0 <= u < subs0.len() ==> (#[trigger] subs0[u] matches Some(s) ==> s <= self.next_message_id),
            decreases len - k,
        {
            proof {
                lemma_count_update(subs0, t as int, None, st + k);
            }
            let entry = self.queue.get_mut(k).unwrap();
            entry.1 = entry.1 - 1;
            k = k + 1;
        }
        let ghost dropped = self.queue.queue()@;
        proof {
            let subs = self.subs@;
            assert forall|j: int| 0 <= j < dropped.len() implies (#[trigger] dropped[j]).1 == count_upto(
                subs,
                self.next_message_id - dropped.len() + j,
            ) by {
                lemma_count_update(subs0, t as int, None, st + j);
            }
            assert forall|u: int| 0 <= u < subs.len() implies (#[trigger] subs[u] matches Some(s) ==> s <= self.next_message_id) by {
                assert(u != t ==> subs[u] == subs0[u]);
            }
            assert(dropped =~= Seq::new(
                q0.len(),
                |j: int|
                    if st + j >= id {
                        (q0[j].0, (q0[j].1 - 1) as usize)
                    } else {
                        q0[j]
                    },
            ));
        }
        self.pop_read();
        proof {
            let n = choose|n: int|
                0 <= n <= dropped.len() && self.messages() == dropped.skip(n) && (forall|j: int|
                    0 <= j < n ==> (#[trigger] dropped[j]).1 == 0) && (n < dropped.len() ==> dropped[n].1 != 0);
            let q = old(self).messages();
            let want = Seq::new(
                q.len(),
                |k: int|
                    if old(self).start_id() + k >= id {
                        (q[k].0, (q[k].1 - 1) as usize)
                    } else {
                        q[k]
                    },
            );
            assert(want == dropped);
            assert(0 <= n <= want.len() && self.messages() == want.skip(n) && (forall|j: int|
                0 <= j < n ==> (#[trigger] want[j]).1 == 0) && (n < want.len() ==> want[n].1 != 0));
        }
    }

    /// Removes a publisher.
    pub(crate) fn unregister_publisher(&mut self)
        requires
            old(self).wf(),
            old(self).publishers() > 0,
        ensures
            final(self).wf(),
            final(self).keeps_stores(old(self)),
            final(self).publishers() == old(self).publishers() - 1,
            final(self).subscribers() == old(self).subscribers(),
            final(self).subs() == old(self).subs(),
            final(self).messages() == old(self).messages(),
            final(self).next_id() == old(self).next_id(),
            final(self).subscriber_wakers() == old(self).subscriber_wakers(),
            final(self).publisher_wakers() == old(self).publisher_wakers(),
    {
        self.publisher_count = self.publisher_count - 1;
    }

    /// Registers `waker` in the subscriber slot `store`.
    pub(crate) fn register_subscriber(&mut self, store: &MultiWakerStore, waker: &WakeHandle)
        requires
            old(self).wf(),
            old(self).subscriber_wakers().owns(store),
        ensures
            final(self).wf(),
            final(self).keeps_stores(old(self)),
            final(self).subscriber_wakers().owns(store),
            crate::waitqueue::multi_waker::updated(
                old(self).subscriber_wakers().list(),
                store.slot(),
                *waker,
                final(self).subscriber_wakers().list(),
            ),
            final(self).messages() == old(self).messages(),
            final(self).next_id() == old(self).next_id(),
            final(self).subscribers() == old(self).subscribers(),
            final(self).publishers() == old(self).publishers(),
            final(self).subs() == old(self).subs(),
            final(self).publisher_wakers() == old(self).publisher_wakers(),
    {
        self.subscriber_wakers.update(store, waker);
    }

    /// Registers `waker` in the publisher slot `store`.
    pub(crate) fn register_publisher(&mut self, store: &MultiWakerStore, waker: &WakeHandle)
        requires
            old(self).wf(),
            old(self).publisher_wakers().owns(store),
        ensures
            final(self).wf(),
            final(self).keeps_stores(old(self)),
            final(self).publisher_wakers().owns(store),
            crate::waitqueue::multi_waker::updated(
                old(self).publisher_wakers().list(),
                store.slot(),
                *waker,
                final(self).publisher_wakers().list(),
            ),
            final(self).messages() == old(self).messages(),
            final(self).next_id() == old(self).next_id(),
            final(self).subscribers() == old(self).subscribers(),
            final(self).publishers() == old(self).publishers(),
            final(self).subs() == old(self).subs(),
            final(self).subscriber_wakers() == old(self).subscriber_wakers(),
    {
        self.publisher_wakers.update(store, waker);
    }

    /// Frees the subscriber slot `store`.
    pub(crate) fn remove_subscriber_store(&mut self, store: MultiWakerStore)
        requires
            old(self).wf(),
            old(self).subscriber_wakers().owns(&store),
        ensures
            final(self).wf(),
            final(self).messages() == old(self).messages(),
            final(self).next_id() == old(self).next_id(),
            final(self).subscribers() == old(self).subscribers(),
            final(self).publishers() == old(self).publishers(),
            final(self).subs() == old(self).subs(),
            final(self).publisher_wakers() == old(self).publisher_wakers(),
            final(self).subscriber_wakers().keeps_stores_but(&old(self).subscriber_wakers(), store.slot() as int),
    {
        self.subscriber_wakers.remove(store);
    }

    /// Frees the publisher slot `store`.
    pub(crate) fn remove_publisher_store(&mut self, store: MultiWakerStore)
        requires
            old(self).wf(),
            old(self).publisher_wakers().owns(&store),
        ensures
            final(self).wf(),
            final(self).messages() == old(self).messages(),
            final(self).next_id() == old(self).next_id(),
            final(self).subscribers() == old(self).subscribers(),
            final(self).publishers() == old(self).publishers(),
            final(self).subs() == old(self).subs(),
            final(self).subscriber_wakers() == old(self).subscriber_wakers(),
            final(self).publisher_wakers().keeps_stores_but(&old(self).publisher_wakers(), store.slot() as int),
    {
        self.publisher_wakers.remove(store);
    }

    /// Pops the buffered messages, from the oldest on, that no subscriber
    /// has yet to read, and wakes the waiting publishers if any went.
    fn pop_read(&mut self)
        requires
            old(self).wf(),
        ensures
            final(self).wf(),
            final(self).keeps_stores(old(self)),
            final(self).next_id() == old(self).next_id(),
            final(self).subscribers() == old(self).subscribers(),
            final(self).publishers() == old(self).publishers(),
            final(self).subs() == old(self).subs(),
            final(self).subscriber_wakers() == old(self).subscriber_wakers(),
            final(self).publisher_wakers().list().same_slots(&old(self).publisher_wakers().list()),
            exists|n: int|
                0 <= n <= old(self).messages().len() && final(self).messages() == old(self).messages().skip(n)
                    && (forall|j: int| 0 <= j < n ==> (#[trigger] old(self).messages()[j]).1 == 0)
                    && (n < old(self).messages().len() ==> old(self).messages()[n].1 != 0),
    {
        let ghost q0 = self.queue.queue()@;
        let mut popped = false;
        let ghost mut n: int = 0;
        while self.queue.len() > 0 && self.queue.front().unwrap().1 == 0
            invariant
                self.wf(),
                self.next_id() == old(self).next_id(),
                self.subscribers() == old(self).subscribers(),
                self.publishers() == old(self).publishers(),
                self.subs() == old(self).subs(),
                self.subscriber_wakers() == old(self).subscriber_wakers(),
                self.publisher_wakers() == old(self).publisher_wakers(),
                q0 == old(self).messages(),
                0 <= n <= q0.len(),
                self.messages() == q0.skip(n),
                forall|j: int| 0 <= j < n ==> (#[trigger] q0[j]).1 == 0,
            decreases self.messages().len(),
        {
            proof {
                assert(q0[n] == self.messages()[0]);
            }
            self.queue.pop_front();
            popped = true;
            proof {
                let q = self.queue.queue()@;
                assert forall|k: int| 0 <= k < q.len() implies (#[trigger] q[k]).1 == count_upto(
                    self.subs@,
                    self.next_message_id - q.len() + k,
                ) by {
                    assert(q[k] == q0.skip(n)[k + 1]);
                }
                assert(q =~= q0.skip(n + 1));
                n = n + 1;
            }
        }
        if popped {
            self.wake_publishers();
        }
    }

    fn wake_subscribers(&mut self)
        requires
            old(self).wf(),
        ensures
            final(self).wf(),
            final(self).keeps_stores(old(self)),
            final(self).messages() == old(self).messages(),
            final(self).next_id() == old(self).next_id(),
            final(self).subscribers() == old(self).subscribers(),
            final(self).publishers() == old(self).publishers(),
            final(self).subs() == old(self).subs(),
            final(self).publisher_wakers() == old(self).publisher_wakers(),
            final(self).subscriber_wakers().list().same_slots(&old(self).subscriber_wakers().list()),
            final(self).subscriber_wakers().list()@.len() == 0,
            final(self).woken() == old(self).woken() + populated(old(self).subscriber_wakers().list()@),
    {
        let mut w = self.subscriber_wakers.wake();
        self.woken.append(&mut w);
    }

    fn wake_publishers(&mut self)
        requires
            old(self).wf(),
        ensures
            final(self).wf(),
            final(self).keeps_stores(old(self)),
            final(self).messages() == old(self).messages(),
            final(self).next_id() == old(self).next_id(),
            final(self).subscribers() == old(self).subscribers(),
            final(self).publishers() == old(self).publishers(),
            final(self).subs() == old(self).subs(),
            final(self).subscriber_wakers() == old(self).subscriber_wakers(),
            final(self).publisher_wakers().list().same_slots(&old(self).publisher_wakers().list()),
            final(self).publisher_wakers().list()@.len() == 0,
            final(self).woken() == old(self).woken() + populated(old(self).publisher_wakers().list()@),
    {
        let mut w = self.publisher_wakers.wake();
        self.woken.append(&mut w);
    }
}

impl<T: Clone, const CAP: usize> PubSubChannel<T, CAP> {
    /// What reading message `message_id` for the subscriber `t` does to the
    /// channel `a`, giving `b`, and what it returns.
    pub open spec fn read_post(
        a: PubSubChannel<T, CAP>,
        b: PubSubChannel<T, CAP>,
        message_id: u64,
        t: nat,
        r: Option<WaitResult<T>>,
    ) -> bool {
        ({
                let st = a.start_id();
                let q = a.messages();
                if message_id < st {
                    &&& r == Some(WaitResult::<T>::Lagged((st - message_id) as u64))
                    &&& b.messages() == q
                    &&& b.woken() == a.woken()
                    &&& b.subs() == a.subs().update(t as int, Some(st as u64))
                } else if message_id < a.next_id() {
                    let k = message_id - st;
                    &&& r matches Some(WaitResult::Message(m)) && if k == 0 && q[0].1 == 1 {
                        &&& m == q[0].0
                        &&& b.messages() == q.skip(1)
                        &&& b.woken() == a.woken() + populated(a.publisher_wakers().list()@)
                    } else {
                        &&& vstd::pervasive::strictly_cloned(q[k].0, m)
                        &&& b.messages() == q.update(k, (q[k].0, (q[k].1 - 1) as usize))
                        &&& b.woken() == a.woken()
                    }
                    &&& b.subs() == a.subs().update(t as int, Some((message_id + 1) as u64))
                } else {
                    &&& r is None
                    &&& b.messages() == q
                    &&& b.woken() == a.woken()
                    &&& b.subs() == a.subs()
                }
            })
    }

    /// Reads message `message_id` for the live subscriber `t`. A subscriber
    /// that fell behind the oldest buffered message learns by how much and
    /// moves to it; one that is up to date gets nothing. Otherwise its
    /// pending count goes down by one; the last reader of the oldest message
    /// takes it out of the buffer, unchanged, and wakes the waiting
    /// publishers, while any other reader gets a clone.
    pub(crate) fn get_message(&mut self, message_id: u64, Ghost(t): Ghost<nat>) -> (r: Option<WaitResult<T>>)
        requires
            old(self).wf(),
            old(self).has_sub(t, message_id),
        ensures
            final(self).wf(),
            final(self).keeps_stores(old(self)),
            final(self).next_id() == old(self).next_id(),
            final(self).subscribers() == old(self).subscribers(),
            final(self).publishers() == old(self).publishers(),
            final(self).subscriber_wakers() == old(self).subscriber_wakers(),
            final(self).publisher_wakers().list().same_slots(&old(self).publisher_wakers().list()),
            Self::read_post(*old(self), *final(self), message_id, t, r),
    {
        proof {
            self.queue.queue().lemma_len_le_cap();
        }
        let len = self.queue.len();
        let start_id = self.next_message_id - len as u64;
        let ghost subs0 = self.subs@;
        if message_id < start_id {
            self.subs = Ghost(subs0.update(t as int, Some(start_id)));
            proof {
                let subs = self.subs@;
                let q = self.queue.queue()@;
                assert forall|k: int| 0 <= k < q.len() implies (#[trigger] q[k]).1 == count_upto(
                    subs,
                    self.next_message_id - q.len() + k,
                ) by {
                    lemma_count_update(subs0, t as int, Some(start_id), self.next_message_id - q.len() + k);
                }
                assert forall|u: int| 0 <= u < subs.len() implies (#[trigger] subs[u] matches Some(s) ==> s <= self.next_message_id) by {
                    assert(u != t ==> subs[u] == subs0[u]);
                }
                lemma_count_update(subs0, t as int, Some(start_id), 0);
            }
            return Some(WaitResult::Lagged(start_id - message_id));
        }
        let idx = message_id - start_id;
        if idx >= len as u64 {
            return None;
        }
        let k = idx as usize;
        let ghost q0 = self.queue.queue()@;
        proof {
            lemma_count_update(subs0, t as int, None, message_id as int);
            assert(q0[k as int].1 == count_upto(subs0, message_id as int));
        }
        let entry = self.queue.get_mut(k).unwrap();
        entry.1 = entry.1 - 1;
        let last = k == 0 && entry.1 == 0;
        let copy = if last {
            None
        } else {
            Some(entry.0.clone())
        };
        let ghost q1 = self.queue.queue()@;
        self.subs = Ghost(subs0.update(t as int, Some((message_id + 1) as u64)));
        proof {
            let subs = self.subs@;
            assert(q1 == q0.update(k as int, (q0[k as int].0, (q0[k as int].1 - 1) as usize)));
            assert forall|j: int| 0 <= j < q1.len() implies (#[trigger] q1[j]).1 == count_upto(
                subs,
                self.next_message_id - q1.len() + j,
            ) by {
                lemma_count_update(subs0, t as int, Some((message_id + 1) as u64), self.next_message_id - q1.len() + j);
            }
            assert forall|u: int| 0 <= u < subs.len() implies (#[trigger] subs[u] matches Some(s) ==> s <= self.next_message_id) by {
                assert(u != t ==> subs[u] == subs0[u]);
            }
            lemma_count_update(subs0, t as int, Some((message_id + 1) as u64), 0);
        }
        let message = match copy {
            Some(m) => m,
            None => {
                let front = self.queue.pop_front();
                proof {
                    let q = self.queue.queue()@;
                    assert forall|j: int| 0 <= j < q.len() implies (#[trigger] q[j]).1 == count_upto(
                        self.subs@,
                        self.next_message_id - q.len() + j,
                    ) by {
                        assert(q[j] == q1[j + 1]);
                    }
                    assert(q =~= q0.skip(1));
                }
                self.wake_publishers();
                front.unwrap().0
            },
        };
        Some(WaitResult::Message(message))
    }
}

} // verus!
