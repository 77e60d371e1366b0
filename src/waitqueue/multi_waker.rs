//! A registrar that wakes each registered task once per event.
use vstd::prelude::*;

use crate::intrusive_list::{IntrusiveList, Item};

verus! {

/// The handle that resumes a suspended task, known by the task it resumes.
#[derive(Clone, Copy, Debug, PartialEq, Eq, Structural)]
pub struct WakeHandle {
    pub task: u64,
}

impl WakeHandle {
    pub fn new(task: u64) -> (r: WakeHandle)
        ensures
            r.task == task,
    {
        WakeHandle { task }
    }

    /// Whether both handles resume the same task.
    pub fn will_wake(&self, other: &WakeHandle) -> (r: bool)
        ensures
            r == (self.task == other.task),
    {
        self.task == other.task
    }
}

/// Whether the slot value `v` holds a handle for `task`.
pub open spec fn holds_task(v: Option<WakeHandle>, task: u64) -> bool {
    v matches Some(h) && h.task == task
}

/// The number of slot values in `vs` that hold a handle for `task`.
pub open spec fn count_holders(vs: Seq<Option<WakeHandle>>, task: u64) -> nat
    decreases vs.len(),
{
    if vs.len() == 0 {
        0
    } else {
        count_holders(vs.drop_last(), task) + if holds_task(vs.last(), task) {
            1nat
        } else {
            0nat
        }
    }
}

/// The handles of the populated slot values of `vs`, in order.
pub open spec fn populated(vs: Seq<Option<WakeHandle>>) -> Seq<WakeHandle>
    decreases vs.len(),
{
    if vs.len() == 0 {
        Seq::empty()
    } else {
        populated(vs.drop_last()) + match vs.last() {
            Some(h) => seq![h],
            None => Seq::empty(),
        }
    }
}

/// The number of handles in `hs` for `task`.
pub open spec fn count_task(hs: Seq<WakeHandle>, task: u64) -> nat
    decreases hs.len(),
{
    if hs.len() == 0 {
        0
    } else {
        count_task(hs.drop_last(), task) + if hs.last().task == task {
            1nat
        } else {
            0nat
        }
    }
}

/// What `update` makes of the registrar `a` for the slot `slot` and the
/// handle `w`, giving `b`.
pub open spec fn updated(
    a: IntrusiveList<Option<WakeHandle>>,
    slot: usize,
    w: WakeHandle,
    b: IntrusiveList<Option<WakeHandle>>,
) -> bool {
    if a.order().contains(slot) {
        &&& b.order() == a.order()
        &&& b.slots() == a.slots()
        &&& b.slot(slot as int) == if holds_task(a.value(slot as int), w.task) {
            a.slot(slot as int)
        } else {
            Some(Some(w))
        }
        &&& forall|s: int| 0 <= s < a.slots() && s != slot ==> #[trigger] b.slot(s) == a.slot(s)
    } else if exists|i: int| 0 <= i < a@.len() && holds_task(#[trigger] a@[i], w.task) {
        b == a
    } else {
        &&& b.order() == a.order().push(slot)
        &&& b.slots() == a.slots()
        &&& b.slot(slot as int) == Some(Some(w))
        &&& forall|s: int| 0 <= s < a.slots() && s != slot ==> #[trigger] b.slot(s) == a.slot(s)
    }
}

proof fn lemma_count_update(vs: Seq<Option<WakeHandle>>, k: int, x: Option<WakeHandle>, task: u64)
    requires
        0 <= k < vs.len(),
    ensures
        count_holders(vs.update(k, x), task) + (if holds_task(vs[k], task) { 1nat } else { 0nat })
            == count_holders(vs, task) + (if holds_task(x, task) { 1nat } else { 0nat }),
    decreases vs.len(),
{
    let us = vs.update(k, x);
    if k < vs.len() - 1 {
        assert(us.drop_last() =~= vs.drop_last().update(k, x));
        lemma_count_update(vs.drop_last(), k, x, task);
    } else {
        assert(us.drop_last() =~= vs.drop_last());
    }
}

proof fn lemma_count_zero(vs: Seq<Option<WakeHandle>>, task: u64)
    ensures
        count_holders(vs, task) == 0 <==> !exists|i: int| 0 <= i < vs.len() && holds_task(#[trigger] vs[i], task),
    decreases vs.len(),
{
    if vs.len() > 0 {
        lemma_count_zero(vs.drop_last(), task);
        if exists|i: int| 0 <= i < vs.len() && holds_task(#[trigger] vs[i], task) {
            let i = choose|i: int| 0 <= i < vs.len() && holds_task(#[trigger] vs[i], task);
            if i < vs.len() - 1 {
                assert(vs.drop_last()[i] == vs[i]);
            }
        }
        if exists|i: int| 0 <= i < vs.drop_last().len() && holds_task(#[trigger] vs.drop_last()[i], task) {
            let i = choose|i: int| 0 <= i < vs.drop_last().len() && holds_task(#[trigger] vs.drop_last()[i], task);
            assert(vs[i] == vs.drop_last()[i]);
        }
    }
}

proof fn lemma_populated_count(vs: Seq<Option<WakeHandle>>, task: u64)
    ensures
        count_task(populated(vs), task) == count_holders(vs, task),
    decreases vs.len(),
{
    if vs.len() > 0 {
        lemma_populated_count(vs.drop_last(), task);
        let p = populated(vs.drop_last());
        match vs.last() {
            Some(h) => {
                assert((p + seq![h]).drop_last() =~= p);
            },
            None => {
                assert(p + Seq::<WakeHandle>::empty() =~= p);
            },
        }
    }
}

/// The values of `b` after an update of `a` that kept the order.
proof fn lemma_same_order_view(
    a: IntrusiveList<Option<WakeHandle>>,
    b: IntrusiveList<Option<WakeHandle>>,
    slot: usize,
)
    requires
        a.wf(),
        b.wf(),
        b.order() == a.order(),
        b.slots() == a.slots(),
        forall|s: int| 0 <= s < a.slots() && s != slot ==> #[trigger] b.slot(s) == a.slot(s),
        a.order().contains(slot),
    ensures
        b@ == a@.update(a.order().index_of(slot), b.value(slot as int)),
        0 <= a.order().index_of(slot) < a@.len(),
        a@[a.order().index_of(slot)] == a.value(slot as int),
{
    a.lemma_wf();
    b.lemma_wf();
    let k = a.order().index_of(slot);
    assert forall|i: int| 0 <= i < a@.len() && i != k implies #[trigger] b@[i] == a@[i] by {
        let x = a.order()[i];
        assert(x != slot);
        assert(b.slot(x as int) == a.slot(x as int));
    }
    assert(b@ =~= a@.update(k, b.value(slot as int)));
}

/// Registering a task that has no registration twice, through one slot or
/// through a second slot that is not registered, leaves exactly one
/// registration for it, so that one `wake` hands out exactly one handle for
/// it.
pub proof fn lemma_register_twice_wakes_once(
    a: IntrusiveList<Option<WakeHandle>>,
    b: IntrusiveList<Option<WakeHandle>>,
    c: IntrusiveList<Option<WakeHandle>>,
    s1: usize,
    s2: usize,
    w: WakeHandle,
)
    requires
        a.wf(),
        b.wf(),
        c.wf(),
        count_holders(a@, w.task) == 0,
        updated(a, s1, w, b),
        s2 == s1 || !b.order().contains(s2),
        updated(b, s2, w, c),
    ensures
        count_holders(c@, w.task) == 1,
        count_task(populated(c@), w.task) == 1,
{
    a.lemma_wf();
    b.lemma_wf();
    c.lemma_wf();
    lemma_count_zero(a@, w.task);
    if a.order().contains(s1) {
        lemma_same_order_view(a, b, s1);
        let k = a.order().index_of(s1);
        lemma_count_update(a@, k, Some(w), w.task);
    } else {
        assert(b@ =~= a@.push(Some(w))) by {
            assert forall|i: int| 0 <= i < a@.len() implies #[trigger] b@[i] == a@[i] by {
                let x = a.order()[i];
                assert(b.order()[i] == x);
                assert(x != s1);
                assert(b.slot(x as int) == a.slot(x as int));
            }
        }
        assert(b@.drop_last() =~= a@);
    }
    assert(count_holders(b@, w.task) == 1);
    assert(b.order().contains(s1) && b.value(s1 as int) == Some(w)) by {
        if a.order().contains(s1) {
        } else {
            assert(b.order()[a.order().len() as int] == s1);
        }
    }
    if s2 == s1 {
        lemma_same_order_view(b, c, s1);
        assert(c@ =~= b@);
    } else {
        lemma_count_zero(b@, w.task);
    }
    lemma_populated_count(c@, w.task);
}

/// Registers wake handles and wakes them all at once.
pub struct MultiWaker {
    wakers: IntrusiveList<Option<WakeHandle>>,
}

/// A task's registration slot in a [`MultiWaker`].
pub struct MultiWakerStore {
    node: Item,
}

impl MultiWakerStore {
    pub closed spec fn slot(&self) -> usize {
        self.node.slot()
    }
}

impl MultiWaker {
    /// The registrations, as a list of slots.
    pub closed spec fn list(&self) -> IntrusiveList<Option<WakeHandle>> {
        self.wakers
    }

    pub open spec fn wf(&self) -> bool {
        self.list().wf()
    }

    /// Every live registration slot of `earlier` but `gone` is still live.
    pub open spec fn keeps_stores_but(&self, earlier: &MultiWaker, gone: int) -> bool {
        &&& self.list().slots() >= earlier.list().slots()
        &&& forall|s: int|
            0 <= s < earlier.list().slots() && s != gone && earlier.list().slot(s) is Some ==> (
            #[trigger] self.list().slot(s)) is Some
    }

    /// Every live registration slot of `earlier` is still live.
    pub open spec fn keeps_stores(&self, earlier: &MultiWaker) -> bool {
        self.keeps_stores_but(earlier, -1)
    }

    /// Whether `store` is a registration slot of this registrar.
    pub open spec fn owns(&self, store: &MultiWakerStore) -> bool {
        &&& (store.slot() as int) < self.list().slots()
        &&& self.list().slot(store.slot() as int) is Some
    }

    /// A registrar with no registration.
    pub fn new() -> (r: MultiWaker)
        ensures
            r.wf(),
            r.list()@ == Seq::<Option<WakeHandle>>::empty(),
            r.list().slots() == 0,
    {
        MultiWaker { wakers: IntrusiveList::new() }
    }

    /// The number of registration slots handed out so far.
    pub fn slot_count(&self) -> (r: usize)
        requires
            self.wf(),
        ensures
            r == self.list().slots(),
    {
        self.wakers.slot_count()
    }

    /// A new registration slot, empty and not registered.
    pub fn store(&mut self) -> (r: MultiWakerStore)
        requires
            old(self).wf(),
            old(self).list().slots() + 2 < usize::MAX,
        ensures
            final(self).wf(),
            final(self).owns(&r),
            final(self).list().order() == old(self).list().order(),
            final(self).list()@ == old(self).list()@,
            !final(self).list().order().contains(r.slot()),
            (r.slot() < old(self).list().slots() && old(self).list().slot(r.slot() as int) is None
                && final(self).list().slots() == old(self).list().slots()) || (r.slot() == old(self).list().slots()
                && final(self).list().slots() == old(self).list().slots() + 1),
            final(self).list().slot(r.slot() as int) == Some(None::<WakeHandle>),
            forall|s: int|
                0 <= s < old(self).list().slots() && s != r.slot() ==> final(self).list().slot(s) == old(
                    self,
                ).list().slot(s),
            final(self).keeps_stores(old(self)),
    {
        let node = self.wakers.new_store(None);
        MultiWakerStore { node }
    }

    /// Ends `store`: unregisters it and frees its slot.
    pub fn remove(&mut self, store: MultiWakerStore)
        requires
            old(self).wf(),
            old(self).owns(&store),
        ensures
            final(self).wf(),
            !final(self).list().order().contains(store.slot()),
            final(self).list().order() == old(self).list().order().remove_value(store.slot()),
            final(self).list().slots() == old(self).list().slots(),
            final(self).list().slot(store.slot() as int) is None,
            final(self).keeps_stores_but(old(self), store.slot() as int),
    {
        let MultiWakerStore { node } = store;
        node.release(&mut self.wakers);
    }

    /// Whether `store` is registered.
    pub fn is_registered(&self, store: &MultiWakerStore) -> (r: bool)
        requires
            self.wf(),
            self.owns(store),
        ensures
            r == self.list().order().contains(store.slot()),
    {
        store.node.is_linked(&self.wakers)
    }

    /// Registers `waker` in `store`. A registered store keeps its handle when
    /// it already wakes the same task and takes `waker` otherwise; an
    /// unregistered one is left as it is when some registration already wakes
    /// that task, and is registered at the tail with `waker` otherwise.
    pub fn update(&mut self, store: &MultiWakerStore, waker: &WakeHandle)
        requires
            old(self).wf(),
            old(self).owns(store),
        ensures
            final(self).wf(),
            final(self).owns(store),
            updated(old(self).list(), store.slot(), *waker, final(self).list()),
            final(self).keeps_stores(old(self)),
    {
        let w = *waker;
        if store.node.is_linked(&self.wakers) {
            let cur = *store.node.get(&self.wakers);
            match cur {
                Some(c) => {
                    if !c.will_wake(&w) {
                        store.node.replace(&mut self.wakers, Some(w));
                    }
                },
                None => {
                    store.node.replace(&mut self.wakers, Some(w));
                },
            }
        } else {
            let mut list = IntrusiveList::new();
            core::mem::swap(&mut list, &mut self.wakers);
            let mut cursor = list.cursor();
            let task = w.task;
            let wakes_task = |_i: usize, n: &Option<WakeHandle>| -> (r: bool)
                ensures
                    r == (n is Some && n->Some_0.task == task),
                {
                    match n {
                        Some(h) => h.task == task,
                        None => false,
                    }
                };
            let found = cursor.position(wakes_task);
            if found.is_none() {
                cursor.insert_tail(&store.node);
            }
            let mut list = cursor.into_list();
            if found.is_none() {
                store.node.replace(&mut list, Some(w));
            }
            self.wakers = list;
        }
    }

    /// Wakes every registration: returns the handles of the populated ones,
    /// in order, for the caller to invoke, and unregisters them all, empty
    /// ones included.
    pub fn wake(&mut self) -> (r: Vec<WakeHandle>)
        requires
            old(self).wf(),
        ensures
            final(self).wf(),
            r@ == populated(old(self).list()@),
            final(self).list()@.len() == 0,
            final(self).list().same_slots(&old(self).list()),
            final(self).keeps_stores(old(self)),
    {
        let mut list = IntrusiveList::new();
        core::mem::swap(&mut list, &mut self.wakers);
        let ghost orig = list;
        let mut cursor = list.cursor();
        cursor.seek_head();
        let mut woken: Vec<WakeHandle> = Vec::new();
        let ghost mut done: int = 0;
        while !cursor.is_empty()
            invariant
                cursor.wf(),
                orig.wf(),
                cursor.list().same_slots(&orig),
                0 <= done <= orig@.len(),
                cursor.list()@ == orig@.skip(done),
                cursor.list()@.len() > 0 ==> cursor.pos() == Some(0int),
                woken@ == populated(orig@.take(done)),
            decreases cursor.list()@.len(),
        {
            proof {
                cursor.lemma_wf();
            }
            let v = cursor.get();
            let h = *v.unwrap();
            if let Some(h) = h {
                woken.push(h);
            }
            cursor.remove();
            proof {
                let t = orig@.take(done + 1);
                assert(t.drop_last() =~= orig@.take(done));
                assert(t.last() == orig@[done]);
                assert(orig@.skip(done).remove(0) =~= orig@.skip(done + 1));
                done = done + 1;
            }
        }
        self.wakers = cursor.into_list();
        proof {
            assert(orig@.take(done) =~= orig@);
        }
        woken
    }
}

} // verus!
