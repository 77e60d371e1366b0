//! The list: link bookkeeping plus the data stored in each slot.
use vstd::prelude::*;

use super::item::Item;
use super::node::NodePtr;
use super::raw::RawIntrusiveList;

verus! {

/// A doubly-linked list whose nodes are slots of a table that the list keeps.
///
/// A slot is handed out as an [`Item`] by `new_store` and stays in place
/// until the item is released; linking and unlinking never move it.
pub struct IntrusiveList<T> {
    raw: RawIntrusiveList,
    data: Vec<Option<T>>,
}

impl<T> View for IntrusiveList<T> {
    type V = Seq<T>;

    /// The values of the members, from head to tail.
    closed spec fn view(&self) -> Seq<T> {
        self.order().map_values(|s: usize| self.data@[s as int]->Some_0)
    }
}

impl<T> IntrusiveList<T> {
    /// The slots of the members, from head to tail.
    pub closed spec fn order(&self) -> Seq<usize> {
        self.raw@
    }

    /// The number of slots handed out so far.
    pub closed spec fn slots(&self) -> nat {
        self.data@.len()
    }

    /// What slot `s` holds: `None` once its item was released.
    pub closed spec fn slot(&self, s: int) -> Option<T> {
        self.data@[s]
    }

    /// The value held by slot `s`.
    pub open spec fn value(&self, s: int) -> T {
        self.slot(s)->Some_0
    }

    /// Both lists hold the same values in the same slots.
    pub open spec fn same_slots(&self, other: &IntrusiveList<T>) -> bool {
        &&& self.slots() == other.slots()
        &&& forall|s: int| 0 <= s < self.slots() ==> #[trigger] self.slot(s) == other.slot(s)
    }

    /// The values that `order` reaches in this list's slots.
    pub open spec fn values_of(&self, order: Seq<usize>) -> Seq<T> {
        order.map_values(|s: usize| self.value(s as int))
    }

    /// The view is the values of the members.
    pub proof fn lemma_view(&self)
        ensures
            self@ == self.values_of(self.order()),
    {
        assert(self@ =~= self.values_of(self.order()));
    }

    /// Whether `item` is a live item of this list.
    pub open spec fn owns(&self, item: &Item) -> bool {
        &&& (item.slot() as int) < self.slots()
        &&& self.slot(item.slot() as int) is Some
    }

    pub closed spec fn wf(&self) -> bool {
        &&& self.raw.wf()
        &&& self.data@.len() == self.raw.slots()
        &&& forall|i: int| 0 <= i < self.raw@.len() ==> (#[trigger] self.data@[self.raw@[i] as int]) is Some
    }

    pub proof fn lemma_wf(&self)
        requires
            self.wf(),
        ensures
            self.order().no_duplicates(),
            self@.len() == self.order().len(),
            self.order().len() <= self.slots(),
            self.slots() < usize::MAX,
            forall|i: int|
                0 <= i < self.order().len() ==> (#[trigger] self.order()[i] as int) < self.slots(),
            forall|i: int| 0 <= i < self.order().len() ==> (#[trigger] self.slot(self.order()[i] as int)) is Some,
            forall|i: int| 0 <= i < self.order().len() ==> #[trigger] self@[i] == self.value(self.order()[i] as int),
    {
        self.raw.lemma_len_bound();
        assert forall|i: int| 0 <= i < self.order().len() implies #[trigger] self@[i] == self.value(
            self.order()[i] as int,
        ) by {}
    }

    /// An empty list.
    pub fn new() -> (r: IntrusiveList<T>)
        ensures
            r.wf(),
            r@ == Seq::<T>::empty(),
            r.order() == Seq::<usize>::empty(),
            r.slots() == 0,
    {
        IntrusiveList { raw: RawIntrusiveList::new(), data: Vec::new() }
    }

    pub fn len(&self) -> (r: usize)
        requires
            self.wf(),
        ensures
            r == self@.len(),
    {
        self.raw.len()
    }

    /// The number of slots handed out so far.
    pub fn slot_count(&self) -> (r: usize)
        requires
            self.wf(),
        ensures
            r == self.slots(),
    {
        self.data.len()
    }

    pub fn is_empty(&self) -> (r: bool)
        requires
            self.wf(),
        ensures
            r == (self@.len() == 0),
    {
        self.raw.is_empty()
    }

    /// Stores `value` in a free slot, not linked, and returns the item that
    /// owns it: the first slot whose item was released, else a new one.
    pub fn new_store(&mut self, value: T) -> (item: Item)
        requires
            old(self).wf(),
            old(self).slots() + 2 < usize::MAX,
        ensures
            final(self).wf(),
            final(self).order() == old(self).order(),
            final(self)@ == old(self)@,
            (item.slot() < old(self).slots() && old(self).slot(item.slot() as int) is None
                && final(self).slots() == old(self).slots()) || (item.slot() == old(self).slots()
                && final(self).slots() == old(self).slots() + 1),
            final(self).slot(item.slot() as int) == Some(value),
            forall|s: int|
                0 <= s < old(self).slots() && s != item.slot() ==> final(self).slot(s) == old(self).slot(s),
            !final(self).order().contains(item.slot()),
    {
        let n = self.data.len();
        let mut i: usize = 0;
        while i < n
            invariant
                *self == *old(self),
                old(self).wf(),
                old(self).slots() + 2 < usize::MAX,
                n == self.data@.len(),
                i <= n,
                forall|j: int| 0 <= j < i ==> (#[trigger] self.data@[j]) is Some,
            decreases n - i,
        {
            if self.data[i].is_none() {
                self.data.set(i, Some(value));
                proof {
                    old(self).raw.lemma_len_bound();
                    assert(!old(self).raw@.contains(i)) by {
                        if old(self).raw@.contains(i) {
                            let k = choose|k: int| 0 <= k < old(self).raw@.len() && old(self).raw@[k] == i;
                            let _ = old(self).data@[old(self).raw@[k] as int];
                        }
                    }
                    assert forall|k: int| 0 <= k < self.raw@.len() implies (#[trigger] self.data@[self.raw@[k] as int]) is Some by {
                        let _ = old(self).data@[old(self).raw@[k] as int];
                    }
                    assert(self@ =~= old(self)@);
                }
                return Item::from_slot(i);
            }
            i = i + 1;
        }
        let slot = self.raw.add_node();
        self.data.push(Some(value));
        proof {
            self.raw.lemma_len_bound();
            old(self).raw.lemma_len_bound();
            assert forall|i: int| 0 <= i < self.raw@.len() implies (#[trigger] self.data@[self.raw@[i] as int]) is Some by {
                let _ = old(self).data@[old(self).raw@[i] as int];
            }
            assert(self@ =~= old(self)@);
            assert(!self.raw@.contains(slot)) by {
                if self.raw@.contains(slot) {
                    let i = choose|i: int| 0 <= i < self.raw@.len() && self.raw@[i] == slot;
                    assert(old(self).raw@[i] == slot);
                }
            }
        }
        Item::from_slot(slot)
    }

    /// Unlinks `item`; its value stays in its slot.
    pub fn remove(&mut self, item: &Item)
        requires
            old(self).wf(),
            old(self).owns(item),
        ensures
            final(self).wf(),
            final(self).order() == old(self).order().remove_value(item.slot()),
            !final(self).order().contains(item.slot()),
            final(self).slots() == old(self).slots(),
            forall|s: int| 0 <= s < old(self).slots() ==> final(self).slot(s) == old(self).slot(s),
    {
        self.unlink_slot(item.slot_index());
    }

    pub(crate) fn unlink_slot(&mut self, slot: usize)
        requires
            old(self).wf(),
            (slot as int) < old(self).slots(),
        ensures
            final(self).wf(),
            final(self).order() == old(self).order().remove_value(slot),
            !final(self).order().contains(slot),
            final(self).slots() == old(self).slots(),
            forall|s: int| 0 <= s < old(self).slots() ==> final(self).slot(s) == old(self).slot(s),
    {
        self.raw.remove(slot);
        proof {
            self.raw.lemma_len_bound();
            old(self).raw.lemma_len_bound();
            let s = old(self).raw@;
            s.index_of_first_ensures(slot);
            assert forall|i: int| 0 <= i < self.raw@.len() implies (#[trigger] self.data@[self.raw@[i] as int]) is Some by {
                if s.contains(slot) {
                    let k = s.index_of_first(slot)->Some_0;
                    let i2 = if i < k { i } else { i + 1 };
                    assert(self.raw@[i] == s[i2]);
                    let _ = self.data@[s[i2] as int];
                }
            }
        }
    }

    /// The first member.
    pub(crate) fn head_node(&self) -> (r: Option<NodePtr>)
        requires
            self.wf(),
        ensures
            r == if self.order().len() == 0 {
                None
            } else {
                Some(NodePtr(self.order()[0]))
            },
    {
        self.raw.head()
    }

    /// The last member.
    pub(crate) fn tail_node(&self) -> (r: Option<NodePtr>)
        requires
            self.wf(),
        ensures
            r == if self.order().len() == 0 {
                None
            } else {
                Some(NodePtr(self.order()[self.order().len() - 1]))
            },
    {
        self.raw.tail()
    }

    /// The member after the one at position `i`.
    pub(crate) fn next_node(&self, slot: usize, Ghost(i): Ghost<int>) -> (r: Option<NodePtr>)
        requires
            self.wf(),
            0 <= i < self.order().len(),
            self.order()[i] == slot,
        ensures
            r == if i + 1 < self.order().len() {
                Some(NodePtr(self.order()[i + 1]))
            } else {
                None
            },
    {
        proof {
            self.raw.lemma_links_of_member(i);
        }
        self.raw.next_of(slot).expect_linked()
    }

    /// The member before the one at position `i`.
    pub(crate) fn prev_node(&self, slot: usize, Ghost(i): Ghost<int>) -> (r: Option<NodePtr>)
        requires
            self.wf(),
            0 <= i < self.order().len(),
            self.order()[i] == slot,
        ensures
            r == if i > 0 {
                Some(NodePtr(self.order()[i - 1]))
            } else {
                None
            },
    {
        proof {
            self.raw.lemma_links_of_member(i);
        }
        self.raw.prev_of(slot).expect_linked()
    }

    proof fn lemma_insert_keeps_data(&self, old_list: IntrusiveList<T>, slot: usize)
        requires
            old_list.wf(),
            self.raw.wf(),
            self.data == old_list.data,
            self.raw.slots() == old_list.raw.slots(),
            (slot as int) < old_list.slots(),
            old_list.slot(slot as int) is Some,
            forall|x: usize| #[trigger] self.raw@.contains(x) ==> old_list.raw@.contains(x) || x == slot,
        ensures
            self.wf(),
    {
        assert forall|i: int| 0 <= i < self.raw@.len() implies (#[trigger] self.data@[self.raw@[i] as int]) is Some by {
            let x = self.raw@[i];
            assert(self.raw@.contains(x));
            if x != slot {
                let j = choose|j: int| 0 <= j < old_list.raw@.len() && old_list.raw@[j] == x;
                let _ = old_list.data@[old_list.raw@[j] as int];
            }
        }
    }

    /// Links the unlinked `slot` at the head.
    pub(crate) fn link_head(&mut self, slot: usize)
        requires
            old(self).wf(),
            (slot as int) < old(self).slots(),
            old(self).slot(slot as int) is Some,
            !old(self).order().contains(slot),
        ensures
            final(self).wf(),
            final(self).order() == seq![slot] + old(self).order(),
            final(self).slots() == old(self).slots(),
            forall|s: int| 0 <= s < old(self).slots() ==> final(self).slot(s) == old(self).slot(s),
    {
        self.raw.insert_head(slot);
        proof {
            assert forall|x: usize| #[trigger] self.raw@.contains(x) implies old(self).raw@.contains(x) || x == slot by {
                let j = choose|j: int| 0 <= j < self.raw@.len() && self.raw@[j] == x;
                if j > 0 {
                    assert(old(self).raw@[j - 1] == x);
                }
            }
            self.lemma_insert_keeps_data(*old(self), slot);
        }
    }

    /// Links the unlinked `slot` at the tail.
    pub(crate) fn link_tail(&mut self, slot: usize)
        requires
            old(self).wf(),
            (slot as int) < old(self).slots(),
            old(self).slot(slot as int) is Some,
            !old(self).order().contains(slot),
        ensures
            final(self).wf(),
            final(self).order() == old(self).order().push(slot),
            final(self).slots() == old(self).slots(),
            forall|s: int| 0 <= s < old(self).slots() ==> final(self).slot(s) == old(self).slot(s),
    {
        self.raw.insert_tail(slot);
        proof {
            assert forall|x: usize| #[trigger] self.raw@.contains(x) implies old(self).raw@.contains(x) || x == slot by {
                let j = choose|j: int| 0 <= j < self.raw@.len() && self.raw@[j] == x;
                if j < old(self).raw@.len() {
                    assert(old(self).raw@[j] == x);
                }
            }
            self.lemma_insert_keeps_data(*old(self), slot);
        }
    }

    /// Links the unlinked `slot` right before the member `at`, at position `k`.
    pub(crate) fn link_before(&mut self, at: usize, slot: usize, Ghost(k): Ghost<int>)
        requires
            old(self).wf(),
            (slot as int) < old(self).slots(),
            old(self).slot(slot as int) is Some,
            !old(self).order().contains(slot),
            0 <= k < old(self).order().len(),
            old(self).order()[k] == at,
        ensures
            final(self).wf(),
            final(self).order() == old(self).order().insert(k, slot),
            final(self).slots() == old(self).slots(),
            forall|s: int| 0 <= s < old(self).slots() ==> final(self).slot(s) == old(self).slot(s),
    {
        self.raw.insert_before(at, slot, Ghost(k));
        proof {
            assert forall|x: usize| #[trigger] self.raw@.contains(x) implies old(self).raw@.contains(x) || x == slot by {
                let j = choose|j: int| 0 <= j < self.raw@.len() && self.raw@[j] == x;
                if j < k {
                    assert(old(self).raw@[j] == x);
                } else if j > k {
                    assert(old(self).raw@[j - 1] == x);
                }
            }
            self.lemma_insert_keeps_data(*old(self), slot);
        }
    }

    /// Whether the node in `slot` is linked.
    pub(crate) fn is_linked_slot(&self, slot: usize) -> (r: bool)
        requires
            self.wf(),
            (slot as int) < self.slots(),
        ensures
            r == self.order().contains(slot),
    {
        self.raw.is_linked(slot)
    }

    /// The value in `slot`.
    pub(crate) fn value_ref(&self, slot: usize) -> (r: &T)
        requires
            self.wf(),
            (slot as int) < self.slots(),
            self.slot(slot as int) is Some,
        ensures
            *r == self.value(slot as int),
    {
        self.data[slot].as_ref().unwrap()
    }

    /// Puts `value` in `slot` and returns what was there.
    pub(crate) fn replace_value(&mut self, slot: usize, value: T) -> (r: T)
        requires
            old(self).wf(),
            (slot as int) < old(self).slots(),
            old(self).slot(slot as int) is Some,
        ensures
            final(self).wf(),
            r == old(self).value(slot as int),
            final(self).order() == old(self).order(),
            final(self).slots() == old(self).slots(),
            final(self).slot(slot as int) == Some(value),
            forall|s: int| 0 <= s < old(self).slots() && s != slot ==> final(self).slot(s) == old(self).slot(s),
    {
        let mut v = Some(value);
        self.data.set_and_swap(slot, &mut v);
        proof {
            self.raw.lemma_len_bound();
            assert forall|i: int| 0 <= i < self.raw@.len() implies (#[trigger] self.data@[self.raw@[i] as int]) is Some by {
                let _ = old(self).data@[self.raw@[i] as int];
            }
        }
        v.unwrap()
    }

    /// Empties the unlinked `slot` and returns its value.
    pub(crate) fn take_value(&mut self, slot: usize) -> (r: T)
        requires
            old(self).wf(),
            (slot as int) < old(self).slots(),
            old(self).slot(slot as int) is Some,
            !old(self).order().contains(slot),
        ensures
            final(self).wf(),
            r == old(self).value(slot as int),
            final(self).order() == old(self).order(),
            final(self)@ == old(self)@,
            final(self).slots() == old(self).slots(),
            final(self).slot(slot as int) is None,
            forall|s: int| 0 <= s < old(self).slots() && s != slot ==> final(self).slot(s) == old(self).slot(s),
    {
        let mut v = None;
        self.data.set_and_swap(slot, &mut v);
        proof {
            self.raw.lemma_len_bound();
            assert forall|i: int| 0 <= i < self.raw@.len() implies (#[trigger] self.data@[self.raw@[i] as int]) is Some by {
                let _ = old(self).data@[self.raw@[i] as int];
            }
            assert(self@ =~= old(self)@);
        }
        v.unwrap()
    }
}

} // verus!
