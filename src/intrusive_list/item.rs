//! The registration guard that owns one slot of a list.
use vstd::prelude::*;

use super::list::IntrusiveList;
use super::node::NodePtr;

verus! {

/// The guard of one slot of an [`IntrusiveList`].
///
/// It is created unlinked by `IntrusiveList::new_store`, may be linked and
/// unlinked any number of times, and ends with `release`, which unlinks it
/// whatever its state and hands back its value.
#[must_use]
pub struct Item {
    slot: usize,
}

impl Item {
    /// The slot that the item owns.
    pub closed spec fn slot(&self) -> usize {
        self.slot
    }

    pub(crate) fn from_slot(slot: usize) -> (r: Item)
        ensures
            r.slot() == slot,
    {
        Item { slot }
    }

    pub(crate) fn slot_index(&self) -> (r: usize)
        ensures
            r == self.slot(),
    {
        self.slot
    }

    /// The identity of the item's node.
    pub fn node(&self) -> (r: NodePtr)
        ensures
            r.0 == self.slot(),
    {
        NodePtr::from_ref(self.slot)
    }

    /// Whether the item is currently a member of `list`.
    pub fn is_linked<T>(&self, list: &IntrusiveList<T>) -> (r: bool)
        requires
            list.wf(),
            list.owns(self),
        ensures
            r == list.order().contains(self.slot()),
    {
        list.is_linked_slot(self.slot)
    }

    /// Unlinks the item from `list`; its value stays with it.
    pub fn remove<T>(&self, list: &mut IntrusiveList<T>)
        requires
            old(list).wf(),
            old(list).owns(self),
        ensures
            final(list).wf(),
            final(list).order() == old(list).order().remove_value(self.slot()),
            !final(list).order().contains(self.slot()),
            final(list).slots() == old(list).slots(),
            forall|s: int| 0 <= s < old(list).slots() ==> final(list).slot(s) == old(list).slot(s),
    {
        list.unlink_slot(self.slot)
    }

    /// The item's value, when the item is not linked (no cursor can reach it).
    pub fn try_borrow_data<'a, T>(&self, list: &'a IntrusiveList<T>) -> (r: Option<&'a T>)
        requires
            list.wf(),
            list.owns(self),
        ensures
            r == if list.order().contains(self.slot()) {
                None
            } else {
                Some(&list.value(self.slot() as int))
            },
    {
        if list.is_linked_slot(self.slot) {
            None
        } else {
            Some(list.value_ref(self.slot))
        }
    }

    /// The item's value, linked or not.
    pub fn get<'a, T>(&self, list: &'a IntrusiveList<T>) -> (r: &'a T)
        requires
            list.wf(),
            list.owns(self),
        ensures
            *r == list.value(self.slot() as int),
    {
        list.value_ref(self.slot)
    }

    /// Replaces the item's value, linked or not, and returns the former one.
    pub fn replace<T>(&self, list: &mut IntrusiveList<T>, value: T) -> (r: T)
        requires
            old(list).wf(),
            old(list).owns(self),
        ensures
            final(list).wf(),
            r == old(list).value(self.slot() as int),
            final(list).order() == old(list).order(),
            final(list).slots() == old(list).slots(),
            final(list).slot(self.slot() as int) == Some(value),
            forall|s: int|
                0 <= s < old(list).slots() && s != self.slot() ==> final(list).slot(s) == old(list).slot(s),
    {
        list.replace_value(self.slot, value)
    }

    /// Ends the item: unlinks it from `list` whatever its state, frees its
    /// slot and returns its value. No traversal of `list` reaches it again.
    pub fn release<T>(self, list: &mut IntrusiveList<T>) -> (r: T)
        requires
            old(list).wf(),
            old(list).owns(&self),
        ensures
            final(list).wf(),
            r == old(list).value(self.slot() as int),
            final(list).order() == old(list).order().remove_value(self.slot()),
            !final(list).order().contains(self.slot()),
            final(list).slot(self.slot() as int) is None,
            final(list).slots() == old(list).slots(),
            forall|s: int|
                0 <= s < old(list).slots() && s != self.slot() ==> final(list).slot(s) == old(list).slot(s),
    {
        list.unlink_slot(self.slot);
        list.take_value(self.slot)
    }
}

} // verus!
