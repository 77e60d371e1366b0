//! A position in a list, through which the list is walked and changed.
use vstd::prelude::*;

use super::item::Item;
use super::list::IntrusiveList;
use super::node::NodePtr;

verus! {

/// A way to reach a position: steps forward from the head, steps backward
/// from the tail, or steps forward or backward from the cursor.
#[derive(Clone, Copy, Debug)]
enum SeekFrom {
    Head(usize),
    Tail(usize),
    Forward(usize),
    Backward(usize),
}

impl SeekFrom {
    spec fn cost(self) -> int {
        match self {
            SeekFrom::Head(n) => n as int,
            SeekFrom::Tail(n) => n as int,
            SeekFrom::Forward(n) => n as int,
            SeekFrom::Backward(n) => n as int,
        }
    }

    fn steps(&self) -> (r: usize)
        ensures
            r == self.cost(),
    {
        match self {
            SeekFrom::Head(n) => *n,
            SeekFrom::Tail(n) => *n,
            SeekFrom::Forward(n) => *n,
            SeekFrom::Backward(n) => *n,
        }
    }

    spec fn from_cursor(self) -> bool {
        self is Forward || self is Backward
    }

    /// The cheapest of `ways`; on a tie a way from the cursor wins, and
    /// otherwise the earlier way.
    fn find_min(ways: &Vec<SeekFrom>) -> (r: Option<SeekFrom>)
        ensures
            ways@.len() == 0 <==> r is None,
            r matches Some(m) ==> ways@.contains(m),
            r matches Some(m) ==> forall|j: int| 0 <= j < ways@.len() ==> m.cost() <= (#[trigger] ways@[j]).cost(),
    {
        if ways.len() == 0 {
            return None;
        }
        let mut min = ways[0];
        let mut k: usize = 1;
        proof {
            assert(ways@.subrange(0, 1)[0] == min);
        }
        while k < ways.len()
            invariant
                1 <= k <= ways@.len(),
                ways@.subrange(0, k as int).contains(min),
                forall|j: int| 0 <= j < k ==> min.cost() <= (#[trigger] ways@[j]).cost(),
            decreases ways@.len() - k,
        {
            let n = ways[k];
            let update = if n.from_cursor_exec() && !min.from_cursor_exec() {
                n.steps() <= min.steps()
            } else {
                n.steps() < min.steps()
            };
            proof {
                let j = choose|j: int| 0 <= j < k && ways@.subrange(0, k as int)[j] == min;
                assert(ways@.subrange(0, k + 1)[j] == min);
            }
            if update {
                min = n;
                proof {
                    assert(ways@.subrange(0, k + 1)[k as int] == n);
                }
            }
            k = k + 1;
        }
        proof {
            assert(ways@.subrange(0, ways@.len() as int) =~= ways@);
        }
        Some(min)
    }

    fn from_cursor_exec(&self) -> (r: bool)
        ensures
            r == self.from_cursor(),
    {
        match self {
            SeekFrom::Forward(_) | SeekFrom::Backward(_) => true,
            _ => false,
        }
    }
}


/// The members of `order` that `keep` marks, in order.
pub open spec fn kept(order: Seq<usize>, keep: Seq<bool>) -> Seq<usize>
    decreases keep.len(),
{
    if keep.len() == 0 || order.len() == 0 {
        Seq::empty()
    } else {
        kept(order.drop_last(), keep.drop_last()) + if keep.last() {
            seq![order.last()]
        } else {
            Seq::empty()
        }
    }
}

/// The number of marks set in `keep`.
pub open spec fn count_kept(keep: Seq<bool>) -> nat
    decreases keep.len(),
{
    if keep.len() == 0 {
        0
    } else {
        count_kept(keep.drop_last()) + if keep.last() {
            1nat
        } else {
            0nat
        }
    }
}

proof fn lemma_kept_len(order: Seq<usize>, keep: Seq<bool>)
    requires
        order.len() == keep.len(),
    ensures
        kept(order, keep).len() == count_kept(keep),
    decreases keep.len(),
{
    if keep.len() > 0 {
        lemma_kept_len(order.drop_last(), keep.drop_last());
    }
}

/// A position in a list that the cursor owns while it walks it.
///
/// The position is either unset or a member's index; a walk starts at the
/// position, or at the head when it is unset.
pub struct Cursor<T> {
    list: IntrusiveList<T>,
    index: usize,
    current: Option<NodePtr>,
}

impl<T> IntrusiveList<T> {
    /// Takes the list in hand; the cursor starts unset.
    pub fn cursor(self) -> (r: Cursor<T>)
        requires
            self.wf(),
        ensures
            r.wf(),
            r.list() == self,
            r.pos() is None,
    {
        Cursor { list: self, index: 0, current: None }
    }
}

impl<T> Cursor<T> {
    /// The list walked.
    pub closed spec fn list(&self) -> IntrusiveList<T> {
        self.list
    }

    /// The index of the current member, if the position is set.
    pub closed spec fn pos(&self) -> Option<int> {
        match self.current {
            Some(_) => Some(self.index as int),
            None => None,
        }
    }

    /// Where a walk starts: the position, or the head when it is unset.
    pub open spec fn start(&self) -> int {
        match self.pos() {
            Some(i) => i,
            None => 0,
        }
    }

    pub closed spec fn wf(&self) -> bool {
        &&& self.list.wf()
        &&& match self.current {
            None => self.index == 0,
            Some(p) => {
                &&& (self.index as int) < self.list.order().len()
                &&& self.list.order()[self.index as int] == p.0
            },
        }
    }

    pub proof fn lemma_wf(&self)
        requires
            self.wf(),
        ensures
            self.list().wf(),
            self.pos() matches Some(i) ==> 0 <= i < self.list()@.len(),
            0 <= self.start() <= self.list()@.len(),
    {
        self.list.lemma_wf();
    }

    /// Gives the list back.
    pub fn into_list(self) -> (r: IntrusiveList<T>)
        requires
            self.wf(),
        ensures
            r == self.list(),
            r.wf(),
    {
        self.list
    }

    pub fn len(&self) -> (r: usize)
        requires
            self.wf(),
        ensures
            r == self.list()@.len(),
    {
        self.list.len()
    }

    pub fn is_empty(&self) -> (r: bool)
        requires
            self.wf(),
        ensures
            r == (self.list()@.len() == 0),
    {
        self.list.is_empty()
    }

    /// The index of the position, 0 when it is unset.
    pub fn index(&self) -> (r: usize)
        requires
            self.wf(),
        ensures
            r == self.start(),
    {
        self.index
    }

    /// The value at the position.
    pub fn get(&self) -> (r: Option<&T>)
        requires
            self.wf(),
        ensures
            r == match self.pos() {
                Some(i) => Some(&self.list()@[i]),
                None => None::<&T>,
            },
    {
        proof {
            self.list.lemma_wf();
        }
        match self.current {
            Some(p) => Some(self.list.value_ref(p.0)),
            None => None,
        }
    }

    /// Whether the position is the head of the list.
    pub fn is_head(&self) -> (r: bool)
        requires
            self.wf(),
        ensures
            r == (self.pos() == Some(0int)),
    {
        self.current.is_some() && self.index == 0
    }

    /// Whether the position is the tail of the list.
    pub fn is_tail(&self) -> (r: bool)
        requires
            self.wf(),
        ensures
            r == (self.pos() == Some(self.list()@.len() - 1)),
    {
        proof {
            self.list.lemma_wf();
        }
        self.current.is_some() && self.index + 1 == self.list.len()
    }

    /// Moves to the head; the position is unset on an empty list.
    pub fn seek_head(&mut self)
        requires
            old(self).wf(),
        ensures
            final(self).wf(),
            final(self).list() == old(self).list(),
            final(self).pos() == if old(self).list()@.len() == 0 {
                None
            } else {
                Some(0int)
            },
    {
        proof {
            self.list.lemma_wf();
        }
        self.current = self.list.head_node();
        self.index = 0;
    }

    /// Moves to the tail; the position is unset on an empty list.
    pub fn seek_tail(&mut self)
        requires
            old(self).wf(),
        ensures
            final(self).wf(),
            final(self).list() == old(self).list(),
            final(self).pos() == if old(self).list()@.len() == 0 {
                None
            } else {
                Some(old(self).list()@.len() - 1)
            },
    {
        proof {
            self.list.lemma_wf();
        }
        self.current = self.list.tail_node();
        let len = self.list.len();
        self.index = if len == 0 {
            0
        } else {
            len - 1
        };
    }

    /// Moves to the next member, wrapping around to the head.
    pub fn seek_next(&mut self)
        requires
            old(self).wf(),
        ensures
            final(self).wf(),
            final(self).list() == old(self).list(),
            final(self).pos() == match old(self).pos() {
                Some(i) => if i + 1 < old(self).list()@.len() {
                    Some(i + 1)
                } else {
                    Some(0int)
                },
                None => if old(self).list()@.len() == 0 {
                    None
                } else {
                    Some(0int)
                },
            },
    {
        proof {
            self.list.lemma_wf();
        }
        let next = match self.current {
            Some(p) => self.list.next_node(p.0, Ghost(self.index as int)),
            None => None,
        };
        match next {
            Some(n) => {
                self.current = Some(n);
                self.index = self.index + 1;
            },
            None => {
                self.seek_head();
            },
        }
    }

    /// Moves to the previous member, wrapping around to the tail.
    pub fn seek_prev(&mut self)
        requires
            old(self).wf(),
        ensures
            final(self).wf(),
            final(self).list() == old(self).list(),
            final(self).pos() == match old(self).pos() {
                Some(i) => if i > 0 {
                    Some(i - 1)
                } else {
                    Some(old(self).list()@.len() - 1)
                },
                None => if old(self).list()@.len() == 0 {
                    None
                } else {
                    Some(old(self).list()@.len() - 1)
                },
            },
    {
        proof {
            self.list.lemma_wf();
        }
        let prev = match self.current {
            Some(p) => self.list.prev_node(p.0, Ghost(self.index as int)),
            None => None,
        };
        match prev {
            Some(n) => {
                self.current = Some(n);
                self.index = self.index - 1;
            },
            None => {
                self.seek_tail();
            },
        }
    }

    /// Links the unlinked `item` at the head and moves to it.
    pub fn insert_head(&mut self, item: &Item)
        requires
            old(self).wf(),
            old(self).list().owns(item),
            !old(self).list().order().contains(item.slot()),
        ensures
            final(self).wf(),
            final(self).list().order() == seq![item.slot()] + old(self).list().order(),
            final(self).list()@ == seq![old(self).list().value(item.slot() as int)] + old(self).list()@,
            final(self).list().same_slots(&old(self).list()),
            final(self).pos() == Some(0int),
    {
        let slot = item.slot_index();
        self.list.link_head(slot);
        self.current = Some(NodePtr::from_ref(slot));
        self.index = 0;
        proof {
            self.list.lemma_view();
            old(self).list.lemma_view();
            let t = seq![old(self).list.value(slot as int)] + old(self).list@;
            assert forall|i: int| 0 <= i < t.len() implies #[trigger] self.list@[i] == t[i] by {
                old(self).list.lemma_wf();
                if i > 0 {
                    let x = old(self).list.order()[i - 1];
                    assert(self.list.order()[i] == x);
                    assert(self.list.slot(x as int) == old(self).list.slot(x as int));
                }
            }
            assert(self.list@ =~= t);
        }
    }

    /// Links the unlinked `item` at the tail and moves to it.
    pub fn insert_tail(&mut self, item: &Item)
        requires
            old(self).wf(),
            old(self).list().owns(item),
            !old(self).list().order().contains(item.slot()),
        ensures
            final(self).wf(),
            final(self).list().order() == old(self).list().order().push(item.slot()),
            final(self).list()@ == old(self).list()@.push(old(self).list().value(item.slot() as int)),
            final(self).list().same_slots(&old(self).list()),
            final(self).pos() == Some(old(self).list()@.len() as int),
    {
        proof {
            self.list.lemma_wf();
        }
        let slot = item.slot_index();
        let len = self.list.len();
        self.list.link_tail(slot);
        self.current = Some(NodePtr::from_ref(slot));
        self.index = len;
        proof {
            self.list.lemma_view();
            old(self).list.lemma_view();
            assert(self.list@ =~= old(self).list@.push(old(self).list.value(slot as int)));
        }
    }

    /// Links the unlinked `item` at `index`, or at the tail when `index` is
    /// past it, and moves to it.
    pub fn insert(&mut self, index: usize, item: &Item)
        requires
            old(self).wf(),
            old(self).list().owns(item),
            !old(self).list().order().contains(item.slot()),
        ensures
            final(self).wf(),
            final(self).list().order() == old(self).list().order().insert(
                if index < old(self).list()@.len() { index as int } else { old(self).list()@.len() as int },
                item.slot(),
            ),
            final(self).list()@ == old(self).list()@.insert(
                if index < old(self).list()@.len() { index as int } else { old(self).list()@.len() as int },
                old(self).list().value(item.slot() as int),
            ),
            final(self).list().same_slots(&old(self).list()),
            final(self).pos() == Some(
                if index < old(self).list()@.len() { index as int } else { old(self).list()@.len() as int },
            ),
    {
        proof {
            self.list.lemma_wf();
        }
        let len = self.list.len();
        if index == 0 {
            self.insert_head(item);
            proof {
                if len == 0 {
                    assert(old(self).list.order().insert(0, item.slot()) =~= seq![item.slot()] + old(self).list.order());
                    assert(old(self).list@.insert(0, old(self).list.value(item.slot() as int)) =~= seq![old(self).list.value(item.slot() as int)] + old(self).list@);
                } else {
                    assert(old(self).list.order().insert(0, item.slot()) =~= seq![item.slot()] + old(self).list.order());
                    assert(old(self).list@.insert(0, old(self).list.value(item.slot() as int)) =~= seq![old(self).list.value(item.slot() as int)] + old(self).list@);
                }
            }
            return ;
        }
        if index >= len {
            self.insert_tail(item);
            proof {
                assert(old(self).list.order().insert(len as int, item.slot()) =~= old(self).list.order().push(item.slot()));
                assert(old(self).list@.insert(len as int, old(self).list.value(item.slot() as int)) =~= old(self).list@.push(old(self).list.value(item.slot() as int)));
            }
            return ;
        }
        self.seek(index);
        let slot = item.slot_index();
        let at = self.current.unwrap().0;
        self.list.link_before(at, slot, Ghost(index as int));
        self.current = Some(NodePtr::from_ref(slot));
        proof {
            self.list.lemma_wf();
            self.list.lemma_view();
            old(self).list.lemma_view();
            assert(self.list@ =~= old(self).list@.insert(index as int, old(self).list.value(slot as int)));
        }
    }

    /// Unlinks the member at the position and moves to its successor; the
    /// position becomes unset when there is none. Nothing happens when the
    /// position is unset.
    pub fn remove(&mut self)
        requires
            old(self).wf(),
        ensures
            final(self).wf(),
            final(self).list().same_slots(&old(self).list()),
            match old(self).pos() {
                Some(i) => {
                    &&& final(self).list().order() == old(self).list().order().remove(i)
                    &&& final(self).list()@ == old(self).list()@.remove(i)
                    &&& final(self).pos() == if i + 1 < old(self).list()@.len() {
                        Some(i)
                    } else {
                        None
                    }
                },
                None => final(self).list() == old(self).list() && final(self).pos() is None,
            },
    {
        proof {
            self.list.lemma_wf();
        }
        match self.current {
            Some(p) => {
                let ghost i = self.index as int;
                let next = self.list.next_node(p.0, Ghost(i));
                self.list.unlink_slot(p.0);
                proof {
                    let s = old(self).list.order();
                    s.index_of_first_ensures(p.0);
                    assert(s.remove_value(p.0) == s.remove(i));
                    self.list.lemma_view();
                    old(self).list.lemma_view();
                    assert(self.list@ =~= old(self).list@.remove(i));
                }
                match next {
                    Some(n) => {
                        self.current = Some(n);
                    },
                    None => {
                        self.current = None;
                        self.index = 0;
                    },
                }
            },
            None => {},
        }
    }

    /// The first index from the start whose value `f` answers with `want`.
    fn scan<F: Fn(usize, &T) -> bool>(&self, f: &F, want: bool) -> (r: Option<usize>)
        requires
            self.wf(),
            forall|i: usize, t: &T| #[trigger] f.requires((i, t)),
        ensures
            match r {
                Some(p) => {
                    &&& self.start() <= p < self.list()@.len()
                    &&& f.ensures((p, &self.list()@[p as int]), want)
                    &&& forall|j: int|
                        self.start() <= j < p ==> f.ensures((j as usize, &#[trigger] self.list()@[j]), !want)
                },
                None => forall|j: int|
                    self.start() <= j < self.list()@.len() ==> f.ensures(
                        (j as usize, &#[trigger] self.list()@[j]),
                        !want,
                    ),
            },
    {
        proof {
            self.list.lemma_wf();
        }
        let len = self.list.len();
        let mut cur = match self.current {
            Some(p) => Some(p),
            None => self.list.head_node(),
        };
        let mut i: usize = self.index;
        while i < len
            invariant
                self.wf(),
                len == self.list()@.len(),
                self.start() <= i <= len,
                i < len ==> cur == Some(NodePtr(self.list().order()[i as int])),
                forall|i: usize, t: &T| #[trigger] f.requires((i, t)),
                forall|j: int| self.start() <= j < i ==> f.ensures((j as usize, &#[trigger] self.list()@[j]), !want),
            decreases len - i,
        {
            proof {
                self.list.lemma_wf();
            }
            let n = cur.unwrap().0;
            let v = self.list.value_ref(n);
            let b = f(i, v);
            if b == want {
                return Some(i);
            }
            cur = self.list.next_node(n, Ghost(i as int));
            i = i + 1;
        }
        None
    }

    /// Moves to the member at `p` when found, else to the tail.
    fn settle(&mut self, found: Option<usize>)
        requires
            old(self).wf(),
            found matches Some(p) ==> p < old(self).list()@.len(),
        ensures
            final(self).wf(),
            final(self).list() == old(self).list(),
            final(self).pos() == match found {
                Some(p) => Some(p as int),
                None => if old(self).list()@.len() == 0 {
                    None
                } else {
                    Some(old(self).list()@.len() - 1)
                },
            },
    {
        match found {
            Some(p) => self.seek(p),
            None => self.seek_tail(),
        }
    }

    /// Whether `f` holds of some member from the start on; the walk stops at
    /// the first one, where the cursor is left (else at the tail).
    pub fn any<F: Fn(usize, &T) -> bool>(&mut self, f: F) -> (r: bool)
        requires
            old(self).wf(),
            forall|i: usize, t: &T| #[trigger] f.requires((i, t)),
        ensures
            final(self).wf(),
            final(self).list() == old(self).list(),
            r ==> exists|j: int|
                old(self).start() <= j < old(self).list()@.len() && f.ensures(
                    (j as usize, &#[trigger] old(self).list()@[j]),
                    true,
                ),
            !r ==> forall|j: int|
                old(self).start() <= j < old(self).list()@.len() ==> f.ensures(
                    (j as usize, &#[trigger] old(self).list()@[j]),
                    false,
                ),
    {
        let p = self.scan(&f, true);
        self.settle(p);
        p.is_some()
    }

    /// Whether `f` holds of every member from the start on; the walk stops at
    /// the first one where it fails, where the cursor is left (else at the tail).
    pub fn all<F: Fn(usize, &T) -> bool>(&mut self, f: F) -> (r: bool)
        requires
            old(self).wf(),
            forall|i: usize, t: &T| #[trigger] f.requires((i, t)),
        ensures
            final(self).wf(),
            final(self).list() == old(self).list(),
            r ==> forall|j: int|
                old(self).start() <= j < old(self).list()@.len() ==> f.ensures(
                    (j as usize, &#[trigger] old(self).list()@[j]),
                    true,
                ),
            !r ==> exists|j: int|
                old(self).start() <= j < old(self).list()@.len() && f.ensures(
                    (j as usize, &#[trigger] old(self).list()@[j]),
                    false,
                ),
    {
        let p = self.scan(&f, false);
        self.settle(p);
        p.is_none()
    }

    /// The index of the first member from the start of which `f` holds; the
    /// cursor is left there (else at the tail).
    pub fn position<F: Fn(usize, &T) -> bool>(&mut self, f: F) -> (r: Option<usize>)
        requires
            old(self).wf(),
            forall|i: usize, t: &T| #[trigger] f.requires((i, t)),
        ensures
            final(self).wf(),
            final(self).list() == old(self).list(),
            match r {
                Some(p) => {
                    &&& old(self).start() <= p < old(self).list()@.len()
                    &&& f.ensures((p, &old(self).list()@[p as int]), true)
                    &&& forall|j: int|
                        old(self).start() <= j < p ==> f.ensures(
                            (j as usize, &#[trigger] old(self).list()@[j]),
                            false,
                        )
                    &&& final(self).pos() == Some(p as int)
                },
                None => forall|j: int|
                    old(self).start() <= j < old(self).list()@.len() ==> f.ensures(
                        (j as usize, &#[trigger] old(self).list()@[j]),
                        false,
                    ),
            },
    {
        let p = self.scan(&f, true);
        self.settle(p);
        p
    }

    /// The first member from the start of which `f` gives something, and what
    /// it gave; the cursor is left there (else at the tail).
    pub fn find<O, F: Fn(usize, &T) -> Option<O>>(&mut self, f: F) -> (r: Option<O>)
        requires
            old(self).wf(),
            forall|i: usize, t: &T| #[trigger] f.requires((i, t)),
        ensures
            final(self).wf(),
            final(self).list() == old(self).list(),
            match r {
                Some(o) => exists|p: int|
                    {
                        &&& old(self).start() <= p < old(self).list()@.len()
                        &&& f.ensures((p as usize, &#[trigger] old(self).list()@[p]), Some(o))
                        &&& forall|j: int|
                            old(self).start() <= j < p ==> f.ensures(
                                (j as usize, &#[trigger] old(self).list()@[j]),
                                None::<O>,
                            )
                    },
                None => forall|j: int|
                    old(self).start() <= j < old(self).list()@.len() ==> f.ensures(
                        (j as usize, &#[trigger] old(self).list()@[j]),
                        None::<O>,
                    ),
            },
    {
        proof {
            self.list.lemma_wf();
        }
        let len = self.list.len();
        let mut cur = match self.current {
            Some(p) => Some(p),
            None => self.list.head_node(),
        };
        let mut i: usize = self.index;
        let ghost start = self.start();
        while i < len
            invariant
                self.wf(),
                *self == *old(self),
                start == old(self).start(),
                len == self.list()@.len(),
                start <= i <= len,
                i < len ==> cur == Some(NodePtr(self.list().order()[i as int])),
                forall|i: usize, t: &T| #[trigger] f.requires((i, t)),
                forall|j: int| start <= j < i ==> f.ensures((j as usize, &#[trigger] self.list()@[j]), None::<O>),
            decreases len - i,
        {
            proof {
                self.list.lemma_wf();
            }
            let n = cur.unwrap().0;
            let v = self.list.value_ref(n);
            let o = f(i, v);
            if o.is_some() {
                self.seek(i);
                proof {
                    assert(f.ensures((i, &old(self).list()@[i as int]), o));
                }
                return o;
            }
            cur = self.list.next_node(n, Ghost(i as int));
            i = i + 1;
        }
        self.seek_tail();
        None
    }

    /// Calls `f` on each member from the start on, with its index; the cursor
    /// is left at the tail.
    pub fn for_each<F: Fn(usize, &T)>(&mut self, f: F)
        requires
            old(self).wf(),
            forall|i: usize, t: &T| #[trigger] f.requires((i, t)),
        ensures
            final(self).wf(),
            final(self).list() == old(self).list(),
    {
        proof {
            self.list.lemma_wf();
        }
        let len = self.list.len();
        let mut cur = match self.current {
            Some(p) => Some(p),
            None => self.list.head_node(),
        };
        let mut i: usize = self.index;
        while i < len
            invariant
                self.wf(),
                *self == *old(self),
                len == self.list()@.len(),
                i <= len,
                i < len ==> cur == Some(NodePtr(self.list().order()[i as int])),
                forall|i: usize, t: &T| #[trigger] f.requires((i, t)),
            decreases len - i,
        {
            proof {
                self.list.lemma_wf();
            }
            let n = cur.unwrap().0;
            let v = self.list.value_ref(n);
            f(i, v);
            cur = self.list.next_node(n, Ghost(i as int));
            i = i + 1;
        }
        self.seek_tail();
    }

    /// The first index of the whole list whose value `f` accepts next to
    /// `with`.
    fn scan_with<F: Fn(usize, &T, &T) -> bool>(&self, f: &F, with: &T) -> (r: Option<usize>)
        requires
            self.wf(),
            forall|i: usize, t: &T, u: &T| #[trigger] f.requires((i, t, u)),
        ensures
            match r {
                Some(p) => {
                    &&& p < self.list()@.len()
                    &&& f.ensures((p, &self.list()@[p as int], with), true)
                    &&& forall|j: int| 0 <= j < p ==> f.ensures((j as usize, &#[trigger] self.list()@[j], with), false)
                },
                None => forall|j: int|
                    0 <= j < self.list()@.len() ==> f.ensures((j as usize, &#[trigger] self.list()@[j], with), false),
            },
    {
        proof {
            self.list.lemma_wf();
        }
        let len = self.list.len();
        let mut cur = self.list.head_node();
        let mut i: usize = 0;
        while i < len
            invariant
                self.wf(),
                len == self.list()@.len(),
                i <= len,
                i < len ==> cur == Some(NodePtr(self.list().order()[i as int])),
                forall|i: usize, t: &T, u: &T| #[trigger] f.requires((i, t, u)),
                forall|j: int| 0 <= j < i ==> f.ensures((j as usize, &#[trigger] self.list()@[j], with), false),
            decreases len - i,
        {
            proof {
                self.list.lemma_wf();
            }
            let n = cur.unwrap().0;
            let v = self.list.value_ref(n);
            if f(i, v, with) {
                return Some(i);
            }
            cur = self.list.next_node(n, Ghost(i as int));
            i = i + 1;
        }
        None
    }

    /// Links the unlinked `item` before the first member that `f` accepts
    /// (`f(index, member, inserted)`), or at the head when there is none, and
    /// returns the index it was linked at.
    pub fn insert_before<F: Fn(usize, &T, &T) -> bool>(&mut self, item: &Item, f: F) -> (r: usize)
        requires
            old(self).wf(),
            old(self).list().owns(item),
            !old(self).list().order().contains(item.slot()),
            forall|i: usize, t: &T, u: &T| #[trigger] f.requires((i, t, u)),
        ensures
            final(self).wf(),
            final(self).list().order() == old(self).list().order().insert(r as int, item.slot()),
            final(self).list().same_slots(&old(self).list()),
            final(self).pos() == Some(r as int),
            ({
                let v = old(self).list()@;
                let w = old(self).list().value(item.slot() as int);
                ||| (r < v.len() && f.ensures((r, &v[r as int], &w), true) && forall|j: int|
                    0 <= j < r ==> f.ensures((j as usize, &#[trigger] v[j], &w), false))
                ||| (r == 0 && forall|j: int|
                    0 <= j < v.len() ==> f.ensures((j as usize, &#[trigger] v[j], &w), false))
            }),
    {
        proof {
            self.list.lemma_wf();
        }
        let pos = self.scan_with(&f, self.list.value_ref(item.slot_index()));
        match pos {
            Some(p) => {
                self.insert(p, item);
                p
            },
            None => {
                self.insert_head(item);
                0
            },
        }
    }

    /// Links the unlinked `item` after the first member that `f` accepts
    /// (`f(index, member, inserted)`), or at the tail when there is none, and
    /// returns the index it was linked at.
    pub fn insert_after<F: Fn(usize, &T, &T) -> bool>(&mut self, item: &Item, f: F) -> (r: usize)
        requires
            old(self).wf(),
            old(self).list().owns(item),
            !old(self).list().order().contains(item.slot()),
            forall|i: usize, t: &T, u: &T| #[trigger] f.requires((i, t, u)),
        ensures
            final(self).wf(),
            final(self).list().order() == old(self).list().order().insert(r as int, item.slot()),
            final(self).list().same_slots(&old(self).list()),
            final(self).pos() == Some(r as int),
            ({
                let v = old(self).list()@;
                let w = old(self).list().value(item.slot() as int);
                ||| (0 < r <= v.len() && f.ensures(((r - 1) as usize, &v[r - 1], &w), true) && forall|j: int|
                    0 <= j < r - 1 ==> f.ensures((j as usize, &#[trigger] v[j], &w), false))
                ||| (r == v.len() && forall|j: int|
                    0 <= j < v.len() ==> f.ensures((j as usize, &#[trigger] v[j], &w), false))
            }),
    {
        proof {
            self.list.lemma_wf();
        }
        let pos = self.scan_with(&f, self.list.value_ref(item.slot_index()));
        match pos {
            Some(p) => {
                self.insert(p + 1, item);
                p + 1
            },
            None => {
                let len = self.list.len();
                self.insert_tail(item);
                proof {
                    assert(old(self).list.order().insert(len as int, item.slot()) =~= old(self).list.order().push(item.slot()));
                }
                len
            },
        }
    }

    /// Walks from the start to the tail and unlinks each member whose value
    /// `f` rejects; `f` gets the member's index in the list as it stands when
    /// the member is visited. The cursor is left unset.
    #[verifier::rlimit(60)]
    pub fn retain<F: Fn(usize, &T) -> bool>(&mut self, f: F)
        requires
            old(self).wf(),
            forall|i: usize, t: &T| #[trigger] f.requires((i, t)),
        ensures
            final(self).wf(),
            final(self).list().same_slots(&old(self).list()),
            final(self).pos() is None,
            ({
                let st = old(self).start();
                let s = old(self).list().order();
                let v = old(self).list()@;
                exists|keep: Seq<bool>|
                    {
                        &&& keep.len() == s.len() - st
                        &&& final(self).list().order() == s.take(st) + kept(s.skip(st), keep)
                        &&& forall|j: int|
                            0 <= j < keep.len() ==> f.ensures(
                                ((st + count_kept(keep.take(j))) as usize, &v[st + j]),
                                #[trigger] keep[j],
                            )
                    }
            }),
    {
        proof {
            self.list.lemma_wf();
        }
        let ghost st = self.start();
        let ghost s = self.list.order();
        let ghost v = self.list@;
        let ghost old_list = self.list;
        let len = self.list.len();
        let mut cur = match self.current {
            Some(p) => Some(p),
            None => self.list.head_node(),
        };
        let mut i: usize = self.index;
        let start: usize = self.index;
        let mut j: usize = 0;
        let ghost mut keep: Seq<bool> = Seq::empty();
        proof {
            assert(s.skip(st).take(0) =~= Seq::<usize>::empty());
            assert(s =~= s.take(st) + kept(s.skip(st).take(0), keep) + s.skip(st));
        }
        while start + j < len
            invariant
                start == st,
                self.list.wf(),
                self.list.same_slots(&old_list),
                old_list.wf(),
                s == old_list.order(),
                v == old_list@,
                len == s.len(),
                0 <= st <= len,
                st + j <= len,
                keep.len() == j,
                i == st + count_kept(keep),
                self.list.order() == s.take(st) + kept(s.skip(st).take(j as int), keep) + s.skip(st + j),
                st + j < len ==> cur == Some(NodePtr(s[st + j])),
                forall|i: usize, t: &T| #[trigger] f.requires((i, t)),
                forall|k: int|
                    0 <= k < keep.len() ==> f.ensures(
                        ((st + count_kept(keep.take(k))) as usize, &v[st + k]),
                        #[trigger] keep[k],
                    ),
            decreases len - (st + j),
        {
            proof {
                old_list.lemma_wf();
                self.list.lemma_wf();
                lemma_kept_len(s.skip(st).take(j as int), keep);
                let a = s.take(st) + kept(s.skip(st).take(j as int), keep);
                assert(self.list.order()[i as int] == s[st + j]) by {
                    assert(a.len() == i);
                }
                assert(self.list.slot(s[st + j] as int) == old_list.slot(s[st + j] as int));
            }
            let n = cur.unwrap().0;
            let next = self.list.next_node(n, Ghost(i as int));
            let b = f(i, self.list.value_ref(n));
            let ghost before = self.list.order();
            if !b {
                self.list.unlink_slot(n);
                proof {
                    before.index_of_first_ensures(n);
                    assert(before.remove_value(n) == before.remove(i as int));
                }
            } else {
                i = i + 1;
            }
            proof {
                let x = s.skip(st).take(j + 1);
                let nk = keep.push(b);
                assert(x.drop_last() =~= s.skip(st).take(j as int));
                assert(nk.drop_last() =~= keep);
                assert(x.last() == s[st + j]);
                assert(nk.take(j as int) =~= keep);
                assert forall|k: int| 0 <= k < j implies nk.take(k) =~= keep.take(k) by {}
                let a = s.take(st) + kept(s.skip(st).take(j as int), keep);
                lemma_kept_len(s.skip(st).take(j as int), keep);
                assert(s.skip(st + j + 1) =~= s.skip(st + j).skip(1));
                if b {
                    assert(self.list.order() =~= s.take(st) + kept(x, nk) + s.skip(st + j + 1));
                } else {
                    assert(self.list.order() =~= s.take(st) + kept(x, nk) + s.skip(st + j + 1));
                }
                keep = nk;
            }
            cur = next;
            j = j + 1;
        }
        self.current = None;
        self.index = 0;
        proof {
            assert(s.skip(st).take(j as int) =~= s.skip(st));
            assert(s.skip(st + j) =~= Seq::<usize>::empty());
            assert(self.list.order() =~= s.take(st) + kept(s.skip(st), keep));
        }
    }

    /// Folds `f` over the members from the start on, with their indices; the
    /// cursor is left at the tail.
    pub fn fold<A, F: Fn(A, usize, &T) -> A>(&mut self, init: A, f: F) -> (r: A)
        requires
            old(self).wf(),
            forall|a: A, i: usize, t: &T| #[trigger] f.requires((a, i, t)),
        ensures
            final(self).wf(),
            final(self).list() == old(self).list(),
            ({
                let st = old(self).start();
                let v = old(self).list()@;
                exists|acc: Seq<A>|
                    {
                        &&& acc.len() == v.len() - st + 1
                        &&& acc[0] == init
                        &&& acc.last() == r
                        &&& forall|j: int|
                            0 <= j < v.len() - st ==> f.ensures(
                                (#[trigger] acc[j], (st + j) as usize, &v[st + j]),
                                acc[j + 1],
                            )
                    }
            }),
    {
        proof {
            self.list.lemma_wf();
        }
        let len = self.list.len();
        let mut cur = match self.current {
            Some(p) => Some(p),
            None => self.list.head_node(),
        };
        let mut i: usize = self.index;
        let ghost st = self.start();
        let ghost v = self.list@;
        let mut a = init;
        let ghost mut acc: Seq<A> = seq![a];
        while i < len
            invariant
                self.wf(),
                *self == *old(self),
                st == old(self).start(),
                v == self.list()@,
                len == v.len(),
                st <= i <= len,
                i < len ==> cur == Some(NodePtr(self.list().order()[i as int])),
                forall|a: A, i: usize, t: &T| #[trigger] f.requires((a, i, t)),
                acc.len() == i - st + 1,
                acc[0] == init,
                acc.last() == a,
                forall|j: int| 0 <= j < i - st ==> f.ensures((#[trigger] acc[j], (st + j) as usize, &v[st + j]), acc[j + 1]),
            decreases len - i,
        {
            proof {
                self.list.lemma_wf();
            }
            let n = cur.unwrap().0;
            let ghost before = a;
            a = f(a, i, self.list.value_ref(n));
            proof {
                let old_acc = acc;
                acc = acc.push(a);
                assert forall|j: int| 0 <= j < i + 1 - st implies f.ensures((#[trigger] acc[j], (st + j) as usize, &v[st + j]), acc[j + 1]) by {
                    if j < i - st {
                        assert(acc[j] == old_acc[j] && acc[j + 1] == old_acc[j + 1]);
                    } else {
                        assert(acc[j] == before);
                    }
                }
            }
            cur = self.list.next_node(n, Ghost(i as int));
            i = i + 1;
        }
        self.seek_tail();
        a
    }

    /// Folds `f` over the members from the start on until it fails; the
    /// first failure is returned. The cursor is left at the tail.
    pub fn try_fold<A, E, F: Fn(A, usize, &T) -> Result<A, E>>(&mut self, init: A, f: F) -> (r: Result<A, E>)
        requires
            old(self).wf(),
            forall|a: A, i: usize, t: &T| #[trigger] f.requires((a, i, t)),
        ensures
            final(self).wf(),
            final(self).list() == old(self).list(),
            ({
                let st = old(self).start();
                let v = old(self).list()@;
                exists|acc: Seq<A>|
                    {
                        &&& 1 <= acc.len() <= v.len() - st + 1
                        &&& acc[0] == init
                        &&& forall|j: int|
                            0 <= j < acc.len() - 1 ==> f.ensures(
                                (#[trigger] acc[j], (st + j) as usize, &v[st + j]),
                                Ok::<A, E>(acc[j + 1]),
                            )
                        &&& match r {
                            Ok(a) => acc.len() == v.len() - st + 1 && a == acc.last(),
                            Err(e) => acc.len() <= v.len() - st && f.ensures(
                                (acc.last(), (st + acc.len() - 1) as usize, &v[st + acc.len() - 1]),
                                Err::<A, E>(e),
                            ),
                        }
                    }
            }),
    {
        proof {
            self.list.lemma_wf();
        }
        let len = self.list.len();
        let mut cur = match self.current {
            Some(p) => Some(p),
            None => self.list.head_node(),
        };
        let mut i: usize = self.index;
        let ghost st = self.start();
        let ghost v = self.list@;
        let mut a = init;
        let ghost mut acc: Seq<A> = seq![a];
        while i < len
            invariant
                self.wf(),
                *self == *old(self),
                st == old(self).start(),
                v == self.list()@,
                len == v.len(),
                st <= i <= len,
                i < len ==> cur == Some(NodePtr(self.list().order()[i as int])),
                forall|a: A, i: usize, t: &T| #[trigger] f.requires((a, i, t)),
                acc.len() == i - st + 1,
                acc[0] == init,
                acc.last() == a,
                forall|j: int| 0 <= j < i - st ==> f.ensures((#[trigger] acc[j], (st + j) as usize, &v[st + j]), Ok::<A, E>(acc[j + 1])),
            decreases len - i,
        {
            proof {
                self.list.lemma_wf();
            }
            let n = cur.unwrap().0;
            let ghost before = a;
            match f(a, i, self.list.value_ref(n)) {
                Ok(next) => {
                    a = next;
                },
                Err(e) => {
                    self.seek_tail();
                    return Err(e);
                },
            }
            proof {
                let old_acc = acc;
                acc = acc.push(a);
                assert forall|j: int| 0 <= j < i + 1 - st implies f.ensures((#[trigger] acc[j], (st + j) as usize, &v[st + j]), Ok::<A, E>(acc[j + 1])) by {
                    if j < i - st {
                        assert(acc[j] == old_acc[j] && acc[j + 1] == old_acc[j + 1]);
                    } else {
                        assert(acc[j] == before);
                    }
                }
            }
            cur = self.list.next_node(n, Ghost(i as int));
            i = i + 1;
        }
        self.seek_tail();
        Ok(a)
    }

    /// Calls `f` on the members from the start on until it fails; the first
    /// failure is returned. The cursor is left at the tail.
    pub fn try_for_each<E, F: Fn(usize, &T) -> Result<(), E>>(&mut self, f: F) -> (r: Result<(), E>)
        requires
            old(self).wf(),
            forall|i: usize, t: &T| #[trigger] f.requires((i, t)),
        ensures
            final(self).wf(),
            final(self).list() == old(self).list(),
            match r {
                Ok(()) => forall|j: int|
                    old(self).start() <= j < old(self).list()@.len() ==> f.ensures(
                        (j as usize, &#[trigger] old(self).list()@[j]),
                        Ok::<(), E>(()),
                    ),
                Err(e) => exists|p: int|
                    {
                        &&& old(self).start() <= p < old(self).list()@.len()
                        &&& f.ensures((p as usize, &#[trigger] old(self).list()@[p]), Err::<(), E>(e))
                        &&& forall|j: int|
                            old(self).start() <= j < p ==> f.ensures(
                                (j as usize, &#[trigger] old(self).list()@[j]),
                                Ok::<(), E>(()),
                            )
                    },
            },
    {
        proof {
            self.list.lemma_wf();
        }
        let len = self.list.len();
        let mut cur = match self.current {
            Some(p) => Some(p),
            None => self.list.head_node(),
        };
        let mut i: usize = self.index;
        let ghost start = self.start();
        while i < len
            invariant
                self.wf(),
                *self == *old(self),
                start == old(self).start(),
                len == self.list()@.len(),
                start <= i <= len,
                i < len ==> cur == Some(NodePtr(self.list().order()[i as int])),
                forall|i: usize, t: &T| #[trigger] f.requires((i, t)),
                forall|j: int| start <= j < i ==> f.ensures((j as usize, &#[trigger] self.list()@[j]), Ok::<(), E>(())),
            decreases len - i,
        {
            proof {
                self.list.lemma_wf();
            }
            let n = cur.unwrap().0;
            let r = f(i, self.list.value_ref(n));
            let ghost rr = r;
            match r {
                Ok(_) => {
                    proof {
                        assert(rr is Ok);
                        let u: () = rr->Ok_0;
                        assert(u == ());
                        assert(rr == Ok::<(), E>(u));
                    }
                },
                Err(e) => {
                    self.seek_tail();
                    proof {
                        assert(f.ensures((i, &old(self).list()@[i as int]), Err::<(), E>(e)));
                    }
                    return Err(e);
                },
            }
            cur = self.list.next_node(n, Ghost(i as int));
            i = i + 1;
        }
        self.seek_tail();
        Ok(())
    }

    /// Puts `value` at the position and returns the value it replaced; an
    /// unset position hands `value` back.
    pub fn replace(&mut self, value: T) -> (r: Result<T, T>)
        requires
            old(self).wf(),
        ensures
            final(self).wf(),
            final(self).pos() == old(self).pos(),
            final(self).list().order() == old(self).list().order(),
            match old(self).pos() {
                Some(i) => r == Ok::<T, T>(old(self).list()@[i]) && final(self).list()@ == old(
                    self,
                ).list()@.update(i, value),
                None => r == Err::<T, T>(value) && final(self).list() == old(self).list(),
            },
    {
        proof {
            self.list.lemma_wf();
        }
        match self.current {
            Some(p) => {
                let r = self.list.replace_value(p.0, value);
                proof {
                    let i = self.index as int;
                    self.list.lemma_wf();
                    self.list.lemma_view();
                    old(self).list.lemma_view();
                    let w = old(self).list@.update(i, value);
                    assert forall|j: int| 0 <= j < w.len() implies #[trigger] self.list@[j] == w[j] by {
                        if j != i {
                            assert(self.list.order()[j] != p.0);
                        }
                    }
                    assert(self.list@ =~= w);
                }
                Ok(r)
            },
            None => Err(value),
        }
    }

    /// The cheapest way to reach `index`, which lies strictly inside the list
    /// and differs from a set position.
    fn min_seek(&self, index: usize) -> (r: SeekFrom)
        requires
            self.wf(),
            0 < index < self.list()@.len(),
            self.pos() != Some(index as int),
        ensures
            r == SeekFrom::Head(index) || r == SeekFrom::Tail((self.list()@.len() - 1 - index) as usize)
                || (self.pos() is Some && self.start() < index && r == SeekFrom::Forward(
                (index - self.start()) as usize,
            )) || (self.pos() is Some && self.start() > index && r == SeekFrom::Backward(
                (self.start() - index) as usize,
            )),
            r.cost() <= index,
            r.cost() <= self.list()@.len() - 1 - index,
            self.pos() is Some ==> r.cost() <= if self.start() < index {
                index - self.start()
            } else {
                self.start() - index
            },
    {
        proof {
            self.list.lemma_wf();
        }
        let len = self.list.len();
        let mut ways: Vec<SeekFrom> = Vec::new();
        if self.current.is_some() {
            if self.index < index {
                ways.push(SeekFrom::Forward(index - self.index));
            } else {
                ways.push(SeekFrom::Backward(self.index - index));
            }
        }
        ways.push(SeekFrom::Head(index));
        ways.push(SeekFrom::Tail(len - 1 - index));
        let ghost w = ways@;
        let m = SeekFrom::find_min(&ways);
        proof {
            let last = w.len() - 1;
            assert(w[last] == SeekFrom::Tail((len - 1 - index) as usize));
            assert(w[last - 1] == SeekFrom::Head(index));
            let _ = w[last];
            let _ = w[last - 1];
            if self.current.is_some() {
                let _ = w[0];
            }
        }
        m.unwrap()
    }

    /// Moves to `index`, or to the tail when `index` is past it, taking the
    /// cheapest of three walks: from the position, from the head, or back
    /// from the tail.
    pub fn seek(&mut self, index: usize)
        requires
            old(self).wf(),
        ensures
            final(self).wf(),
            final(self).list() == old(self).list(),
            final(self).pos() == if old(self).list()@.len() == 0 {
                None
            } else if index < old(self).list()@.len() {
                Some(index as int)
            } else {
                Some(old(self).list()@.len() - 1)
            },
    {
        proof {
            self.list.lemma_wf();
        }
        let len = self.list.len();
        if index == 0 {
            self.seek_head();
            return ;
        }
        if index >= len {
            self.seek_tail();
            return ;
        }
        if self.current.is_some() && self.index == index {
            return ;
        }
        let way = self.min_seek(index);
        let (steps, forward) = match way {
            SeekFrom::Head(v) => {
                self.seek_head();
                (v, true)
            },
            SeekFrom::Tail(v) => {
                self.seek_tail();
                (v, false)
            },
            SeekFrom::Forward(v) => (v, true),
            SeekFrom::Backward(v) => (v, false),
        };
        let ghost list = self.list;
        let mut k: usize = 0;
        while k < steps
            invariant
                self.wf(),
                self.list() == list,
                list@.len() == len,
                0 < index < len,
                k <= steps,
                self.pos() is Some,
                forward ==> self.start() + (steps - k) == index,
                !forward ==> self.start() - (steps - k) == index,
            decreases steps - k,
        {
            if forward {
                self.seek_next();
            } else {
                self.seek_prev();
            }
            k = k + 1;
        }
    }
}

} // verus!
