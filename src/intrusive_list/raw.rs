//! The list bookkeeping: length, head, tail and the table of node links.
use vstd::prelude::*;

use super::node::{Node, NodeLink, NodeLinks, NodePtr};

verus! {

/// The link that the member at position `i` of `order` must hold to its
/// predecessor.
pub open spec fn link_before(order: Seq<usize>, i: int) -> NodeLink {
    if i == 0 {
        NodeLink::End
    } else {
        NodeLink::Ptr(NodePtr(order[i - 1]))
    }
}

/// The link that the member at position `i` of `order` must hold to its
/// successor.
pub open spec fn link_after(order: Seq<usize>, i: int) -> NodeLink {
    if i == order.len() - 1 {
        NodeLink::End
    } else {
        NodeLink::Ptr(NodePtr(order[i + 1]))
    }
}

/// The slot indices below `n` form a finite set of `n` elements.
pub proof fn lemma_slot_set_finite(n: nat)
    ensures
        Set::new(|x: usize| (x as int) < n).finite(),
        Set::new(|x: usize| (x as int) < n).len() <= n,
    decreases n,
{
    let s = Set::new(|x: usize| (x as int) < n);
    if n == 0 {
        assert(s =~= Set::empty());
    } else {
        lemma_slot_set_finite((n - 1) as nat);
        let t = Set::new(|x: usize| (x as int) < n - 1);
        if n - 1 <= usize::MAX {
            assert(s =~= t.insert((n - 1) as usize));
        } else {
            assert(s =~= t);
        }
    }
}

/// The list's own record (length, head, tail) over a table of node links.
///
/// Its view is the sequence of the slots that are linked, from head to tail.
pub struct RawIntrusiveList {
    len: usize,
    head: Option<NodePtr>,
    tail: Option<NodePtr>,
    nodes: Vec<Node>,
    order: Ghost<Seq<usize>>,
}

impl View for RawIntrusiveList {
    type V = Seq<usize>;

    closed spec fn view(&self) -> Seq<usize> {
        self.order@
    }
}

impl RawIntrusiveList {
    /// The number of slots in the table.
    pub closed spec fn slots(&self) -> nat {
        self.nodes@.len()
    }

    /// The links stored in slot `n`.
    pub closed spec fn node(&self, n: int) -> Node {
        self.nodes@[n]
    }

    /// The linked nodes form one chain from head to tail whose links agree
    /// with the order, and every other node is unlinked.
    pub closed spec fn wf(&self) -> bool {
        let order = self.order@;
        &&& self.len == order.len()
        &&& self.nodes@.len() < usize::MAX
        &&& order.no_duplicates()
        &&& forall|i: int| 0 <= i < order.len() ==> (#[trigger] order[i] as int) < self.nodes@.len()
        &&& self.head == if order.len() == 0 {
            None
        } else {
            Some(NodePtr(order[0]))
        }
        &&& self.tail == if order.len() == 0 {
            None
        } else {
            Some(NodePtr(order[order.len() - 1]))
        }
        &&& forall|i: int|
            0 <= i < order.len() ==> {
                &&& (#[trigger] self.nodes@[order[i] as int]).prev_link() == link_before(order, i)
                &&& self.nodes@[order[i] as int].next_link() == link_after(order, i)
            }
        &&& forall|n: int|
            0 <= n < self.nodes@.len() && !order.contains(n as usize) ==> {
                &&& (#[trigger] self.nodes@[n]).prev_link() == NodeLink::Unlinked
                &&& self.nodes@[n].next_link() == NodeLink::Unlinked
            }
    }

    /// The link state of a member follows from its position.
    pub proof fn lemma_links_of_member(&self, i: int)
        requires
            self.wf(),
            0 <= i < self@.len(),
        ensures
            (self@[i] as int) < self.slots(),
            self.node(self@[i] as int).prev_link() == link_before(self@, i),
            self.node(self@[i] as int).next_link() == link_after(self@, i),
            self@.len() == 1 ==> self.node(self@[i] as int).links() == NodeLinks::Single,
            self@.len() > 1 && i == 0 ==> self.node(self@[i] as int).links() == (NodeLinks::Head {
                next: NodePtr(self@[1]),
            }),
            self@.len() > 1 && i == self@.len() - 1 ==> self.node(self@[i] as int).links() == (
            NodeLinks::Tail { prev: NodePtr(self@[i - 1]) }),
            0 < i < self@.len() - 1 ==> self.node(self@[i] as int).links() == (NodeLinks::Full {
                prev: NodePtr(self@[i - 1]),
                next: NodePtr(self@[i + 1]),
            }),
    {
        let _ = self.nodes@[self.order@[i] as int];
    }

    /// A slot outside the order is unlinked.
    pub proof fn lemma_links_of_other(&self, n: usize)
        requires
            self.wf(),
            (n as int) < self.slots(),
            !self@.contains(n),
        ensures
            self.node(n as int).prev_link() == NodeLink::Unlinked,
            self.node(n as int).next_link() == NodeLink::Unlinked,
            self.node(n as int).links() == NodeLinks::Unlinked,
    {
        let _ = self.nodes@[n as int];
    }

    /// The number of members is bounded by the table size.
    pub proof fn lemma_len_bound(&self)
        requires
            self.wf(),
        ensures
            self@.len() <= self.slots(),
            self.slots() < usize::MAX,
            self@.no_duplicates(),
            forall|i: int| 0 <= i < self@.len() ==> (#[trigger] self@[i] as int) < self.slots(),
    {
        let s = self.order@;
        let slots = Set::new(|x: usize| (x as int) < self.nodes@.len());
        s.unique_seq_to_set();
        assert(s.to_set().subset_of(slots));
        lemma_slot_set_finite(self.nodes@.len());
        vstd::set_lib::lemma_len_subset(s.to_set(), slots);
    }

    /// An empty list over an empty table.
    pub fn new() -> (r: RawIntrusiveList)
        ensures
            r.wf(),
            r@ == Seq::<usize>::empty(),
            r.slots() == 0,
    {
        RawIntrusiveList {
            len: 0,
            head: None,
            tail: None,
            nodes: Vec::new(),
            order: Ghost(Seq::empty()),
        }
    }

    /// Adds an unlinked node to the table and returns its slot.
    pub fn add_node(&mut self) -> (r: usize)
        requires
            old(self).wf(),
            old(self).slots() + 1 < usize::MAX,
        ensures
            final(self).wf(),
            final(self)@ == old(self)@,
            r == old(self).slots(),
            final(self).slots() == old(self).slots() + 1,
            forall|n: int| 0 <= n < old(self).slots() ==> final(self).node(n) == old(self).node(n),
    {
        let r = self.nodes.len();
        self.nodes.push(Node::new());
        proof {
            assert forall|n: int|
                0 <= n < self.nodes@.len() && !self.order@.contains(
                    n as usize,
                ) implies #[trigger] self.nodes@[n].prev_link() == NodeLink::Unlinked
                && self.nodes@[n].next_link() == NodeLink::Unlinked by {
                if n < r {
                    let _ = old(self).nodes@[n];
                }
            }
            assert forall|i: int| 0 <= i < self.order@.len() implies {
                &&& (#[trigger] self.nodes@[self.order@[i] as int]).prev_link() == link_before(
                    self.order@,
                    i,
                )
                &&& self.nodes@[self.order@[i] as int].next_link() == link_after(self.order@, i)
            } by {
                let _ = old(self).nodes@[old(self).order@[i] as int];
            }
        }
        r
    }

    pub fn is_empty(&self) -> (r: bool)
        requires
            self.wf(),
        ensures
            r == (self@.len() == 0),
    {
        self.len() == 0
    }

    pub fn len(&self) -> (r: usize)
        requires
            self.wf(),
        ensures
            r == self@.len(),
    {
        if self.head.is_some() && self.tail.is_some() {
            self.len
        } else {
            0
        }
    }

    /// The first member.
    pub fn head(&self) -> (r: Option<NodePtr>)
        requires
            self.wf(),
        ensures
            r == if self@.len() == 0 {
                None
            } else {
                Some(NodePtr(self@[0]))
            },
    {
        self.head
    }

    /// The last member.
    pub fn tail(&self) -> (r: Option<NodePtr>)
        requires
            self.wf(),
        ensures
            r == if self@.len() == 0 {
                None
            } else {
                Some(NodePtr(self@[self@.len() - 1]))
            },
    {
        self.tail
    }

    /// The link state of the node in slot `n`.
    pub fn links(&self, n: usize) -> (r: NodeLinks)
        requires
            (n as int) < self.slots(),
        ensures
            r == self.node(n as int).links(),
    {
        self.nodes[n].as_links()
    }

    /// Whether the node in slot `n` is a member.
    pub fn is_linked(&self, n: usize) -> (r: bool)
        requires
            self.wf(),
            (n as int) < self.slots(),
        ensures
            r == self@.contains(n),
    {
        proof {
            if self@.contains(n) {
                let i = choose|i: int| 0 <= i < self@.len() && self@[i] == n;
                self.lemma_links_of_member(i);
            } else {
                self.lemma_links_of_other(n);
            }
        }
        match self.nodes[n].prev() {
            NodeLink::Unlinked => false,
            _ => true,
        }
    }

    /// The successor of the node in slot `n`.
    pub fn next_of(&self, n: usize) -> (r: NodeLink)
        requires
            (n as int) < self.slots(),
        ensures
            r == self.node(n as int).next_link(),
    {
        self.nodes[n].next()
    }

    /// The predecessor of the node in slot `n`.
    pub fn prev_of(&self, n: usize) -> (r: NodeLink)
        requires
            (n as int) < self.slots(),
        ensures
            r == self.node(n as int).prev_link(),
    {
        self.nodes[n].prev()
    }


    /// Inserts the unlinked node `n` at the head.
    pub fn insert_head(&mut self, n: usize)
        requires
            old(self).wf(),
            (n as int) < old(self).slots(),
            !old(self)@.contains(n),
        ensures
            final(self).wf(),
            final(self)@ == seq![n] + old(self)@,
            final(self).slots() == old(self).slots(),
    {
        let ghost s = self.order@;
        let ghost old_nodes = self.nodes@;
        proof {
            self.lemma_links_of_other(n);
            self.lemma_len_bound();
        }
        match self.head {
            Some(h) => {
                proof {
                    self.lemma_links_of_member(0);
                }
                self.set_next(n, NodeLink::Ptr(h));
                self.set_prev(n, NodeLink::End);
                self.set_prev(h.0, NodeLink::Ptr(NodePtr(n)));
                self.head = Some(NodePtr(n));
            },
            None => {
                self.set_next(n, NodeLink::End);
                self.set_prev(n, NodeLink::End);
                self.head = Some(NodePtr(n));
                self.tail = Some(NodePtr(n));
            },
        }
        self.len = self.len + 1;
        self.order = Ghost(seq![n] + s);
        proof {
            let t = self.order@;
            assert(t.no_duplicates()) by {
                assert forall|i: int, j: int| 0 <= i < t.len() && 0 <= j < t.len() && i != j implies t[i] != t[j] by {
                    if i > 0 && j > 0 {
                        assert(t[i] == s[i - 1] && t[j] == s[j - 1]);
                    } else if i == 0 {
                        assert(s[j - 1] == t[j]);
                    } else {
                        assert(s[i - 1] == t[i]);
                    }
                }
            }
            assert forall|i: int| 0 <= i < t.len() implies (#[trigger] t[i] as int) < self.nodes@.len() by {
                if i > 0 {
                    assert(t[i] == s[i - 1]);
                }
            }
            assert forall|i: int| 0 <= i < t.len() implies {
                &&& (#[trigger] self.nodes@[t[i] as int]).prev_link() == link_before(t, i)
                &&& self.nodes@[t[i] as int].next_link() == link_after(t, i)
            } by {
                if i > 1 {
                    assert(t[i] == s[i - 1]);
                    assert(s[i - 1] != s[0]);
                    assert(self.nodes@[t[i] as int] == old_nodes[s[i - 1] as int]);
                    let _ = old_nodes[s[i - 1] as int];
                }
                if i == 1 {
                    let _ = old_nodes[s[0] as int];
                }
            }
            assert forall|m: int| 0 <= m < self.nodes@.len() && !t.contains(m as usize) implies {
                &&& (#[trigger] self.nodes@[m]).prev_link() == NodeLink::Unlinked
                &&& self.nodes@[m].next_link() == NodeLink::Unlinked
            } by {
                assert(t[0] == n);
                if s.contains(m as usize) {
                    let j = choose|j: int| 0 <= j < s.len() && s[j] == m as usize;
                    assert(t[j + 1] == s[j]);
                }
                if s.len() > 0 {
                    assert(t[1] == s[0]);
                }
                let _ = old_nodes[m];
            }
        }
    }

    /// Inserts the unlinked node `n` at the tail.
    pub fn insert_tail(&mut self, n: usize)
        requires
            old(self).wf(),
            (n as int) < old(self).slots(),
            !old(self)@.contains(n),
        ensures
            final(self).wf(),
            final(self)@ == old(self)@.push(n),
            final(self).slots() == old(self).slots(),
    {
        let ghost s = self.order@;
        let ghost old_nodes = self.nodes@;
        proof {
            self.lemma_links_of_other(n);
            self.lemma_len_bound();
        }
        match self.tail {
            Some(l) => {
                proof {
                    self.lemma_links_of_member(s.len() - 1);
                }
                self.set_prev(n, NodeLink::Ptr(l));
                self.set_next(n, NodeLink::End);
                self.set_next(l.0, NodeLink::Ptr(NodePtr(n)));
                self.tail = Some(NodePtr(n));
            },
            None => {
                self.set_next(n, NodeLink::End);
                self.set_prev(n, NodeLink::End);
                self.head = Some(NodePtr(n));
                self.tail = Some(NodePtr(n));
            },
        }
        self.len = self.len + 1;
        self.order = Ghost(s.push(n));
        proof {
            let t = self.order@;
            let len = s.len() as int;
            assert(t.no_duplicates()) by {
                assert forall|i: int, j: int| 0 <= i < t.len() && 0 <= j < t.len() && i != j implies t[i] != t[j] by {
                    if i < len && j < len {
                        assert(t[i] == s[i] && t[j] == s[j]);
                    } else if i == len {
                        assert(s[j] == t[j]);
                    } else {
                        assert(s[i] == t[i]);
                    }
                }
            }
            assert forall|i: int| 0 <= i < t.len() implies (#[trigger] t[i] as int) < self.nodes@.len() by {
                if i < len {
                    assert(t[i] == s[i]);
                }
            }
            assert forall|i: int| 0 <= i < t.len() implies {
                &&& (#[trigger] self.nodes@[t[i] as int]).prev_link() == link_before(t, i)
                &&& self.nodes@[t[i] as int].next_link() == link_after(t, i)
            } by {
                if i < len - 1 {
                    assert(t[i] == s[i]);
                    assert(s[i] != s[len - 1]);
                    assert(self.nodes@[t[i] as int] == old_nodes[s[i] as int]);
                    let _ = old_nodes[s[i] as int];
                    if i > 0 {
                        assert(t[i - 1] == s[i - 1]);
                    }
                    assert(t[i + 1] == s[i + 1]);
                }
                if i == len - 1 {
                    let _ = old_nodes[s[i] as int];
                    if i > 0 {
                        assert(t[i - 1] == s[i - 1]);
                    }
                }
            }
            assert forall|m: int| 0 <= m < self.nodes@.len() && !t.contains(m as usize) implies {
                &&& (#[trigger] self.nodes@[m]).prev_link() == NodeLink::Unlinked
                &&& self.nodes@[m].next_link() == NodeLink::Unlinked
            } by {
                assert(t[len] == n);
                if s.contains(m as usize) {
                    let j = choose|j: int| 0 <= j < s.len() && s[j] == m as usize;
                    assert(t[j] == s[j]);
                }
                if s.len() > 0 {
                    assert(t[len - 1] == s[len - 1]);
                }
                let _ = old_nodes[m];
            }
        }
    }

    /// Inserts the unlinked node `n` between the adjacent members `prev`, at
    /// position `k`, and `next`.
    pub fn insert_between(&mut self, prev: usize, n: usize, next: usize, Ghost(k): Ghost<int>)
        requires
            old(self).wf(),
            (n as int) < old(self).slots(),
            !old(self)@.contains(n),
            0 <= k && k + 1 < old(self)@.len(),
            old(self)@[k] == prev,
            old(self)@[k + 1] == next,
        ensures
            final(self).wf(),
            final(self)@ == old(self)@.insert(k + 1, n),
            final(self).slots() == old(self).slots(),
    {
        let ghost s = self.order@;
        let ghost old_nodes = self.nodes@;
        proof {
            self.lemma_links_of_other(n);
            self.lemma_len_bound();
            self.lemma_links_of_member(k);
            self.lemma_links_of_member(k + 1);
        }
        self.set_prev(n, NodeLink::Ptr(NodePtr(prev)));
        self.set_next(n, NodeLink::Ptr(NodePtr(next)));
        self.set_next(prev, NodeLink::Ptr(NodePtr(n)));
        self.set_prev(next, NodeLink::Ptr(NodePtr(n)));
        self.len = self.len + 1;
        self.order = Ghost(s.insert(k + 1, n));
        proof {
            let t = self.order@;
            let len = s.len() as int;
            assert forall|i: int| 0 <= i < t.len() && i != k + 1 implies #[trigger] t[i] == if i <= k {
                s[i]
            } else {
                s[i - 1]
            } by {}
            assert(t[k + 1] == n);
            assert(t.no_duplicates()) by {
                assert forall|i: int, j: int| 0 <= i < t.len() && 0 <= j < t.len() && i != j implies t[i] != t[j] by {
                    if i != k + 1 && j != k + 1 {
                        let i2 = if i <= k { i } else { i - 1 };
                        let j2 = if j <= k { j } else { j - 1 };
                        assert(t[i] == s[i2] && t[j] == s[j2]);
                    } else if i == k + 1 {
                        let j2 = if j <= k { j } else { j - 1 };
                        assert(t[j] == s[j2]);
                    } else {
                        let i2 = if i <= k { i } else { i - 1 };
                        assert(t[i] == s[i2]);
                    }
                }
            }
            assert forall|i: int| 0 <= i < t.len() implies (#[trigger] t[i] as int) < self.nodes@.len() by {
                if i != k + 1 {
                    let i2 = if i <= k { i } else { i - 1 };
                    assert(t[i] == s[i2]);
                }
            }
            assert forall|i: int| 0 <= i < t.len() implies {
                &&& (#[trigger] self.nodes@[t[i] as int]).prev_link() == link_before(t, i)
                &&& self.nodes@[t[i] as int].next_link() == link_after(t, i)
            } by {
                if i != k + 1 {
                    let i2 = if i <= k { i } else { i - 1 };
                    assert(t[i] == s[i2]);
                    let _ = old_nodes[s[i2] as int];
                    if i > 0 && i - 1 != k + 1 {
                        let j2 = if i - 1 <= k { i - 1 } else { i - 2 };
                        assert(t[i - 1] == s[j2]);
                    }
                    if i < t.len() - 1 && i + 1 != k + 1 {
                        let j2 = if i + 1 <= k { i + 1 } else { i };
                        assert(t[i + 1] == s[j2]);
                    }
                    if i2 != k {
                        assert(s[i2] != s[k]);
                    }
                    if i2 != k + 1 {
                        assert(s[i2] != s[k + 1]);
                    }
                } else {
                    assert(t[k] == s[k]);
                    assert(t[k + 2] == s[k + 1]);
                }
            }
            assert forall|m: int| 0 <= m < self.nodes@.len() && !t.contains(m as usize) implies {
                &&& (#[trigger] self.nodes@[m]).prev_link() == NodeLink::Unlinked
                &&& self.nodes@[m].next_link() == NodeLink::Unlinked
            } by {
                if s.contains(m as usize) {
                    let j = choose|j: int| 0 <= j < s.len() && s[j] == m as usize;
                    let j2 = if j <= k { j } else { j + 1 };
                    assert(t[j2] == s[j]);
                }
                assert(t[k] == s[k]);
                assert(t[k + 2] == s[k + 1]);
                let _ = old_nodes[m];
            }
        }
    }

    /// Inserts the unlinked node `n` right after the member `at`, which stands
    /// at position `k`.
    pub fn insert_after(&mut self, at: usize, n: usize, Ghost(k): Ghost<int>)
        requires
            old(self).wf(),
            (n as int) < old(self).slots(),
            !old(self)@.contains(n),
            0 <= k < old(self)@.len(),
            old(self)@[k] == at,
        ensures
            final(self).wf(),
            final(self)@ == old(self)@.insert(k + 1, n),
            final(self).slots() == old(self).slots(),
    {
        proof {
            self.lemma_links_of_member(k);
        }
        match self.nodes[at].next() {
            NodeLink::Ptr(next) => {
                self.insert_between(at, n, next.0, Ghost(k));
            },
            _ => {
                self.insert_tail(n);
                proof {
                    assert(old(self)@.push(n) =~= old(self)@.insert(k + 1, n));
                }
            },
        }
    }

    /// Inserts the unlinked node `n` right before the member `at`, which
    /// stands at position `k`.
    pub fn insert_before(&mut self, at: usize, n: usize, Ghost(k): Ghost<int>)
        requires
            old(self).wf(),
            (n as int) < old(self).slots(),
            !old(self)@.contains(n),
            0 <= k < old(self)@.len(),
            old(self)@[k] == at,
        ensures
            final(self).wf(),
            final(self)@ == old(self)@.insert(k, n),
            final(self).slots() == old(self).slots(),
    {
        proof {
            self.lemma_links_of_member(k);
        }
        match self.nodes[at].prev() {
            NodeLink::Ptr(prev) => {
                self.insert_between(prev.0, n, at, Ghost(k - 1));
            },
            _ => {
                self.insert_head(n);
                proof {
                    assert(seq![n] + old(self)@ =~= old(self)@.insert(k, n));
                }
            },
        }
    }

    /// Unlinks the node `n` and stitches its neighbours together; a node that
    /// is not a member is left as it is.
    pub fn remove(&mut self, n: usize)
        requires
            old(self).wf(),
            (n as int) < old(self).slots(),
        ensures
            final(self).wf(),
            final(self)@ == old(self)@.remove_value(n),
            final(self).slots() == old(self).slots(),
            !final(self)@.contains(n),
    {
        let ghost s = self.order@;
        let ghost old_nodes = self.nodes@;
        let ghost k: int = if s.contains(n) {
            choose|k: int| 0 <= k < s.len() && s[k] == n
        } else {
            0
        };
        proof {
            s.index_of_first_ensures(n);
            if s.contains(n) {
                self.lemma_links_of_member(k);
                if s.len() > 1 && k < s.len() - 1 {
                    self.lemma_links_of_member(k + 1);
                }
                if k > 0 {
                    self.lemma_links_of_member(k - 1);
                }
            } else {
                self.lemma_links_of_other(n);
            }
        }
        match self.nodes[n].as_links() {
            NodeLinks::Unlinked => {
                proof {
                    assert(s.remove_value(n) == s);
                }
                return ;
            },
            NodeLinks::Single => {
                self.head = None;
                self.tail = None;
            },
            NodeLinks::Head { next } => {
                self.set_prev(next.0, NodeLink::End);
                self.head = Some(next);
            },
            NodeLinks::Tail { prev } => {
                self.set_next(prev.0, NodeLink::End);
                self.tail = Some(prev);
            },
            NodeLinks::Full { prev, next } => {
                self.set_next(prev.0, NodeLink::Ptr(next));
                self.set_prev(next.0, NodeLink::Ptr(prev));
            },
        }
        self.set_prev(n, NodeLink::Unlinked);
        self.set_next(n, NodeLink::Unlinked);
        self.len = self.len - 1;
        self.order = Ghost(s.remove(k));
        proof {
            let t = self.order@;
            let len = s.len() as int;
            assert(s.remove_value(n) == t);
            assert forall|i: int| 0 <= i < t.len() implies #[trigger] t[i] == if i < k {
                s[i]
            } else {
                s[i + 1]
            } by {}
            assert(t.no_duplicates()) by {
                assert forall|i: int, j: int| 0 <= i < t.len() && 0 <= j < t.len() && i != j implies t[i] != t[j] by {
                    let i2 = if i < k { i } else { i + 1 };
                    let j2 = if j < k { j } else { j + 1 };
                    assert(t[i] == s[i2] && t[j] == s[j2]);
                }
            }
            assert forall|i: int| 0 <= i < t.len() implies (#[trigger] t[i] as int) < self.nodes@.len() by {
                let i2 = if i < k { i } else { i + 1 };
                assert(t[i] == s[i2]);
            }
            assert forall|i: int| 0 <= i < t.len() implies {
                &&& (#[trigger] self.nodes@[t[i] as int]).prev_link() == link_before(t, i)
                &&& self.nodes@[t[i] as int].next_link() == link_after(t, i)
            } by {
                let i2 = if i < k { i } else { i + 1 };
                assert(t[i] == s[i2]);
                assert(s[i2] != n);
                let _ = old_nodes[s[i2] as int];
                if i > 0 {
                    let j2 = if i - 1 < k { i - 1 } else { i };
                    assert(t[i - 1] == s[j2]);
                }
                if i < t.len() - 1 {
                    let j2 = if i + 1 < k { i + 1 } else { i + 2 };
                    assert(t[i + 1] == s[j2]);
                }
                if k > 0 && i2 != k - 1 {
                    assert(s[i2] != s[k - 1]);
                }
                if k < len - 1 && i2 != k + 1 {
                    assert(s[i2] != s[k + 1]);
                }
            }
            assert forall|m: int| 0 <= m < self.nodes@.len() && !t.contains(m as usize) implies {
                &&& (#[trigger] self.nodes@[m]).prev_link() == NodeLink::Unlinked
                &&& self.nodes@[m].next_link() == NodeLink::Unlinked
            } by {
                if m != n {
                    if s.contains(m as usize) {
                        let j = choose|j: int| 0 <= j < s.len() && s[j] == m as usize;
                        assert(j != k);
                        let j2 = if j < k { j } else { j - 1 };
                        assert(t[j2] == s[j]);
                    }
                    if k > 0 {
                        assert(t[k - 1] == s[k - 1]);
                    }
                    if k < len - 1 {
                        assert(t[k] == s[k + 1]);
                    }
                    let _ = old_nodes[m];
                }
            }
            assert(!t.contains(n)) by {
                if t.contains(n) {
                    let j = choose|j: int| 0 <= j < t.len() && t[j] == n;
                    let j2 = if j < k { j } else { j + 1 };
                    assert(t[j] == s[j2]);
                }
            }
        }
    }

    fn set_prev(&mut self, n: usize, link: NodeLink)
        requires
            (n as int) < old(self).slots(),
        ensures
            final(self).nodes@ == old(self).nodes@.update(n as int, final(self).nodes@[n as int]),
            final(self).nodes@[n as int].prev_link() == link,
            final(self).nodes@[n as int].next_link() == old(self).nodes@[n as int].next_link(),
            final(self).len == old(self).len,
            final(self).head == old(self).head,
            final(self).tail == old(self).tail,
            final(self).order == old(self).order,
    {
        let mut node = self.nodes[n];
        match link {
            NodeLink::Ptr(p) => {
                node.set_prev(p);
            },
            NodeLink::End => {
                node.set_prev_end();
            },
            NodeLink::Unlinked => {
                let next = node.next();
                node.clear();
                match next {
                    NodeLink::Ptr(p) => {
                        node.set_next(p);
                    },
                    NodeLink::End => {
                        node.set_next_end();
                    },
                    NodeLink::Unlinked => {},
                }
            },
        }
        self.nodes.set(n, node);
    }

    fn set_next(&mut self, n: usize, link: NodeLink)
        requires
            (n as int) < old(self).slots(),
        ensures
            final(self).nodes@ == old(self).nodes@.update(n as int, final(self).nodes@[n as int]),
            final(self).nodes@[n as int].next_link() == link,
            final(self).nodes@[n as int].prev_link() == old(self).nodes@[n as int].prev_link(),
            final(self).len == old(self).len,
            final(self).head == old(self).head,
            final(self).tail == old(self).tail,
            final(self).order == old(self).order,
    {
        let mut node = self.nodes[n];
        match link {
            NodeLink::Ptr(p) => {
                node.set_next(p);
            },
            NodeLink::End => {
                node.set_next_end();
            },
            NodeLink::Unlinked => {
                let prev = node.prev();
                node.clear();
                match prev {
                    NodeLink::Ptr(p) => {
                        node.set_prev(p);
                    },
                    NodeLink::End => {
                        node.set_prev_end();
                    },
                    NodeLink::Unlinked => {},
                }
            },
        }
        self.nodes.set(n, node);
    }
}

} // verus!
