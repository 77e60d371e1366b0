//! Nodes and their link states.
use vstd::prelude::*;

verus! {

/// The identity of a node: its index in the slot table.
#[derive(Clone, Copy, Debug, PartialEq, Eq, Structural)]
pub struct NodePtr(pub usize);

impl NodePtr {
    /// The identity of the node stored in slot `slot`.
    pub fn from_ref(slot: usize) -> (r: NodePtr)
        ensures
            r.0 == slot,
    {
        NodePtr(slot)
    }

    /// The slot index of the node.
    pub fn index(&self) -> (r: usize)
        ensures
            r == self.0,
    {
        self.0
    }
}

/// One side of a node's links: a neighbour, the end of the list, or nothing.
#[derive(Clone, Copy, Debug, PartialEq, Eq, Structural)]
pub enum NodeLink {
    Ptr(NodePtr),
    End,
    Unlinked,
}

impl NodeLink {
    /// Converts to an option, expecting the node to be linked: the neighbour,
    /// or `None` at the end of the list.
    pub fn expect_linked(self) -> (r: Option<NodePtr>)
        requires
            self != NodeLink::Unlinked,
        ensures
            r == (match self {
                NodeLink::Ptr(p) => Some(p),
                _ => None::<NodePtr>,
            }),
    {
        match self {
            NodeLink::Ptr(p) => Some(p),
            _ => None,
        }
    }
}

/// A cell holding one link; each setter returns the link it replaced.
#[derive(Clone, Copy, Debug)]
pub struct AtomicNodePtr {
    link: NodeLink,
}

impl AtomicNodePtr {
    /// The link held by the cell.
    pub closed spec fn view(&self) -> NodeLink {
        self.link
    }

    /// A cell holding `Unlinked`.
    pub fn new() -> (r: AtomicNodePtr)
        ensures
            r.view() == NodeLink::Unlinked,
    {
        AtomicNodePtr { link: NodeLink::Unlinked }
    }

    pub fn into_inner(self) -> (r: NodeLink)
        ensures
            r == self.view(),
    {
        self.link
    }

    pub fn get(&self) -> (r: NodeLink)
        ensures
            r == self.view(),
    {
        self.link
    }

    pub fn set_link(&mut self, ptr: NodePtr) -> (r: NodeLink)
        ensures
            r == old(self).view(),
            final(self).view() == NodeLink::Ptr(ptr),
    {
        let prev = self.link;
        self.link = NodeLink::Ptr(ptr);
        prev
    }

    pub fn set_end(&mut self) -> (r: NodeLink)
        ensures
            r == old(self).view(),
            final(self).view() == NodeLink::End,
    {
        let prev = self.link;
        self.link = NodeLink::End;
        prev
    }

    pub fn clear(&mut self) -> (r: NodeLink)
        ensures
            r == old(self).view(),
            final(self).view() == NodeLink::Unlinked,
    {
        let prev = self.link;
        self.link = NodeLink::Unlinked;
        prev
    }
}

/// The link state of a node.
#[derive(Clone, Copy, Debug, PartialEq, Eq, Structural)]
pub enum NodeLinks {
    Unlinked,
    Single,
    Head { next: NodePtr },
    Tail { prev: NodePtr },
    Full { prev: NodePtr, next: NodePtr },
}

/// The link state that a pair of links describes; a half-unlinked pair counts
/// as unlinked.
pub open spec fn links_of(prev: NodeLink, next: NodeLink) -> NodeLinks {
    match (prev, next) {
        (NodeLink::Ptr(p), NodeLink::Ptr(n)) => NodeLinks::Full { prev: p, next: n },
        (NodeLink::Ptr(p), NodeLink::End) => NodeLinks::Tail { prev: p },
        (NodeLink::End, NodeLink::Ptr(n)) => NodeLinks::Head { next: n },
        (NodeLink::End, NodeLink::End) => NodeLinks::Single,
        _ => NodeLinks::Unlinked,
    }
}

impl NodeLinks {
    pub fn is_head(&self) -> (r: bool)
        ensures
            r == (self is Head),
    {
        match self {
            NodeLinks::Head { .. } => true,
            _ => false,
        }
    }

    pub fn is_tail(&self) -> (r: bool)
        ensures
            r == (self is Tail),
    {
        match self {
            NodeLinks::Tail { .. } => true,
            _ => false,
        }
    }

    pub fn is_linked(&self) -> (r: bool)
        ensures
            r == !(self is Unlinked),
    {
        match self {
            NodeLinks::Unlinked => false,
            _ => true,
        }
    }

    pub fn next(&self) -> (r: Option<NodePtr>)
        ensures
            r == (match *self {
                NodeLinks::Head { next } => Some(next),
                NodeLinks::Full { next, .. } => Some(next),
                _ => None::<NodePtr>,
            }),
    {
        match self {
            NodeLinks::Head { next } => Some(*next),
            NodeLinks::Full { next, .. } => Some(*next),
            _ => None,
        }
    }

    pub fn prev(&self) -> (r: Option<NodePtr>)
        ensures
            r == (match *self {
                NodeLinks::Tail { prev } => Some(prev),
                NodeLinks::Full { prev, .. } => Some(prev),
                _ => None::<NodePtr>,
            }),
    {
        match self {
            NodeLinks::Tail { prev } => Some(*prev),
            NodeLinks::Full { prev, .. } => Some(*prev),
            _ => None,
        }
    }
}

/// The pair of links stored in a slot.
#[derive(Clone, Copy, Debug)]
pub struct Node {
    next: AtomicNodePtr,
    prev: AtomicNodePtr,
}

impl Node {
    pub closed spec fn prev_link(&self) -> NodeLink {
        self.prev.view()
    }

    pub closed spec fn next_link(&self) -> NodeLink {
        self.next.view()
    }

    /// The link state of the node.
    pub open spec fn links(&self) -> NodeLinks {
        links_of(self.prev_link(), self.next_link())
    }

    /// An unlinked node.
    pub fn new() -> (r: Node)
        ensures
            r.prev_link() == NodeLink::Unlinked,
            r.next_link() == NodeLink::Unlinked,
    {
        Node { next: AtomicNodePtr::new(), prev: AtomicNodePtr::new() }
    }

    pub fn prev(&self) -> (r: NodeLink)
        ensures
            r == self.prev_link(),
    {
        self.prev.get()
    }

    pub fn next(&self) -> (r: NodeLink)
        ensures
            r == self.next_link(),
    {
        self.next.get()
    }

    /// Sets the previous link to the node `prev`.
    pub fn set_prev(&mut self, prev: NodePtr) -> (r: NodeLink)
        ensures
            r == old(self).prev_link(),
            final(self).prev_link() == NodeLink::Ptr(prev),
            final(self).next_link() == old(self).next_link(),
    {
        self.prev.set_link(prev)
    }

    /// Sets the next link to the node `next`.
    pub fn set_next(&mut self, next: NodePtr) -> (r: NodeLink)
        ensures
            r == old(self).next_link(),
            final(self).next_link() == NodeLink::Ptr(next),
            final(self).prev_link() == old(self).prev_link(),
    {
        self.next.set_link(next)
    }

    /// Sets the previous link to the end marker.
    pub fn set_prev_end(&mut self) -> (r: NodeLink)
        ensures
            r == old(self).prev_link(),
            final(self).prev_link() == NodeLink::End,
            final(self).next_link() == old(self).next_link(),
    {
        self.prev.set_end()
    }

    /// Sets the next link to the end marker.
    pub fn set_next_end(&mut self) -> (r: NodeLink)
        ensures
            r == old(self).next_link(),
            final(self).next_link() == NodeLink::End,
            final(self).prev_link() == old(self).prev_link(),
    {
        self.next.set_end()
    }

    /// Clears both links.
    pub fn clear(&mut self)
        ensures
            final(self).prev_link() == NodeLink::Unlinked,
            final(self).next_link() == NodeLink::Unlinked,
    {
        self.prev.clear();
        self.next.clear();
    }

    pub fn into_links(self) -> (r: NodeLinks)
        ensures
            r == self.links(),
    {
        self.as_links()
    }

    pub fn as_links(&self) -> (r: NodeLinks)
        ensures
            r == self.links(),
    {
        match (self.prev.get(), self.next.get()) {
            (NodeLink::Ptr(p), NodeLink::Ptr(n)) => NodeLinks::Full { prev: p, next: n },
            (NodeLink::Ptr(p), NodeLink::End) => NodeLinks::Tail { prev: p },
            (NodeLink::End, NodeLink::Ptr(n)) => NodeLinks::Head { next: n },
            (NodeLink::End, NodeLink::End) => NodeLinks::Single,
            _ => NodeLinks::Unlinked,
        }
    }
}

} // verus!
