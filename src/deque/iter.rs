//! Walks over the values of a deque.
use vstd::prelude::*;

use super::{Deque, DequeRef};

verus! {

/// Walks over a deque's values by reference, from either end.
pub struct Iter<'a, T> {
    deque: &'a DequeRef<T>,
    front: usize,
    back: usize,
}

impl<'a, T> View for Iter<'a, T> {
    type V = Seq<T>;

    /// The values not yet walked over.
    closed spec fn view(&self) -> Seq<T> {
        self.deque@.subrange(self.front as int, self.back as int)
    }
}

impl<'a, T> Iter<'a, T> {
    pub closed spec fn wf(&self) -> bool {
        &&& self.deque.wf()
        &&& self.front <= self.back <= self.deque@.len()
    }

    /// The next value from the front.
    pub fn next(&mut self) -> (r: Option<&'a T>)
        requires
            old(self).wf(),
        ensures
            final(self).wf(),
            old(self)@.len() == 0 ==> r is None && final(self)@ == old(self)@,
            old(self)@.len() > 0 ==> r == Some(&old(self)@[0]) && final(self)@ == old(self)@.skip(1),
    {
        if self.front == self.back {
            return None;
        }
        let r = self.deque.get(self.front);
        self.front = self.front + 1;
        proof {
            assert(self@ =~= old(self)@.skip(1));
        }
        r
    }

    /// The next value from the back.
    pub fn next_back(&mut self) -> (r: Option<&'a T>)
        requires
            old(self).wf(),
        ensures
            final(self).wf(),
            old(self)@.len() == 0 ==> r is None && final(self)@ == old(self)@,
            old(self)@.len() > 0 ==> r == Some(&old(self)@.last()) && final(self)@ == old(self)@.drop_last(),
    {
        if self.front == self.back {
            return None;
        }
        self.back = self.back - 1;
        proof {
            assert(self@ =~= old(self)@.drop_last());
        }
        self.deque.get(self.back)
    }

    /// The exact number of values left, as a lower and an upper bound.
    pub fn size_hint(&self) -> (r: (usize, Option<usize>))
        requires
            self.wf(),
        ensures
            r.0 == self@.len(),
            r.1 == Some(self@.len() as usize),
    {
        let n = self.back - self.front;
        (n, Some(n))
    }
}

impl<T> DequeRef<T> {
    /// Walks over the values from front to back.
    pub fn iter(&self) -> (r: Iter<'_, T>)
        requires
            self.wf(),
        ensures
            r.wf(),
            r@ == self@,
    {
        let r = Iter { deque: self, front: 0, back: self.len() };
        proof {
            assert(r@ =~= self@);
        }
        r
    }
}

/// Walks over a deque's values by value, from the front.
pub struct IntoIter<T, const N: usize> {
    deque: Deque<T, N>,
}

impl<T, const N: usize> View for IntoIter<T, N> {
    type V = Seq<T>;

    /// The values not yet walked over.
    closed spec fn view(&self) -> Seq<T> {
        self.deque.queue()@
    }
}

impl<T, const N: usize> IntoIter<T, N> {
    pub closed spec fn wf(&self) -> bool {
        self.deque.queue().wf()
    }

    /// The next value from the front.
    pub fn next(&mut self) -> (r: Option<T>)
        requires
            old(self).wf(),
        ensures
            final(self).wf(),
            old(self)@.len() == 0 ==> r is None && final(self)@ == old(self)@,
            old(self)@.len() > 0 ==> r == Some(old(self)@[0]) && final(self)@ == old(self)@.skip(1),
    {
        self.deque.pop_front()
    }
}

impl<T, const N: usize> Deque<T, N> {
    /// Walks over the values from front to back, taking them.
    pub fn into_iter(self) -> (r: IntoIter<T, N>)
        requires
            self.queue().wf(),
        ensures
            r.wf(),
            r@ == self.queue()@,
    {
        IntoIter { deque: self }
    }
}

} // verus!
