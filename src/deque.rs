//! A double-ended queue over a fixed-capacity ring buffer.
use vstd::prelude::*;

pub mod iter;

pub use iter::{IntoIter, Iter};

verus! {

/// A position `i` past `start` in a ring of `c` places, wrapped once.
proof fn lemma_wrap(start: int, i: int, c: int)
    requires
        0 <= start < c,
        0 <= i < c,
    ensures
        (start + i) % c == if start + i < c {
            start + i
        } else {
            start + i - c
        },
{
    let k = start + i;
    if k < c {
        vstd::arithmetic::div_mod::lemma_small_mod(k as nat, c as nat);
    } else {
        vstd::arithmetic::div_mod::lemma_mod_add_multiples_vanish(k - c, c);
        vstd::arithmetic::div_mod::lemma_small_mod((k - c) as nat, c as nat);
    }
}

/// The ring buffer of a [`Deque`]: `len` values stored from `start` on,
/// wrapping around the end of the buffer.
pub struct DequeRef<T> {
    start: usize,
    len: usize,
    buffer: Vec<Option<T>>,
}

/// A double-ended queue that holds at most `N` values.
pub struct Deque<T, const N: usize> {
    inner: DequeRef<T>,
}

impl<T> View for DequeRef<T> {
    type V = Seq<T>;

    /// The values from front to back.
    closed spec fn view(&self) -> Seq<T> {
        Self::view_of(self.start, self.len, self.buffer@)
    }
}

impl<T> DequeRef<T> {
    /// The buffer position of the value at `i` from the front.
    #[verifier::inline]
    spec fn phys(&self, i: int) -> int {
        (self.start + i) % (self.buffer@.len() as int)
    }

    /// The number of values the buffer can hold.
    pub closed spec fn cap(&self) -> nat {
        self.buffer@.len()
    }

    pub closed spec fn wf(&self) -> bool {
        Self::wf_of(self.start, self.len, self.buffer@)
    }

    spec fn wf_of(start: usize, len: usize, buffer: Seq<Option<T>>) -> bool {
        &&& len <= buffer.len()
        &&& (start < buffer.len() || (buffer.len() == 0 && start == 0))
        &&& forall|i: int|
            0 <= i < len ==> (#[trigger] buffer[(start + i) % (buffer.len() as int)]) is Some
    }

    proof fn lemma_phys(&self, i: int)
        requires
            self.wf(),
            0 <= i < self.buffer@.len(),
        ensures
            0 <= self.phys(i) < self.buffer@.len(),
            self.phys(i) == if self.start + i < self.buffer@.len() {
                self.start + i
            } else {
                self.start + i - self.buffer@.len()
            },
    {
        let c = self.buffer@.len() as int;
        let k = self.start + i;
        if k < c {
            vstd::arithmetic::div_mod::lemma_small_mod(k as nat, c as nat);
        } else {
            vstd::arithmetic::div_mod::lemma_mod_add_multiples_vanish(k - c, c);
            vstd::arithmetic::div_mod::lemma_small_mod((k - c) as nat, c as nat);
        }
    }

    /// The values that a ring buffer holds.
    spec fn view_of(start: usize, len: usize, buffer: Seq<Option<T>>) -> Seq<T> {
        Seq::new(len as nat, |i: int| buffer[(start + i) % (buffer.len() as int)]->Some_0)
    }

    proof fn lemma_view_update(&self, i: int, x: T)
        requires
            self.wf(),
            0 <= i < self.len,
        ensures
            Self::view_of(self.start, self.len, self.buffer@.update(self.phys(i), Some(x))) == self@.update(i, x),
    {
        let b = self.buffer@.update(self.phys(i), Some(x));
        let v = Self::view_of(self.start, self.len, b);
        let w = self@.update(i, x);
        assert forall|j: int| 0 <= j < self.len implies #[trigger] v[j] == w[j] by {
            self.lemma_phys(j);
            self.lemma_phys(i);
            if j != i {
                self.lemma_phys_injective(i, j);
            }
        }
        assert(v =~= w);
    }

    proof fn lemma_phys_injective(&self, i: int, j: int)
        requires
            self.wf(),
            0 <= i < self.buffer@.len(),
            0 <= j < self.buffer@.len(),
            i != j,
        ensures
            self.phys(i) != self.phys(j),
    {
        self.lemma_phys(i);
        self.lemma_phys(j);
    }

    fn phys_exec(&self, i: usize) -> (r: usize)
        requires
            self.wf(),
            i < self.buffer@.len(),
        ensures
            r == self.phys(i as int),
    {
        proof {
            self.lemma_phys(i as int);
        }
        let c = self.buffer.len();
        if i < c - self.start {
            self.start + i
        } else {
            i - (c - self.start)
        }
    }

    /// A deque never holds more values than its capacity.
    pub proof fn lemma_len_le_cap(&self)
        requires
            self.wf(),
        ensures
            self@.len() <= self.cap(),
    {
    }

    /// The largest number of values the deque can hold.
    pub fn capacity(&self) -> (r: usize)
        ensures
            r == self.cap(),
    {
        self.buffer.len()
    }

    /// The number of values in the deque.
    pub fn len(&self) -> (r: usize)
        ensures
            r == self@.len(),
    {
        self.len
    }

    pub fn is_empty(&self) -> (r: bool)
        ensures
            r == (self@.len() == 0),
    {
        self.len == 0
    }

    pub fn is_full(&self) -> (r: bool)
        ensures
            r == (self@.len() == self.cap()),
    {
        self.len == self.buffer.len()
    }

    /// Removes every value.
    pub fn clear(&mut self)
        requires
            old(self).wf(),
        ensures
            final(self).wf(),
            final(self)@ == Seq::<T>::empty(),
            final(self).cap() == old(self).cap(),
    {
        let c = self.buffer.len();
        let mut i: usize = 0;
        while i < c
            invariant
                self.buffer@.len() == c,
                i <= c,
                self.start < c || (c == 0 && self.start == 0),
            decreases c - i,
        {
            self.buffer.set(i, None);
            i = i + 1;
        }
        self.start = 0;
        self.len = 0;
        proof {
            assert(self@ =~= Seq::<T>::empty());
        }
    }

    /// The value at `i` from the front.
    pub fn get(&self, i: usize) -> (r: Option<&T>)
        requires
            self.wf(),
        ensures
            r == if i < self@.len() {
                Some(&self@[i as int])
            } else {
                None::<&T>
            },
    {
        if i >= self.len {
            return None;
        }
        let p = self.phys_exec(i);
        self.buffer[p].as_ref()
    }

    /// The value at `i` from the front, to be changed in place.
    pub fn get_mut(&mut self, i: usize) -> (r: Option<&mut T>)
        requires
            old(self).wf(),
        ensures
            i >= old(self)@.len() ==> r is None && *final(self) == *old(self),
            i < old(self)@.len() ==> r is Some,
            i < old(self)@.len() ==> *r->Some_0 == old(self)@[i as int],
            i < old(self)@.len() ==> final(self).wf(),
            i < old(self)@.len() ==> final(self).cap() == old(self).cap(),
            i < old(self)@.len() ==> final(self)@ == old(self)@.update(i as int, *final(r->Some_0)),
    {
        if i >= self.len {
            return None;
        }
        let p = self.phys_exec(i);
        proof {
            self.lemma_phys(i as int);
            assert forall|x: T| #[trigger] self.buffer@.update(p as int, Some(x)) == self.buffer@.update(p as int, Some(x)) implies
                Self::view_of(self.start, self.len, self.buffer@.update(p as int, Some(x))) == self@.update(i as int, x) by {
                self.lemma_view_update(i as int, x);
            }
            assert forall|x: T| #[trigger] self.buffer@.update(p as int, Some(x)) == self.buffer@.update(p as int, Some(x)) implies
                Self::wf_of(self.start, self.len, self.buffer@.update(p as int, Some(x))) by {
                let b = self.buffer@.update(p as int, Some(x));
                assert forall|j: int| 0 <= j < self.len implies (#[trigger] b[(self.start + j) % (b.len() as int)]) is Some by {
                    self.lemma_phys(j);
                    assert(self.buffer@[self.phys(j)] is Some);
                }
            }
        }
        let slot = &mut self.buffer[p];
        slot.as_mut()
    }

    /// Appends `item` at the back; a full deque hands it back.
    pub fn push_back(&mut self, item: T) -> (r: Result<(), T>)
        requires
            old(self).wf(),
        ensures
            final(self).wf(),
            final(self).cap() == old(self).cap(),
            old(self)@.len() == old(self).cap() ==> r == Err::<(), T>(item) && final(self)@ == old(self)@,
            old(self)@.len() < old(self).cap() ==> r is Ok && final(self)@ == old(self)@.push(item),
    {
        if self.len == self.buffer.len() {
            return Err(item);
        }
        let p = self.phys_exec(self.len);
        self.buffer.set(p, Some(item));
        self.len = self.len + 1;
        proof {
            let c = self.buffer@.len() as int;
            let st = self.start as int;
            lemma_wrap(st, self.len - 1, c);
            assert forall|j: int| 0 <= j < self.len implies (#[trigger] self.buffer@[self.phys(j)]) is Some
                && (j < self.len - 1 ==> self.buffer@[self.phys(j)] == old(self).buffer@[old(self).phys(j)]) by {
                lemma_wrap(st, j, c);
                if j < self.len - 1 {
                    assert(old(self).buffer@[old(self).phys(j)] is Some);
                }
            }
            assert(self@ =~= old(self)@.push(item));
        }
        Ok(())
    }

    /// Prepends `item` at the front; a full deque hands it back.
    pub fn push_front(&mut self, item: T) -> (r: Result<(), T>)
        requires
            old(self).wf(),
        ensures
            final(self).wf(),
            final(self).cap() == old(self).cap(),
            old(self)@.len() == old(self).cap() ==> r == Err::<(), T>(item) && final(self)@ == old(self)@,
            old(self)@.len() < old(self).cap() ==> r is Ok && final(self)@ == seq![item] + old(self)@,
    {
        if self.len == self.buffer.len() {
            return Err(item);
        }
        let c = self.buffer.len();
        let s = if self.start == 0 {
            c - 1
        } else {
            self.start - 1
        };
        self.buffer.set(s, Some(item));
        self.start = s;
        self.len = self.len + 1;
        proof {
            let ci = c as int;
            let st = old(self).start as int;
            assert forall|j: int| 0 <= j < self.len implies (#[trigger] self.buffer@[self.phys(j)]) is Some
                && (j > 0 ==> self.buffer@[self.phys(j)] == old(self).buffer@[old(self).phys(j - 1)])
                && (j == 0 ==> self.phys(j) == s) by {
                lemma_wrap(s as int, j, ci);
                if j > 0 {
                    lemma_wrap(st, j - 1, ci);
                    assert(old(self).buffer@[old(self).phys(j - 1)] is Some);
                } else {
                }
            }
            assert(self@ =~= seq![item] + old(self)@);
        }
        Ok(())
    }

    /// Removes and returns the front value.
    pub fn pop_front(&mut self) -> (r: Option<T>)
        requires
            old(self).wf(),
        ensures
            final(self).wf(),
            final(self).cap() == old(self).cap(),
            old(self)@.len() == 0 ==> r is None && final(self)@ == old(self)@,
            old(self)@.len() > 0 ==> r == Some(old(self)@[0]) && final(self)@ == old(self)@.skip(1),
    {
        if self.len == 0 {
            return None;
        }
        let c = self.buffer.len();
        let p = self.start;
        let mut v: Option<T> = None;
        proof {
            lemma_wrap(p as int, 0, c as int);
        }
        self.buffer.set_and_swap(p, &mut v);
        self.start = if p + 1 == c {
            0
        } else {
            p + 1
        };
        self.len = self.len - 1;
        proof {
            let ci = c as int;
            assert forall|j: int| 0 <= j < self.len implies (#[trigger] self.buffer@[self.phys(j)]) is Some
                && self.buffer@[self.phys(j)] == old(self).buffer@[old(self).phys(j + 1)] by {
                lemma_wrap(self.start as int, j, ci);
                lemma_wrap(p as int, j + 1, ci);
                assert(old(self).buffer@[old(self).phys(j + 1)] is Some);
            }
            assert(self@ =~= old(self)@.skip(1));
        }
        v
    }

    /// Removes and returns the back value.
    pub fn pop_back(&mut self) -> (r: Option<T>)
        requires
            old(self).wf(),
        ensures
            final(self).wf(),
            final(self).cap() == old(self).cap(),
            old(self)@.len() == 0 ==> r is None && final(self)@ == old(self)@,
            old(self)@.len() > 0 ==> r == Some(old(self)@.last()) && final(self)@ == old(self)@.drop_last(),
    {
        if self.len == 0 {
            return None;
        }
        let c = self.buffer.len();
        let p = self.phys_exec(self.len - 1);
        let mut v: Option<T> = None;
        self.buffer.set_and_swap(p, &mut v);
        self.len = self.len - 1;
        proof {
            let ci = c as int;
            lemma_wrap(self.start as int, self.len as int, ci);
            assert forall|j: int| 0 <= j < self.len implies (#[trigger] self.buffer@[self.phys(j)]) is Some
                && self.buffer@[self.phys(j)] == old(self).buffer@[old(self).phys(j)] by {
                lemma_wrap(self.start as int, j, ci);
                assert(old(self).buffer@[old(self).phys(j)] is Some);
            }
            assert(self@ =~= old(self)@.drop_last());
        }
        v
    }

    /// The front value, to be changed in place.
    pub fn front_mut(&mut self) -> (r: Option<&mut T>)
        requires
            old(self).wf(),
        ensures
            old(self)@.len() == 0 ==> r is None && *final(self) == *old(self),
            old(self)@.len() > 0 ==> r is Some,
            old(self)@.len() > 0 ==> *r->Some_0 == old(self)@[0],
            old(self)@.len() > 0 ==> final(self).wf(),
            old(self)@.len() > 0 ==> final(self).cap() == old(self).cap(),
            old(self)@.len() > 0 ==> final(self)@ == old(self)@.update(0, *final(r->Some_0)),
    {
        self.get_mut(0)
    }

    /// The back value, to be changed in place.
    pub fn back_mut(&mut self) -> (r: Option<&mut T>)
        requires
            old(self).wf(),
        ensures
            old(self)@.len() == 0 ==> r is None && *final(self) == *old(self),
            old(self)@.len() > 0 ==> r is Some,
            old(self)@.len() > 0 ==> *r->Some_0 == old(self)@.last(),
            old(self)@.len() > 0 ==> final(self).wf(),
            old(self)@.len() > 0 ==> final(self).cap() == old(self).cap(),
            old(self)@.len() > 0 ==> final(self)@ == old(self)@.update(old(self)@.len() - 1, *final(r->Some_0)),
    {
        if self.len == 0 {
            return None;
        }
        let i = self.len - 1;
        self.get_mut(i)
    }

    pub fn front(&self) -> (r: Option<&T>)
        requires
            self.wf(),
        ensures
            r == if self@.len() > 0 {
                Some(&self@[0])
            } else {
                None::<&T>
            },
    {
        self.get(0)
    }

    pub fn back(&self) -> (r: Option<&T>)
        requires
            self.wf(),
        ensures
            r == if self@.len() > 0 {
                Some(&self@[self@.len() - 1])
            } else {
                None::<&T>
            },
    {
        if self.len == 0 {
            None
        } else {
            self.get(self.len - 1)
        }
    }
}

impl<T, const N: usize> Deque<T, N> {
    /// The ring buffer behind the deque.
    pub closed spec fn queue(&self) -> DequeRef<T> {
        self.inner
    }

    /// An empty deque with room for `N` values.
    pub fn new() -> (r: Deque<T, N>)
        ensures
            r.queue().wf(),
            r.queue()@ == Seq::<T>::empty(),
            r.queue().cap() == N,
    {
        let mut buffer: Vec<Option<T>> = Vec::new();
        let mut i: usize = 0;
        while i < N
            invariant
                buffer@.len() == i,
                i <= N,
            decreases N - i,
        {
            buffer.push(None);
            i = i + 1;
        }
        let inner = DequeRef { start: 0, len: 0, buffer };
        proof {
            assert(inner@ =~= Seq::<T>::empty());
        }
        Deque { inner }
    }
}

impl<T, const N: usize> core::ops::Deref for Deque<T, N> {
    type Target = DequeRef<T>;

    fn deref(&self) -> (r: &DequeRef<T>)
        ensures
            *r == self.queue(),
    {
        &self.inner
    }
}

impl<T, const N: usize> core::ops::DerefMut for Deque<T, N> {
    fn deref_mut(&mut self) -> (r: &mut DequeRef<T>)
        ensures
            *r == old(self).queue(),
            final(self).queue() == *final(r),
    {
        &mut self.inner
    }
}

} // verus!
