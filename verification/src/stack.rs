//! A bounded LIFO stack with explicit, always-checked capacity errors.
//!
//! The traversal engine keeps three of these: one for control bytes, one for
//! word-prefix bytes, and one for priority-byte addresses. Overflow and
//! underflow are first-class errors reported to the caller, never silent.

use vstd::prelude::*;

verus! {

/// A capacity violation: the stack was full on `push`, or held fewer
/// elements than `drop_n` was asked to remove.
#[derive(Clone, Copy, PartialEq, Eq, Structural, Debug)]
pub enum StackError {
    Overflow,
    Underflow,
}

/// A LIFO stack holding at most `cap` elements.
pub struct Stack<T> {
    buf: Vec<T>,
    cap: usize,
}

impl<T> View for Stack<T> {
    type V = Seq<T>;

    closed spec fn view(&self) -> Seq<T> {
        self.buf@
    }
}

impl<T> Stack<T> {
    /// The fixed maximum number of elements this stack accepts.
    pub closed spec fn capacity(&self) -> usize {
        self.cap
    }

    /// The stack never holds more than its capacity.
    pub closed spec fn wf(&self) -> bool {
        self.buf@.len() <= self.cap
    }

    /// An empty stack with the given capacity.
    pub fn new(capacity: usize) -> (r: Stack<T>)
        ensures
            r@ == Seq::<T>::empty(),
            r.capacity() == capacity,
            r.wf(),
    {
        Stack { buf: Vec::new(), cap: capacity }
    }

    /// Appends an element; reports `Overflow` and leaves the stack unchanged
    /// when it is already at capacity.
    pub fn push(&mut self, t: T) -> (r: Result<(), StackError>)
        requires
            old(self).wf(),
        ensures
            final(self).wf(),
            final(self).capacity() == old(self).capacity(),
            old(self)@.len() < old(self).capacity() ==> r == Ok::<(), StackError>(())
                && final(self)@ == old(self)@.push(t),
            old(self)@.len() >= old(self).capacity() ==> r == Err::<(), StackError>(
                StackError::Overflow,
            ) && final(self)@ == old(self)@,
    {
        if self.buf.len() < self.cap {
            self.buf.push(t);
            Ok(())
        } else {
            Err(StackError::Overflow)
        }
    }

    /// Removes and returns the top element, or `None` when the stack is empty.
    pub fn pop(&mut self) -> (r: Option<T>)
        requires
            old(self).wf(),
        ensures
            final(self).wf(),
            final(self).capacity() == old(self).capacity(),
            old(self)@.len() > 0 ==> r == Some(old(self)@.last())
                && final(self)@ == old(self)@.drop_last(),
            old(self)@.len() == 0 ==> r is None && final(self)@ == old(self)@,
    {
        self.buf.pop()
    }

    /// The whole contents, bottom first.
    pub fn all(&self) -> (r: &[T])
        ensures
            r@ == self@,
    {
        self.buf.as_slice()
    }

    /// The number of elements currently held.
    pub fn len(&self) -> (r: usize)
        ensures
            r == self@.len(),
    {
        self.buf.len()
    }

    /// A read-only look at the top element, without removing it.
    pub fn peek(&self) -> (r: Option<&T>)
        ensures
            match r {
                Some(t) => self@.len() > 0 && *t == self@.last(),
                None => self@.len() == 0,
            },
    {
        if self.buf.len() == 0 {
            None
        } else {
            Some(&self.buf[self.buf.len() - 1])
        }
    }

    /// Removes exactly `n` elements from the top; reports `Underflow` and
    /// leaves the stack unchanged when fewer than `n` are present.
    pub fn drop_n(&mut self, n: usize) -> (r: Result<(), StackError>)
        requires
            old(self).wf(),
        ensures
            final(self).wf(),
            final(self).capacity() == old(self).capacity(),
            n <= old(self)@.len() ==> r == Ok::<(), StackError>(())
                && final(self)@ == old(self)@.take(old(self)@.len() - n),
            n > old(self)@.len() ==> r == Err::<(), StackError>(StackError::Underflow)
                && final(self)@ == old(self)@,
    {
        if n > self.buf.len() {
            Err(StackError::Underflow)
        } else {
            let keep = self.buf.len() - n;
            self.buf.truncate(keep);
            Ok(())
        }
    }

    /// Empties the stack.
    pub fn clear(&mut self)
        requires
            old(self).wf(),
        ensures
            final(self).wf(),
            final(self).capacity() == old(self).capacity(),
            final(self)@ == Seq::<T>::empty(),
    {
        self.buf.clear();
    }
}

impl<T: Copy> Stack<T> {
    /// Appends every element of `items` in order; reports `Overflow` and
    /// leaves the stack unchanged when they would not all fit.
    pub fn push_n(&mut self, items: &[T]) -> (r: Result<(), StackError>)
        requires
            old(self).wf(),
        ensures
            final(self).wf(),
            final(self).capacity() == old(self).capacity(),
            old(self)@.len() + items@.len() <= old(self).capacity() ==> r == Ok::<(), StackError>(
                (),
            ) && final(self)@ == old(self)@ + items@,
            old(self)@.len() + items@.len() > old(self).capacity() ==> r == Err::<(), StackError>(
                StackError::Overflow,
            ) && final(self)@ == old(self)@,
    {
        if items.len() > self.cap - self.buf.len() {
            return Err(StackError::Overflow);
        }
        let mut k: usize = 0;
        while k < items.len()
            invariant
                k <= items@.len(),
                self.buf@ == old(self)@ + items@.take(k as int),
                self.cap == old(self).capacity(),
                old(self)@.len() + items@.len() <= self.cap,
            decreases items@.len() - k,
        {
            self.buf.push(items[k]);
            proof {
                assert(self.buf@ =~= old(self)@ + items@.take(k + 1));
            }
            k += 1;
        }
        proof {
            assert(self.buf@ =~= old(self)@ + items@);
        }
        Ok(())
    }
}

} // verus!
