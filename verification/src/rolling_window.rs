//! A fixed-size sliding window over the most recent values pushed.
//!
//! The window is modelled as the sequence of its values, oldest first; it
//! follows the same push rule as the ring buffer (see
//! [`crate::circular_buffer::push_model`]), so the law proved there, that it
//! holds the most recent `capacity` values, holds here too.  The statistics
//! over the values are floating point and are computed outside this crate.
use vstd::prelude::*;
use crate::circular_buffer::push_model;

verus! {

/// A sliding window holding at most `capacity` values.
pub struct RollingWindow<T> where T: Copy {
    data: std::collections::VecDeque<T>,
    capacity: usize,
}

impl<T: Copy> View for RollingWindow<T> {
    type V = Seq<T>;

    /// The values, oldest first.
    closed spec fn view(&self) -> Seq<T> {
        self.data@
    }
}

impl<T: Copy> RollingWindow<T> {
    /// The maximum number of values, fixed at construction.
    pub closed spec fn cap(&self) -> nat {
        self.capacity as nat
    }

    /// The window's internal consistency.
    pub closed spec fn wf(&self) -> bool {
        &&& self.capacity > 0
        &&& self.data@.len() <= self.capacity
    }

    /// An empty window of `capacity` values; the capacity must be positive.
    pub fn new(capacity: usize) -> (r: Self)
        requires
            capacity > 0,
        ensures
            r.wf(),
            r@ == Seq::<T>::empty(),
            r.cap() == capacity,
    {
        RollingWindow { data: std::collections::VecDeque::with_capacity(capacity), capacity }
    }

    /// Append `value`, first evicting the oldest value when the window is full.
    pub fn push(&mut self, value: T)
        requires
            old(self).wf(),
        ensures
            final(self).wf(),
            final(self).cap() == old(self).cap(),
            final(self)@ == push_model(old(self)@, old(self).cap(), value),
    {
        if self.data.len() == self.capacity {
            let ghost before = self.data@;
            let _ = self.data.pop_front();
            assert(self.data@ =~= before.drop_first());
        }
        self.data.push_back(value);
    }

    /// The number of values held.
    pub fn len(&self) -> (r: usize)
        requires
            self.wf(),
        ensures
            r == self@.len(),
    {
        self.data.len()
    }

    /// Whether no value is held.
    pub fn is_empty(&self) -> (r: bool)
        requires
            self.wf(),
        ensures
            r == (self@.len() == 0),
    {
        self.data.len() == 0
    }

    /// Whether the window holds `capacity` values.
    pub fn is_full(&self) -> (r: bool)
        requires
            self.wf(),
        ensures
            r == (self@.len() == self.cap()),
    {
        self.data.len() == self.capacity
    }

    /// The values, oldest first.
    pub fn values(&self) -> (r: Vec<T>)
        requires
            self.wf(),
        ensures
            r@ == self@,
    {
        let mut out: Vec<T> = Vec::new();
        let mut i: usize = 0;
        while i < self.data.len()
            invariant
                i <= self.data@.len(),
                out@ == self.data@.subrange(0, i as int),
            decreases self.data@.len() - i,
        {
            out.push(self.data[i]);
            i = i + 1;
            assert(out@ =~= self.data@.subrange(0, i as int));
        }
        assert(self.data@.subrange(0, i as int) =~= self.data@);
        out
    }
}

} // verus!
