//! A fixed-capacity ring buffer that overwrites its oldest item when full.
//!
//! The buffer is modelled as the sequence of its items, oldest first, never
//! longer than its capacity.
use vstd::prelude::*;

verus! {

/// `x % c` for `0 <= x < 2c`: one subtraction at most.
proof fn lemma_mod_once(x: int, c: int)
    requires
        0 <= x < 2 * c,
    ensures
        x % c == if x < c {
            x
        } else {
            x - c
        },
{
    if x < c {
        vstd::arithmetic::div_mod::lemma_small_mod(x as nat, c as nat);
    } else {
        vstd::arithmetic::div_mod::lemma_small_mod((x - c) as nat, c as nat);
        vstd::arithmetic::div_mod::lemma_mod_sub_multiples_vanish(x, c);
    }
}

/// A ring buffer of at most `capacity` items.
pub struct CircularBuffer<T> {
    data: Vec<T>,
    capacity: usize,
    len: usize,
    head: usize,
}

impl<T> CircularBuffer<T> {
    /// The physical slot of the item at logical position `i` (0 = oldest).
    closed spec fn slot(&self, i: int) -> int {
        if self.head + i < self.capacity {
            self.head + i
        } else {
            self.head + i - self.capacity
        }
    }

    /// The number of slots, fixed at construction.
    pub closed spec fn cap(&self) -> nat {
        self.capacity as nat
    }

    /// The buffer's internal consistency.
    pub closed spec fn wf(&self) -> bool {
        &&& 0 < self.capacity
        &&& self.capacity as int <= isize::MAX as int
        &&& self.len == self.data@.len()
        &&& self.len <= self.capacity
        &&& self.head < self.capacity
        &&& self.len < self.capacity ==> self.head == 0
    }
}

impl<T> View for CircularBuffer<T> {
    type V = Seq<T>;

    /// The items, oldest first.
    closed spec fn view(&self) -> Seq<T> {
        Seq::new(self.len as nat, |i: int| self.data@[self.slot(i)])
    }
}

impl<T> CircularBuffer<T> {
    /// An empty buffer with `capacity` slots.  The capacity must be positive
    /// (and, as for any allocation, at most `isize::MAX`).
    pub fn new(capacity: usize) -> (r: Self)
        requires
            capacity > 0,
            capacity as int <= isize::MAX as int,
        ensures
            r.wf(),
            r@ == Seq::<T>::empty(),
            r.cap() == capacity,
    {
        let r = CircularBuffer { data: Vec::with_capacity(capacity), capacity, len: 0, head: 0 };
        assert(r@ =~= Seq::<T>::empty());
        r
    }

    /// The number of items stored.
    pub fn len(&self) -> (r: usize)
        requires
            self.wf(),
        ensures
            r == self@.len(),
    {
        self.len
    }

    /// Whether no item is stored.
    pub fn is_empty(&self) -> (r: bool)
        requires
            self.wf(),
        ensures
            r == (self@.len() == 0),
    {
        self.len == 0
    }

    /// Whether every slot is taken, so that the next push overwrites.
    pub fn is_full(&self) -> (r: bool)
        requires
            self.wf(),
        ensures
            r == (self@.len() == self.cap()),
    {
        self.len == self.capacity
    }

    /// Append `item` as the newest item; when the buffer is full the oldest
    /// item is dropped to make room.
    pub fn push(&mut self, item: T)
        requires
            old(self).wf(),
        ensures
            final(self).wf(),
            final(self).cap() == old(self).cap(),
            final(self)@ == push_model(old(self)@, old(self).cap(), item),
    {
        proof {
            lemma_mod_once(self.head + self.len, self.capacity as int);
        }
        let write_idx = (self.head + self.len) % self.capacity;
        if self.is_full() {
            let ghost before = *self;
            self.data.set(write_idx, item);
            proof {
                lemma_mod_once(self.head + 1, self.capacity as int);
            }
            self.head = (self.head + 1) % self.capacity;
            proof {
                assert forall|i: int| 0 <= i < self.len implies #[trigger] self.data@[self.slot(i)]
                    == before@.drop_first().push(item)[i] by {
                    if i < self.len - 1 {
                        assert(self.slot(i) == before.slot(i + 1));
                    }
                }
                assert(self@ =~= before@.drop_first().push(item));
            }
        } else {
            let ghost before = *self;
            self.data.push(item);
            self.len = self.len + 1;
            proof {
                assert(self@ =~= before@.push(item));
            }
        }
    }

    /// The item at logical position `index` (0 = oldest), if there is one.
    pub fn get(&self, index: usize) -> (r: Option<&T>)
        requires
            self.wf(),
        ensures
            r is Some == (index < self@.len()),
            r matches Some(x) ==> *x == self@[index as int],
    {
        if index >= self.len {
            return None;
        }
        proof {
            lemma_mod_once(self.head + index, self.capacity as int);
        }
        let physical_idx = (self.head + index) % self.capacity;
        Some(&self.data[physical_idx])
    }

    /// References to all items, oldest first.
    pub fn iter(&self) -> (r: Vec<&T>)
        requires
            self.wf(),
        ensures
            r@.len() == self@.len(),
            forall|i: int| 0 <= i < r@.len() ==> *r@[i] == self@[i],
    {
        let mut out: Vec<&T> = Vec::new();
        let mut i: usize = 0;
        while i < self.len
            invariant
                self.wf(),
                i <= self.len,
                out@.len() == i,
                forall|j: int| 0 <= j < i ==> *out@[j] == self@[j],
            decreases self.len - i,
        {
            match self.get(i) {
                Some(x) => out.push(x),
                None => {},
            }
            i = i + 1;
        }
        out
    }
}

/// The items of a buffer of capacity `cap` after `item` is pushed onto the
/// items `buf` (the contract of [`CircularBuffer::push`]).
pub open spec fn push_model<T>(buf: Seq<T>, cap: nat, item: T) -> Seq<T> {
    if buf.len() == cap {
        buf.drop_first().push(item)
    } else {
        buf.push(item)
    }
}

/// The items of a new buffer of capacity `cap` after pushing `xs` in order.
pub open spec fn pushed_all<T>(cap: nat, xs: Seq<T>) -> Seq<T>
    decreases xs.len(),
{
    if xs.len() == 0 {
        Seq::empty()
    } else {
        push_model(pushed_all(cap, xs.drop_last()), cap, xs.last())
    }
}

/// A buffer always holds the most recent items: after any sequence of
/// pushes onto a new buffer it holds the last `min(pushes, capacity)` items
/// pushed, oldest first.
pub proof fn law_holds_most_recent<T>(cap: nat, xs: Seq<T>)
    requires
        cap > 0,
    ensures
        pushed_all(cap, xs) == xs.subrange(
            if xs.len() <= cap {
                0
            } else {
                xs.len() - cap
            },
            xs.len() as int,
        ),
    decreases xs.len(),
{
    if xs.len() > 0 {
        let ys = xs.drop_last();
        law_holds_most_recent(cap, ys);
        let prev = pushed_all(cap, ys);
        let lo = if xs.len() <= cap {
            0
        } else {
            xs.len() - cap
        };
        if prev.len() == cap {
            assert(prev.drop_first().push(xs.last()) =~= xs.subrange(lo, xs.len() as int));
        } else {
            assert(prev.push(xs.last()) =~= xs.subrange(lo, xs.len() as int));
        }
    }
}

} // verus!
