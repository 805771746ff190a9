//! A fixed-capacity ring of bytes that drops its oldest byte when full.

use vstd::prelude::*;

verus! {

/// Position of the `i`-th element of a ring that starts at `start`.
pub open spec fn slot(start: int, i: int, capacity: int) -> int {
    if start + i < capacity {
        start + i
    } else {
        start + i - capacity
    }
}

/// The last `capacity` elements of `s` (all of `s` when it is short enough).
pub open spec fn keep_last(s: Seq<u8>, capacity: nat) -> Seq<u8> {
    if s.len() <= capacity {
        s
    } else {
        s.subrange(s.len() - capacity, s.len() as int)
    }
}

pub struct CircularBuffer {
    buffer: Vec<u8>,
    capacity: usize,
    start: usize,
    len: usize,
}

impl View for CircularBuffer {
    type V = Seq<u8>;

    /// The bytes held, oldest first.
    closed spec fn view(&self) -> Seq<u8> {
        Seq::new(
            self.len as nat,
            |i: int| self.buffer@[slot(self.start as int, i, self.capacity as int)],
        )
    }
}

impl CircularBuffer {
    /// How many bytes the ring can hold at once.
    pub closed spec fn capacity_spec(&self) -> nat {
        self.capacity as nat
    }

    pub closed spec fn wf(&self) -> bool {
        &&& self.buffer@.len() == self.capacity
        &&& self.len <= self.capacity
        &&& (self.capacity > 0 ==> self.start < self.capacity)
        &&& (self.capacity == 0 ==> self.start == 0)
    }

    /// A well-formed ring never holds more than its capacity.
    pub proof fn lemma_len_at_most_capacity(&self)
        requires
            self.wf(),
        ensures
            self@.len() <= self.capacity_spec(),
    {
    }

    /// An empty ring that holds at most `capacity` bytes.
    pub fn new(capacity: usize) -> (r: Self)
        ensures
            r.wf(),
            r@ == Seq::<u8>::empty(),
            r@.len() <= r.capacity_spec(),
            r.capacity_spec() == capacity,
    {
        let buffer: Vec<u8> = vec![0u8; capacity];
        let r = CircularBuffer { buffer, capacity, start: 0, len: 0 };
        assert(r@ =~= Seq::<u8>::empty());
        r
    }

    /// Appends every byte of `data` in order.
    pub fn extend(&mut self, data: &[u8])
        requires
            old(self).wf(),
        ensures
            final(self).wf(),
            final(self).capacity_spec() == old(self).capacity_spec(),
            final(self)@.len() <= final(self).capacity_spec(),
            final(self)@ == keep_last(old(self)@ + data@, old(self).capacity_spec()),
    {
        let n: usize = data.len();
        let mut i: usize = 0;
        proof {
            assert(old(self)@ + data@.take(0) =~= old(self)@);
        }
        while i < n
            invariant
                self.wf(),
                0 <= i <= n,
                n == data@.len(),
                self.capacity_spec() == old(self).capacity_spec(),
                old(self)@.len() <= old(self).capacity_spec(),
                self@ == keep_last(old(self)@ + data@.take(i as int), old(self).capacity_spec()),
            decreases n - i,
        {
            let byte = data[i];
            self.push_back(byte);
            proof {
                let cap = old(self).capacity_spec();
                let x = old(self)@ + data@.take(i as int);
                assert(old(self)@ + data@.take(i + 1) =~= x.push(byte));
                lemma_keep_last_push(x, byte, cap);
            }
            i = i + 1;
        }
        proof {
            assert(data@.take(n as int) =~= data@);
        }
    }

    /// Appends one byte; when the ring is full the oldest byte is dropped.
    pub fn push_back(&mut self, value: u8)
        requires
            old(self).wf(),
        ensures
            final(self).wf(),
            final(self).capacity_spec() == old(self).capacity_spec(),
            final(self)@.len() <= final(self).capacity_spec(),
            final(self)@ == keep_last(old(self)@.push(value), old(self).capacity_spec()),
    {
        let ghost before = self@;
        if self.capacity == 0 {
            assert(self@ =~= keep_last(before.push(value), 0));
            return;
        }
        let end: usize = if self.start < self.capacity - self.len {
            self.start + self.len
        } else {
            self.start - (self.capacity - self.len)
        };
        self.buffer.set(end, value);
        if self.len < self.capacity {
            self.len = self.len + 1;
            assert(self@ =~= before.push(value));
        } else {
            self.start = if self.start + 1 < self.capacity {
                self.start + 1
            } else {
                0
            };
            assert(self@ =~= before.push(value).subrange(1, before.len() as int + 1));
        }
    }

    /// Removes and returns the oldest byte, if any.
    pub fn pop_front(&mut self) -> (r: Option<u8>)
        requires
            old(self).wf(),
        ensures
            final(self).wf(),
            final(self).capacity_spec() == old(self).capacity_spec(),
            final(self)@.len() <= final(self).capacity_spec(),
            old(self)@.len() == 0 ==> r is None && final(self)@ == old(self)@,
            old(self)@.len() > 0 ==> r == Some(old(self)@[0]) && final(self)@
                == old(self)@.drop_first(),
    {
        if self.len == 0 {
            None
        } else {
            let ghost before = self@;
            let value = self.buffer[self.start];
            self.start = if self.start + 1 < self.capacity {
                self.start + 1
            } else {
                0
            };
            self.len = self.len - 1;
            assert(self@ =~= before.drop_first());
            Some(value)
        }
    }

    pub fn is_empty(&self) -> (r: bool)
        requires
            self.wf(),
        ensures
            r == (self@.len() == 0),
    {
        self.len == 0
    }
}

/// Keeping the last `capacity` bytes after each push is the same as keeping
/// them once at the end.
pub proof fn lemma_keep_last_push(s: Seq<u8>, v: u8, capacity: nat)
    ensures
        keep_last(keep_last(s, capacity).push(v), capacity) == keep_last(s.push(v), capacity),
{
    let k = keep_last(s, capacity);
    if s.len() <= capacity {
    } else {
        assert(keep_last(k.push(v), capacity) =~= keep_last(s.push(v), capacity));
    }
}

} // verus!
