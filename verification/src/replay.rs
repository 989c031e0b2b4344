//! The ring store of the replay buffer: it keeps up to `capacity` items and,
//! once full, overwrites the oldest slot; sampling draws random slots.

use vstd::prelude::*;
use crate::random::random_u64;

verus! {

/// A ring of at most `capacity` items.
#[derive(Debug)]
pub struct ReplayRing<T> {
    items: Vec<T>,
    capacity: usize,
    position: usize,
    filled: usize,
}

impl<T> View for ReplayRing<T> {
    /// The stored items by slot, the capacity, the next slot to write and
    /// the number of filled slots.
    type V = (Seq<T>, usize, usize, usize);

    closed spec fn view(&self) -> (Seq<T>, usize, usize, usize) {
        (self.items@, self.capacity, self.position, self.filled)
    }
}

impl<T> ReplayRing<T> {
    /// Items fill slots 0, 1, ... until the capacity is reached; the next
    /// slot to write is within the capacity, and the filled count is the
    /// number of stored items.
    pub open spec fn wf(&self) -> bool {
        let (items, capacity, position, filled) = self@;
        &&& items.len() <= capacity
        &&& filled == items.len()
        &&& (capacity == 0 ==> position == 0)
        &&& (capacity > 0 ==> position < capacity)
        &&& (items.len() < capacity ==> position == items.len())
    }

    /// An empty ring for up to `capacity` items.
    pub fn new(capacity: usize) -> (r: ReplayRing<T>)
        ensures
            r.wf(),
            r@ == (Seq::<T>::empty(), capacity, 0usize, 0usize),
    {
        ReplayRing { items: Vec::new(), capacity, position: 0, filled: 0 }
    }

    /// Stores an item and returns its slot: the next free slot while the
    /// ring is not full, otherwise the slot at the write position, whose old
    /// item is replaced. The write position moves on by one, wrapping at the
    /// capacity.
    pub fn push(&mut self, item: T) -> (slot: usize)
        requires
            old(self).wf(),
            old(self)@.1 > 0,
        ensures
            final(self).wf(),
            slot == old(self)@.2,
            old(self)@.0.len() < old(self)@.1 ==> final(self)@.0 == old(self)@.0.push(item),
            old(self)@.0.len() >= old(self)@.1 ==> final(self)@.0 == old(self)@.0.update(slot as int, item),
            final(self)@.1 == old(self)@.1,
            final(self)@.2 == (old(self)@.2 + 1) % (old(self)@.1 as int),
    {
        let slot = self.position;
        if self.items.len() < self.capacity {
            self.items.push(item);
        } else {
            self.items.set(self.position, item);
        }
        let next = self.position + 1;
        let cap = self.capacity;
        proof {
            assert(next % cap < cap) by (nonlinear_arith) requires cap > 0;
            if next < cap {
                assert(next % cap == next) by (nonlinear_arith) requires 0 <= next < cap;
            } else {
                assert(next == cap);
                assert(next % cap == 0) by (nonlinear_arith) requires next == cap, cap > 0;
            }
        }
        self.position = next % cap;
        self.filled = if self.filled < self.capacity { self.filled + 1 } else { self.capacity };
        slot
    }

    /// The number of stored items.
    pub fn len(&self) -> (n: usize)
        ensures
            n == self@.0.len(),
    {
        self.items.len()
    }

    /// Whether no item is stored.
    pub fn is_empty(&self) -> (b: bool)
        ensures
            b == (self@.0.len() == 0),
    {
        self.items.len() == 0
    }

    /// Whether the ring holds `capacity` items.
    pub fn is_full(&self) -> (b: bool)
        ensures
            b == (self@.0.len() >= self@.1),
    {
        self.items.len() >= self.capacity
    }

    /// The capacity.
    pub fn capacity(&self) -> (c: usize)
        ensures
            c == self@.1,
    {
        self.capacity
    }

    /// The next slot to write.
    pub fn position(&self) -> (p: usize)
        ensures
            p == self@.2,
    {
        self.position
    }

    /// The number of filled slots.
    pub fn filled(&self) -> (f: usize)
        ensures
            f == self@.3,
    {
        self.filled
    }

    /// The item in `slot`.
    pub fn get(&self, slot: usize) -> (r: &T)
        requires
            slot < self@.0.len(),
        ensures
            *r == self@.0[slot as int],
    {
        &self.items[slot]
    }

    /// Removes every item and rewinds the write position.
    pub fn clear(&mut self)
        ensures
            final(self)@ == (Seq::<T>::empty(), old(self)@.1, 0usize, 0usize),
            final(self).wf(),
    {
        self.items.clear();
        self.position = 0;
        self.filled = 0;
    }

    /// Up to `batch_size` random slots (as many as stored items at most),
    /// each a fresh random draw modulo the number of stored items; none when
    /// the ring is empty. Whatever the draws, the slots are those of some draws.
    pub fn sample_uniform(&self, batch_size: usize) -> (slots: Vec<usize>)
        ensures
            slots@.len() == (if batch_size <= self@.0.len() { batch_size as nat } else { self@.0.len() }),
            forall|k: int| 0 <= k < slots@.len() ==> #[trigger] slots@[k] < self@.0.len(),
            exists|draws: Seq<u64>| #[trigger] draws.len() == slots@.len()
                && forall|k: int| 0 <= k < slots@.len() ==> #[trigger] slots@[k] == (draws[k] as int) % (self@.0.len() as int),
    {
        let n = self.items.len();
        let take = if batch_size <= n { batch_size } else { n };
        let mut slots: Vec<usize> = Vec::new();
        let ghost mut draws: Seq<u64> = Seq::empty();
        let mut k: usize = 0;
        while k < take
            invariant
                n == self@.0.len(),
                take <= n,
                0 <= k <= take,
                slots@.len() == k,
                draws.len() == k,
                forall|m: int| 0 <= m < k ==> #[trigger] slots@[m] < n,
                forall|m: int| 0 <= m < k ==> #[trigger] slots@[m] == (draws[m] as int) % (n as int),
            decreases take - k,
        {
            let draw = random_u64();
            let s = slot_of_draw(draw, n);
            slots.push(s);
            proof {
                draws = draws.push(draw);
            }
            k += 1;
        }
        assert(draws.len() == slots@.len());
        slots
    }
}

/// The slot a random draw picks among `n` slots: the draw modulo `n`.
pub fn slot_of_draw(draw: u64, n: usize) -> (s: usize)
    requires
        n > 0,
    ensures
        s == (draw as int) % (n as int),
        s < n,
{
    let s = draw % (n as u64);
    s as usize
}

} // verus!
