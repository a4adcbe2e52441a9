use vstd::prelude::*;
use std::collections::VecDeque;
use crate::rng::gen_index;

verus! {

/// Replay memory: the most recent experiences, at most `capacity` of them,
/// oldest first, and the number drawn for each training batch.
pub struct Memory<T> {
    pub memories: VecDeque<T>,
    pub capacity: usize,
    pub batch_size: usize,
}

/// The memories after remembering `x`: the oldest is forgotten first when
/// `capacity` or more are held.
pub open spec fn remembered<T>(m: Seq<T>, capacity: usize, x: T) -> Seq<T> {
    if m.len() >= capacity && m.len() > 0 { m.drop_first().push(x) } else { m.push(x) }
}

/// `x` is one of the memories `m`.
pub open spec fn held<T>(m: Seq<T>, x: T) -> bool {
    exists|j: int| 0 <= j < m.len() && m[j] == x
}

impl<T> Memory<T> {
    /// An empty memory.
    pub fn new(memory_capacity: usize, batch_size: usize) -> (r: Memory<T>)
        ensures
            r.memories@ == Seq::<T>::empty(),
            r.capacity == memory_capacity,
            r.batch_size == batch_size,
    {
        Memory { memories: VecDeque::with_capacity(memory_capacity), capacity: memory_capacity, batch_size }
    }

    /// Remembers `node`, forgetting the oldest experience when the memory is full.
    pub fn push(&mut self, node: T)
        ensures
            final(self).memories@ == remembered(old(self).memories@, old(self).capacity, node),
            final(self).capacity == old(self).capacity,
            final(self).batch_size == old(self).batch_size,
    {
        if self.memories.len() >= self.capacity {
            let _ = self.memories.pop_front();
        }
        self.memories.push_back(node);
        assert(self.memories@ =~= remembered(old(self).memories@, old(self).capacity, node));
    }

    /// The experiences at `indices`, in that order.
    pub fn batch_at(&self, indices: &Vec<usize>) -> (r: Vec<&T>)
        requires
            forall|i: int| 0 <= i < indices@.len() ==> #[trigger] indices@[i] < self.memories@.len(),
        ensures
            r@.len() == indices@.len(),
            forall|i: int| 0 <= i < indices@.len() ==> *(#[trigger] r@[i]) == self.memories@[indices@[i] as int],
    {
        let mut r: Vec<&T> = Vec::new();
        for i in 0..indices.len()
            invariant
                forall|q: int| 0 <= q < indices@.len() ==> #[trigger] indices@[q] < self.memories@.len(),
                r@.len() == i,
                forall|q: int| 0 <= q < i ==> *(#[trigger] r@[q]) == self.memories@[indices@[q] as int],
        {
            let k = indices[i];
            assert(k < self.memories@.len());
            r.push(&self.memories[k]);
        }
        r
    }

    /// A training batch of `batch_size` experiences, each drawn uniformly at
    /// random (with repeats) from the memory.
    pub fn batch(&self) -> (r: Vec<&T>)
        requires
            self.batch_size > 0 ==> self.memories@.len() > 0,
        ensures
            r@.len() == self.batch_size,
            forall|i: int| 0 <= i < r@.len() ==> #[trigger] held(self.memories@, *r@[i]),
    {
        let mut indices: Vec<usize> = Vec::new();
        for i in 0..self.batch_size
            invariant
                self.batch_size > 0 ==> self.memories@.len() > 0,
                indices@.len() == i,
                forall|q: int| 0 <= q < i ==> #[trigger] indices@[q] < self.memories@.len(),
        {
            let k = gen_index(self.memories.len());
            indices.push(k);
        }
        let r = self.batch_at(&indices);
        assert forall|i: int| 0 <= i < r@.len() implies #[trigger] held(self.memories@, *r@[i]) by {
            let j = indices@[i] as int;
            assert(0 <= j < self.memories@.len() && *r@[i] == self.memories@[j]);
        }
        r
    }
}

/// A memory never holds more than its capacity: remembering into a memory
/// of positive capacity that is within it leaves it within it, and it grows
/// by one until it is full.
pub proof fn lemma_memory_bounded<T>(m: Seq<T>, capacity: usize, x: T)
    requires
        capacity > 0,
        m.len() <= capacity,
    ensures
        remembered(m, capacity, x).len() <= capacity,
        m.len() < capacity ==> remembered(m, capacity, x).len() == m.len() + 1,
{
}

/// Memory is first in, first out: remembering keeps every experience after
/// the forgotten one, in order, and the newest comes last.
pub proof fn lemma_memory_fifo<T>(m: Seq<T>, capacity: usize, x: T)
    ensures
        remembered(m, capacity, x).last() == x,
        ({
            let r = remembered(m, capacity, x);
            let dropped: int = if m.len() >= capacity && m.len() > 0 { 1 } else { 0 };
            forall|i: int| dropped <= i < m.len() ==> #[trigger] r[i - dropped] == m[i]
        }),
{
}

} // verus!
