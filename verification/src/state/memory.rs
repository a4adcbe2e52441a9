use vstd::prelude::*;

verus! {

/// The number of experiences a fresh memory keeps.
pub const DEFAULT_CAPACITY: usize = 10_000;

/// Replay memory: the most recent experiences, at most `capacity` of them,
/// oldest first.
pub struct Memory<T> {
    pub memories: Vec<T>,
    pub capacity: usize,
}

impl<T> Memory<T> {
    /// An empty memory of the default capacity.
    pub fn new() -> (r: Memory<T>)
        ensures
            r.memories@ == Seq::<T>::empty(),
            r.capacity == DEFAULT_CAPACITY,
    {
        Memory { memories: Vec::new(), capacity: DEFAULT_CAPACITY }
    }

    /// Remembers `node`, forgetting the oldest experience when the memory is
    /// full (a memory of capacity zero must hold something to forget).
    pub fn push(&mut self, node: T)
        requires
            old(self).capacity > 0 || old(self).memories@.len() > 0,
        ensures
            final(self).memories@ == crate::env::memory::remembered(old(self).memories@, old(self).capacity, node),
            final(self).capacity == old(self).capacity,
    {
        if self.memories.len() >= self.capacity {
            let _ = self.memories.remove(0);
        }
        self.memories.push(node);
        assert(self.memories@ =~= crate::env::memory::remembered(old(self).memories@, old(self).capacity, node));
    }
}

} // verus!
