//! The bump block: linear allocation of header-prefixed blocks in one
//! region.

use crate::cycle::Header;
use crate::memory::Memory;
use crate::space::{lemma_chain_ordered, Space, BLOCK_HEADER_SIZE};
use vstd::prelude::*;

verus! {

/// A region and the offset of its first free byte.
pub struct Block {
    pub(crate) memory: Memory,
    pub(crate) offset: usize,
    pub(crate) bounds: Ghost<Seq<int>>,
}

impl Block {
    /// The region with the blocks allocated so far.
    pub open(crate) spec fn space(&self) -> Space {
        Space { base: self.memory.base as int, mem: self.memory@, bounds: self.bounds@ }
    }

    /// Bytes in use: the offset of the first free byte.
    pub open(crate) spec fn offset(&self) -> int {
        self.offset as int
    }

    /// Size of the region in bytes.
    pub open(crate) spec fn capacity(&self) -> int {
        self.memory.bytes()
    }

    /// The blocks tile the region up to the offset.
    pub open(crate) spec fn wf(&self) -> bool {
        &&& self.memory.wf()
        &&& self.space().chain()
        &&& self.offset == 8 * self.space().used()
    }

    /// Whether a block with `size` bytes after its block header fits.
    pub open(crate) spec fn fits(&self, size: int) -> bool {
        self.offset() + size + 16 <= self.capacity()
    }

    /// The space with one more block of `n` words, its block header
    /// written and the rest as the region held it.
    pub open spec fn grown(s: Space, n: int) -> Space {
        Space {
            base: s.base,
            mem: s.mem.update(s.used(), 0).update(s.used() + 1, (8 * n) as u64),
            bounds: s.bounds.push(s.used() + n),
        }
    }

    /// An empty block over `memory`.
    pub fn new(memory: Memory) -> (b: Block)
        requires
            memory.wf(),
        ensures
            b.wf(),
            b.offset() == 0,
            b.space().count() == 0,
            b.space().base == memory.base(),
            b.space().mem == memory@,
    {
        Block { memory, offset: 0, bounds: Ghost(Seq::empty().push(0int)) }
    }

    /// Allocates a block with room for `size` bytes after its block header
    /// and returns the address of the first of them, or null if the region
    /// has no room for it.
    ///
    /// The block header of the new block says that it has not moved and
    /// gives its size, block header included.  The offset never goes back.
    pub fn allocate(&mut self, size: usize) -> (r: usize)
        requires
            old(self).wf(),
            size % 8 == 0,
            size >= 8,
        ensures
            final(self).wf(),
            r != 0 <==> old(self).fits(size as int),
            r == 0 ==> *final(self) == *old(self),
            r != 0 ==> {
                &&& r == old(self).space().base + old(self).offset() + 16
                &&& final(self).offset() == old(self).offset() + size + 16
                &&& final(self).space() == Self::grown(old(self).space(), (size as int + 16) / 8)
            },
            final(self).offset() >= old(self).offset(),
    {
        proof {
            lemma_chain_ordered(self.space(), 0, self.space().count());
        }
        let capacity: usize = self.memory.size();
        if size > capacity || capacity - size < BLOCK_HEADER_SIZE || self.offset > capacity - size
            - BLOCK_HEADER_SIZE {
            return 0;
        }
        let total: usize = size + BLOCK_HEADER_SIZE;
        let start: usize = self.offset / 8;
        Header::new(total).store(&mut self.memory, start);
        proof {
            self.bounds@ = self.bounds@.push(start + total / 8);
            let g = self.space();
            assert forall|i: int| 0 <= i < g.count() implies #[trigger] g.link(i) by {
                if i < g.count() - 1 {
                    assert(old(self).space().link(i));
                    lemma_chain_ordered(old(self).space(), i + 1, old(self).space().count());
                }
            }
        }
        self.offset += total;
        self.memory.base + start * 8 + BLOCK_HEADER_SIZE
    }

    /// Whether `ptr` is the address of an object of the region.  The
    /// blocks are walked from the first, by their sizes, until one holds
    /// the address or none is left.
    pub fn holds(&self, ptr: usize) -> (b: bool)
        requires
            self.wf(),
        ensures
            b == self.space().is_object(ptr as int),
    {
        let used: usize = self.offset / 8;
        let mut at: usize = 0;
        let ghost mut k: int = 0;
        while at < used
            invariant
                self.wf(),
                used == self.space().used(),
                0 <= k <= self.space().count(),
                at == self.space().bounds[k],
                forall|i: int| 0 <= i < k ==> #[trigger] self.space().addr(i) != ptr,
            decreases self.space().count() - k,
        {
            proof {
                assert(k < self.space().count());
                assert(self.space().link(k));
                lemma_chain_ordered(self.space(), k + 1, self.space().count());
            }
            if self.memory.base + 8 * (at + 2) == ptr {
                assert(self.space().addr(k) == ptr);
                return true;
            }
            let size: u64 = self.memory.get(at + 1);
            at = at + (size / 8) as usize;
            proof {
                k = k + 1;
            }
        }
        proof {
            if k < self.space().count() {
                assert(self.space().link(k));
                lemma_chain_ordered(self.space(), k + 1, self.space().count());
            }
        }
        false
    }
}

} // verus!
