//! The interface between a heap and the collector behind it, and the
//! simplest allocator there is: a bump pointer over one region.

use crate::collect::collected;
use crate::copying::{appended, Copying};
use crate::handles::GcHandles;
use crate::memory::{round_up, Memory, Pages};
use crate::space::lemma_kept_bounded;
use crate::types::{GcType, GcTypes};
use vstd::prelude::*;

verus! {

/// What a heap asks of the collector behind it.
pub trait Strategy: Sized {
    /// The collector is in order.
    spec fn ready(&self) -> bool;

    /// Bytes in use.
    spec fn in_use(&self) -> int;

    /// Bytes reserved.
    spec fn reserved(&self) -> int;

    /// Whether the heap is in the state that a collection expects, with
    /// the types `types` and the roots `roots`.
    spec fn collectable(&self, types: Seq<GcType>, roots: Seq<usize>) -> bool;

    /// Whether there is room for `size` bytes as things are, without a
    /// collection.
    spec fn has_room(&self, size: int) -> bool;

    /// The step from `self` to `next` is what a request for `size` bytes
    /// does when it is answered with `r`: the address of the room that was
    /// made, or null.
    spec fn allocates(&self, size: int, next: &Self, r: usize) -> bool;

    /// Whether a collection can be had as things are.
    spec fn can_gc(&self) -> bool;

    /// Whether a collection can be had as things are.
    fn can_gc_now(&self) -> (b: bool)
        requires
            self.ready(),
        ensures
            b == self.can_gc(),
    ;

    /// The step from `self` with the roots `roots` to `next` with the roots
    /// `new_roots` is a collection: what could be reached is kept, nothing
    /// else is, and the roots stand for what they stood for.
    spec fn collects(
        &self,
        types: Seq<GcType>,
        roots: Seq<usize>,
        next: &Self,
        new_roots: Seq<usize>,
    ) -> bool;

    /// Allocates room for `size` bytes and returns its address, or null
    /// if there is no room.  What is in use never shrinks by allocating.
    fn alloc_raw(&mut self, size: usize) -> (r: usize)
        requires
            old(self).ready(),
            8 <= size <= usize::MAX - 23,
        ensures
            final(self).ready(),
            r != 0 <==> old(self).has_room(size as int),
            old(self).allocates(size as int, final(self), r),
            r == 0 ==> final(self).in_use() == old(self).in_use(),
            r != 0 ==> final(self).in_use() >= old(self).in_use() + size,
            final(self).reserved() == old(self).reserved(),
    ;

    /// Bytes reserved.
    fn mem_allocated(&self) -> (n: usize)
        requires
            self.ready(),
        ensures
            n == self.reserved(),
    ;

    /// Bytes in use.
    fn mem_used(&self) -> (n: usize)
        ensures
            n == self.in_use(),
    ;

    /// Collects what cannot be reached from the roots of `handles`, and
    /// rewrites the roots where what they stand for has moved.  Which
    /// handles are in use stays as it is.  What is in use never grows by
    /// collecting.
    fn gc(&mut self, types: &GcTypes, handles: &mut GcHandles)
        requires
            old(self).ready(),
            old(self).can_gc(),
            types.wf(),
            old(handles).wf(),
            old(self).collectable(types@, old(handles).roots()),
        ensures
            final(self).ready(),
            final(handles).wf(),
            final(self).collectable(types@, final(handles).roots()),
            final(self).in_use() <= old(self).in_use(),
            old(self).collects(types@, old(handles).roots(), final(self), final(handles).roots()),
            final(handles).slots().len() == old(handles).slots().len(),
            final(handles).locals().len() == old(handles).locals().len(),
            final(handles).free_list() == old(handles).free_list(),
    ;
}

impl Strategy for Copying {
    open(crate) spec fn ready(&self) -> bool {
        self.wf()
    }

    open(crate) spec fn in_use(&self) -> int {
        self.used()
    }

    open(crate) spec fn reserved(&self) -> int {
        self.capacity() + self.reserve()
    }

    open(crate) spec fn collectable(&self, types: Seq<GcType>, roots: Seq<usize>) -> bool {
        self.space().heap_ok(types) && self.space().roots_ok(roots)
    }

    /// A block for `size` bytes, rounded up to whole words, fits in the
    /// from-space.
    open(crate) spec fn has_room(&self, size: int) -> bool {
        self.fits(round_up(size, 8))
    }

    /// The regions stay where they are.  A request that is answered with
    /// null is remembered and changes nothing else.  One that is answered
    /// with an address has appended a block to the from-space: the address
    /// is that of the first byte after its block header, and the bytes
    /// asked for are zero.
    open(crate) spec fn allocates(&self, size: int, next: &Copying, r: usize) -> bool {
        &&& self.keeps_regions(next)
        &&& r == 0 ==> *next == self.after_failure(round_up(size, 8))
        &&& r != 0 ==> {
            &&& r == self.space().base + self.used() + 16
            &&& next.used() == self.used() + round_up(size, 8) + 16
            &&& appended(self.space(), next.space(), (round_up(size, 8) + 16) / 8)
            &&& next.last_failed() == self.last_failed()
        }
    }

    /// The to-space that the collection wants is there or can be
    /// reserved.
    open(crate) spec fn can_gc(&self) -> bool {
        self.can_collect()
    }

    /// The from-space of `next` is what `collected` says a collection
    /// makes of the from-space of `self`; the regions have changed places
    /// and the sizing policy has taken note, as `resized` says.
    open(crate) spec fn collects(
        &self,
        types: Seq<GcType>,
        roots: Seq<usize>,
        next: &Copying,
        new_roots: Seq<usize>,
    ) -> bool {
        &&& exists|fwd: Map<int, int>| #[trigger]
            collected(types, self.space(), roots, next.space(), new_roots, fwd)
        &&& self.resized(next)
        &&& next.used() == 8 * self.space().live_words(types, roots)
    }

    fn alloc_raw(&mut self, size: usize) -> (r: usize) {
        Copying::alloc_raw(self, size)
    }

    fn mem_allocated(&self) -> (n: usize) {
        Copying::mem_allocated(self)
    }

    fn mem_used(&self) -> (n: usize) {
        Copying::mem_used(self)
    }

    fn can_gc_now(&self) -> (b: bool) {
        self.can_collect_now()
    }

    fn gc(&mut self, types: &GcTypes, handles: &mut GcHandles) {
        proof {
            lemma_kept_bounded(
                self.space(),
                self.space().live(types@, handles.roots()),
                self.space().count(),
            );
        }
        let fwd = Copying::gc(self, types, handles);
        assert(collected(
            types@,
            old(self).space(),
            old(handles).roots(),
            self.space(),
            handles.roots(),
            fwd@,
        ));
    }
}

/// Bytes that a `Compacting` reserves when it is made.
pub const INITIAL: usize = 524288;

/// A region that is filled from its start by bumping an offset.  Nothing
/// is ever given back.
pub struct Compacting {
    pub(crate) memory: Memory,
    pub(crate) offset: usize,
}

impl Compacting {
    /// Bytes in use: the offset of the first free byte.
    pub open(crate) spec fn offset(&self) -> int {
        self.offset as int
    }

    /// Size of the region in bytes.
    pub open(crate) spec fn capacity(&self) -> int {
        self.memory.bytes()
    }

    /// First byte address of the region.
    pub open(crate) spec fn base(&self) -> int {
        self.memory.base()
    }

    /// The region is not empty and the offset lies inside it.
    pub open(crate) spec fn wf(&self) -> bool {
        self.memory.wf() && 0 < self.capacity() && self.offset() <= self.capacity()
    }

    /// An empty region of `INITIAL` bytes.
    pub fn new() -> (c: Compacting)
        ensures
            c.wf(),
            c.offset() == 0,
            c.capacity() == INITIAL,
    {
        let mut pages = Pages::new();
        match pages.reserve(INITIAL) {
            Some(memory) => Compacting { memory, offset: 0 },
            None => {
                assert(false);
                Compacting { memory: Memory::empty(), offset: 0 }
            },
        }
    }

    /// Hands out the next `size` bytes and returns their address, or
    /// returns null, and changes nothing, if fewer are left.
    pub fn alloc_raw(&mut self, size: usize) -> (r: usize)
        requires
            old(self).wf(),
        ensures
            final(self).wf(),
            final(self).capacity() == old(self).capacity(),
            final(self).base() == old(self).base(),
            r != 0 <==> old(self).offset() + size <= old(self).capacity(),
            r == 0 ==> final(self).offset() == old(self).offset(),
            r != 0 ==> r == old(self).base() + old(self).offset(),
            r != 0 ==> final(self).offset() == old(self).offset() + size,
    {
        let capacity: usize = self.memory.size();
        if size > capacity - self.offset {
            0
        } else {
            let ptr: usize = self.memory.ptr() + self.offset;
            self.offset += size;
            ptr
        }
    }
}

} // verus!
