//! The heap: a type registry, a handle table and a copying collector
//! behind one set of entry points.

use crate::collect::{collected, word_moved};
use crate::copying::{appended, Copying, Fill};
use crate::handle::{Gc, GcVec};
use crate::handles::{GcHandles, GcRoot};
use crate::survive::{lemma_moved_copy, lemma_root_stable};
use crate::memory::{round_up, PTR_SIZE};
use crate::mutate::{
    extends, fresh, item_ok, item_start, lemma_data_write, lemma_fresh_ok, lemma_item_bounds,
    lemma_pointer_write, lemma_store_item, lemma_types_grow, lemma_write_chain, lemma_write_ok,
};
use crate::opts::{GcError, GcOpts};
use crate::space::{
    lemma_chain_ordered, lemma_index_of, lemma_object_placed, Space, OBJECT_HEADER_SIZE,
};
use crate::types::{header_is_array, header_type, GcMemHeader, GcType, GcTypeId, GcTypes};
use vstd::prelude::*;

verus! {

/// The address of an object.  It is good until the next collection, which
/// may move the object.
#[derive(Copy, Clone, Debug, PartialEq, Eq)]
pub struct GcPtr {
    pub(crate) ptr: usize,
}

impl GcPtr {
    /// The address as a number.
    pub open(crate) spec fn addr(&self) -> int {
        self.ptr as int
    }

    /// The pointer with address `ptr`.
    pub open(crate) spec fn at(ptr: usize) -> GcPtr {
        GcPtr { ptr }
    }

    /// The address as a number.
    pub fn usize(&self) -> (a: usize)
        ensures
            a == self.addr(),
    {
        self.ptr
    }

    /// The pointer with address `ptr`.
    pub fn from_usize(ptr: usize) -> (p: GcPtr)
        ensures
            p.addr() == ptr,
    {
        GcPtr { ptr }
    }
}

/// The address of an array.  It is good until the next collection, which
/// may move the array.
#[derive(Copy, Clone, Debug, PartialEq, Eq)]
pub struct GcVecPtr {
    pub(crate) ptr: usize,
}

impl GcVecPtr {
    /// The address as a number.
    pub open(crate) spec fn addr(&self) -> int {
        self.ptr as int
    }

    /// The pointer with address `ptr`.
    pub open(crate) spec fn at(ptr: usize) -> GcVecPtr {
        GcVecPtr { ptr }
    }

    /// The same address, as the address of an object.
    pub fn to_ptr(&self) -> (p: GcPtr)
        ensures
            p == self.as_ptr(),
    {
        GcPtr { ptr: self.ptr }
    }

    /// The same address, as the address of an object.
    pub open(crate) spec fn as_ptr(&self) -> GcPtr {
        GcPtr { ptr: self.ptr }
    }

    /// The address as a number.
    pub fn usize(&self) -> (a: usize)
        ensures
            a == self.addr(),
    {
        self.ptr
    }

    /// The pointer with address `ptr`.
    pub fn from_usize(ptr: usize) -> (p: GcVecPtr)
        ensures
            p.addr() == ptr,
    {
        GcVecPtr { ptr }
    }

    /// Number of items of the array.
    pub fn len(&self, heap: &GcHeap) -> (n: usize)
        requires
            heap.wf(),
            heap.is_object(self.as_ptr()),
            heap.is_array(self.as_ptr()),
        ensures
            n == heap.array_len(*self),
    {
        heap.len(*self)
    }

    /// The payloads of the items of the array, one after another.
    pub fn as_slice<'a>(&self, heap: &'a GcHeap) -> (words: &'a [u64])
        requires
            heap.wf(),
            heap.is_object(self.as_ptr()),
        ensures
            words@ == heap.payload(self.as_ptr()),
    {
        heap.as_slice(self.to_ptr())
    }
}

/// A local root: a position in the stack of local roots.  It is good until
/// the scope in which it was made is closed.
pub struct Local {
    pub(crate) index: usize,
}

impl Local {
    /// The position in the stack of local roots.
    pub open(crate) spec fn index(&self) -> int {
        self.index as int
    }
}

/// A scope for local roots: the depth of the stack of local roots when the
/// scope was opened.
pub struct LocalScope {
    pub(crate) depth: usize,
}

impl LocalScope {
    /// Number of local roots that were there when the scope was opened.
    pub open(crate) spec fn depth(&self) -> int {
        self.depth as int
    }
}

/// A garbage-collected heap.
pub struct GcHeap {
    pub(crate) types: GcTypes,
    pub(crate) handles: GcHandles,
    pub(crate) heap: Copying,
}

/// Bytes that a block takes whose object header and payload ask for
/// `size` bytes: these rounded up to whole words, and the block header.
pub open spec fn block_bytes(size: int) -> int {
    round_up(size, 8) + 16
}

impl GcHeap {
    /// The registered types.
    pub open spec fn registry(&self) -> Seq<GcType> {
        self.type_registry()@
    }

    /// The registry itself.
    pub open(crate) spec fn type_registry(&self) -> GcTypes {
        self.types
    }

    /// The from-space with the objects allocated so far.
    pub open spec fn space(&self) -> Space {
        self.collector().space()
    }

    /// The handle table and the local roots.
    pub open(crate) spec fn handles(&self) -> GcHandles {
        self.handles
    }

    /// The collector.
    pub open(crate) spec fn collector(&self) -> Copying {
        self.heap
    }

    /// Every root: the handle table, then the local roots.
    pub open spec fn roots(&self) -> Seq<usize> {
        self.handles().roots()
    }

    /// Bytes in use in the from-space.
    pub open spec fn used(&self) -> int {
        self.collector().used()
    }

    /// Whether `ptr` is the address of an object of the heap.
    pub open spec fn is_object(&self, ptr: GcPtr) -> bool {
        self.space().is_object(ptr.addr())
    }

    /// The registry, the handle table and the collector are in order; the
    /// from-space is in the state in which a collection expects it; every
    /// root is null or the address of an object.
    pub open spec fn wf(&self) -> bool {
        &&& self.type_registry().wf()
        &&& self.handles().wf()
        &&& self.collector().wf()
        &&& self.space().heap_ok(self.registry())
        &&& self.space().roots_ok(self.roots())
    }

    /// `next` is what a collection makes of this heap, moving objects as
    /// `fwd` says: old address to new address.
    pub open spec fn moves_to(&self, next: &GcHeap, fwd: Map<int, int>) -> bool {
        &&& next.registry() == self.registry()
        &&& next.handles().slots().len() == self.handles().slots().len()
        &&& next.handles().locals().len() == self.handles().locals().len()
        &&& next.handles().free_list() == self.handles().free_list()
        &&& self.collector().resized(&next.collector())
        &&& collected(self.registry(), self.space(), self.roots(), next.space(), next.roots(), fwd)
    }

    /// `next` is what a collection makes of this heap.
    pub open spec fn collects_to(&self, next: &GcHeap) -> bool {
        exists|fwd: Map<int, int>| #[trigger] self.moves_to(next, fwd)
    }

    /// A heap for the settings `opts`, with an empty from-space of
    /// `opts.initial_heap` bytes, rounded up to whole pages, no to-space
    /// yet, no types and no roots.  Nothing is known of a collection or a
    /// failed allocation.
    pub fn new(opts: GcOpts) -> (heap: GcHeap)
        requires
            opts.startable(),
        ensures
            heap.wf(),
            heap.registry().len() == 0,
            heap.handles().slots().len() == 0,
            heap.handles().free_list().len() == 0,
            heap.handles().locals().len() == 0,
            heap.space().count() == 0,
            heap.space().base == 4096,
            heap.used() == 0,
            heap.collector().opts() == opts,
            heap.collector().capacity() == round_up(opts.initial_heap as int, 4096),
            heap.collector().reserve() == 0,
            heap.collector().reserve_base() == 0,
            heap.collector().frontier() == 4096 + round_up(opts.initial_heap as int, 4096),
            heap.collector().last_used() == (Fill { used: 0, allocated: 0 }),
            heap.collector().last_failed() == 0,
            heap.collector().last_size() == 0,
    {
        GcHeap { types: GcTypes::new(), handles: GcHandles::new(), heap: Copying::new(opts) }
    }

    /// The registry, for registering types.
    ///
    /// Types can be added at any time; what is registered stays as it is,
    /// under the id it has.
    pub fn types(&mut self) -> (types: &mut GcTypes)
        ensures
            *types == old(self).type_registry(),
            final(self).type_registry() == *final(types),
            final(self).handles() == old(self).handles(),
            final(self).collector() == old(self).collector(),
    {
        &mut self.types
    }

    /// Registers `ty` and returns its id.
    pub fn add_type(&mut self, ty: GcType) -> (id: GcTypeId)
        requires
            old(self).wf(),
            ty.wf(),
            old(self).registry().len() < crate::types::MAX_TYPES,
        ensures
            final(self).wf(),
            final(self).registry() == old(self).registry().push(ty),
            id.index() == old(self).registry().len(),
            final(self).handles() == old(self).handles(),
            final(self).collector() == old(self).collector(),
    {
        let id = self.types().add(ty);
        proof {
            lemma_registry_grows(*old(self), *self);
        }
        id
    }

    /// Whether a collection can be had: the to-space that it wants is
    /// there or can be reserved.
    pub fn can_gc(&self) -> (b: bool)
        requires
            self.wf(),
        ensures
            b == self.collector().can_collect(),
    {
        self.heap.can_collect_now()
    }

    /// Collects the heap.
    ///
    /// Every object that can be reached from a root survives, with its
    /// header and payload as they were but for the pointer slots, which
    /// hold the new addresses of what they pointed to; so do the roots.
    /// Nothing else survives.  The to-space that the collection wants must
    /// be there or be reservable.
    pub fn gc(&mut self)
        requires
            old(self).wf(),
            old(self).collector().can_collect(),
        ensures
            final(self).wf(),
            old(self).collects_to(final(self)),
            final(self).used() == 8 * old(self).space().live_words(
                old(self).registry(),
                old(self).roots(),
            ),
    {
        let fwd = self.heap.gc(&self.types, &mut self.handles);
        assert(old(self).moves_to(self, fwd@));
    }

    /// Whether a block for `size` bytes of object header and payload fits
    /// in the from-space as it is.
    pub open spec fn fits(&self, size: int) -> bool {
        self.collector().fits(round_up(size, 8))
    }

    /// Whether room can be made for `size` bytes of object header and
    /// payload: they fit as it is, or a collection can be had and what it
    /// keeps leaves room for them.
    pub open spec fn can_allocate(&self, size: int) -> bool {
        let after = self.collector().after_failure(round_up(size, 8));
        ||| self.fits(size)
        ||| after.can_collect() && 8 * self.space().live_words(self.registry(), self.roots())
            + block_bytes(size) <= after.next_capacity()
    }

    /// What keeps `size` bytes of object header and payload from being
    /// allocated, if anything does: a block that is larger than an address
    /// can tell; or, if the block does not fit as it is, a collection that
    /// cannot have its to-space, or one that does not leave room enough.
    pub open spec fn allocation_error(&self, size: int) -> Option<GcError> {
        let after = self.collector().after_failure(round_up(size, 8));
        if size > usize::MAX - 23 {
            Some(GcError::OutOfMemory)
        } else if self.fits(size) {
            None
        } else if !after.can_collect() {
            Some(GcError::NoToSpace)
        } else if 8 * self.space().live_words(self.registry(), self.roots()) + block_bytes(size)
            <= after.next_capacity() {
            None
        } else {
            Some(GcError::OutOfMemory)
        }
    }

    /// `mid` with the roots `roots` is the heap in which an allocation of
    /// `size` bytes places its block: this heap if the block fits, else what
    /// a collection makes of it.
    pub open spec fn settles(&self, size: int, mid: Space, roots: Seq<usize>) -> bool {
        if self.fits(size) {
            mid == self.space() && roots == self.roots()
        } else {
            exists|fwd: Map<int, int>| #[trigger]
                collected(self.registry(), self.space(), self.roots(), mid, roots, fwd)
        }
    }

    /// What an allocation of `size` bytes that places its block in `mid`
    /// does to the regions and the sizing policy: nothing, if the block
    /// fits; else what a failed allocation and a collection do.
    pub open spec fn sized(&self, size: int, mid: Space, next: &GcHeap) -> bool {
        if self.fits(size) {
            &&& self.collector().keeps_regions(&next.collector())
            &&& next.collector().last_failed() == self.collector().last_failed()
        } else {
            self.collector().regrown(round_up(size, 8), 8 * mid.used(), &next.collector())
        }
    }

    /// The step from `self` to `next` found no room for `size` bytes of
    /// object header and payload.  Nothing was done if the block is larger
    /// than an address can tell.  Else the failure was noted; and if a
    /// collection could be had, the heap was collected, and the failure
    /// noted once more.
    pub open spec fn gave_up(&self, size: int, next: &GcHeap) -> bool {
        let asked = round_up(size, 8);
        let after = self.collector().after_failure(asked);
        if size > usize::MAX - 23 {
            *next == *self
        } else if !after.can_collect() {
            &&& next.type_registry() == self.type_registry()
            &&& next.handles() == self.handles()
            &&& next.collector() == after
        } else {
            &&& self.keeps_handles(next)
            &&& next.collector().last_failed() == asked
            &&& after.resized(&next.collector().after_failure(0))
            &&& exists|fwd: Map<int, int>| #[trigger]
                collected(
                    self.registry(),
                    self.space(),
                    self.roots(),
                    next.space(),
                    next.roots(),
                    fwd,
                )
        }
    }

    /// The step from `self` to `next` changed neither the registry nor
    /// which handles are in use.
    pub open spec fn keeps_handles(&self, next: &GcHeap) -> bool {
        &&& next.registry() == self.registry()
        &&& next.handles().slots().len() == self.handles().slots().len()
        &&& next.handles().locals().len() == self.handles().locals().len()
        &&& next.handles().free_list() == self.handles().free_list()
    }

    /// Allocates a block for `size` bytes of object header and payload and
    /// returns the address of the object header, which is never null.  If
    /// the block does not fit, the heap is collected once and the
    /// allocation tried once more; that it succeeds then is what is
    /// required.  The bytes are zero.
    pub(crate) fn alloc_raw(&mut self, size: usize) -> (r: (usize, Ghost<Space>))
        requires
            old(self).wf(),
            8 <= size <= usize::MAX - 23,
            old(self).can_allocate(size as int),
        ensures
            final(self).types.wf(),
            final(self).handles.wf(),
            final(self).heap.wf(),
            old(self).keeps_handles(final(self)),
            old(self).settles(size as int, r.1@, final(self).roots()),
            old(self).sized(size as int, r.1@, final(self)),
            r.1@.heap_ok(final(self).registry()),
            r.1@.roots_ok(final(self).roots()),
            appended(r.1@, final(self).space(), block_bytes(size as int) / 8),
            r.0 == r.1@.base + 8 * (r.1@.used() + 2),
            r.0 != 0,
            old(self).fits(size as int) ==> final(self).used() >= old(self).used(),
    {
        let ptr: usize = self.heap.alloc_raw(size);
        if ptr != 0 {
            return (ptr, Ghost(old(self).space()));
        }
        let fwd = self.heap.gc(&self.types, &mut self.handles);
        let ghost mid = self.space();
        let ptr: usize = self.heap.alloc_raw(size);
        (ptr, Ghost(mid))
    }

    /// The step from `self` to `next` made room for `size` bytes of object
    /// header and payload: nothing was done if they fitted; else the
    /// failure was noted and the heap collected.
    pub open spec fn made_room(&self, size: int, next: &GcHeap) -> bool {
        if self.fits(size) {
            *next == *self
        } else {
            &&& self.keeps_handles(next)
            &&& self.collector().after_failure(round_up(size, 8)).resized(&next.collector())
            &&& exists|fwd: Map<int, int>| #[trigger]
                collected(
                    self.registry(),
                    self.space(),
                    self.roots(),
                    next.space(),
                    next.roots(),
                    fwd,
                )
        }
    }

    /// Makes room for `size` bytes of object header and payload, by a
    /// collection if they do not fit as it is, or says why there is none.
    ///
    /// This is for callers that cannot know whether an allocation can
    /// succeed: after `Ok` the block fits, and an allocation of that size
    /// meets what it requires, without a further collection.
    pub fn make_room(&mut self, size: usize) -> (r: Result<(), GcError>)
        requires
            old(self).wf(),
            8 <= size <= usize::MAX - 23,
        ensures
            final(self).wf(),
            r is Ok <==> old(self).can_allocate(size as int),
            r matches Err(e) ==> old(self).allocation_error(size as int) == Some(e),
            r is Err ==> old(self).gave_up(size as int, final(self)),
            r is Ok ==> final(self).fits(size as int) && old(self).made_room(
                size as int,
                final(self),
            ),
    {
        if self.heap.fits_now(size) {
            return Ok(());
        }
        self.heap.note_failure(size);
        if !self.heap.can_collect_now() {
            return Err(GcError::NoToSpace);
        }
        let fwd = self.heap.gc(&self.types, &mut self.handles);
        let enough: bool = self.heap.fits_now(size);
        if !enough {
            self.heap.note_failure(size);
        }
        proof {
            assert(collected(
                old(self).registry(),
                old(self).space(),
                old(self).roots(),
                self.space(),
                self.roots(),
                fwd@,
            ));
        }
        if enough {
            Ok(())
        } else {
            Err(GcError::OutOfMemory)
        }
    }

    /// Makes room for an object of type `type_id`, as `make_room` does.
    pub fn make_room_for(&mut self, type_id: GcTypeId) -> (r: Result<(), GcError>)
        requires
            old(self).wf(),
            type_id.index() < old(self).registry().len(),
        ensures
            final(self).wf(),
            final(self).registry() == old(self).registry(),
            r is Ok <==> old(self).can_hold(old(self).object_size(type_id)),
            r matches Err(e) ==> old(self).allocation_error(old(self).object_size(type_id))
                == Some(e),
            r is Err ==> old(self).gave_up(old(self).object_size(type_id), final(self)),
            r is Ok ==> final(self).can_hold(final(self).object_size(type_id)) && final(self).fits(final(self).object_size(type_id)) && old(self).made_room(
                old(self).object_size(type_id),
                final(self),
            ),
    {
        let payload: usize = self.types.get(type_id).byte_size();
        if payload > usize::MAX - 31 {
            return Err(GcError::OutOfMemory);
        }
        self.make_room(payload + OBJECT_HEADER_SIZE)
    }

    /// Makes room for an array of `count` items of type `type_id`, as
    /// `make_room` does.
    pub fn make_room_for_array(&mut self, type_id: GcTypeId, count: usize) -> (r: Result<
        (),
        GcError,
    >)
        requires
            old(self).wf(),
            type_id.index() < old(self).registry().len(),
        ensures
            final(self).wf(),
            final(self).registry() == old(self).registry(),
            r is Ok <==> old(self).can_hold(old(self).array_size(type_id, count as int)),
            r matches Err(e) ==> old(self).allocation_error(
                old(self).array_size(type_id, count as int),
            ) == Some(e),
            r is Err ==> old(self).gave_up(
                old(self).array_size(type_id, count as int),
                final(self),
            ),
            r is Ok ==> final(self).can_hold(final(self).array_size(type_id, count as int))
                && final(self).fits(final(self).array_size(type_id, count as int)) && old(self).made_room(old(self).array_size(type_id, count as int), final(self)),
    {
        let item: usize = self.types.get(type_id).byte_size();
        let payload: usize = match item.checked_mul(count) {
            None => {
                return Err(GcError::OutOfMemory);
            },
            Some(bytes) => bytes,
        };
        if payload > usize::MAX - 39 {
            return Err(GcError::OutOfMemory);
        }
        self.make_room(payload + OBJECT_HEADER_SIZE + PTR_SIZE)
    }

    /// The step from `self` to `next` has allocated an object: a block for
    /// `size` bytes of object header and payload, with the object header
    /// `header`, the length `len` if it is an array and a payload of
    /// zeros, at the end of this heap or, if it did not fit, of what a
    /// collection made of this heap.  `ptr` is the address of the object.
    pub open spec fn allocated(
        &self,
        next: &GcHeap,
        size: int,
        header: u64,
        len: int,
        ptr: GcPtr,
    ) -> bool {
        &&& self.keeps_handles(next)
        &&& exists|mid: Space|
            {
                &&& self.settles(size, mid, next.roots())
                &&& self.sized(size, mid, next)
                &&& #[trigger] fresh(mid, next.space(), block_bytes(size) / 8, header, len)
                &&& ptr.addr() == mid.base + 8 * (mid.used() + 2)
            }
    }

    /// Bytes of object header and payload that an object of type `id`
    /// asks for.
    pub open spec fn object_size(&self, id: GcTypeId) -> int {
        self.registry()[id.index()].size() + 8
    }

    /// Bytes of object header, length and payload that an array of `count`
    /// items of type `id` asks for.
    pub open spec fn array_size(&self, id: GcTypeId, count: int) -> int {
        self.registry()[id.index()].size() * count + 16
    }

    /// Whether room can be made for `size` bytes of object header and
    /// payload: the block is no larger than an address can tell, and it
    /// fits as it is or after a collection.
    pub open spec fn can_hold(&self, size: int) -> bool {
        self.allocation_error(size) is None
    }

    /// The object at `ptr` is as it is when it has just been allocated: of
    /// type `id`, an array of `count` items or a single object, with a
    /// payload of zeros.
    pub open spec fn is_fresh(&self, ptr: GcPtr, id: GcTypeId, array: bool, count: int) -> bool {
        &&& self.is_object(ptr)
        &&& self.type_of(ptr) == id.index()
        &&& self.is_array(ptr) == array
        &&& array ==> self.array_len(GcVecPtr::at(ptr.addr() as usize)) == count
        &&& self.payload(ptr).len() == self.registry()[id.index()].span(count)
        &&& forall|i: int| 0 <= i < self.payload(ptr).len() ==> #[trigger] self.payload(ptr)[i] == 0
    }

    /// The object header of an object of type `id`, or of an array of
    /// such objects.
    pub open spec fn header_word(id: GcTypeId, array: bool) -> u64 {
        if array {
            (2 * id.index() + 1) as u64
        } else {
            (2 * id.index()) as u64
        }
    }

    /// The object header of an object of type `id`.
    pub open spec fn object_header(id: GcTypeId) -> u64 {
        Self::header_word(id, false)
    }

    /// The object header of an array of items of type `id`.
    pub open spec fn array_header(id: GcTypeId) -> u64 {
        Self::header_word(id, true)
    }

    /// Allocates a block for `size` bytes of object header and payload,
    /// after a collection if it does not fit before, writes the object
    /// header of an object of type `type_id`, or of an array of `count`
    /// such objects, and returns the address of the object.
    pub(crate) fn place(&mut self, size: usize, type_id: GcTypeId, array: bool, count: usize) -> (ptr:
        usize)
        requires
            old(self).wf(),
            type_id.index() < old(self).registry().len(),
            8 <= size <= usize::MAX - 23,
            old(self).can_allocate(size as int),
            block_bytes(size as int) / 8 == if array {
                4 + old(self).registry()[type_id.index()].span(count as int)
            } else {
                3 + old(self).registry()[type_id.index()].span(1)
            },
        ensures
            final(self).wf(),
            final(self).is_fresh(
                GcPtr::at(ptr),
                type_id,
                array,
                if array {
                    count as int
                } else {
                    1
                },
            ),
            old(self).allocated(
                final(self),
                size as int,
                Self::header_word(type_id, array),
                if array {
                    count as int
                } else {
                    0
                },
                GcPtr::at(ptr),
            ),
            ptr != 0,
            old(self).fits(size as int) ==> final(self).used() >= old(self).used(),
    {
        let (ptr, mid) = self.alloc_raw(size);
        let header = GcMemHeader::new(type_id, array);
        let ghost raw = *self;
        let ghost last = raw.space().count() - 1;
        proof {
            lemma_chain_ordered(mid@, 0, mid@.count());
        }
        let index: usize = (ptr - self.heap.from.memory.base) / 8;
        self.heap.set_word(index, header.to_word(), Ghost(last), Ghost(2));
        if array {
            self.heap.set_word(index + 1, count as u64, Ghost(last), Ghost(3));
        }
        proof {
            lemma_placed(
                *old(self),
                raw,
                *self,
                size as int,
                mid@,
                header.word(),
                if array {
                    count as int
                } else {
                    0
                },
                GcPtr { ptr },
            );
        }
        ptr
    }

    /// Allocates an object of type `type_id` and returns its address.
    ///
    /// If the object does not fit, the heap is collected once and the
    /// allocation tried again; that there is room then is what is
    /// required.  The payload is zero, so every pointer slot is null.  The
    /// address is not a root: the object is lost in the next collection
    /// unless a root or a reachable object points to it by then.
    pub fn allocate(&mut self, type_id: GcTypeId) -> (ptr: GcPtr)
        requires
            old(self).wf(),
            type_id.index() < old(self).registry().len(),
            old(self).can_hold(old(self).object_size(type_id)),
        ensures
            final(self).wf(),
            final(self).is_fresh(ptr, type_id, false, 1),
            old(self).allocated(
                final(self),
                old(self).object_size(type_id),
                Self::object_header(type_id),
                0,
                ptr,
            ),
            ptr.addr() != 0,
            old(self).fits(old(self).object_size(type_id)) ==> final(self).used()
                >= old(self).used(),
    {
        let payload: usize = self.types.get(type_id).byte_size();
        let ptr: usize = self.place(payload + OBJECT_HEADER_SIZE, type_id, false, 0);
        GcPtr { ptr }
    }

    /// Allocates an array of `size` items of type `type_id` and returns
    /// its address.  Like `allocate` in every other respect.
    pub fn alloc_array(&mut self, type_id: GcTypeId, size: usize) -> (ptr: GcVecPtr)
        requires
            old(self).wf(),
            type_id.index() < old(self).registry().len(),
            old(self).can_hold(old(self).array_size(type_id, size as int)),
        ensures
            final(self).wf(),
            final(self).is_fresh(ptr.as_ptr(), type_id, true, size as int),
            old(self).allocated(
                final(self),
                old(self).array_size(type_id, size as int),
                Self::array_header(type_id),
                size as int,
                ptr.as_ptr(),
            ),
            ptr.addr() != 0,
            old(self).fits(old(self).array_size(type_id, size as int)) ==> final(self).used()
                >= old(self).used(),
    {
        let item: usize = self.types.get(type_id).byte_size();
        proof {
            assert(item * size >= 0) by (nonlinear_arith)
                requires
                    item >= 0,
                    size >= 0,
            ;
        }
        let payload: usize = item * size;
        let ptr: usize = self.place(payload + OBJECT_HEADER_SIZE + PTR_SIZE, type_id, true, size);
        GcVecPtr { ptr }
    }

    /// The block that holds the object at `ptr`.
    pub open spec fn block_of(&self, ptr: GcPtr) -> int {
        self.space().index_of(ptr.addr())
    }

    /// Whether the object at `ptr` is an array.
    pub open spec fn is_array(&self, ptr: GcPtr) -> bool {
        header_is_array(self.space().header(self.block_of(ptr)))
    }

    /// The id of the type of the object at `ptr`.
    pub open spec fn type_of(&self, ptr: GcPtr) -> int {
        header_type(self.space().header(self.block_of(ptr)))
    }

    /// The word of its block at which the payload of the object at `ptr`
    /// begins: after the headers and, in an array, the length.
    pub open spec fn payload_start(&self, ptr: GcPtr) -> int {
        if self.is_array(ptr) {
            4
        } else {
            3
        }
    }

    /// The payload of the object at `ptr`; in an array, the payloads of its
    /// items one after another.
    pub open spec fn payload(&self, ptr: GcPtr) -> Seq<u64> {
        let i = self.block_of(ptr);
        self.space().mem.subrange(
            self.space().bounds[i] + self.payload_start(ptr),
            self.space().bounds[i + 1],
        )
    }

    /// Number of items of the array at `ptr`.
    pub open spec fn array_len(&self, ptr: GcVecPtr) -> int {
        self.space().word(self.block_of(ptr.as_ptr()), 3) as int
    }

    /// The from-space with `value` stored in word `index` of the payload
    /// of the object at `ptr`.
    pub open spec fn stored(&self, ptr: GcPtr, index: int, value: u64) -> Space {
        let i = self.block_of(ptr);
        Space {
            mem: self.space().mem.update(
                self.space().bounds[i] + self.payload_start(ptr) + index,
                value,
            ),
            ..self.space()
        }
    }

    /// Whether `value` may be stored in word `index` of the payload of the
    /// object at `ptr`: the object is in order afterwards, each of its
    /// pointer slots holding null or the address of an object.
    pub open spec fn accepts(&self, ptr: GcPtr, index: int, value: u64) -> bool {
        forall|x: int|
            0 <= x < self.space().words(self.block_of(ptr)) ==> #[trigger] self.stored(
                ptr,
                index,
                value,
            ).word_ok(self.registry(), self.block_of(ptr), x)
    }

    /// Locates the payload of the object at `ptr`: the index in the region
    /// of its first word, and the number of its words.
    pub(crate) fn locate(&self, ptr: usize) -> (r: (usize, usize))
        requires
            self.wf(),
            self.space().is_object(ptr as int),
        ensures
            r.0 == self.space().bounds[self.block_of(GcPtr { ptr })] + self.payload_start(
                GcPtr { ptr },
            ),
            r.1 == self.payload(GcPtr { ptr }).len(),
            r.0 + r.1 == self.space().bounds[self.block_of(GcPtr { ptr }) + 1],
            r.0 + r.1 <= self.space().mem.len(),
            0 <= self.block_of(GcPtr { ptr }) < self.space().count(),
    {
        let ghost i = self.space().index_of(ptr as int);
        proof {
            crate::space::lemma_object_placed(self.space(), ptr as int);
            assert(self.space().link(i));
            assert(self.space().shaped(self.types@, i));
        }
        let start: usize = (ptr - self.heap.from.memory.base) / 8 - 2;
        let words: usize = (self.heap.get_word(start + 1) / 8) as usize;
        let header = GcMemHeader::from_word(self.heap.get_word(start + 2));
        let skip: usize = if header.is_array() {
            4
        } else {
            3
        };
        (start + skip, words - skip)
    }

    /// Whether `ptr` is the address of an object of the heap.
    pub fn holds(&self, ptr: GcPtr) -> (b: bool)
        requires
            self.wf(),
        ensures
            b == self.is_object(ptr),
    {
        self.heap.holds(ptr.ptr)
    }

    /// Number of words of the payload of the object at `ptr`.
    pub fn payload_words(&self, ptr: GcPtr) -> (n: usize)
        requires
            self.wf(),
            self.is_object(ptr),
        ensures
            n == self.payload(ptr).len(),
    {
        self.locate(ptr.ptr).1
    }

    /// Word `index` of the payload of the object at `ptr`.
    pub fn get(&self, ptr: GcPtr, index: usize) -> (word: u64)
        requires
            self.wf(),
            self.is_object(ptr),
            index < self.payload(ptr).len(),
        ensures
            word == self.payload(ptr)[index as int],
    {
        let (first, _) = self.locate(ptr.ptr);
        self.heap.get_word(first + index)
    }

    /// The payload of the object at `ptr`.
    pub fn as_slice(&self, ptr: GcPtr) -> (words: &[u64])
        requires
            self.wf(),
            self.is_object(ptr),
        ensures
            words@ == self.payload(ptr),
    {
        let (first, count) = self.locate(ptr.ptr);
        self.heap.from.memory.slice(first, first + count)
    }

    /// The payload that holds word `index` of the payload of the object at
    /// `ptr` as a store of `value` in that word would leave it: the one
    /// payload of a single object, or the item of an array.
    pub open spec fn item_after(&self, ptr: GcPtr, index: int, value: u64) -> Seq<u64> {
        let i = self.block_of(ptr);
        let first = self.space().bounds[i] + item_start(
            self.registry(),
            self.space(),
            i,
            self.payload_start(ptr) + index,
        );
        self.stored(ptr, index, value).mem.subrange(
            first,
            first + self.registry()[self.type_of(ptr)].slots(),
        )
    }

    /// Computes `item_after`, for an object whose type has pointer slots.
    pub(crate) fn item_with(&self, ptr: GcPtr, index: usize, value: u64) -> (item: Vec<u64>)
        requires
            self.wf(),
            self.is_object(ptr),
            index < self.payload(ptr).len(),
            self.registry()[self.type_of(ptr)].slots() > 0,
        ensures
            item@ == self.item_after(ptr, index as int, value),
            item@.len() == self.registry()[self.type_of(ptr)].slots(),
            self.payload_start(ptr) + index < self.space().words(self.block_of(ptr)),
            item_start(
                self.registry(),
                self.space(),
                self.block_of(ptr),
                self.payload_start(ptr) + index,
            ) + index % (item@.len() as usize) == self.payload_start(ptr) + index,
    {
        let (first, _) = self.locate(ptr.ptr);
        let header = self.header_of(ptr.ptr);
        let n: usize = self.types.get(header.get_type_id()).slot_count();
        let ghost i = self.block_of(ptr);
        let ghost j = self.payload_start(ptr) + index;
        let ghost new = self.stored(ptr, index as int, value);
        proof {
            lemma_object_placed(self.space(), ptr.addr());
            assert(self.space().link(i));
            assert(self.space().shaped(self.registry(), i));
            lemma_item_bounds(self.registry(), self.space(), i, j);
            assert((index / n) * n <= index && (index < n ==> index / n == 0)) by (nonlinear_arith)
                requires
                    n > 0,
                    index >= 0,
            ;
        }
        let start: usize = first + (index / n) * n;
        proof {
            let st = item_start(self.registry(), self.space(), i, j);
            assert(GcPtr { ptr: ptr.ptr } == ptr);
            assert(first == self.space().bounds[i] + self.payload_start(ptr));
            if self.is_array(ptr) {
                let d: int = j - 4;
                assert(d == index);
                assert(d / (n as int) == (index as int) / (n as int));
                assert(st == 4 + (d / (n as int)) * n);
            } else {
                assert(st == 3);
                assert(index < n);
                assert(index / n == 0);
                assert((index / n) * n == 0) by (nonlinear_arith)
                    requires
                        index / n == 0,
                ;
            }
            assert(start == first + ((index as int) / (n as int)) * n);
            assert(start == self.space().bounds[i] + st);
            assert(self.space().mem.len() <= usize::MAX);
            vstd::arithmetic::div_mod::lemma_fundamental_div_mod(index as int, n as int);
            assert(((index as int) / (n as int)) * n == n * ((index as int) / (n as int)))
                by (nonlinear_arith);
        }
        let mut item: Vec<u64> = Vec::new();
        let mut y: usize = 0;
        while y < n
            invariant
                y <= n,
                start + n <= self.space().mem.len() <= usize::MAX,
                new.mem.len() == self.space().mem.len(),
                item@.len() == y,
                new.mem == self.space().mem.update(first + index, value),
                first + index < self.space().mem.len(),
                forall|k: int| 0 <= k < y ==> #[trigger] item@[k] == new.mem[start + k],
            decreases n - y,
        {
            let w: u64 = if start + y == first + index {
                value
            } else {
                self.heap.get_word(start + y)
            };
            item.push(w);
            y += 1;
        }
        assert(item@ =~= new.mem.subrange(start as int, start + n));
        item
    }

    /// Whether `value` may be stored in word `index` of the payload of the
    /// object at `ptr`, as `accepts` says.  The layout is asked about the
    /// payload as the store would leave it, and each word that it then
    /// reports as a pointer is looked up among the objects of the heap.
    pub fn takes(&self, ptr: GcPtr, index: usize, value: u64) -> (b: bool)
        requires
            self.wf(),
            self.is_object(ptr),
            index < self.payload(ptr).len(),
        ensures
            b == self.accepts(ptr, index as int, value),
    {
        let ty = self.types.get(self.header_of(ptr.ptr).get_type_id());
        let ghost i = self.block_of(ptr);
        let ghost j = self.payload_start(ptr) + index;
        let ghost new = self.stored(ptr, index as int, value);
        proof {
            lemma_object_placed(self.space(), ptr.addr());
            assert(self.space().link(i));
            assert(self.space().shaped(self.registry(), i));
            lemma_write_chain(self.space(), new, i, j, value);
            assert(new.word(i, 2) == self.space().word(i, 2));
            assert(GcPtr { ptr: ptr.ptr } == ptr);
        }
        if ty.slot_count() == 0 {
            assert forall|x: int| 0 <= x < self.space().words(i) implies #[trigger] new.word_ok(
                self.registry(),
                i,
                x,
            ) by {
                assert(!new.is_ptr(self.registry(), i, x));
            }
            return true;
        }
        let item = self.item_with(ptr, index, value);
        proof {
            lemma_store_item(self.registry(), self.space(), new, i, j, value, item@);
        }
        let slots = ty.pointer_slots(item.as_slice());
        let mut k: usize = 0;
        while k < slots.len()
            invariant
                k <= slots@.len(),
                self.wf(),
                item@.len() == ty.slots(),
                self.accepts(ptr, index as int, value) <==> item_ok(self.space(), *ty, item@),
                forall|m: int|
                    0 <= m < slots@.len() ==> ty.is_slot(item@, #[trigger] slots@[m] as int),
                forall|m: int|
                    0 <= m < k ==> item@[(#[trigger] slots@[m]) as int] == 0
                        || self.space().is_object(item@[slots@[m] as int] as int),
            decreases slots@.len() - k,
        {
            let w: u64 = item[slots[k]];
            if w != 0 && (w > usize::MAX as u64 || !self.heap.holds(w as usize)) {
                proof {
                    if self.space().is_object(w as int) {
                        lemma_object_placed(self.space(), w as int);
                    }
                    assert(ty.is_slot(item@, slots@[k as int] as int));
                    assert(!item_ok(self.space(), *ty, item@));
                }
                return false;
            }
            k += 1;
        }
        proof {
            assert forall|y: int| 0 <= y < ty.slots() && #[trigger] ty.is_slot(
                item@,
                y,
            ) implies item@[y] == 0 || self.space().is_object(item@[y] as int) by {
                let m = choose|m: int| 0 <= m < slots@.len() && #[trigger] slots@[m] == y;
                assert(item@[slots@[m] as int] == 0 || self.space().is_object(
                    item@[slots@[m] as int] as int,
                ));
            }
        }
        true
    }

    /// Whether word `index` of the payload of the object at `ptr` is a
    /// pointer slot, as `is_pointer_slot` says: the layout is asked about
    /// the payload, or the item of the array, that holds the word.
    pub fn points(&self, ptr: GcPtr, index: usize) -> (b: bool)
        requires
            self.wf(),
            self.is_object(ptr),
            index < self.payload(ptr).len(),
        ensures
            b == self.is_pointer_slot(ptr, index as int),
    {
        let ty = self.types.get(self.header_of(ptr.ptr).get_type_id());
        let n: usize = ty.slot_count();
        proof {
            assert(GcPtr { ptr: ptr.ptr } == ptr);
        }
        if n == 0 {
            return false;
        }
        let value: u64 = self.get(ptr, index);
        let item = self.item_with(ptr, index, value);
        let at: usize = index % n;
        let ghost i = self.block_of(ptr);
        let ghost j = self.payload_start(ptr) + index;
        proof {
            lemma_object_placed(self.space(), ptr.addr());
            assert(self.space().link(i));
            assert(self.payload(ptr)[index as int] == self.space().mem[self.space().bounds[i] + j]);
            assert(self.stored(ptr, index as int, value).mem =~= self.space().mem);
            if self.is_array(ptr) {
                assert(j - 4 == index);
                assert((j - 4) % (n as int) == (index as int) % (n as int));
            }
            assert(self.is_pointer_slot(ptr, index as int) == ty.is_slot(item@, at as int));
        }
        let slots = ty.pointer_slots(item.as_slice());
        let mut k: usize = 0;
        while k < slots.len()
            invariant
                k <= slots@.len(),
                self.is_pointer_slot(ptr, index as int) == ty.is_slot(item@, at as int),
                forall|m: int| 0 <= m < k ==> #[trigger] slots@[m] != at,
                forall|m: int|
                    0 <= m < slots@.len() ==> ty.is_slot(item@, #[trigger] slots@[m] as int),
            decreases slots@.len() - k,
        {
            if slots[k] == at {
                return true;
            }
            k += 1;
        }
        proof {
            if ty.is_slot(item@, at as int) {
                let m = choose|m: int| 0 <= m < slots@.len() && #[trigger] slots@[m] == at;
                assert(slots@[m] != at);
            }
        }
        false
    }

    /// Stores `value` in word `index` of the payload of the object at
    /// `ptr`.  Nothing else changes; in particular nothing is allocated.
    pub fn set(&mut self, ptr: GcPtr, index: usize, value: u64)
        requires
            old(self).wf(),
            old(self).is_object(ptr),
            index < old(self).payload(ptr).len(),
            old(self).accepts(ptr, index as int, value),
        ensures
            final(self).wf(),
            final(self).space() == old(self).stored(ptr, index as int, value),
            final(self).type_registry() == old(self).type_registry(),
            final(self).handles() == old(self).handles(),
            final(self).used() == old(self).used(),
            forall|p: GcPtr| old(self).is_object(p) == final(self).is_object(p),
    {
        let (first, _) = self.locate(ptr.ptr);
        let ghost i = self.block_of(ptr);
        let ghost j = self.payload_start(ptr) + index;
        self.heap.set_word(first + index, value, Ghost(i), Ghost(j));
        proof {
            assert(self.space() == old(self).stored(ptr, index as int, value));
            assert forall|x: int| 0 <= x < old(self).space().words(i) implies #[trigger] self.space().word_ok(
                self.types@,
                i,
                x,
            ) by {
                assert(old(self).stored(ptr, index as int, value).word_ok(
                    old(self).registry(),
                    old(self).block_of(ptr),
                    x,
                ));
            }
            lemma_write_ok(
                self.types@,
                old(self).space(),
                self.space(),
                self.roots(),
                i,
                j,
                value,
            );
        }
    }

    /// Whether word `index` of the payload of the object at `ptr` is a
    /// pointer slot.
    pub open spec fn is_pointer_slot(&self, ptr: GcPtr, index: int) -> bool {
        self.space().is_ptr(self.registry(), self.block_of(ptr), self.payload_start(ptr) + index)
    }

    /// The pointer held by pointer slot `index` of the payload of the
    /// object at `ptr`: null, or the address of an object.
    pub fn get_ptr(&self, ptr: GcPtr, index: usize) -> (target: GcPtr)
        requires
            self.wf(),
            self.is_object(ptr),
            index < self.payload(ptr).len(),
            self.is_pointer_slot(ptr, index as int),
        ensures
            target.addr() == self.payload(ptr)[index as int],
            target.addr() == 0 || self.is_object(target),
    {
        let word: u64 = self.get(ptr, index);
        proof {
            let i = self.block_of(ptr);
            crate::space::lemma_object_placed(self.space(), ptr.addr());
            assert(self.space().link(i));
            assert(self.space().word_ok(self.registry(), i, self.payload_start(ptr) + index));
            if word != 0 {
                crate::space::lemma_object_placed(self.space(), word as int);
            }
        }
        GcPtr { ptr: word as usize }
    }

    /// Stores `target`, which is null or the address of an object, in
    /// pointer slot `index` of the payload of the object at `ptr`.
    pub fn set_ptr(&mut self, ptr: GcPtr, index: usize, target: GcPtr)
        requires
            old(self).wf(),
            old(self).is_object(ptr),
            index < old(self).payload(ptr).len(),
            old(self).is_pointer_slot(ptr, index as int),
            target.addr() == 0 || old(self).is_object(target),
        ensures
            final(self).wf(),
            final(self).space() == old(self).stored(ptr, index as int, target.addr() as u64),
            final(self).type_registry() == old(self).type_registry(),
            final(self).handles() == old(self).handles(),
            final(self).used() == old(self).used(),
            forall|p: GcPtr| old(self).is_object(p) == final(self).is_object(p),
    {
        proof {
            let i = self.block_of(ptr);
            let j = self.payload_start(ptr) + index;
            let value = target.ptr as u64;
            crate::space::lemma_object_placed(self.space(), ptr.addr());
            assert(self.space().link(i));
            assert forall|x: int| 0 <= x < self.space().words(i) implies #[trigger] self.stored(
                ptr,
                index as int,
                value,
            ).word_ok(self.registry(), i, x) by {
                lemma_pointer_write(
                    self.registry(),
                    self.space(),
                    self.stored(ptr, index as int, value),
                    i,
                    j,
                    value,
                    x,
                );
            }
        }
        self.set(ptr, index, target.ptr as u64);
    }

    /// Stores `value` in word `index` of the payload of the object at
    /// `ptr`, which is no pointer slot.  The layout of the object's type
    /// must be no callback: what a callback makes of the new payload is
    /// for `set` to ask.
    pub fn set_data(&mut self, ptr: GcPtr, index: usize, value: u64)
        requires
            old(self).wf(),
            old(self).is_object(ptr),
            index < old(self).payload(ptr).len(),
            !old(self).is_pointer_slot(ptr, index as int),
            !(old(self).registry()[old(self).type_of(ptr)].layout() is Callback),
        ensures
            final(self).wf(),
            final(self).space() == old(self).stored(ptr, index as int, value),
            final(self).type_registry() == old(self).type_registry(),
            final(self).handles() == old(self).handles(),
            final(self).used() == old(self).used(),
            forall|p: GcPtr| old(self).is_object(p) == final(self).is_object(p),
    {
        proof {
            let i = self.block_of(ptr);
            let j = self.payload_start(ptr) + index;
            crate::space::lemma_object_placed(self.space(), ptr.addr());
            assert(self.space().link(i));
            assert(self.space().shaped(self.registry(), i));
            assert forall|x: int| 0 <= x < self.space().words(i) implies #[trigger] self.stored(
                ptr,
                index as int,
                value,
            ).word_ok(self.registry(), i, x) by {
                lemma_data_write(
                    self.registry(),
                    self.space(),
                    self.stored(ptr, index as int, value),
                    i,
                    j,
                    value,
                    x,
                );
            }
        }
        self.set(ptr, index, value);
    }

    /// Number of items of the array at `ptr`.
    pub fn len(&self, ptr: GcVecPtr) -> (n: usize)
        requires
            self.wf(),
            self.is_object(ptr.as_ptr()),
            self.is_array(ptr.as_ptr()),
        ensures
            n == self.array_len(ptr),
    {
        let (first, _) = self.locate(ptr.ptr);
        proof {
            let i = self.block_of(ptr.as_ptr());
            assert(self.space().shaped(self.types@, i));
            assert(self.space().link(i));
            let t = self.space().type_of(self.types@, i);
            let n = self.array_len(ptr);
            assert(t.span(n) >= 0);
            assert(t.size() >= 1);
            assert(t.size() * n >= n) by (nonlinear_arith)
                requires
                    t.size() >= 1,
                    n >= 0,
            ;
        }
        self.heap.get_word(first - 1) as usize
    }

    /// The object header of the object at `ptr`.
    pub(crate) fn header_of(&self, ptr: usize) -> (header: GcMemHeader)
        requires
            self.wf(),
            self.space().is_object(ptr as int),
        ensures
            header.word() == self.space().header(self.block_of(GcPtr { ptr })),
            header_type(header.word()) < self.registry().len(),
    {
        proof {
            let i = self.space().index_of(ptr as int);
            lemma_object_placed(self.space(), ptr as int);
            assert(self.space().link(i));
            assert(self.space().shaped(self.types@, i));
        }
        GcMemHeader::from_word(self.heap.get_word((ptr - self.heap.from.memory.base) / 8))
    }

    /// The id of the type of the object at `ptr`.
    pub fn type_id_of(&self, ptr: GcPtr) -> (id: GcTypeId)
        requires
            self.wf(),
            self.is_object(ptr),
        ensures
            id.index() == self.type_of(ptr),
            id.index() < self.registry().len(),
    {
        self.header_of(ptr.ptr).get_type_id()
    }

    /// Whether the object at `ptr` is an array.
    pub fn has_items(&self, ptr: GcPtr) -> (b: bool)
        requires
            self.wf(),
            self.is_object(ptr),
        ensures
            b == self.is_array(ptr),
    {
        self.header_of(ptr.ptr).is_array()
    }

    /// The word of the payload of the array at `ptr` at which item
    /// `index` begins.  The array must have such an item, and the items
    /// must be whole words.
    pub fn item(&self, ptr: GcVecPtr, index: usize) -> (at: usize)
        requires
            self.wf(),
            self.is_object(ptr.as_ptr()),
            self.is_array(ptr.as_ptr()),
            self.registry()[self.type_of(ptr.as_ptr())].size() % 8 == 0,
            index < self.array_len(ptr),
        ensures
            at == index * (self.registry()[self.type_of(ptr.as_ptr())].size() / 8),
            at + self.registry()[self.type_of(ptr.as_ptr())].size() / 8 <= self.payload(
                ptr.as_ptr(),
            ).len(),
    {
        let id = self.type_id_of(ptr.to_ptr());
        let words: usize = self.types.get(id).byte_size() / 8;
        proof {
            let i = self.block_of(ptr.as_ptr());
            let s = self.space();
            let t = self.registry()[self.type_of(ptr.as_ptr())];
            let n = self.array_len(ptr);
            lemma_object_placed(s, ptr.addr());
            assert(s.link(i));
            assert(s.shaped(self.types@, i));
            assert(t.size() == 8 * words);
            assert((8 * words * n + 7) / 8 == words * n && (index + 1) * words <= words * n && (
            index + 1) * words == index * words + words && index * words >= 0)
                by (nonlinear_arith)
                requires
                    0 <= index < n,
                    words >= 0,
            ;
            assert(t.size() * n == 8 * words * n) by (nonlinear_arith)
                requires
                    t.size() == 8 * words,
            ;
        }
        index * words
    }

    /// Whether `root` is in use.
    pub fn root_in_use(&self, root: GcRoot) -> (b: bool)
        ensures
            b == self.handles().is_live(root),
    {
        self.handles.in_use(root)
    }

    /// Whether the handle table can take no further root.
    pub fn roots_full(&self) -> (b: bool)
        ensures
            b == self.handles().is_full(),
    {
        self.handles.full()
    }

    /// The address that `root` stands for.
    pub fn root_ptr(&self, root: GcRoot) -> (ptr: GcPtr)
        requires
            self.wf(),
            self.handles().is_live(root),
        ensures
            ptr.addr() == self.handles().slots()[root.index()],
            self.is_object(ptr),
    {
        let ptr: usize = self.handles.get(root);
        proof {
            assert(self.roots()[root.index()] == ptr);
        }
        GcPtr { ptr }
    }

    /// The step from `self` to `next` made the object at `ptr` a root
    /// under the handle `h`, as `GcHandles::added` says; nothing else has
    /// changed.
    pub open spec fn rooted(&self, next: &GcHeap, ptr: GcPtr, h: GcRoot) -> bool {
        &&& next.type_registry() == self.type_registry()
        &&& next.collector() == self.collector()
        &&& self.handles().added(&next.handles(), ptr.addr() as usize, h)
        &&& next.handles().is_live(h)
        &&& next.handles().slots()[h.index()] == ptr.addr()
    }

    /// Makes the object at `ptr` a root and returns the handle.  The
    /// handle table must have room.
    pub fn add_root(&mut self, ptr: GcPtr) -> (h: GcRoot)
        requires
            old(self).wf(),
            old(self).is_object(ptr),
            !old(self).handles().is_full(),
        ensures
            final(self).wf(),
            old(self).rooted(final(self), ptr, h),
    {
        proof {
            lemma_object_placed(self.space(), ptr.addr());
        }
        let h = self.handles.add(ptr.ptr);
        proof {
            lemma_roots_change(self.space(), old(self).handles, self.handles);
        }
        h
    }

    /// Frees `root`.  The object it stood for stays where it is until the
    /// next collection, which keeps it only if something else reaches it.
    pub fn remove_root(&mut self, root: GcRoot)
        requires
            old(self).wf(),
            old(self).handles().is_live(root),
        ensures
            final(self).wf(),
            final(self).type_registry() == old(self).type_registry(),
            final(self).collector() == old(self).collector(),
            old(self).handles().removed(&final(self).handles(), root),
            !final(self).handles().is_live(root),
    {
        self.handles.remove(root);
        proof {
            lemma_roots_change(self.space(), old(self).handles, self.handles);
        }
    }

    /// Makes the object that `root` stands for a root once more and
    /// returns the new handle.  The handle table must have room.
    pub fn clone_root(&mut self, root: GcRoot) -> (h: GcRoot)
        requires
            old(self).wf(),
            old(self).handles().is_live(root),
            !old(self).handles().is_full(),
        ensures
            final(self).wf(),
            old(self).rooted(final(self), GcPtr::at(old(self).handles().slots()[root.index()]), h),
            h != root,
            final(self).handles().is_live(root),
    {
        let ptr = self.root_ptr(root);
        self.add_root(ptr)
    }

    /// Opens a scope for local roots: remembers how many there are.
    pub fn new_local_scope(&self) -> (scope: LocalScope)
        ensures
            scope.depth() == self.handles().locals().len(),
    {
        LocalScope { depth: self.handles.local_depth() }
    }

    /// Closes `scope`: releases every local root made since it was opened.
    pub fn close_local_scope(&mut self, scope: LocalScope)
        requires
            old(self).wf(),
        ensures
            final(self).wf(),
            final(self).type_registry() == old(self).type_registry(),
            final(self).collector() == old(self).collector(),
            final(self).handles().slots() == old(self).handles().slots(),
            final(self).handles().free_list() == old(self).handles().free_list(),
            scope.depth() <= old(self).handles().locals().len() ==> final(self).handles().locals()
                == old(self).handles().locals().subrange(0, scope.depth()),
            scope.depth() > old(self).handles().locals().len() ==> final(self).handles().locals()
                == old(self).handles().locals(),
    {
        self.handles.truncate_locals(scope.depth);
        proof {
            lemma_roots_change(self.space(), old(self).handles, self.handles);
        }
    }

    /// The step from `self` to `next` pushed the address of the object at
    /// `ptr` on the stack of local roots; nothing else has changed.
    pub open spec fn rooted_locally(&self, next: &GcHeap, ptr: GcPtr, local: Local) -> bool {
        &&& next.type_registry() == self.type_registry()
        &&& next.collector() == self.collector()
        &&& next.handles().slots() == self.handles().slots()
        &&& next.handles().free_list() == self.handles().free_list()
        &&& next.handles().locals() == self.handles().locals().push(ptr.addr() as usize)
        &&& local.index() == self.handles().locals().len()
    }

    /// Makes the object at `ptr` a local root and returns the handle.
    pub fn add_local(&mut self, ptr: GcPtr) -> (local: Local)
        requires
            old(self).wf(),
            old(self).is_object(ptr),
        ensures
            final(self).wf(),
            old(self).rooted_locally(final(self), ptr, local),
    {
        proof {
            lemma_object_placed(self.space(), ptr.addr());
        }
        let index: usize = self.handles.push_local(ptr.ptr);
        proof {
            lemma_roots_change(self.space(), old(self).handles, self.handles);
        }
        Local { index }
    }

    /// Whether the scope in which `local` was made is still open, as far
    /// as the depth of the stack of local roots tells.
    pub fn local_in_scope(&self, local: &Local) -> (b: bool)
        ensures
            b == (local.index() < self.handles().locals().len()),
    {
        local.index < self.handles.local_depth()
    }

    /// The address that the local root `local` stands for.
    pub fn local_ptr(&self, local: &Local) -> (ptr: GcPtr)
        requires
            self.wf(),
            local.index() < self.handles().locals().len(),
        ensures
            ptr.addr() == self.handles().locals()[local.index()],
            self.is_object(ptr),
    {
        let ptr: usize = self.handles.get_local(local.index);
        proof {
            assert(self.roots()[self.handles().slots().len() + local.index()] == ptr);
            assert(self.handles.locals@[local.index()] != 0);
        }
        GcPtr { ptr }
    }

    /// The step from `self` to `next` has allocated an object as
    /// `allocated` says and then made it a root as `rooted` says, under
    /// the handle `h`.
    pub open spec fn allocated_root(
        &self,
        next: &GcHeap,
        size: int,
        header: u64,
        len: int,
        h: GcRoot,
    ) -> bool {
        exists|mid: GcHeap, ptr: GcPtr|
            {
                &&& mid.wf()
                &&& mid.is_object(ptr)
                &&& self.allocated(&mid, size, header, len, ptr)
                &&& #[trigger] mid.rooted(next, ptr, h)
            }
    }

    /// The step from `self` to `next` has allocated an object as
    /// `allocated` says and then made it a local root as `rooted_locally`
    /// says.
    pub open spec fn allocated_local(
        &self,
        next: &GcHeap,
        size: int,
        header: u64,
        local: Local,
    ) -> bool {
        exists|mid: GcHeap, ptr: GcPtr|
            {
                &&& mid.wf()
                &&& mid.is_object(ptr)
                &&& self.allocated(&mid, size, header, 0, ptr)
                &&& #[trigger] mid.rooted_locally(next, ptr, local)
            }
    }

    /// Allocates an object of type `type_id` as `allocate` does, makes it
    /// a root, and returns the handle.  The handle table must have room.
    pub fn alloc_root(&mut self, type_id: GcTypeId) -> (h: GcRoot)
        requires
            old(self).wf(),
            type_id.index() < old(self).registry().len(),
            old(self).can_hold(old(self).object_size(type_id)),
            !old(self).handles().is_full(),
        ensures
            final(self).wf(),
            final(self).handles().is_live(h),
            old(self).allocated_root(
                final(self),
                old(self).object_size(type_id),
                Self::object_header(type_id),
                0,
                h,
            ),
    {
        let ptr = self.allocate(type_id);
        let ghost mid = *self;
        let h = self.add_root(ptr);
        assert(mid.rooted(self, ptr, h));
        h
    }

    /// Allocates an object of type `type_id`, makes it a root, and returns
    /// the root as the owner of its entry of the handle table.
    pub fn alloc_handle(&mut self, type_id: GcTypeId) -> (gc: Gc)
        requires
            old(self).wf(),
            type_id.index() < old(self).registry().len(),
            old(self).can_hold(old(self).object_size(type_id)),
            !old(self).handles().is_full(),
        ensures
            final(self).wf(),
            final(self).handles().is_live(gc.root()),
            old(self).allocated_root(
                final(self),
                old(self).object_size(type_id),
                Self::object_header(type_id),
                0,
                gc.root(),
            ),
    {
        Gc { handle: self.alloc_root(type_id) }
    }

    /// Allocates an array of `size` items of type `type_id` as
    /// `alloc_array` does, makes it a root, and returns the handle.  The
    /// handle table must have room.
    pub fn alloc_array_root(&mut self, type_id: GcTypeId, size: usize) -> (h: GcRoot)
        requires
            old(self).wf(),
            type_id.index() < old(self).registry().len(),
            old(self).can_hold(old(self).array_size(type_id, size as int)),
            !old(self).handles().is_full(),
        ensures
            final(self).wf(),
            final(self).handles().is_live(h),
            old(self).allocated_root(
                final(self),
                old(self).array_size(type_id, size as int),
                Self::array_header(type_id),
                size as int,
                h,
            ),
    {
        let ptr = self.alloc_array(type_id, size);
        let ghost mid = *self;
        let h = self.add_root(ptr.to_ptr());
        assert(mid.rooted(self, ptr.as_ptr(), h));
        h
    }

    /// Allocates an array of `size` items of type `type_id`, makes it a
    /// root, and returns the root as the owner of its entry of the handle
    /// table.
    pub fn alloc_array_handle(&mut self, type_id: GcTypeId, size: usize) -> (gc: GcVec)
        requires
            old(self).wf(),
            type_id.index() < old(self).registry().len(),
            old(self).can_hold(old(self).array_size(type_id, size as int)),
            !old(self).handles().is_full(),
        ensures
            final(self).wf(),
            final(self).handles().is_live(gc.root()),
            old(self).allocated_root(
                final(self),
                old(self).array_size(type_id, size as int),
                Self::array_header(type_id),
                size as int,
                gc.root(),
            ),
    {
        GcVec { handle: self.alloc_array_root(type_id, size) }
    }

    /// Allocates an object of type `type_id` as `allocate` does, makes it
    /// a local root, and returns the handle.  The root lasts until the
    /// innermost open scope is closed.
    pub fn alloc_local(&mut self, type_id: GcTypeId) -> (local: Local)
        requires
            old(self).wf(),
            type_id.index() < old(self).registry().len(),
            old(self).can_hold(old(self).object_size(type_id)),
        ensures
            final(self).wf(),
            local.index() < final(self).handles().locals().len(),
            old(self).allocated_local(
                final(self),
                old(self).object_size(type_id),
                Self::object_header(type_id),
                local,
            ),
    {
        let ptr = self.allocate(type_id);
        let ghost mid = *self;
        let local = self.add_local(ptr);
        assert(mid.rooted_locally(self, ptr, local));
        local
    }

    /// Bytes reserved for the heap: the sizes of both regions.
    pub fn mem_allocated(&self) -> (n: usize)
        requires
            self.wf(),
        ensures
            n == self.collector().capacity() + self.collector().reserve(),
    {
        self.heap.mem_allocated()
    }

    /// Bytes in use in the from-space.
    pub fn mem_used(&self) -> (n: usize)
        ensures
            n == self.used(),
    {
        self.heap.mem_used()
    }
}

/// Writing the object header, and for an array the length, into the block
/// that an allocation has just made completes the allocation.
pub(crate) proof fn lemma_placed(
    before: GcHeap,
    raw: GcHeap,
    after: GcHeap,
    size: int,
    mid: Space,
    header: u64,
    len: int,
    ptr: GcPtr,
)
    requires
        raw.type_registry().wf(),
        raw.handles().wf(),
        before.keeps_handles(&raw),
        before.settles(size, mid, raw.roots()),
        before.sized(size, mid, &raw),
        mid.heap_ok(raw.registry()),
        mid.roots_ok(raw.roots()),
        appended(mid, raw.space(), block_bytes(size) / 8),
        ptr.addr() == mid.base + 8 * (mid.used() + 2),
        after.type_registry() == raw.type_registry(),
        after.handles() == raw.handles(),
        after.collector().wf(),
        raw.collector().keeps_regions(&after.collector()),
        after.collector().last_failed() == raw.collector().last_failed(),
        after.used() == raw.used(),
        0 <= header_type(header) < raw.registry().len(),
        0 <= len <= u64::MAX,
        block_bytes(size) / 8 == if header_is_array(header) {
            4 + raw.registry()[header_type(header)].span(len)
        } else {
            3 + raw.registry()[header_type(header)].span(1)
        },
        after.space() == if header_is_array(header) {
            Space {
                mem: raw.space().mem.update(mid.used() + 2, header).update(
                    mid.used() + 3,
                    len as u64,
                ),
                ..raw.space()
            }
        } else {
            Space { mem: raw.space().mem.update(mid.used() + 2, header), ..raw.space() }
        },
    ensures
        after.wf(),
        after.is_object(ptr),
        after.type_of(ptr) == header_type(header),
        after.is_array(ptr) == header_is_array(header),
        header_is_array(header) ==> after.array_len(GcVecPtr::at(ptr.addr() as usize)) == len,
        after.payload(ptr).len() == block_bytes(size) / 8 - after.payload_start(ptr),
        forall|i: int| 0 <= i < after.payload(ptr).len() ==> #[trigger] after.payload(ptr)[i] == 0,
        before.allocated(&after, size, header, len, ptr),
{
    let n = block_bytes(size) / 8;
    let t = raw.registry()[header_type(header)];
    assert(t.size() * len >= 0) by (nonlinear_arith)
        requires
            t.size() >= 0,
            len >= 0,
    ;
    let s = mid.used();
    let grown = raw.space();
    let new = after.space();
    lemma_chain_ordered(mid, 0, mid.count());
    assert(new.bounds == grown.bounds && new.base == grown.base);
    assert forall|w: int| 0 <= w < s implies #[trigger] new.mem[w] == mid.mem[w] by {
        assert(grown.mem[w] == mid.mem[w]);
    }
    assert forall|w: int|
        s + 3 <= w < s + n && !(header_is_array(header) && w == s + 3) implies #[trigger] new.mem[w]
        == 0 by {
        assert(grown.mem[w] == 0);
    }
    assert(new.mem[s] == grown.mem[s]);
    assert(new.mem[s + 1] == grown.mem[s + 1]);
    assert(fresh(mid, new, n, header, len));
    lemma_fresh_object(after, mid, n, header, len, ptr);
    lemma_object_placed(new, ptr.addr());
}

/// A heap whose from-space has just received a fresh object of the right
/// size is in order, and the object is what was asked for: of the type and
/// kind that its header names, with a payload of zeros.
pub(crate) proof fn lemma_fresh_object(
    heap: GcHeap,
    mid: Space,
    n: int,
    header: u64,
    len: int,
    ptr: GcPtr,
)
    requires
        heap.types.wf(),
        mid.heap_ok(heap.registry()),
        mid.roots_ok(heap.roots()),
        fresh(mid, heap.space(), n, header, len),
        0 <= header_type(header) < heap.registry().len(),
        n == if header_is_array(header) {
            4 + heap.registry()[header_type(header)].span(len)
        } else {
            3 + heap.registry()[header_type(header)].span(1)
        },
        0 <= len <= u64::MAX,
        ptr.addr() == mid.base + 8 * (mid.used() + 2),
    ensures
        heap.space().heap_ok(heap.registry()),
        heap.space().roots_ok(heap.roots()),
        heap.is_object(ptr),
        heap.type_of(ptr) == header_type(header),
        heap.is_array(ptr) == header_is_array(header),
        header_is_array(header) ==> heap.space().word(heap.block_of(ptr), 3) == len,
        heap.payload(ptr).len() == n - heap.payload_start(ptr),
        forall|i: int| 0 <= i < heap.payload(ptr).len() ==> #[trigger] heap.payload(ptr)[i] == 0,
{
    let s = heap.space();
    lemma_fresh_ok(heap.registry(), mid, s, heap.roots(), n, header, len);
    let k = mid.count();
    lemma_index_of(s, k);
    assert(s.link(k));
}

/// Root stability: a handle that is in use before a collection is in use
/// after it, and stands for the copy of the object it stood for.
pub proof fn lemma_root_moved(before: GcHeap, after: GcHeap, fwd: Map<int, int>, root: GcRoot)
    requires
        before.wf(),
        before.moves_to(&after, fwd),
        before.handles().is_live(root),
    ensures
        after.handles().is_live(root),
        fwd.contains_key(before.handles().slots()[root.index()] as int),
        after.handles().slots()[root.index()] == fwd[before.handles().slots()[root.index()] as int],
        after.space().is_object(after.handles().slots()[root.index()] as int),
{
    reveal(collected);
    let r = root.index();
    assert(before.roots()[r] == before.handles().slots()[r]);
    assert(after.roots()[r] == after.handles().slots()[r]);
    lemma_root_stable(
        before.registry(),
        before.space(),
        before.roots(),
        after.space(),
        after.roots(),
        fwd,
        r,
    );
    lemma_object_placed(after.space(), after.roots()[r] as int);
}

/// An object that is moved is found at its new address with its type, its
/// kind, its length if it is an array, and as many payload words as it
/// had; this holds of an object without payload words too.
pub proof fn lemma_object_kept(before: GcHeap, after: GcHeap, fwd: Map<int, int>, ptr: GcPtr)
    requires
        before.wf(),
        before.moves_to(&after, fwd),
        fwd.contains_key(ptr.addr()),
    ensures
        ({
            let new = GcPtr::at(fwd[ptr.addr()] as usize);
            &&& before.is_object(ptr)
            &&& after.is_object(new)
            &&& new.addr() == fwd[ptr.addr()]
            &&& after.type_of(new) == before.type_of(ptr)
            &&& after.is_array(new) == before.is_array(ptr)
            &&& after.is_array(new) ==> after.array_len(GcVecPtr::at(new.addr() as usize))
                == before.array_len(GcVecPtr::at(ptr.addr() as usize))
            &&& after.payload(new).len() == before.payload(ptr).len()
        }),
{
    let pre = before.space();
    let post = after.space();
    let types = before.registry();
    let a = ptr.addr();
    let i = pre.index_of(a);
    let k = post.index_of(fwd[a]);
    lemma_moved_copy(types, pre, before.roots(), post, after.roots(), fwd, a);
    lemma_object_placed(pre, a);
    lemma_object_placed(post, fwd[a]);
    assert(pre.link(i));
    assert(post.link(k));
    assert(pre.shaped(types, i));
    if before.is_array(ptr) {
        assert(word_moved(types, pre, i, post, k, fwd, 3));
    }
}

/// Integrity across a collection: an object that is moved is found at its
/// new address with its type, its kind and its size.  Every word of its
/// payload that is no pointer slot is as it was.  Every pointer slot is a
/// pointer slot still; if it was null it is null, else what it pointed to
/// has been moved too and it holds the new address.
pub proof fn lemma_object_moved(
    before: GcHeap,
    after: GcHeap,
    fwd: Map<int, int>,
    ptr: GcPtr,
    index: int,
)
    requires
        before.wf(),
        before.moves_to(&after, fwd),
        fwd.contains_key(ptr.addr()),
        0 <= index < before.payload(ptr).len(),
    ensures
        ({
            let new = GcPtr::at(fwd[ptr.addr()] as usize);
            let word = before.payload(ptr)[index];
            &&& before.is_object(ptr)
            &&& after.is_object(new)
            &&& new.addr() == fwd[ptr.addr()]
            &&& after.type_of(new) == before.type_of(ptr)
            &&& after.is_array(new) == before.is_array(ptr)
            &&& after.is_array(new) ==> after.array_len(GcVecPtr::at(new.addr() as usize))
                == before.array_len(GcVecPtr::at(ptr.addr() as usize))
            &&& after.payload(new).len() == before.payload(ptr).len()
            &&& after.is_pointer_slot(new, index) == before.is_pointer_slot(ptr, index)
            &&& !before.is_pointer_slot(ptr, index) ==> after.payload(new)[index] == word
            &&& before.is_pointer_slot(ptr, index) && word == 0 ==> after.payload(new)[index] == 0
            &&& before.is_pointer_slot(ptr, index) && word != 0 ==> fwd.contains_key(word as int)
                && after.payload(new)[index] == fwd[word as int]
        }),
{
    let pre = before.space();
    let post = after.space();
    let types = before.registry();
    let a = ptr.addr();
    let i = pre.index_of(a);
    let k = post.index_of(fwd[a]);
    lemma_moved_copy(types, pre, before.roots(), post, after.roots(), fwd, a);
    lemma_object_placed(pre, a);
    lemma_object_placed(post, fwd[a]);
    assert(pre.link(i));
    assert(post.link(k));
    assert(pre.shaped(types, i));
    let start = before.payload_start(ptr);
    assert(word_moved(types, pre, i, post, k, fwd, start + index));
    if before.is_array(ptr) {
        assert(word_moved(types, pre, i, post, k, fwd, 3));
    }
}

/// A heap stays in order when types are registered.
pub proof fn lemma_registry_grows(before: GcHeap, after: GcHeap)
    requires
        before.wf(),
        after.handles() == before.handles(),
        after.collector() == before.collector(),
        after.type_registry().wf(),
        extends(before.registry(), after.registry()),
    ensures
        after.wf(),
{
    lemma_types_grow(before.registry(), after.registry(), before.space());
}

/// Roots that are null, objects, or what they were leave the heap in
/// order.
pub(crate) proof fn lemma_roots_change(s: Space, before: GcHandles, after: GcHandles)
    requires
        s.roots_ok(before.roots()),
        forall|i: int|
            0 <= i < after.slots().len() ==> (#[trigger] after.slots()[i]) == 0 || s.is_object(
                after.slots()[i] as int,
            ) || (i < before.slots().len() && after.slots()[i] == before.slots()[i]),
        forall|i: int|
            0 <= i < after.locals().len() ==> s.is_object((#[trigger] after.locals()[i]) as int) || (i
                < before.locals().len() && after.locals()[i] == before.locals()[i]),
    ensures
        s.roots_ok(after.roots()),
{
    assert forall|r: int| 0 <= r < after.roots().len() implies #[trigger] after.roots()[r] == 0
        || s.is_object(after.roots()[r] as int) by {
        let n = after.slots().len() as int;
        if r < n {
            let v = after.slots()[r];
            if v != 0 && !s.is_object(v as int) {
                assert(before.roots()[r] == v);
            }
        } else {
            let v = after.locals()[r - n];
            if !s.is_object(v as int) {
                assert(before.roots()[before.slots().len() + (r - n)] == v);
            }
        }
    }
}

} // verus!
