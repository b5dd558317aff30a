//! The handles by which the mutator holds on to objects: roots that own an
//! entry of the handle table, for single objects and for arrays.
//!
//! A handle stands for an entry of the table, not for an address, so it
//! stays good when a collection moves the object.  The address is looked
//! up when it is needed.

use crate::handles::GcRoot;
use crate::heap::{GcHeap, GcPtr, GcVecPtr};
use crate::space::{lemma_object_placed, OBJECT_HEADER_SIZE};
use vstd::prelude::*;

verus! {

/// A root that owns its entry of the handle table and stands for a single
/// object.  Releasing the root frees the entry.
pub struct Gc {
    pub(crate) handle: GcRoot,
}

/// A root that owns its entry of the handle table and stands for an array.
pub struct GcVec {
    pub(crate) handle: GcRoot,
}

impl Gc {
    /// The entry of the handle table that the root owns.
    pub open(crate) spec fn root(&self) -> GcRoot {
        self.handle
    }

    /// The address of the object, as it is now.
    pub open spec fn target(&self, heap: &GcHeap) -> GcPtr {
        GcPtr::at(heap.handles().slots()[self.root().index()])
    }

    /// The entry of the handle table that the root owns.
    pub fn as_root(&self) -> (root: GcRoot)
        ensures
            root == self.root(),
    {
        self.handle
    }

    /// The address of the object, as it is now.
    pub fn as_ptr(&self, heap: &GcHeap) -> (ptr: GcPtr)
        requires
            heap.wf(),
            heap.handles().is_live(self.root()),
        ensures
            ptr == self.target(heap),
            heap.is_object(ptr),
    {
        heap.root_ptr(self.handle)
    }

    /// A second root for the same object, with an entry of its own.  The
    /// handle table must have room.
    pub fn duplicate(&self, heap: &mut GcHeap) -> (gc: Gc)
        requires
            old(heap).wf(),
            old(heap).handles().is_live(self.root()),
            !old(heap).handles().is_full(),
        ensures
            final(heap).wf(),
            old(heap).rooted(final(heap), self.target(old(heap)), gc.root()),
            gc.root() != self.root(),
            final(heap).handles().is_live(self.root()),
    {
        Gc { handle: heap.clone_root(self.handle) }
    }

    /// Gives the root up: its entry of the handle table is freed.
    pub fn release(self, heap: &mut GcHeap)
        requires
            old(heap).wf(),
            old(heap).handles().is_live(self.root()),
        ensures
            final(heap).wf(),
            final(heap).type_registry() == old(heap).type_registry(),
            final(heap).collector() == old(heap).collector(),
            old(heap).handles().removed(&final(heap).handles(), self.root()),
            !final(heap).handles().is_live(self.root()),
    {
        heap.remove_root(self.handle);
    }
}

impl GcVec {
    /// The entry of the handle table that the root owns.
    pub open(crate) spec fn root(&self) -> GcRoot {
        self.handle
    }

    /// The address of the array, as it is now.
    pub open spec fn target(&self, heap: &GcHeap) -> GcVecPtr {
        GcVecPtr::at(heap.handles().slots()[self.root().index()])
    }

    /// The entry of the handle table that the root owns.
    pub fn as_root(&self) -> (root: GcRoot)
        ensures
            root == self.root(),
    {
        self.handle
    }

    /// The address of the array, as it is now.
    pub fn as_ptr(&self, heap: &GcHeap) -> (ptr: GcVecPtr)
        requires
            heap.wf(),
            heap.handles().is_live(self.root()),
        ensures
            ptr == self.target(heap),
            heap.is_object(ptr.as_ptr()),
    {
        GcVecPtr { ptr: heap.root_ptr(self.handle).ptr }
    }

    /// Number of items of the array.
    pub fn len(&self, heap: &GcHeap) -> (n: usize)
        requires
            heap.wf(),
            heap.handles().is_live(self.root()),
            heap.is_array(self.target(heap).as_ptr()),
        ensures
            n == heap.array_len(self.target(heap)),
    {
        let ptr = self.as_ptr(heap);
        heap.len(ptr)
    }

    /// The word of the payload of the array at which item `index`
    /// begins.  The array must have such an item, and the items must be
    /// whole words.
    pub fn index(&self, heap: &GcHeap, index: usize) -> (at: usize)
        requires
            heap.wf(),
            heap.handles().is_live(self.root()),
            heap.is_array(self.target(heap).as_ptr()),
            heap.registry()[heap.type_of(self.target(heap).as_ptr())].size() % 8 == 0,
            index < heap.array_len(self.target(heap)),
        ensures
            at == index * (heap.registry()[heap.type_of(self.target(heap).as_ptr())].size() / 8),
            at + heap.registry()[heap.type_of(self.target(heap).as_ptr())].size() / 8
                <= heap.payload(self.target(heap).as_ptr()).len(),
    {
        let ptr = self.as_ptr(heap);
        heap.item(ptr, index)
    }

    /// A second root for the same array, with an entry of its own.  The
    /// handle table must have room.
    pub fn duplicate(&self, heap: &mut GcHeap) -> (gc: GcVec)
        requires
            old(heap).wf(),
            old(heap).handles().is_live(self.root()),
            !old(heap).handles().is_full(),
        ensures
            final(heap).wf(),
            old(heap).rooted(final(heap), self.target(old(heap)).as_ptr(), gc.root()),
            gc.root() != self.root(),
            final(heap).handles().is_live(self.root()),
    {
        GcVec { handle: heap.clone_root(self.handle) }
    }

    /// Gives the root up: its entry of the handle table is freed.
    pub fn release(self, heap: &mut GcHeap)
        requires
            old(heap).wf(),
            old(heap).handles().is_live(self.root()),
        ensures
            final(heap).wf(),
            final(heap).type_registry() == old(heap).type_registry(),
            final(heap).collector() == old(heap).collector(),
            old(heap).handles().removed(&final(heap).handles(), self.root()),
            !final(heap).handles().is_live(self.root()),
    {
        heap.remove_root(self.handle);
    }
}

impl GcRoot {
    /// The root as an owner of its entry.  The entry must not have another
    /// owner.
    pub fn as_handle(self, heap: &GcHeap) -> (gc: Gc)
        requires
            heap.handles().is_live(self),
        ensures
            gc.root() == self,
    {
        Gc { handle: self }
    }

    /// A new root for the same object, with an entry of its own.  The
    /// handle table must have room.
    pub fn as_new_handle(self, heap: &mut GcHeap) -> (gc: Gc)
        requires
            old(heap).wf(),
            old(heap).handles().is_live(self),
            !old(heap).handles().is_full(),
        ensures
            final(heap).wf(),
            old(heap).rooted(
                final(heap),
                GcPtr::at(old(heap).handles().slots()[self.index()]),
                gc.root(),
            ),
            gc.root() != self,
            final(heap).handles().is_live(self),
    {
        Gc { handle: heap.clone_root(self) }
    }

    /// The root as an owner of its entry, which stands for an array.  The
    /// entry must not have another owner.
    pub fn as_vec_handle(self, heap: &GcHeap) -> (gc: GcVec)
        requires
            heap.handles().is_live(self),
        ensures
            gc.root() == self,
    {
        GcVec { handle: self }
    }

    /// A new root for the same array, with an entry of its own.  The
    /// handle table must have room.
    pub fn as_new_vec_handle(self, heap: &mut GcHeap) -> (gc: GcVec)
        requires
            old(heap).wf(),
            old(heap).handles().is_live(self),
            !old(heap).handles().is_full(),
        ensures
            final(heap).wf(),
            old(heap).rooted(
                final(heap),
                GcPtr::at(old(heap).handles().slots()[self.index()]),
                gc.root(),
            ),
            gc.root() != self,
            final(heap).handles().is_live(self),
    {
        GcVec { handle: heap.clone_root(self) }
    }

    /// The address of the first word after the object header of the
    /// object that the root stands for, as it is now.
    pub fn deref(self, heap: &GcHeap) -> (payload: usize)
        requires
            heap.wf(),
            heap.handles().is_live(self),
        ensures
            payload == heap.handles().slots()[self.index()] + 8,
    {
        let ptr = heap.root_ptr(self);
        proof {
            lemma_object_placed(heap.space(), ptr.addr());
        }
        ptr.usize() + OBJECT_HEADER_SIZE
    }
}

} // verus!
