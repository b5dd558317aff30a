//! The handle table: the root set of the heap.
//!
//! A handle is an index into a table of object addresses.  The mutator
//! keeps indices; a collection rewrites the addresses in place.  Freed
//! indices are recycled, last freed first.  Besides the table there is a
//! stack of local roots, which is released in bulk by truncating it.

use vstd::prelude::*;

verus! {

/// Largest number of entries the table can hold: an index is a `u32`.
pub const MAX_HANDLES: usize = 0xffff_ffff;

/// An index into the handle table.
#[derive(Copy, Clone, Debug, PartialEq, Eq)]
pub struct GcRoot(pub(crate) u32);

impl GcRoot {
    /// The index as a number.
    pub open(crate) spec fn index(&self) -> int {
        self.0 as int
    }

    /// The index as a number.
    pub fn u32(&self) -> (i: u32)
        ensures
            i == self.index(),
    {
        self.0
    }
}

/// The table of roots and the stack of local roots.
pub struct GcHandles {
    pub(crate) ptrs: Vec<usize>,
    pub(crate) free: Vec<u32>,
    pub(crate) locals: Vec<usize>,
}

impl GcHandles {
    /// The table: for each index the address it stands for, or null if the
    /// index is free.
    pub open(crate) spec fn slots(&self) -> Seq<usize> {
        self.ptrs@
    }

    /// The free indices, in the order in which they were freed.
    pub open(crate) spec fn free_list(&self) -> Seq<u32> {
        self.free@
    }

    /// The stack of local roots.
    pub open(crate) spec fn locals(&self) -> Seq<usize> {
        self.locals@
    }

    /// Every root: the table, then the local roots.
    pub open(crate) spec fn roots(&self) -> Seq<usize> {
        self.ptrs@ + self.locals@
    }

    /// Whether `handle` is in use.
    pub open(crate) spec fn is_live(&self, handle: GcRoot) -> bool {
        handle.index() < self.ptrs@.len() && self.ptrs@[handle.index()] != 0
    }

    /// The free list holds exactly the indices whose slot is null, each
    /// once; no local root is null.
    pub open(crate) spec fn wf(&self) -> bool {
        &&& self.ptrs@.len() <= MAX_HANDLES
        &&& forall|f: int|
            0 <= f < self.free@.len() ==> (#[trigger] self.free@[f]) < self.ptrs@.len()
                && self.ptrs@[self.free@[f] as int] == 0
        &&& forall|f: int, g: int|
            0 <= f < g < self.free@.len() ==> self.free@[f] != self.free@[g]
        &&& forall|i: int|
            0 <= i < self.ptrs@.len() && #[trigger] self.ptrs@[i] == 0 ==> exists|f: int|
                0 <= f < self.free@.len() && #[trigger] self.free@[f] == i
        &&& forall|l: int| 0 <= l < self.locals@.len() ==> #[trigger] self.locals@[l] != 0
    }

    /// A table without entries.
    pub fn new() -> (h: GcHandles)
        ensures
            h.wf(),
            h.slots().len() == 0,
            h.free_list().len() == 0,
            h.locals().len() == 0,
    {
        GcHandles { ptrs: Vec::new(), free: Vec::new(), locals: Vec::new() }
    }

    /// The index that the next `add` hands out: the index freed last, or,
    /// if none is free, the one after the end of the table.
    pub open(crate) spec fn next_index(&self) -> int {
        if self.free@.len() > 0 {
            self.free@[self.free@.len() - 1] as int
        } else {
            self.ptrs@.len() as int
        }
    }

    /// Whether the table can take no further entry: no index is free, and
    /// the next index does not fit in a handle.
    pub open(crate) spec fn is_full(&self) -> bool {
        self.free@.len() == 0 && self.ptrs@.len() >= MAX_HANDLES
    }

    /// The step from `self` to `next` registered `ptr` under the handle
    /// `h`: a handle that was not in use, the one that `next_index` names.
    /// Every other entry of the table is as it was.  If an index was free,
    /// the one freed last has been taken off the free list, which is as it
    /// was in every other respect.
    pub open(crate) spec fn added(&self, next: &GcHandles, ptr: usize, h: GcRoot) -> bool {
        &&& ptr != 0
        &&& h.index() == self.next_index()
        &&& !self.is_live(h)
        &&& next.slots() == if self.free_list().len() > 0 {
            self.slots().update(h.index(), ptr)
        } else {
            self.slots().push(ptr)
        }
        &&& next.free_list() == if self.free_list().len() > 0 {
            self.free_list().drop_last()
        } else {
            self.free_list()
        }
        &&& next.locals() == self.locals()
    }

    /// The step from `self` to `next` freed the handle `h`, which was in
    /// use: its index has been put on the free list.  Every other entry of
    /// the table is as it was.
    pub open(crate) spec fn removed(&self, next: &GcHandles, h: GcRoot) -> bool {
        &&& self.is_live(h)
        &&& next.slots() == self.slots().update(h.index(), 0)
        &&& next.free_list() == self.free_list().push(h.index() as u32)
        &&& next.locals() == self.locals()
    }

    /// Whether the table can take no further entry.
    pub fn full(&self) -> (b: bool)
        ensures
            b == self.is_full(),
    {
        self.free.len() == 0 && self.ptrs.len() >= MAX_HANDLES
    }

    /// Whether `handle` is in use.
    pub fn in_use(&self, handle: GcRoot) -> (b: bool)
        ensures
            b == self.is_live(handle),
    {
        (handle.0 as usize) < self.ptrs.len() && self.ptrs[handle.0 as usize] != 0
    }

    /// Registers `ptr` and returns its handle.
    ///
    /// The handle is one that was not in use: the one freed last or, if
    /// none is free, the one after the end of the table.  Every handle that
    /// was in use stays in use and keeps its address.
    pub fn add(&mut self, ptr: usize) -> (h: GcRoot)
        requires
            old(self).wf(),
            ptr != 0,
            !old(self).is_full(),
        ensures
            final(self).wf(),
            old(self).added(final(self), ptr, h),
            final(self).is_live(h),
            final(self).slots()[h.index()] == ptr,
            forall|i: int|
                0 <= i < old(self).slots().len() && i != h.index()
                    ==> #[trigger] final(self).slots()[i] == old(self).slots()[i],
            final(self).slots().len() == if old(self).free_list().len() > 0 {
                old(self).slots().len()
            } else {
                old(self).slots().len() + 1
            },
    {
        if self.free.len() > 0 {
            let ghost before = *self;
            let index: u32 = self.free.pop().unwrap();
            assert(before.free@[before.free@.len() - 1] == index);
            self.ptrs[index as usize] = ptr;
            proof {
                assert forall|i: int|
                    0 <= i < self.ptrs@.len() && #[trigger] self.ptrs@[i] == 0 implies exists|
                    f: int,
                | 0 <= f < self.free@.len() && #[trigger] self.free@[f] == i by {
                    let f = choose|f: int|
                        0 <= f < before.free@.len() && #[trigger] before.free@[f] == i;
                    assert(self.free@[f] == i);
                }
            }
            GcRoot(index)
        } else {
            let index: u32 = self.ptrs.len() as u32;
            self.ptrs.push(ptr);
            GcRoot(index)
        }
    }

    /// Frees `handle`: its slot becomes null and its index goes on the
    /// free list.  Every other handle stays as it is.
    pub fn remove(&mut self, handle: GcRoot)
        requires
            old(self).wf(),
            old(self).is_live(handle),
        ensures
            final(self).wf(),
            old(self).removed(final(self), handle),
            !final(self).is_live(handle),
            final(self).slots() == old(self).slots().update(handle.index(), 0),
            final(self).free_list() == old(self).free_list().push(handle.index() as u32),
            final(self).locals() == old(self).locals(),
    {
        let ghost before = *self;
        self.free.push(handle.0);
        self.ptrs[handle.0 as usize] = 0;
        proof {
            assert forall|i: int|
                0 <= i < self.ptrs@.len() && #[trigger] self.ptrs@[i] == 0 implies exists|f: int|
                0 <= f < self.free@.len() && #[trigger] self.free@[f] == i by {
                if i == handle.index() {
                    assert(self.free@[before.free@.len() as int] == i);
                } else {
                    let f = choose|f: int|
                        0 <= f < before.free@.len() && #[trigger] before.free@[f] == i;
                    assert(self.free@[f] == i);
                }
            }
        }
    }

    /// The address that `handle` stands for.
    pub fn get(&self, handle: GcRoot) -> (ptr: usize)
        requires
            handle.index() < self.slots().len(),
        ensures
            ptr == self.slots()[handle.index()],
    {
        self.ptrs[handle.0 as usize]
    }

    /// Registers the object of `handle` a second time and returns the new
    /// handle.
    pub fn clone_root(&mut self, handle: GcRoot) -> (h: GcRoot)
        requires
            old(self).wf(),
            old(self).is_live(handle),
            !old(self).is_full(),
        ensures
            final(self).wf(),
            old(self).added(final(self), old(self).slots()[handle.index()], h),
            h != handle,
            final(self).is_live(h),
            final(self).is_live(handle),
            final(self).slots()[h.index()] == old(self).slots()[handle.index()],
    {
        let ptr: usize = self.ptrs[handle.0 as usize];
        self.add(ptr)
    }

    /// Number of local roots.
    pub fn local_depth(&self) -> (n: usize)
        ensures
            n == self.locals().len(),
    {
        self.locals.len()
    }

    /// Pushes `ptr` on the stack of local roots and returns its position.
    pub fn push_local(&mut self, ptr: usize) -> (i: usize)
        requires
            old(self).wf(),
            ptr != 0,
        ensures
            final(self).wf(),
            final(self).slots() == old(self).slots(),
            final(self).free_list() == old(self).free_list(),
            i == old(self).locals().len(),
            final(self).locals() == old(self).locals().push(ptr),
    {
        let ghost before = *self;
        let depth: usize = self.locals.len();
        self.locals.push(ptr);
        proof {
            assert forall|l: int| 0 <= l < self.locals@.len() implies #[trigger] self.locals@[l]
                != 0 by {
                if l < before.locals@.len() {
                    assert(before.locals@[l] != 0);
                }
            }
            assert forall|i: int|
                0 <= i < self.ptrs@.len() && #[trigger] self.ptrs@[i] == 0 implies exists|f: int|
                0 <= f < self.free@.len() && #[trigger] self.free@[f] == i by {
                let f = choose|f: int|
                    0 <= f < before.free@.len() && #[trigger] before.free@[f] == i;
                assert(self.free@[f] == i);
            }
        }
        depth
    }

    /// The address held by local root `index`.
    pub fn get_local(&self, index: usize) -> (ptr: usize)
        requires
            index < self.locals().len(),
        ensures
            ptr == self.locals()[index as int],
    {
        self.locals[index]
    }

    /// Releases every local root from position `depth` on.
    pub fn truncate_locals(&mut self, depth: usize)
        requires
            old(self).wf(),
        ensures
            final(self).wf(),
            final(self).slots() == old(self).slots(),
            final(self).free_list() == old(self).free_list(),
            final(self).locals() == if depth <= old(self).locals().len() {
                old(self).locals().subrange(0, depth as int)
            } else {
                old(self).locals()
            },
    {
        let ghost before = *self;
        self.locals.truncate(depth);
        proof {
            assert forall|l: int| 0 <= l < self.locals@.len() implies #[trigger] self.locals@[l]
                != 0 by {
                assert(before.locals@[l] != 0);
            }
            assert forall|i: int|
                0 <= i < self.ptrs@.len() && #[trigger] self.ptrs@[i] == 0 implies exists|f: int|
                0 <= f < self.free@.len() && #[trigger] self.free@[f] == i by {
                let f = choose|f: int|
                    0 <= f < before.free@.len() && #[trigger] before.free@[f] == i;
                assert(self.free@[f] == i);
            }
        }
    }

    /// The roots of one kind: the local roots, or the table.
    pub open(crate) spec fn walked(&self, locals: bool) -> Seq<usize> {
        if locals {
            self.locals@
        } else {
            self.ptrs@
        }
    }

    /// Replaces root `index` of one kind, which is not null, by `ptr`,
    /// which is not null either.
    pub fn set_root(&mut self, locals: bool, index: usize, ptr: usize)
        requires
            old(self).wf(),
            index < old(self).walked(locals).len(),
            old(self).walked(locals)[index as int] != 0,
            ptr != 0,
        ensures
            final(self).wf(),
            final(self).walked(locals) == old(self).walked(locals).update(index as int, ptr),
            final(self).walked(!locals) == old(self).walked(!locals),
            final(self).free_list() == old(self).free_list(),
    {
        let ghost before = *self;
        if locals {
            self.locals[index] = ptr;
        } else {
            self.ptrs[index] = ptr;
        }
        proof {
            assert forall|f: int| 0 <= f < self.free@.len() implies (#[trigger] self.free@[f])
                < self.ptrs@.len() && self.ptrs@[self.free@[f] as int] == 0 by {
                assert(before.free@[f] < before.ptrs@.len());
            }
            assert forall|i: int|
                0 <= i < self.ptrs@.len() && #[trigger] self.ptrs@[i] == 0 implies exists|f: int|
                0 <= f < self.free@.len() && #[trigger] self.free@[f] == i by {
                assert(before.ptrs@[i] == 0);
                let f = choose|f: int|
                    0 <= f < before.free@.len() && #[trigger] before.free@[f] == i;
                assert(self.free@[f] == i);
            }
        }
    }
}

/// What a mutator does to the handle table in one step.
pub enum HandleStep {
    /// It registered an address and got this handle.
    Added(usize, GcRoot),
    /// It freed this handle.
    Removed(GcRoot),
}

/// `tables` are the states that a handle table went through while a
/// mutator took the steps `steps`, one after another.
pub open spec fn history(tables: Seq<GcHandles>, steps: Seq<HandleStep>) -> bool {
    &&& tables.len() == steps.len() + 1
    &&& forall|k: int| 0 <= k < tables.len() ==> (#[trigger] tables[k]).wf()
    &&& forall|k: int|
        0 <= k < steps.len() ==> match #[trigger] steps[k] {
            HandleStep::Added(ptr, h) => tables[k].added(&tables[k + 1], ptr, h),
            HandleStep::Removed(h) => tables[k].removed(&tables[k + 1], h),
        }
}

/// A handle that has been handed out and not freed up to step `j` is in
/// use at step `j`.
proof fn lemma_still_live(tables: Seq<GcHandles>, steps: Seq<HandleStep>, i: int, j: int, h: GcRoot)
    requires
        history(tables, steps),
        0 <= i < j <= steps.len(),
        steps[i] matches HandleStep::Added(_, g) && g == h,
        forall|k: int| i < k < j ==> #[trigger] steps[k] != HandleStep::Removed(h),
    ensures
        tables[j].is_live(h),
    decreases j - i,
{
    if j == i + 1 {
        match steps[i] {
            HandleStep::Added(ptr, g) => {
                assert(tables[i].added(&tables[i + 1], ptr, g));
            },
            HandleStep::Removed(_) => {},
        }
    } else {
        lemma_still_live(tables, steps, i, j - 1, h);
        match steps[j - 1] {
            HandleStep::Added(ptr, g) => {
                assert(tables[j - 1].added(&tables[j - 1 + 1], ptr, g));
            },
            HandleStep::Removed(g) => {
                assert(tables[j - 1].removed(&tables[j - 1 + 1], g));
                assert(steps[j - 1] != HandleStep::Removed(h));
            },
        }
    }
}

/// No aliasing of handles: whatever the mutator does, a handle that it
/// holds is not handed out a second time.  If two steps hand out the same
/// handle, a step between them has freed it.
pub proof fn lemma_no_aliasing(tables: Seq<GcHandles>, steps: Seq<HandleStep>, i: int, j: int)
    requires
        history(tables, steps),
        0 <= i < j < steps.len(),
        steps[i] is Added,
        steps[j] is Added,
        steps[i]->Added_1 == steps[j]->Added_1,
    ensures
        exists|k: int| i < k < j && #[trigger] steps[k] == HandleStep::Removed(steps[i]->Added_1),
{
    let h = steps[i]->Added_1;
    if forall|k: int| i < k < j ==> #[trigger] steps[k] != HandleStep::Removed(h) {
        lemma_still_live(tables, steps, i, j, h);
        match steps[j] {
            HandleStep::Added(ptr, g) => {
                assert(tables[j].added(&tables[j + 1], ptr, g));
            },
            HandleStep::Removed(_) => {},
        }
    }
}

/// A cursor over the roots of one kind that stops at each root that is
/// not null.
pub struct RootWalker {
    pub(crate) offset: usize,
    pub(crate) locals: bool,
}

impl RootWalker {
    /// Number of roots the cursor has passed.
    pub open(crate) spec fn offset(&self) -> int {
        self.offset as int
    }

    /// Whether the cursor walks the local roots rather than the table.
    pub open(crate) spec fn locals(&self) -> bool {
        self.locals
    }

    /// A cursor in front of the first root of the table or, if `locals`
    /// is set, of the stack of local roots.
    pub fn new(locals: bool) -> (w: RootWalker)
        ensures
            w.offset() == 0,
            w.locals() == locals,
    {
        RootWalker { offset: 0, locals }
    }

    /// Moves to the next root that is not null and returns it; returns
    /// null, at the end of the roots, if there is none.
    pub fn next(&mut self, handles: &GcHandles) -> (ptr: usize)
        requires
            old(self).offset() <= handles.walked(old(self).locals()).len(),
        ensures
            final(self).locals() == old(self).locals(),
            old(self).offset() <= final(self).offset() <= handles.walked(old(self).locals()).len(),
            ptr != 0 ==> final(self).offset() > old(self).offset(),
            ptr != 0 ==> handles.walked(old(self).locals())[final(self).offset() - 1] == ptr,
            ptr == 0 ==> final(self).offset() == handles.walked(old(self).locals()).len(),
            forall|i: int|
                old(self).offset() <= i < final(self).offset() - if ptr != 0 {
                    1int
                } else {
                    0int
                } ==> #[trigger] handles.walked(old(self).locals())[i] == 0,
    {
        let end: usize = if self.locals {
            handles.locals.len()
        } else {
            handles.ptrs.len()
        };
        while self.offset < end
            invariant
                self.locals == old(self).locals,
                end == handles.walked(self.locals).len(),
                old(self).offset() <= self.offset() <= end,
                forall|i: int|
                    old(self).offset() <= i < self.offset() ==> #[trigger] handles.walked(
                        self.locals,
                    )[i] == 0,
            decreases end - self.offset,
        {
            let ptr: usize = if self.locals {
                handles.locals[self.offset]
            } else {
                handles.ptrs[self.offset]
            };
            self.offset += 1;
            if ptr != 0 {
                return ptr;
            }
        }
        0
    }

    /// Replaces the root that `next` returned last by `ptr`.
    pub fn rewrite(&self, handles: &mut GcHandles, ptr: usize)
        requires
            old(handles).wf(),
            0 < self.offset() <= old(handles).walked(self.locals()).len(),
            old(handles).walked(self.locals())[self.offset() - 1] != 0,
            ptr != 0,
        ensures
            final(handles).wf(),
            final(handles).walked(self.locals()) == old(handles).walked(self.locals()).update(
                self.offset() - 1,
                ptr,
            ),
            final(handles).walked(!self.locals()) == old(handles).walked(!self.locals()),
            final(handles).free_list() == old(handles).free_list(),
    {
        handles.set_root(self.locals, self.offset - 1, ptr);
    }
}

} // verus!
