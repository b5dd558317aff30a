//! Type descriptors, pointer layouts and the registry that numbers them.

use vstd::prelude::*;

verus! {

/// Largest number of types a registry can hold: a type id occupies 31 bits
/// of an object header.
pub const MAX_TYPES: usize = 0x8000_0000;

/// Whether bit `i` of `b` is set.
pub open spec fn bit_set(b: u64, i: int) -> bool {
    0 <= i < 64 && (b >> (i as u64)) & 1 == 1
}

/// Dense identifier of a registered type.
#[derive(Copy, Clone, Debug, PartialEq, Eq)]
pub struct GcTypeId(pub(crate) u32);

impl GcTypeId {
    /// The position of the type in its registry.
    pub open(crate) spec fn index(&self) -> int {
        self.0 as int
    }

    /// The position of the type in its registry.
    pub fn usize(&self) -> (i: usize)
        ensures
            i == self.index(),
    {
        self.0 as usize
    }
}

/// Answer of a layout callback for one slot of a payload.
#[derive(Copy, Clone, Debug, PartialEq, Eq)]
pub enum GcTypeWalk {
    /// The slot holds a managed pointer.
    Pointer,
    /// The slot holds plain data.
    Skip,
    /// No slot at or after this index holds a pointer.
    End,
}

/// A layout callback: tells, slot by slot, where a payload keeps its
/// managed pointers.
///
/// The answer is a function of the payload's contents and the slot index
/// alone; `walk_spec` is that function.  The heap calls `walk` while it
/// collects, so an implementation must not touch the heap.
pub trait GcWalker {
    /// What the callback says of slot `index` of a payload with the
    /// contents `payload`.
    spec fn walk_spec(&self, payload: Seq<u64>, index: u32) -> GcTypeWalk;

    /// Says what slot `index` of `payload` holds.
    fn walk(&self, payload: &[u64], index: u32) -> (r: GcTypeWalk)
        ensures
            r == self.walk_spec(payload@, index),
    ;
}

/// Where a payload keeps its managed pointers.
pub enum GcTypeLayout {
    /// The payload holds no pointers.
    Leaf,
    /// Bit `i` is set iff slot `i` holds a pointer.
    Bitmap(u64),
    /// The callback is asked slot by slot, from slot 0 up to its first
    /// `End` or the end of the payload.
    Callback(Box<dyn GcWalker>),
}

impl GcTypeLayout {
    /// What the layout says of slot `i` of `payload`.
    pub open spec fn answer(&self, payload: Seq<u64>, i: u32) -> GcTypeWalk {
        match self {
            GcTypeLayout::Leaf => GcTypeWalk::End,
            GcTypeLayout::Bitmap(b) => if bit_set(*b, i as int) {
                GcTypeWalk::Pointer
            } else {
                GcTypeWalk::Skip
            },
            GcTypeLayout::Callback(w) => w.walk_spec(payload, i),
        }
    }

    /// Whether the layout answers `End` for some slot below `i` of `payload`.
    pub open spec fn ended_before(&self, payload: Seq<u64>, i: int) -> bool
        decreases i,
    {
        i > 0 && (self.ended_before(payload, i - 1) || self.answer(payload, (i - 1) as u32)
            == GcTypeWalk::End)
    }

    /// Whether slot `i` of `payload` holds a pointer, for a payload of
    /// `slots` slots: the layout answers `Pointer` for it and has not
    /// answered `End` before.
    pub open spec fn is_slot(&self, slots: int, payload: Seq<u64>, i: int) -> bool {
        &&& 0 <= i < slots
        &&& i <= u32::MAX
        &&& self.answer(payload, i as u32) == GcTypeWalk::Pointer
        &&& !self.ended_before(payload, i)
    }

    /// Two payloads of `slots` slots that differ at most in the slots that
    /// the layout reports as pointers.
    pub open spec fn same_outside_pointers(&self, slots: int, p: Seq<u64>, q: Seq<u64>) -> bool {
        &&& p.len() == slots
        &&& q.len() == slots
        &&& forall|j: int| 0 <= j < slots && !self.is_slot(slots, p, j) ==> p[j] == q[j]
    }

    /// The answers of the layout do not depend on the values held in the
    /// slots it reports as pointers.  A collection rewrites exactly those
    /// slots, so a layout with this property describes an object the same
    /// way before and after the object has moved.
    pub open spec fn stable(&self, slots: int) -> bool {
        forall|p: Seq<u64>, q: Seq<u64>, i: u32| #[trigger]
            self.same_outside_pointers(slots, p, q) ==> #[trigger] self.answer(p, i)
                == self.answer(q, i)
    }

    /// The layout's answer for slot `i` of `payload`.
    pub fn ask(&self, payload: &[u64], i: u32) -> (r: GcTypeWalk)
        ensures
            r == self.answer(payload@, i),
    {
        match self {
            GcTypeLayout::Leaf => GcTypeWalk::End,
            GcTypeLayout::Bitmap(bitmap) => {
                let bitmap: u64 = *bitmap;
                if i < 64 && (bitmap >> (i as u64)) & 1 == 1 {
                    GcTypeWalk::Pointer
                } else {
                    GcTypeWalk::Skip
                }
            },
            GcTypeLayout::Callback(w) => w.walk(payload, i),
        }
    }

    /// Whether a bitmap can be made for a payload of `size` bytes with
    /// pointers at the byte offsets `ptrs`: the payload has at most 64
    /// slots, and every offset is a multiple of the pointer size and lies
    /// within the 64 slots that a bitmap covers.
    pub open spec fn bitmap_fits(size: int, ptrs: Seq<usize>) -> bool {
        &&& size / 8 <= 64
        &&& forall|k: int| 0 <= k < ptrs.len() ==> ptrs[k] % 8 == 0 && ptrs[k] / 8 < 64
    }

    /// Whether a bitmap can be made for a payload of `size` bytes with
    /// pointers at the byte offsets `ptrs`.
    pub fn check_bitmap(size: usize, ptrs: &Vec<usize>) -> (b: bool)
        ensures
            b == Self::bitmap_fits(size as int, ptrs@),
    {
        if size / 8 > 64 {
            return false;
        }
        let mut k: usize = 0;
        while k < ptrs.len()
            invariant
                k <= ptrs@.len(),
                size / 8 <= 64,
                forall|j: int| 0 <= j < k ==> ptrs@[j] % 8 == 0 && ptrs@[j] / 8 < 64,
            decreases ptrs@.len() - k,
        {
            if ptrs[k] % 8 != 0 || ptrs[k] / 8 >= 64 {
                return false;
            }
            k += 1;
        }
        true
    }

    /// The bitmap layout of a payload of `size` bytes whose pointers sit at
    /// the byte offsets `ptrs`: bit `i` is set iff one of the offsets is that
    /// of slot `i`.
    pub fn new_bitmap(size: usize, ptrs: Vec<usize>) -> (layout: GcTypeLayout)
        requires
            Self::bitmap_fits(size as int, ptrs@),
        ensures
            layout matches GcTypeLayout::Bitmap(b) && forall|i: int|
                #![trigger bit_set(b, i)]
                bit_set(b, i) <==> 0 <= i < 64 && exists|k: int|
                    0 <= k < ptrs@.len() && #[trigger] ptrs@[k] == 8 * i,
    {
        let mut bitmap: u64 = 0;
        let mut k: usize = 0;
        assert(forall|i: u64| i < 64 ==> (0u64 >> i) & 1 != 1) by (bit_vector);
        while k < ptrs.len()
            invariant
                k <= ptrs@.len(),
                forall|k: int| 0 <= k < ptrs@.len() ==> ptrs@[k] % 8 == 0 && ptrs@[k] / 8 < 64,
                forall|i: int|
                    #![trigger bit_set(bitmap, i)]
                    bit_set(bitmap, i) <==> 0 <= i < 64 && exists|j: int|
                        0 <= j < k && #[trigger] ptrs@[j] == 8 * i,
            decreases ptrs@.len() - k,
        {
            let slot: u64 = (ptrs[k] / 8) as u64;
            let next: u64 = bitmap | (1u64 << slot);
            assert(forall|i: u64|
                i < 64 ==> (((next >> i) & 1 == 1) <==> ((bitmap >> i) & 1 == 1 || i == slot)))
                by (bit_vector)
                requires
                    slot < 64,
                    next == bitmap | (1u64 << slot),
            ;
            assert forall|i: int| #![trigger bit_set(next, i)] bit_set(next, i) <==> 0 <= i < 64
                && exists|j: int| 0 <= j < k + 1 && #[trigger] ptrs@[j] == 8 * i by {
                if 0 <= i < 64 {
                    assert(bit_set(next, i) <==> bit_set(bitmap, i) || i == slot) by {
                        let iu = i as u64;
                        assert(((next >> iu) & 1 == 1) <==> ((bitmap >> iu) & 1 == 1 || iu
                            == slot));
                    }
                    if i == slot {
                        assert(ptrs@[k as int] == 8 * i);
                    }
                    if bit_set(bitmap, i) {
                        let j = choose|j: int| 0 <= j < k && #[trigger] ptrs@[j] == 8 * i;
                        assert(0 <= j < k + 1 && ptrs@[j] == 8 * i);
                    }
                }
            }
            bitmap = next;
            k += 1;
        }
        GcTypeLayout::Bitmap(bitmap)
    }
}

/// Once a layout has answered `End`, it has done so before every later slot.
pub proof fn lemma_ended_stays(layout: GcTypeLayout, payload: Seq<u64>, i: int, j: int)
    requires
        layout.ended_before(payload, i),
        i <= j,
    ensures
        layout.ended_before(payload, j),
    decreases j - i,
{
    if i < j {
        lemma_ended_stays(layout, payload, i, j - 1);
    }
}

/// A layout that answers `End` for slot 0 describes a payload without
/// pointers; `Leaf` is such a layout, and so is every callback that ends at
/// once.
pub proof fn lemma_end_at_zero_is_leaf(layout: GcTypeLayout, slots: int, payload: Seq<u64>, i: int)
    requires
        layout.answer(payload, 0) == GcTypeWalk::End,
    ensures
        !layout.is_slot(slots, payload, i),
        layout.is_slot(slots, payload, i) == GcTypeLayout::Leaf.is_slot(slots, payload, i),
{
    if 0 < i {
        assert(layout.ended_before(payload, 1));
        lemma_ended_stays(layout, payload, 1, i);
    }
}

/// Two payloads that differ at most in their pointer slots have the same
/// pointer slots, if the layout is stable.
pub proof fn lemma_stable_slots(layout: GcTypeLayout, slots: int, p: Seq<u64>, q: Seq<u64>, i: int)
    requires
        layout.stable(slots),
        layout.same_outside_pointers(slots, p, q),
    ensures
        layout.is_slot(slots, p, i) == layout.is_slot(slots, q, i),
{
    if 0 <= i < slots && i <= u32::MAX {
        lemma_stable_ended(layout, slots, p, q, i);
        assert(layout.answer(p, i as u32) == layout.answer(q, i as u32));
    }
}

proof fn lemma_stable_ended(layout: GcTypeLayout, slots: int, p: Seq<u64>, q: Seq<u64>, i: int)
    requires
        layout.stable(slots),
        layout.same_outside_pointers(slots, p, q),
        0 <= i <= u32::MAX + 1,
    ensures
        layout.ended_before(p, i) == layout.ended_before(q, i),
    decreases i,
{
    if i > 0 {
        lemma_stable_ended(layout, slots, p, q, i - 1);
        assert(layout.answer(p, (i - 1) as u32) == layout.answer(q, (i - 1) as u32));
    }
}

/// Immutable description of one kind of object: the size of its payload and
/// where the payload keeps its pointers.
pub struct GcType {
    pub(crate) size: usize,
    pub(crate) layout: GcTypeLayout,
}

impl GcType {
    /// Payload size in bytes.
    pub open(crate) spec fn size(&self) -> int {
        self.size as int
    }

    /// The pointer layout.
    pub open(crate) spec fn layout(&self) -> GcTypeLayout {
        self.layout
    }

    /// Number of slots of a `size`-byte payload that a collection looks
    /// at: none for a payload without pointers, else the payload's size in
    /// words.
    pub open spec fn slots_of(size: int, layout: GcTypeLayout) -> int {
        match layout {
            GcTypeLayout::Leaf => 0,
            _ => size / 8,
        }
    }

    /// Whether a `size`-byte payload can carry `layout`: the size is
    /// positive; a payload with pointers is a whole number of slots; a
    /// bitmap covers at most 64 slots; a callback is stable and never needs
    /// a slot index beyond `u32`.
    pub open spec fn valid(size: int, layout: GcTypeLayout) -> bool {
        &&& size > 0
        &&& match layout {
            GcTypeLayout::Leaf => true,
            GcTypeLayout::Bitmap(_) => size % 8 == 0 && size / 8 <= 64,
            GcTypeLayout::Callback(_) => size % 8 == 0 && size / 8 <= u32::MAX && layout.stable(
                size / 8,
            ),
        }
    }

    /// The size and the layout go together, as `valid` says.
    pub open spec fn wf(&self) -> bool {
        Self::valid(self.size(), self.layout())
    }

    /// Number of slots of one payload that a collection looks at.
    pub open spec fn slots(&self) -> int {
        Self::slots_of(self.size(), self.layout())
    }

    /// Whether slot `i` of `payload` holds a pointer.
    pub open spec fn is_slot(&self, payload: Seq<u64>, i: int) -> bool {
        self.layout().is_slot(self.slots(), payload, i)
    }

    /// Number of words that `count` payloads take when laid out back to
    /// back: their bytes rounded up to whole words.
    pub open spec fn span(&self, count: int) -> int {
        (self.size() * count + 7) / 8
    }

    /// The type of objects with a payload of `size` bytes that keeps its
    /// pointers where `layout` says.
    pub fn new(size: usize, layout: GcTypeLayout) -> (ty: GcType)
        requires
            Self::valid(size as int, layout),
        ensures
            ty.wf(),
            ty.size() == size,
            ty.layout() == layout,
    {
        GcType { size, layout }
    }

    /// Number of slots of one payload that a collection looks at.
    pub fn slot_count(&self) -> (n: usize)
        ensures
            n == self.slots(),
    {
        match &self.layout {
            GcTypeLayout::Leaf => 0,
            _ => self.size / 8,
        }
    }

    /// Payload size in bytes.
    pub fn byte_size(&self) -> (n: usize)
        ensures
            n == self.size(),
    {
        self.size
    }

    /// The pointer slots of `payload`, in ascending order: the layout is
    /// asked slot by slot, from slot 0 up to its first `End` or the end of
    /// the payload.
    pub fn pointer_slots(&self, payload: &[u64]) -> (slots: Vec<usize>)
        requires
            self.wf(),
        ensures
            forall|k: int|
                0 <= k < slots@.len() ==> self.is_slot(payload@, #[trigger] slots@[k] as int),
            forall|i: int| #[trigger]
                self.is_slot(payload@, i) ==> exists|k: int|
                    0 <= k < slots@.len() && #[trigger] slots@[k] == i,
            forall|j: int, k: int| 0 <= j < k < slots@.len() ==> slots@[j] < slots@[k],
    {
        let mut slots: Vec<usize> = Vec::new();
        let count: usize = match &self.layout {
            GcTypeLayout::Leaf => 0,
            _ => self.size / 8,
        };
        let mut i: usize = 0;
        let mut ended: bool = false;
        while i < count && !ended
            invariant
                self.wf(),
                i <= count <= u32::MAX,
                count == self.slots(),
                ended == self.layout.ended_before(payload@, i as int),
                forall|k: int|
                    0 <= k < slots@.len() ==> (#[trigger] slots@[k]) < i && self.is_slot(
                        payload@,
                        slots@[k] as int,
                    ),
                forall|j: int|
                    0 <= j < i && #[trigger] self.is_slot(payload@, j) ==> exists|k: int|
                        0 <= k < slots@.len() && #[trigger] slots@[k] == j,
                forall|j: int, k: int| 0 <= j < k < slots@.len() ==> slots@[j] < slots@[k],
            decreases count - i + if ended { 0int } else { 1int },
        {
            let answer = self.layout.ask(payload, i as u32);
            match answer {
                GcTypeWalk::Pointer => {
                    let ghost before = slots@;
                    slots.push(i);
                    assert forall|j: int|
                        0 <= j < i + 1 && #[trigger] self.is_slot(payload@, j) implies exists|
                        k: int,
                    | 0 <= k < slots@.len() && #[trigger] slots@[k] == j by {
                        if j < i {
                            let k = choose|k: int|
                                0 <= k < before.len() && #[trigger] before[k] == j;
                            assert(slots@[k] == j);
                        } else {
                            assert(slots@[before.len() as int] == j);
                        }
                    }
                },
                GcTypeWalk::Skip => {},
                GcTypeWalk::End => {
                    ended = true;
                },
            }
            i += 1;
        }
        proof {
            assert forall|j: int| i <= j < count implies !#[trigger] self.is_slot(
                payload@,
                j,
            ) by {
                lemma_ended_stays(self.layout, payload@, i as int, j);
            }
        }
        slots
    }
}

/// Payloads with pointers are whole words, so `count` of them back to back
/// take `count` times the slots of one.
pub proof fn lemma_span(ty: GcType, count: int)
    requires
        ty.wf(),
        ty.slots() > 0,
        count >= 0,
    ensures
        ty.span(count) == ty.slots() * count,
        ty.slots() * count >= count,
        ty.slots() * count >= 0,
{
    let n = ty.slots();
    assert(ty.size() == 8 * n);
    assert((8 * n * count + 7) / 8 == n * count && n * count >= count) by (nonlinear_arith)
        requires
            n > 0,
            count >= 0,
    ;
    assert(ty.size() * count == 8 * n * count) by (nonlinear_arith)
        requires
            ty.size() == 8 * n,
    ;
}

/// The types registered with a heap, in order of registration.
pub struct GcTypes {
    pub(crate) types: Vec<GcType>,
}

impl View for GcTypes {
    type V = Seq<GcType>;

    open(crate) spec fn view(&self) -> Seq<GcType> {
        self.types@
    }
}

impl GcTypes {
    /// Every registered type is well formed and every id fits in 31 bits.
    pub open spec fn wf(&self) -> bool {
        &&& self@.len() <= MAX_TYPES
        &&& forall|i: int| 0 <= i < self@.len() ==> (#[trigger] self@[i]).wf()
    }

    /// Whether `id` names a registered type.
    pub open spec fn has(&self, id: GcTypeId) -> bool {
        id.index() < self@.len()
    }

    /// An empty registry.
    pub fn new() -> (types: GcTypes)
        ensures
            types.wf(),
            types@.len() == 0,
    {
        GcTypes { types: Vec::new() }
    }

    /// Number of registered types.
    pub fn len(&self) -> (n: usize)
        ensures
            n == self@.len(),
    {
        self.types.len()
    }

    /// Registers `type_` and returns its id: the number of types registered
    /// before it.  Earlier registrations are left as they are.
    pub fn add(&mut self, type_: GcType) -> (id: GcTypeId)
        requires
            old(self).wf(),
            type_.wf(),
            old(self)@.len() < MAX_TYPES,
        ensures
            final(self).wf(),
            final(self)@ == old(self)@.push(type_),
            id.index() == old(self)@.len(),
    {
        let index: u32 = self.types.len() as u32;
        self.types.push(type_);
        GcTypeId(index)
    }

    /// The descriptor registered under `type_id`.
    pub fn get(&self, type_id: GcTypeId) -> (ty: &GcType)
        requires
            self.has(type_id),
        ensures
            *ty == self@[type_id.index()],
    {
        &self.types[type_id.usize()]
    }
}

/// The header word in front of every payload: the type id in the upper 63
/// bits, the array flag in bit 0.
#[derive(Copy, Clone)]
pub struct GcMemHeader {
    pub(crate) header: u64,
}

/// The type id packed into header word `w`.
pub open spec fn header_type(w: u64) -> int {
    w as int / 2
}

/// The array flag packed into header word `w`.
pub open spec fn header_is_array(w: u64) -> bool {
    w as int % 2 == 1
}

impl GcMemHeader {
    /// The header as it is stored in memory.
    pub open(crate) spec fn word(&self) -> u64 {
        self.header
    }

    /// The header of an object of type `type_id`, or of an array of such
    /// objects.
    pub fn new(type_id: GcTypeId, is_array: bool) -> (h: GcMemHeader)
        requires
            type_id.index() < MAX_TYPES,
        ensures
            header_type(h.word()) == type_id.index(),
            header_is_array(h.word()) == is_array,
            h.word() == 2 * type_id.index() + if is_array { 1int } else { 0int },
    {
        let id: u64 = type_id.0 as u64;
        let mut header: u64 = id << 1;
        assert(header == 2 * id && header & 1 == 0) by (bit_vector)
            requires
                id < 0x8000_0000,
                header == id << 1,
        ;
        if is_array {
            let tagged: u64 = header | 1;
            assert(tagged == header + 1) by (bit_vector)
                requires
                    header & 1 == 0,
                    tagged == header | 1,
            ;
            header = tagged;
        }
        GcMemHeader { header }
    }

    /// Reads a header back from its word.
    pub fn from_word(word: u64) -> (h: GcMemHeader)
        ensures
            h.word() == word,
    {
        GcMemHeader { header: word }
    }

    /// The header as it is stored in memory.
    pub fn to_word(&self) -> (w: u64)
        ensures
            w == self.word(),
    {
        self.header
    }

    /// The type id that the header carries.
    pub fn get_type_id(&self) -> (id: GcTypeId)
        requires
            header_type(self.word()) < MAX_TYPES,
        ensures
            id.index() == header_type(self.word()),
    {
        let header: u64 = self.header;
        let id: u64 = header >> 1;
        assert(id == header / 2) by (bit_vector)
            requires
                id == header >> 1,
        ;
        GcTypeId(id as u32)
    }

    /// Whether the header is that of an array.
    pub fn is_array(&self) -> (a: bool)
        ensures
            a == header_is_array(self.word()),
    {
        let header: u64 = self.header;
        let low: u64 = header & 1;
        assert(low == header % 2) by (bit_vector)
            requires
                low == header & 1,
        ;
        low != 0
    }
}

} // verus!
