//! Page-granular memory regions, addressed in words.
//!
//! A region is a run of 64-bit words that occupies a page-aligned range of
//! byte addresses.  Addresses are plain integers; the word at index `i` of a
//! region lives at byte address `base + 8 * i`.

use vstd::prelude::*;
use vstd::slice::slice_subrange;

verus! {

/// Width in bytes of one heap word; every pointer slot is one word wide.
pub const PTR_SIZE: usize = 8;

/// Granularity in bytes of the regions handed out by [`Pages`].
pub const PAGE_SIZE: usize = 4096;

/// Number of words in one page.
pub const PAGE_WORDS: usize = 512;

/// `n` rounded up to the next multiple of `unit`.
pub open spec fn round_up(n: int, unit: int) -> int
    recommends
        unit > 0,
        n >= 0,
{
    ((n + unit - 1) / unit) * unit
}

/// A contiguous, zero-initialised region of address space.
pub struct Memory {
    pub(crate) base: usize,
    pub(crate) words: Vec<u64>,
}

impl View for Memory {
    type V = Seq<u64>;

    open(crate) spec fn view(&self) -> Seq<u64> {
        self.words@
    }
}

impl Memory {
    /// First byte address of the region.
    pub open(crate) spec fn base(&self) -> int {
        self.base as int
    }

    /// Size of the region in bytes.
    pub open spec fn bytes(&self) -> int {
        8 * (self@.len() as int)
    }

    /// The region starts on a page boundary, spans whole pages and ends
    /// inside the address space.  Only the empty region sits at address 0.
    pub open spec fn wf(&self) -> bool {
        &&& self.base() % 4096 == 0
        &&& self@.len() % 512 == 0
        &&& self.base() + 8 * self@.len() <= usize::MAX
        &&& self@.len() > 0 ==> self.base() > 0
    }

    /// Whether byte address `addr` falls inside the region.
    pub open spec fn contains(&self, addr: int) -> bool {
        self.base() <= addr < self.base() + self.bytes()
    }

    /// The sentinel region: no bytes, at address 0.
    pub fn empty() -> (m: Memory)
        ensures
            m.wf(),
            m.base() == 0,
            m.bytes() == 0,
    {
        Memory { base: 0, words: Vec::new() }
    }

    /// Size of the region in bytes.
    pub fn size(&self) -> (n: usize)
        requires
            self.wf(),
        ensures
            n == self.bytes(),
    {
        self.words.len() * 8
    }

    /// First byte address of the region.
    pub fn ptr(&self) -> (p: usize)
        ensures
            p == self.base(),
    {
        self.base
    }

    /// Number of words in the region.
    pub fn len(&self) -> (n: usize)
        ensures
            n == self@.len(),
    {
        self.words.len()
    }

    /// The word at index `i`.
    pub fn get(&self, i: usize) -> (w: u64)
        requires
            i < self@.len(),
        ensures
            w == self@[i as int],
    {
        self.words[i]
    }

    /// The words from index `from` up to, not including, index `to`.
    pub fn slice(&self, from: usize, to: usize) -> (words: &[u64])
        requires
            from <= to <= self@.len(),
        ensures
            words@ == self@.subrange(from as int, to as int),
    {
        slice_subrange(self.words.as_slice(), from, to)
    }

    /// Stores `w` at index `i`; every other word keeps its value.
    pub fn set(&mut self, i: usize, w: u64)
        requires
            i < old(self)@.len(),
        ensures
            final(self)@ == old(self)@.update(i as int, w),
            final(self).base() == old(self).base(),
    {
        self.words[i] = w;
    }
}

/// Hands out regions of address space.
///
/// Regions are placed one after another at ascending addresses and an
/// address is never handed out twice, so two regions obtained from the same
/// `Pages` never overlap, whether or not the earlier one has been released.
pub struct Pages {
    pub(crate) next: usize,
}

impl Pages {
    /// The lowest address that has not been handed out yet.
    pub open(crate) spec fn next(&self) -> int {
        self.next as int
    }

    /// The next region starts on a page boundary, above the page at
    /// address 0.
    pub open spec fn wf(&self) -> bool {
        &&& self.next() % 4096 == 0
        &&& self.next() >= 4096
    }

    /// Whether a request for `size` bytes can be granted.
    pub open spec fn can_reserve(&self, size: int) -> bool {
        self.next() + round_up(size, 4096) <= usize::MAX
    }

    /// Whether a request for `size` bytes can be granted.
    pub fn has_room(&self, size: usize) -> (b: bool)
        requires
            self.wf(),
        ensures
            b == self.can_reserve(size as int),
    {
        let pages: usize = size / PAGE_SIZE + if size % PAGE_SIZE == 0 {
            0
        } else {
            1
        };
        assert(pages as int == (size as int + 4096 - 1) / 4096);
        pages <= (usize::MAX - self.next) / PAGE_SIZE
    }

    /// A fresh address space; the page at address 0 is never handed out.
    pub fn new() -> (p: Pages)
        ensures
            p.wf(),
            p.next() == 4096,
    {
        Pages { next: PAGE_SIZE }
    }

    /// Reserves a zero-filled region of `size` bytes rounded up to whole
    /// pages, or returns `None` when the address space cannot hold it.
    pub fn reserve(&mut self, size: usize) -> (r: Option<Memory>)
        requires
            old(self).wf(),
        ensures
            final(self).wf(),
            r is Some <==> old(self).can_reserve(size as int),
            r is None ==> *final(self) == *old(self),
            r matches Some(m) ==> {
                &&& m.wf()
                &&& m.base() == old(self).next()
                &&& m.bytes() == round_up(size as int, 4096)
                &&& m.bytes() >= size
                &&& final(self).next() == m.base() + m.bytes()
                &&& forall|i: int| 0 <= i < m@.len() ==> m@[i] == 0
            },
    {
        let pages: usize = size / PAGE_SIZE + if size % PAGE_SIZE == 0 {
            0
        } else {
            1
        };
        assert(pages as int == (size as int + 4096 - 1) / 4096);
        let room: usize = (usize::MAX - self.next) / PAGE_SIZE;
        if pages > room {
            return None;
        }
        let base: usize = self.next;
        let words: usize = pages * PAGE_WORDS;
        self.next = base + pages * PAGE_SIZE;
        Some(Memory { base, words: vec![0u64; words] })
    }

    /// Gives a region back.  Its addresses are retired, not reused.
    pub fn release(&mut self, region: Memory)
        ensures
            *final(self) == *old(self),
    {
        let _ = region;
    }
}

} // verus!
