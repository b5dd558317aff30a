//! Heap configuration, and the reasons for which room cannot be made.

use crate::memory::{round_up, PAGE_SIZE};
use vstd::prelude::*;

verus! {

/// A growth factor, as the fraction `num / den`.
#[derive(Copy, Clone, Debug, PartialEq, Eq)]
pub struct Ratio {
    pub num: u32,
    pub den: u32,
}

impl Ratio {
    /// Whether the fraction is defined and greater than one.
    pub open spec fn above_one(&self) -> bool {
        0 < self.den < self.num
    }

    /// The fraction `num / den`.
    pub fn new(num: u32, den: u32) -> (r: Ratio)
        ensures
            r.num == num,
            r.den == den,
    {
        Ratio { num, den }
    }

    /// Whether the fraction is defined and greater than one.
    pub fn is_above_one(&self) -> (b: bool)
        ensures
            b == self.above_one(),
    {
        0 < self.den && self.den < self.num
    }
}

/// Settings of a heap, fixed when the heap is made.
#[derive(Copy, Clone, Debug, PartialEq, Eq)]
pub struct GcOpts {
    /// Bytes reserved for the first from-space.
    pub initial_heap: usize,
    /// Factor by which the heap grows after a collection that kept at most
    /// four fifths of what was allocated.
    pub slow_growth_factor: Ratio,
    /// Factor by which the heap grows after a collection that kept more.
    pub fast_growth_factor: Ratio,
}

impl GcOpts {
    /// A heap can be made with these settings: the initial size is
    /// positive and both factors are greater than one.
    pub open spec fn valid(&self) -> bool {
        &&& self.initial_heap > 0
        &&& self.slow_growth_factor.above_one()
        &&& self.fast_growth_factor.above_one()
    }

    /// A heap can be made with these settings and has room in the address
    /// space: the first region begins after the page at address 0.
    pub open spec fn startable(&self) -> bool {
        self.valid() && round_up(self.initial_heap as int, 4096) + 4096 <= usize::MAX
    }

    /// Whether a heap can be made with these settings.
    pub fn is_startable(&self) -> (b: bool)
        ensures
            b == self.startable(),
    {
        let size: usize = self.initial_heap;
        let pages: usize = size / PAGE_SIZE + if size % PAGE_SIZE == 0 {
            0
        } else {
            1
        };
        assert(pages as int == (size as int + 4096 - 1) / 4096);
        size > 0 && self.slow_growth_factor.is_above_one()
            && self.fast_growth_factor.is_above_one() && pages <= (usize::MAX - PAGE_SIZE)
            / PAGE_SIZE
    }

    /// 16 MiB to begin with, growing by one half, or threefold when the
    /// heap stays full.
    pub fn default() -> (opts: GcOpts)
        ensures
            opts.startable(),
            opts.initial_heap == 16 * 1024 * 1024,
            opts.slow_growth_factor == (Ratio { num: 3, den: 2 }),
            opts.fast_growth_factor == (Ratio { num: 3, den: 1 }),
    {
        GcOpts {
            initial_heap: 16 * 1024 * 1024,
            slow_growth_factor: Ratio { num: 3, den: 2 },
            fast_growth_factor: Ratio { num: 3, den: 1 },
        }
    }
}

/// Why room could not be made for an allocation.
#[derive(Copy, Clone, Debug, PartialEq, Eq)]
pub enum GcError {
    /// The object does not fit, even after a collection.
    OutOfMemory,
    /// No region of the size that a collection wants for its to-space can
    /// be reserved.
    NoToSpace,
}

} // verus!
