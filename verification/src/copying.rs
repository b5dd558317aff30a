//! The copying collector: a from-space that is filled by bumping an
//! offset, a to-space that a collection copies the live objects to, and the
//! policy by which the to-space is sized.

use crate::block::Block;
use crate::collect::{apart, collected, lemma_collected};
use crate::cycle::{Cycle, Trace};
use crate::handles::{GcHandles, RootWalker};
use crate::memory::{round_up, Memory, Pages};
use crate::opts::{GcOpts, Ratio};
use crate::order::{lemma_nonnull_skip, lemma_nonnull_step, lemma_visit};
use crate::space::{lemma_chain_ordered, lemma_kept_none, lemma_reach_root, Space};
use crate::types::GcTypes;
use vstd::prelude::*;

verus! {

/// A fill rate: `used` bytes out of `allocated`.  Nothing out of nothing
/// counts as zero.
#[derive(Copy, Clone, Debug, PartialEq, Eq)]
pub struct Fill {
    pub used: usize,
    pub allocated: usize,
}

/// The growth factor that applies after a collection with fill rate `fill`:
/// the fast one if more than four fifths were kept, else the slow one.
pub open spec fn growth(opts: GcOpts, fill: Fill) -> Ratio {
    if fill.allocated > 0 && 5 * fill.used > 4 * fill.allocated {
        opts.fast_growth_factor
    } else {
        opts.slow_growth_factor
    }
}

/// `n` times the fill rate, rounded down; `n` itself while the fill rate
/// is zero.
pub open spec fn scaled(n: int, fill: Fill) -> int {
    if fill.used > 0 && fill.allocated > 0 {
        n * fill.used / (fill.allocated as int)
    } else {
        n
    }
}

/// The size in bytes that a collection wants its to-space to have.
///
/// What is in use plus what the last failed allocation asked for is scaled
/// by the last fill rate, raised to the initial heap size if it is below
/// it, multiplied by the growth factor and rounded up to whole pages.  The
/// result is never less than what is in use, rounded up to whole pages, so
/// the to-space has room for every block of the from-space.
pub open spec fn target_size(opts: GcOpts, offset: int, last_failed: int, fill: Fill) -> int {
    let g = growth(opts, fill);
    let want = scaled(offset + last_failed, fill);
    let floor = if want < opts.initial_heap {
        opts.initial_heap as int
    } else {
        want
    };
    let grown = floor * g.num / (g.den as int);
    let pages = round_up(grown, 4096);
    let room = round_up(offset, 4096);
    if pages < room {
        room
    } else {
        pages
    }
}

/// Computes [`target_size`].
pub fn target(opts: &GcOpts, offset: usize, last_failed: usize, fill: Fill) -> (t: u128)
    requires
        opts.valid(),
        fill.used <= fill.allocated,
    ensures
        t == target_size(*opts, offset as int, last_failed as int, fill),
        t >= offset,
        t % 4096 == 0,
{
    let fast: bool = fill.allocated > 0 && 5 * (fill.used as u128) > 4 * (fill.allocated as u128);
    let g: Ratio = if fast {
        opts.fast_growth_factor
    } else {
        opts.slow_growth_factor
    };
    let sum: u128 = offset as u128 + last_failed as u128;
    let want: u128 = if fill.used > 0 && fill.allocated > 0 {
        let a: u128 = fill.allocated as u128;
        let u: u128 = fill.used as u128;
        let q: u128 = sum / a;
        let r: u128 = sum % a;
        proof {
            vstd::arithmetic::div_mod::lemma_fundamental_div_mod(sum as int, a as int);
            assert(a * q == q * a) by (nonlinear_arith);
            assert(0 <= q) by (nonlinear_arith)
                requires
                    q == sum as int / a as int,
                    sum >= 0,
                    a > 0,
            ;
        }
        assert(q * u <= sum && r * u <= 0xffff_ffff_ffff_ffff * 0xffff_ffff_ffff_ffff && (q * a
            + r) * u == (q * u) * a + r * u) by (nonlinear_arith)
            requires
                sum == q * a + r,
                0 <= r < a,
                0 < u <= a,
                a <= 0xffff_ffff_ffff_ffff,
                0 <= q,
        ;
        let part: u128 = (r * u) / a;
        proof {
            let x = (r * u) as int;
            let d = a as int;
            vstd::arithmetic::div_mod::lemma_fundamental_div_mod(x, d);
            vstd::arithmetic::div_mod::lemma_mod_bound(x, d);
            assert(sum * u == (q * u) * d + x) by (nonlinear_arith)
                requires
                    sum == q * a + r,
                    d == a,
                    x == r * u,
            ;
            assert(sum * u == d * (q * u + x / d) + x % d) by (nonlinear_arith)
                requires
                    sum * u == (q * u) * d + x,
                    x == d * (x / d) + x % d,
            ;
            vstd::arithmetic::div_mod::lemma_fundamental_div_mod_converse(
                sum * u,
                d,
                q * u + x / d,
                x % d,
            );
            assert(x / d <= x) by {
                vstd::arithmetic::div_mod::lemma_div_is_ordered_by_denominator(x, 1, d);
            }
        }
        q * u + part
    } else {
        sum
    };
    assert(want <= sum) by {
        if fill.used > 0 && fill.allocated > 0 {
            let a = fill.allocated as int;
            let u = fill.used as int;
            assert(sum * u <= sum * a) by (nonlinear_arith)
                requires
                    0 <= u <= a,
                    0 <= sum,
            ;
            vstd::arithmetic::div_mod::lemma_div_is_ordered(sum * u, sum * a, a);
            vstd::arithmetic::div_mod::lemma_div_multiples_vanish(sum as int, a);
            assert(sum * a == a * sum) by (nonlinear_arith);
        }
    }
    let floor: u128 = if want < opts.initial_heap as u128 {
        opts.initial_heap as u128
    } else {
        want
    };
    assert(floor * g.num <= 0x2_0000_0000_0000_0000 * 0xffff_ffff) by (nonlinear_arith)
        requires
            floor <= 0x2_0000_0000_0000_0000,
            g.num <= 0xffff_ffff,
    ;
    let grown: u128 = floor * (g.num as u128) / (g.den as u128);
    assert(grown <= floor * g.num) by {
        vstd::arithmetic::div_mod::lemma_div_is_ordered_by_denominator(
            (floor * g.num) as int,
            1,
            g.den as int,
        );
    }
    let pages: u128 = (grown + 4095) / 4096 * 4096;
    let room: u128 = (offset as u128 + 4095) / 4096 * 4096;
    if pages < room {
        room
    } else {
        pages
    }
}

/// `new` is `old` with one more block of `n` words at its end: the block
/// header says that the block has not moved and gives its size, every
/// other word of the block is zero, and nothing else has changed.
pub open spec fn appended(old: Space, new: Space, n: int) -> bool {
    let s = old.used();
    &&& n >= 3
    &&& new.base == old.base
    &&& new.mem.len() == old.mem.len()
    &&& new.bounds == old.bounds.push(s + n)
    &&& s + n <= new.mem.len()
    &&& forall|w: int| 0 <= w < s || s + n <= w < old.mem.len() ==> #[trigger] new.mem[w] == old.mem[w]
    &&& new.mem[s] == 0
    &&& new.mem[s + 1] == 8 * n
    &&& forall|w: int| s + 2 <= w < s + n ==> #[trigger] new.mem[w] == 0
}

/// Of the roots `orig`, the first `done` have been forwarded and hold, in
/// `cur`, the new address of their object; the others are as they were.
pub open spec fn roots_moved(c: Cycle, orig: Seq<usize>, cur: Seq<usize>, done: int) -> bool {
    &&& cur.len() == orig.len()
    &&& forall|r: int|
        0 <= r < done && r < orig.len() ==> (#[trigger] cur[r]) as int == c.tr(orig[r] as u64) && (
        orig[r] != 0 ==> c.home().contains_key(orig[r] as int))
    &&& forall|r: int| done <= r < orig.len() ==> #[trigger] cur[r] == orig[r]
}

/// Roots that have been forwarded stay forwarded while the collection
/// goes on.
pub proof fn lemma_roots_stay(c: Cycle, e: Cycle, orig: Seq<usize>, cur: Seq<usize>, done: int)
    requires
        c.inv(),
        c.scans_to(&e) || c.grows_to(&e),
        roots_moved(c, orig, cur, done),
    ensures
        roots_moved(e, orig, cur, done),
{
    assert forall|r: int| 0 <= r < done && r < orig.len() implies (#[trigger] cur[r]) as int
        == e.tr(orig[r] as u64) && (orig[r] != 0 ==> e.home().contains_key(orig[r] as int)) by {
        assert(cur[r] as int == c.tr(orig[r] as u64));
        if orig[r] != 0 {
            assert(c.home().contains_key(orig[r] as int));
            assert(c.home_ok(orig[r] as int));
        }
    }
}

/// Roots that are null need no forwarding.
pub proof fn lemma_roots_skip(c: Cycle, orig: Seq<usize>, cur: Seq<usize>, done: int, upto: int)
    requires
        roots_moved(c, orig, cur, done),
        0 <= done <= upto <= orig.len(),
        forall|r: int| done <= r < upto ==> #[trigger] cur[r] == 0,
    ensures
        roots_moved(c, orig, cur, upto),
{
    assert forall|r: int| 0 <= r < upto && r < orig.len() implies (#[trigger] cur[r]) as int
        == c.tr(orig[r] as u64) && (orig[r] != 0 ==> c.home().contains_key(orig[r] as int)) by {
        if r >= done {
            assert(cur[r] == 0);
            assert(cur[r] == orig[r]);
        } else {
            assert(cur[r] as int == c.tr(orig[r] as u64));
        }
    }
    assert forall|r: int| upto <= r < orig.len() implies #[trigger] cur[r] == orig[r] by {
        assert(cur[r] == orig[r]);
    }
}

/// A root that has been forwarded and rewritten is done.
pub proof fn lemma_root_done(
    c: Cycle,
    orig: Seq<usize>,
    before: Seq<usize>,
    after: Seq<usize>,
    r: int,
    moved: usize,
)
    requires
        roots_moved(c, orig, before, r),
        0 <= r < orig.len(),
        orig[r] != 0,
        c.home().contains_key(orig[r] as int),
        moved == c.tr(orig[r] as u64),
        after == before.update(r, moved),
    ensures
        roots_moved(c, orig, after, r + 1),
{
    assert forall|x: int| 0 <= x < r + 1 && x < orig.len() implies (#[trigger] after[x]) as int
        == c.tr(orig[x] as u64) && (orig[x] != 0 ==> c.home().contains_key(orig[x] as int)) by {
        if x < r {
            assert(before[x] as int == c.tr(orig[x] as u64));
        }
    }
    assert forall|x: int| r + 1 <= x < orig.len() implies #[trigger] after[x] == orig[x] by {
        assert(before[x] == orig[x]);
    }
}

/// Forwards the roots of one kind, the table or the local roots, and
/// rewrites each to the new address of its object.  `base` is where the
/// roots of that kind begin among all the roots.
pub fn forward_roots(
    cycle: &mut Cycle,
    handles: &mut GcHandles,
    locals: bool,
    Ghost(base): Ghost<int>,
)
    requires
        old(cycle).inv(),
        old(handles).wf(),
        0 <= base,
        base + old(handles).walked(locals).len() <= old(cycle).roots().len(),
        forall|r: int|
            0 <= r < old(handles).walked(locals).len() ==> old(cycle).roots()[base + r]
                == #[trigger] old(handles).walked(locals)[r],
        old(cycle).follows(old(cycle).root_visits(base)),
    ensures
        final(cycle).inv(),
        old(cycle).grows_to(final(cycle)),
        final(cycle).follows(
            final(cycle).root_visits(base + old(handles).walked(locals).len()),
        ),
        final(handles).wf(),
        final(handles).walked(!locals) == old(handles).walked(!locals),
        final(handles).free_list() == old(handles).free_list(),
        roots_moved(
            *final(cycle),
            old(handles).walked(locals),
            final(handles).walked(locals),
            old(handles).walked(locals).len() as int,
        ),
{
    let ghost c0 = *cycle;
    let ghost orig = handles.walked(locals);
    let mut walker = RootWalker::new(locals);
    loop
        invariant
            cycle.inv(),
            c0.grows_to(cycle),
            handles.wf(),
            walker.locals() == locals,
            0 <= base,
            base + orig.len() <= cycle.roots().len(),
            forall|r: int| 0 <= r < orig.len() ==> cycle.roots()[base + r] == #[trigger] orig[r],
            handles.walked(!locals) == old(handles).walked(!locals),
            handles.free_list() == old(handles).free_list(),
            0 <= walker.offset() <= orig.len(),
            roots_moved(*cycle, orig, handles.walked(locals), walker.offset()),
            cycle.follows(cycle.root_visits(base + walker.offset())),
        ensures
            walker.offset() == orig.len(),
        decreases orig.len() - walker.offset(),
    {
        let ghost c1 = *cycle;
        let ghost at = walker.offset();
        let ghost seen = handles.walked(locals);
        let ptr: usize = walker.next(handles);
        let ghost upto = if ptr != 0 {
            walker.offset() - 1
        } else {
            walker.offset()
        };
        proof {
            lemma_roots_skip(*cycle, orig, seen, at, upto);
            assert forall|x: int| base + at <= x < base + upto implies #[trigger] cycle.roots()[x]
                == 0 by {
                assert(seen[x - base] == 0);
                assert(orig[x - base] == seen[x - base]);
            }
            lemma_nonnull_skip(cycle.roots(), base + at, base + upto);
        }
        if ptr == 0 {
            break ;
        }
        let ghost r = walker.offset() - 1;
        proof {
            assert(orig[r] == ptr);
            assert(cycle.roots()[base + r] == ptr);
            assert(cycle.pre().roots_ok(cycle.roots()));
            lemma_reach_root(cycle.pre(), cycle.types(), cycle.roots(), base + r);
        }
        let moved: usize = cycle.forward(ptr);
        walker.rewrite(handles, moved);
        proof {
            lemma_roots_stay(c1, *cycle, orig, seen, r);
            crate::cycle::lemma_grows(c0, c1, *cycle);
            lemma_root_done(*cycle, orig, seen, handles.walked(locals), r, moved);
            lemma_visit(c1, *cycle, c1.root_visits(base + r), ptr, moved);
            lemma_nonnull_step(cycle.roots(), base + r);
        }
    }
}

/// Runs a collection that has copied nothing yet to its end: forwards the
/// roots, scans the to-space, and says where each object went.
pub(crate) fn trace(cycle: &mut Cycle, types: &GcTypes, handles: &mut GcHandles) -> (fwd: Ghost<
    Map<int, int>,
>)
    requires
        old(cycle).inv(),
        old(cycle).mark() == 0,
        types.wf(),
        types@ == old(cycle).types(),
        old(handles).wf(),
        old(cycle).roots() == old(handles).roots(),
        apart(old(cycle).pre(), old(cycle).dst()),
        old(cycle).follows(old(cycle).root_visits(0)),
    ensures
        final(cycle).done(),
        final(handles).wf(),
        final(handles).slots().len() == old(handles).slots().len(),
        final(handles).locals().len() == old(handles).locals().len(),
        final(handles).free_list() == old(handles).free_list(),
        final(cycle).pre() == old(cycle).pre(),
        final(cycle).from.bytes() == old(cycle).from.bytes(),
        final(cycle).from.base() == old(cycle).from.base(),
        final(cycle).to.bytes() == old(cycle).to.bytes(),
        final(cycle).to.base() == old(cycle).to.base(),
        apart(final(cycle).pre(), final(cycle).dst()),
        collected(
            types@,
            old(cycle).pre(),
            old(handles).roots(),
            final(cycle).dst(),
            final(handles).roots(),
            fwd@,
        ),
{
    let ghost roots = handles.roots();
    let ghost table = handles.slots();
    let ghost stack = handles.locals();
    forward_roots(cycle, handles, false, Ghost(0));
    let ghost c1 = *cycle;
    let ghost table1 = handles.slots();
    forward_roots(cycle, handles, true, Ghost(table.len() as int));
    let ghost c2 = *cycle;
    let ghost stack1 = handles.locals();
    proof {
        let all = (table.len() + stack.len()) as int;
        assert(roots.subrange(0, all) =~= roots);
        assert(cycle.block_visits(0) =~= cycle.root_visits(all));
    }
    cycle.scan(types);
    proof {
        lemma_roots_stay(c1, c2, table, table1, table.len() as int);
        lemma_roots_stay(c2, *cycle, table, table1, table.len() as int);
        lemma_roots_stay(c2, *cycle, stack, stack1, stack.len() as int);
        let new_roots = handles.roots();
        assert forall|r: int| 0 <= r < roots.len() implies #[trigger] new_roots[r] as int
            == cycle.tr(roots[r] as u64) by {
            if r < table.len() {
                assert(table1[r] as int == cycle.tr(table[r] as u64));
            } else {
                assert(stack1[r - table.len()] as int == cycle.tr(stack[r - table.len()] as u64));
            }
        }
        assert forall|r: int|
            0 <= r < roots.len() && #[trigger] roots[r] != 0 implies cycle.home().contains_key(
            roots[r] as int,
        ) by {
            if r < table.len() {
                assert(table1[r] as int == cycle.tr(table[r] as u64));
            } else {
                assert(stack1[r - table.len()] as int == cycle.tr(stack[r - table.len()] as u64));
            }
        }
        lemma_collected(*cycle, new_roots);
    }
    Ghost(cycle.fwd())
}

/// A heap collected by copying between two regions.
pub struct Copying {
    pub(crate) opts: GcOpts,
    pub(crate) pages: Pages,
    pub(crate) from: Block,
    pub(crate) to: Memory,
    pub(crate) last_size: usize,
    pub(crate) last_used: Fill,
    pub(crate) last_failed: usize,
}

impl Copying {
    /// The from-space with the blocks allocated so far.
    pub open(crate) spec fn space(&self) -> Space {
        self.from.space()
    }

    /// The settings the heap was made with.
    pub open(crate) spec fn opts(&self) -> GcOpts {
        self.opts
    }

    /// Bytes in use in the from-space.
    pub open(crate) spec fn used(&self) -> int {
        self.from.offset()
    }

    /// Size of the from-space in bytes.
    pub open(crate) spec fn capacity(&self) -> int {
        self.from.capacity()
    }

    /// Size of the to-space in bytes.
    pub open(crate) spec fn reserve(&self) -> int {
        self.to.bytes()
    }

    /// Size in bytes of the to-space as the last collection left it.
    pub open(crate) spec fn last_size(&self) -> int {
        self.last_size as int
    }

    /// The fill rate found by the last collection.
    pub open(crate) spec fn last_used(&self) -> Fill {
        self.last_used
    }

    /// Size of the allocation that failed last, if none has been collected
    /// for since.
    pub open(crate) spec fn last_failed(&self) -> int {
        self.last_failed as int
    }

    /// The two regions are valid, lie apart from each other and below the
    /// addresses not handed out yet; the blocks of the from-space tile it
    /// up to the offset.
    pub open(crate) spec fn wf(&self) -> bool {
        &&& self.opts.valid()
        &&& self.pages.wf()
        &&& self.from.wf()
        &&& self.to.wf()
        &&& self.from.memory.base() + self.from.memory.bytes() <= self.pages.next()
        &&& self.to.base() + self.to.bytes() <= self.pages.next()
        &&& self.from.memory.base() + self.from.memory.bytes() <= self.to.base() || self.to.base()
            + self.to.bytes() <= self.from.memory.base()
        &&& self.last_used.used <= self.last_used.allocated
    }

    /// Whether a block with `size` bytes after its block header fits in
    /// the from-space.
    pub open(crate) spec fn fits(&self, size: int) -> bool {
        self.from.fits(size)
    }

    /// The step from `self` to `next` left the regions where they are and
    /// the sizing policy with what it knows of the last collection.
    pub open(crate) spec fn keeps_regions(&self, next: &Copying) -> bool {
        &&& next.opts == self.opts
        &&& next.pages == self.pages
        &&& next.to == self.to
        &&& next.last_size == self.last_size
        &&& next.last_used == self.last_used
        &&& next.from.memory.base == self.from.memory.base
        &&& next.from.memory@.len() == self.from.memory@.len()
    }

    /// The size in bytes that the next collection wants its to-space to
    /// have.
    pub open(crate) spec fn wanted(&self) -> int {
        target_size(self.opts, self.used(), self.last_failed(), self.last_used)
    }

    /// First address of the to-space.
    pub open(crate) spec fn reserve_base(&self) -> int {
        self.to.base()
    }

    /// The lowest address that no region has been given yet.
    pub open(crate) spec fn frontier(&self) -> int {
        self.pages.next()
    }

    /// First address of the from-space after the next collection: that of
    /// the to-space as it is, or of the one that the collection reserves.
    pub open spec fn next_base(&self) -> int {
        if self.wanted() <= self.reserve() {
            self.reserve_base()
        } else {
            self.frontier()
        }
    }

    /// The lowest address that no region has been given yet after the
    /// next collection: as it is, or past the to-space that the collection
    /// reserves.
    pub open spec fn next_frontier(&self) -> int {
        if self.wanted() <= self.reserve() {
            self.frontier()
        } else {
            self.frontier() + self.wanted()
        }
    }

    /// Size in bytes of the from-space after the next collection: that of
    /// the to-space as it is, or of the one that the collection wants.
    pub open spec fn next_capacity(&self) -> int {
        if self.wanted() <= self.reserve() {
            self.reserve()
        } else {
            self.wanted()
        }
    }

    /// The step from `self` to `next` was a collection, as far as the
    /// regions and the sizing policy go: the from-space is what was the
    /// to-space, or the larger one that the collection wanted; the to-space
    /// is what was the from-space; the fill rate is what was kept of what
    /// was in use; no failed allocation is remembered.
    pub open spec fn resized(&self, next: &Copying) -> bool {
        &&& next.opts() == self.opts()
        &&& next.last_failed() == 0
        &&& next.last_used() == (Fill {
            used: next.used() as usize,
            allocated: self.used() as usize,
        })
        &&& next.reserve() == self.capacity()
        &&& next.reserve_base() == self.space().base
        &&& next.capacity() == self.next_capacity()
        &&& next.space().base == self.next_base()
        &&& next.frontier() == self.next_frontier()
        &&& next.last_size() == next.reserve()
    }

    /// The step from `self` to `next` was a failed allocation of `size`
    /// bytes, a collection, and an allocation that left `used` bytes in
    /// use, as far as the regions and the sizing policy go.
    pub open spec fn regrown(&self, size: int, kept: int, next: &Copying) -> bool {
        &&& next.opts() == self.opts()
        &&& next.last_failed() == 0
        &&& next.last_used() == (Fill { used: kept as usize, allocated: self.used() as usize })
        &&& next.reserve() == self.capacity()
        &&& next.reserve_base() == self.space().base
        &&& next.capacity() == self.after_failure(size).next_capacity()
        &&& next.space().base == self.after_failure(size).next_base()
        &&& next.frontier() == self.after_failure(size).next_frontier()
        &&& next.last_size() == next.reserve()
    }

    /// Whether the next collection can have the to-space it wants: the one
    /// it has is large enough, or a larger one can be reserved.
    pub open spec fn can_collect(&self) -> bool {
        self.wanted() <= self.reserve() || self.frontier() + self.wanted() <= usize::MAX
    }

    /// Whether the next collection can have the to-space it wants.
    pub fn can_collect_now(&self) -> (b: bool)
        requires
            self.wf(),
        ensures
            b == self.can_collect(),
    {
        let want: u128 = target(&self.opts, self.from.offset, self.last_failed, self.last_used);
        if want <= self.to.size() as u128 {
            true
        } else if want > usize::MAX as u128 {
            false
        } else {
            self.pages.has_room(want as usize)
        }
    }

    /// A heap with an empty from-space of `opts.initial_heap` bytes,
    /// rounded up to whole pages, at the first address after the page at
    /// address 0, and no to-space yet.  Nothing is known of a collection or
    /// a failed allocation.
    pub fn new(opts: GcOpts) -> (heap: Copying)
        requires
            opts.startable(),
        ensures
            heap.wf(),
            heap.opts() == opts,
            heap.space().count() == 0,
            heap.space().base == 4096,
            heap.used() == 0,
            heap.capacity() == round_up(opts.initial_heap as int, 4096),
            heap.reserve() == 0,
            heap.reserve_base() == 0,
            heap.frontier() == 4096 + round_up(opts.initial_heap as int, 4096),
            heap.last_used() == (Fill { used: 0, allocated: 0 }),
            heap.last_failed() == 0,
            heap.last_size() == 0,
    {
        let mut pages = Pages::new();
        match pages.reserve(opts.initial_heap) {
            Some(memory) => Copying {
                opts,
                pages,
                from: Block::new(memory),
                to: Memory::empty(),
                last_size: 0,
                last_used: Fill { used: 0, allocated: 0 },
                last_failed: 0,
            },
            None => {
                assert(false);
                Copying {
                    opts,
                    pages,
                    from: Block::new(Memory::empty()),
                    to: Memory::empty(),
                    last_size: 0,
                    last_used: Fill { used: 0, allocated: 0 },
                    last_failed: 0,
                }
            },
        }
    }

    /// Whether a block with room for `size` bytes, rounded up to whole
    /// words, after its block header fits in the from-space.
    pub fn fits_now(&self, size: usize) -> (b: bool)
        requires
            self.wf(),
            size <= usize::MAX - 23,
        ensures
            b == self.fits(round_up(size as int, 8)),
    {
        let rounded: usize = (size + 7) / 8 * 8;
        let capacity: usize = self.from.memory.size();
        rounded <= capacity && capacity - rounded >= 16 && self.from.offset <= capacity - rounded
            - 16
    }

    /// Remembers that an allocation of `size` bytes, rounded up to whole
    /// words, has failed, so that the next collection can make room for
    /// it.
    pub fn note_failure(&mut self, size: usize)
        requires
            size <= usize::MAX - 23,
        ensures
            *final(self) == old(self).after_failure(round_up(size as int, 8)),
    {
        self.last_failed = (size + 7) / 8 * 8;
    }

    /// Allocates a block with room for `size` bytes, rounded up to whole
    /// words, after its block header, and returns the address of the first
    /// of them, or null if the from-space has no room for it.
    ///
    /// The bytes handed out are zero.  A failed allocation is remembered, so
    /// that the next collection can make room for it.
    pub fn alloc_raw(&mut self, size: usize) -> (r: usize)
        requires
            old(self).wf(),
            8 <= size <= usize::MAX - 23,
        ensures
            final(self).wf(),
            r != 0 <==> old(self).fits(round_up(size as int, 8)),
            old(self).keeps_regions(final(self)),
            r == 0 ==> final(self).space() == old(self).space() && final(self).last_failed()
                == round_up(size as int, 8),
            r == 0 ==> *final(self) == old(self).after_failure(round_up(size as int, 8)),
            r != 0 ==> {
                &&& r == old(self).space().base + old(self).used() + 16
                &&& final(self).used() == old(self).used() + round_up(size as int, 8) + 16
                &&& appended(
                    old(self).space(),
                    final(self).space(),
                    (round_up(size as int, 8) + 16) / 8,
                )
                &&& final(self).last_failed() == old(self).last_failed()
            },
            final(self).used() >= old(self).used(),
    {
        let size: usize = (size + 7) / 8 * 8;
        let ghost before = self.from.space();
        let result: usize = self.from.allocate(size);
        if result == 0 {
            self.last_failed = size;
        } else {
            let first: usize = (result - self.from.memory.base) / 8;
            let words: usize = size / 8;
            let ghost grown = self.from.space();
            let mut j: usize = 0;
            while j < words
                invariant
                    j <= words,
                    self.opts == old(self).opts,
                    self.pages == old(self).pages,
                    self.to == old(self).to,
                    self.last_size == old(self).last_size,
                    self.last_used == old(self).last_used,
                    self.last_failed == old(self).last_failed,
                    first + words <= self.from.memory@.len() <= usize::MAX,
                    self.from.memory@.len() == grown.mem.len(),
                    self.from.memory.base == grown.base,
                    self.from.bounds@ == grown.bounds,
                    self.from.offset == old(self).from.offset + size + 16,
                    forall|w: int|
                        0 <= w < first || first + words <= w < grown.mem.len()
                            ==> #[trigger] self.from.memory@[w] == grown.mem[w],
                    forall|w: int| first <= w < first + j ==> #[trigger] self.from.memory@[w] == 0,
                decreases words - j,
            {
                self.from.memory.set(first + j, 0);
                j += 1;
            }
            proof {
                let s = self.from.space();
                lemma_chain_ordered(before, 0, before.count());
                assert forall|i: int| 0 <= i < s.count() implies #[trigger] s.link(i) by {
                    assert(grown.link(i));
                    if i < s.count() - 1 {
                        lemma_chain_ordered(before, i + 1, before.count());
                    }
                }
            }
        }
        result
    }

    /// Makes sure that the to-space has the size that the next collection
    /// wants: keeps it if it is large enough, else replaces it by a fresh
    /// region of that size.
    pub fn size_to_space(&mut self)
        requires
            old(self).wf(),
            old(self).can_collect(),
        ensures
            final(self).wf(),
            final(self).space() == old(self).space(),
            final(self).used() == old(self).used(),
            final(self).capacity() == old(self).capacity(),
            final(self).opts() == old(self).opts(),
            final(self).last_used() == old(self).last_used(),
            final(self).last_failed() == old(self).last_failed(),
            final(self).reserve() >= old(self).used(),
            final(self).reserve() == old(self).next_capacity(),
            final(self).reserve_base() == old(self).next_base(),
            final(self).frontier() == old(self).next_frontier(),
    {
        let want: u128 = target(&self.opts, self.from.offset, self.last_failed, self.last_used);
        let have: usize = self.to.size();
        if want > have as u128 {
            match self.pages.reserve(want as usize) {
                Some(memory) => {
                    let mut fresh = memory;
                    core::mem::swap(&mut self.to, &mut fresh);
                    self.pages.release(fresh);
                },
                None => {
                    assert(false);
                },
            }
        }
    }

    /// The regions have been handed to a collection: the heap holds none,
    /// what it knows of regions is what `cycle` holds.
    pub open(crate) spec fn lent_to(&self, cycle: &Cycle) -> bool {
        &&& self.opts.valid()
        &&& self.pages.wf()
        &&& cycle.from.wf()
        &&& cycle.to.wf()
        &&& cycle.from.base() + cycle.from.bytes() <= self.pages.next()
        &&& cycle.to.base() + cycle.to.bytes() <= self.pages.next()
        &&& apart(cycle.pre(), cycle.dst())
    }

    /// Hands both regions to a collection that has copied nothing yet.
    pub(crate) fn begin(&mut self, types: &GcTypes, handles: &GcHandles) -> (cycle: Cycle)
        requires
            old(self).wf(),
            types.wf(),
            old(self).reserve() >= old(self).used(),
            old(self).space().heap_ok(types@),
            old(self).space().roots_ok(handles.roots()),
        ensures
            final(self).lent_to(&cycle),
            final(self).opts() == old(self).opts(),
            cycle.inv(),
            cycle.mark() == 0,
            cycle.types() == types@,
            cycle.pre() == old(self).space(),
            cycle.roots() == handles.roots(),
            cycle.to.bytes() == old(self).reserve(),
            cycle.to.base() == old(self).reserve_base(),
            cycle.from.bytes() == old(self).capacity(),
            cycle.from.base() == old(self).space().base,
            cycle.follows(cycle.root_visits(0)),
            final(self).frontier() == old(self).frontier(),
    {
        let ghost pre = self.from.space();
        let mut from = Memory::empty();
        core::mem::swap(&mut self.from.memory, &mut from);
        let mut to = Memory::empty();
        core::mem::swap(&mut self.to, &mut to);
        proof {
            lemma_chain_ordered(pre, 0, pre.count());
        }
        let cycle = Cycle {
            from,
            to,
            free: 0,
            trace: Ghost(
                Trace {
                    types: types@,
                    pre,
                    roots: handles.roots(),
                    tb: Seq::empty().push(0int),
                    src: Seq::empty(),
                    home: Map::empty(),
                    mark: 0,
                },
            ),
        };
        proof {
            assert forall|i: int| 0 <= i < pre.count() implies #[trigger] cycle.fwd_ok(i) by {
                assert(pre.shaped(types@, i));
            }
            lemma_kept_none(pre, cycle.home().dom(), pre.count());
            assert(cycle.copies() =~= Seq::<int>::empty());
            assert(cycle.roots().subrange(0, 0) =~= Seq::<usize>::empty());
        }
        cycle
    }

    /// Takes the regions back from a collection that is done: its to-space
    /// becomes the from-space, its from-space the to-space, and the fill
    /// rate is what was kept of the `allocated` bytes.
    pub(crate) fn finish(&mut self, cycle: Cycle, allocated: usize)
        requires
            old(self).lent_to(&cycle),
            cycle.done(),
            cycle.dst().used() * 8 <= allocated,
        ensures
            final(self).wf(),
            final(self).space() == cycle.dst(),
            final(self).opts() == old(self).opts(),
            final(self).last_failed() == 0,
            final(self).last_used() == (Fill { used: final(self).used() as usize, allocated }),
            final(self).reserve() == cycle.from.bytes(),
            final(self).reserve_base() == cycle.from.base(),
            final(self).capacity() == cycle.to.bytes(),
            final(self).last_size() == final(self).reserve(),
            final(self).frontier() == old(self).frontier(),
    {
        proof {
            lemma_chain_ordered(cycle.dst(), 0, cycle.dst().count());
        }
        let Cycle { from, to, free, trace } = cycle;
        self.from = Block { memory: to, offset: free * 8, bounds: Ghost(trace@.tb) };
        self.to = from;
        self.last_size = self.to.size();
        self.last_used = Fill { used: self.from.offset, allocated };
        self.last_failed = 0;
    }

    /// Collects the heap: copies every object that can be reached from a
    /// root of `handles` to the to-space, rewrites the roots and the pointer
    /// slots of the copies, and makes the to-space the new from-space.
    ///
    /// The to-space is sized first, which must be possible.  The result
    /// says where each object went.
    pub fn gc(&mut self, types: &GcTypes, handles: &mut GcHandles) -> (fwd: Ghost<Map<int, int>>)
        requires
            old(self).wf(),
            old(self).can_collect(),
            types.wf(),
            old(handles).wf(),
            old(self).space().heap_ok(types@),
            old(self).space().roots_ok(old(handles).roots()),
        ensures
            final(self).wf(),
            final(handles).wf(),
            collected(
                types@,
                old(self).space(),
                old(handles).roots(),
                final(self).space(),
                final(handles).roots(),
                fwd@,
            ),
            final(handles).slots().len() == old(handles).slots().len(),
            final(handles).locals().len() == old(handles).locals().len(),
            final(handles).free_list() == old(handles).free_list(),
            old(self).resized(final(self)),
            final(self).used() == 8 * old(self).space().live_words(types@, old(handles).roots()),
            final(self).space().heap_ok(types@),
            final(self).space().roots_ok(final(handles).roots()),
    {
        let allocated: usize = self.from.offset;
        self.size_to_space();
        let mut cycle = self.begin(types, handles);
        let fwd = trace(&mut cycle, types, handles);
        proof {
            reveal(collected);
            crate::space::lemma_kept_bounded(cycle.pre(), cycle.moved(), cycle.pre().count());
        }
        self.finish(cycle, allocated);
        fwd
    }

    /// The heap as it is after an allocation that asked for `size` bytes
    /// has failed: the failure is remembered.
    pub open(crate) spec fn after_failure(&self, size: int) -> Copying {
        Copying { last_failed: size as usize, ..*self }
    }

    /// Stores `word` at word `j` of block `i`, which is not a word of the
    /// block header.  `index` is the word's index in the region.
    pub(crate) fn set_word(
        &mut self,
        index: usize,
        word: u64,
        Ghost(i): Ghost<int>,
        Ghost(j): Ghost<int>,
    )
        requires
            old(self).wf(),
            0 <= i < old(self).space().count(),
            2 <= j < old(self).space().words(i),
            index == old(self).space().bounds[i] + j,
        ensures
            final(self).wf(),
            final(self).space() == (Space {
                mem: old(self).space().mem.update(index as int, word),
                ..old(self).space()
            }),
            old(self).keeps_regions(final(self)),
            final(self).last_failed == old(self).last_failed,
            final(self).used() == old(self).used(),
    {
        proof {
            assert(self.space().link(i));
            lemma_chain_ordered(self.space(), i + 1, self.space().count());
        }
        let ghost before = self.space();
        self.from.memory.set(index, word);
        proof {
            let s = self.space();
            assert forall|m: int| 0 <= m < s.count() implies #[trigger] s.link(m) by {
                assert(before.link(m));
                if before.bounds[m] + 1 == index {
                    crate::space::lemma_word_owner(before, m, 1, i, j);
                }
            }
        }
    }

    /// The word at `index` of the from-space.
    pub(crate) fn get_word(&self, index: usize) -> (word: u64)
        requires
            index < self.space().mem.len(),
        ensures
            word == self.space().mem[index as int],
    {
        self.from.memory.get(index)
    }

    /// Whether `ptr` is the address of an object of the from-space.
    pub fn holds(&self, ptr: usize) -> (b: bool)
        requires
            self.wf(),
        ensures
            b == self.space().is_object(ptr as int),
    {
        self.from.holds(ptr)
    }

    /// Bytes reserved: the sizes of both regions.
    pub fn mem_allocated(&self) -> (n: usize)
        requires
            self.wf(),
        ensures
            n == self.capacity() + self.reserve(),
    {
        self.from.memory.size() + self.to.size()
    }

    /// Bytes in use in the from-space.
    pub fn mem_used(&self) -> (n: usize)
        ensures
            n == self.used(),
    {
        self.from.offset
    }
}

} // verus!
