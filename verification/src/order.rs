//! The order in which a collection copies: each object when it is first
//! met, the roots first, then what the copies point to, copy by copy and
//! slot by slot.

use crate::cycle::Cycle;
use crate::space::Space;
use crate::types::GcType;
use vstd::prelude::*;

verus! {

/// The addresses in `s` that are not null, in order.
pub open spec fn nonnull(s: Seq<usize>) -> Seq<int>
    decreases s.len(),
{
    if s.len() == 0 {
        Seq::empty()
    } else if s.last() == 0 {
        nonnull(s.drop_last())
    } else {
        nonnull(s.drop_last()).push(s.last() as int)
    }
}

/// `s` without repetitions: each address where it occurs first.
pub open spec fn firsts(s: Seq<int>) -> Seq<int>
    decreases s.len(),
{
    if s.len() == 0 {
        Seq::empty()
    } else if firsts(s.drop_last()).contains(s.last()) {
        firsts(s.drop_last())
    } else {
        firsts(s.drop_last()).push(s.last())
    }
}

impl Space {
    /// What the pointer slots among the first `n` words of block `i`
    /// point to, in order; null pointers are left out.
    pub open spec fn targets(self, types: Seq<GcType>, i: int, n: int) -> Seq<int>
        decreases n,
    {
        if n <= 0 {
            Seq::empty()
        } else if self.is_ptr(types, i, n - 1) && self.word(i, n - 1) != 0 {
            self.targets(types, i, n - 1).push(self.word(i, n - 1) as int)
        } else {
            self.targets(types, i, n - 1)
        }
    }

    /// What the first `n` of the blocks `order` point to, block by block.
    pub open spec fn fanout(self, types: Seq<GcType>, order: Seq<int>, n: int) -> Seq<int>
        decreases n,
    {
        if n <= 0 {
            Seq::empty()
        } else {
            self.fanout(types, order, n - 1) + self.targets(
                types,
                order[n - 1],
                self.words(order[n - 1]),
            )
        }
    }

    /// The addresses of the objects in the blocks `order`.
    pub open spec fn addrs(self, order: Seq<int>) -> Seq<int> {
        Seq::new(order.len(), |k: int| self.addr(order[k]))
    }

    /// `order` is the order in which a collection with the roots `roots`
    /// copies the blocks that it copies: every block once, where it is
    /// first met when the roots are visited in order and then the pointer
    /// slots of the copied blocks, block by block in the order of copying
    /// and slot by slot.
    pub open spec fn copy_order(self, types: Seq<GcType>, roots: Seq<usize>, order: Seq<int>) -> bool {
        self.addrs(order) == firsts(
            nonnull(roots) + self.fanout(types, order, order.len() as int),
        )
    }
}

/// Roots that are null add nothing to the roots that are not.
pub proof fn lemma_nonnull_skip(s: Seq<usize>, from: int, to: int)
    requires
        0 <= from <= to <= s.len(),
        forall|r: int| from <= r < to ==> #[trigger] s[r] == 0,
    ensures
        nonnull(s.subrange(0, to)) == nonnull(s.subrange(0, from)),
    decreases to - from,
{
    if from < to {
        lemma_nonnull_skip(s, from, to - 1);
        assert(s.subrange(0, to).drop_last() =~= s.subrange(0, to - 1));
        assert(s.subrange(0, to).last() == s[to - 1]);
    }
}

/// A root that is not null comes after the roots before it.
pub proof fn lemma_nonnull_step(s: Seq<usize>, r: int)
    requires
        0 <= r < s.len(),
        s[r] != 0,
    ensures
        nonnull(s.subrange(0, r + 1)) == nonnull(s.subrange(0, r)).push(s[r] as int),
{
    assert(s.subrange(0, r + 1).drop_last() =~= s.subrange(0, r));
    assert(s.subrange(0, r + 1).last() == s[r]);
}

/// Words that are no pointer slots, or hold null, add nothing to what a
/// block points to.
pub proof fn lemma_targets_skip(s: Space, types: Seq<GcType>, i: int, from: int, to: int)
    requires
        from <= to,
        forall|j: int|
            from <= j < to ==> !(#[trigger] s.is_ptr(types, i, j) && s.word(i, j) != 0),
    ensures
        s.targets(types, i, to) == s.targets(types, i, from),
    decreases to - from,
{
    if from < to {
        lemma_targets_skip(s, types, i, from, to - 1);
        assert(!(s.is_ptr(types, i, to - 1) && s.word(i, to - 1) != 0));
    }
}

/// What the first blocks point to does not depend on the blocks after
/// them.
pub proof fn lemma_fanout_prefix(s: Space, types: Seq<GcType>, a: Seq<int>, b: Seq<int>, n: int)
    requires
        0 <= n <= a.len() <= b.len(),
        forall|k: int| 0 <= k < a.len() ==> #[trigger] b[k] == a[k],
    ensures
        s.fanout(types, b, n) == s.fanout(types, a, n),
    decreases n,
{
    if n > 0 {
        lemma_fanout_prefix(s, types, a, b, n - 1);
        assert(b[n - 1] == a[n - 1]);
    }
}

/// An address is among the first occurrences iff it occurs.
pub proof fn lemma_firsts_contains(s: Seq<int>, a: int)
    ensures
        firsts(s).contains(a) == s.contains(a),
    decreases s.len(),
{
    if s.len() > 0 {
        lemma_firsts_contains(s.drop_last(), a);
        let rest = firsts(s.drop_last());
        if s.contains(a) {
            let k = choose|k: int| 0 <= k < s.len() && s[k] == a;
            if k < s.len() - 1 {
                assert(s.drop_last()[k] == a);
                assert(rest.contains(a));
                if !rest.contains(s.last()) {
                    let m = choose|m: int| 0 <= m < rest.len() && rest[m] == a;
                    assert(rest.push(s.last())[m] == a);
                }
            } else {
                if !rest.contains(s.last()) {
                    assert(rest.push(s.last())[rest.len() as int] == a);
                }
            }
        }
        if firsts(s).contains(a) {
            let m = choose|m: int| 0 <= m < firsts(s).len() && firsts(s)[m] == a;
            if rest.contains(s.last()) || m < rest.len() {
                assert(rest.contains(a)) by {
                    if !rest.contains(s.last()) {
                        assert(rest[m] == a);
                    }
                }
                let k = choose|k: int| 0 <= k < s.drop_last().len() && s.drop_last()[k] == a;
                assert(s[k] == a);
            } else {
                assert(s[s.len() - 1] == a);
            }
        }
    }
}

impl Cycle {
    /// The addresses of the objects copied so far, in the order of copying.
    pub open(crate) spec fn copies(&self) -> Seq<int> {
        self.pre().addrs(self.sources())
    }

    /// The objects copied so far are those met in `visits`, each copied
    /// when it was first met.
    pub open(crate) spec fn follows(&self, visits: Seq<int>) -> bool {
        self.copies() == firsts(visits)
    }

    /// What the collection has visited when it has forwarded the first
    /// `r` roots.
    pub open(crate) spec fn root_visits(&self, r: int) -> Seq<int> {
        nonnull(self.roots().subrange(0, r))
    }

    /// What the collection has visited when it has forwarded the roots and
    /// scanned the to-space up to the mark, which lies in block `k`.
    pub open(crate) spec fn scan_visits(&self, k: int) -> Seq<int> {
        nonnull(self.roots()) + self.pre().fanout(self.types(), self.sources(), k)
            + self.pre().targets(
            self.types(),
            self.sources()[k],
            self.mark() - self.dst().bounds[k],
        )
    }

    /// What the collection has visited when it has forwarded the roots and
    /// scanned the first `k` blocks of the to-space.
    pub open(crate) spec fn block_visits(&self, k: int) -> Seq<int> {
        nonnull(self.roots()) + self.pre().fanout(self.types(), self.sources(), k)
    }
}

/// An object is among those copied iff it has a copy.
pub proof fn lemma_copied_contains(c: Cycle, a: int)
    requires
        c.inv(),
    ensures
        c.copies().contains(a) == c.moved().contains(a),
{
    if c.copies().contains(a) {
        let k = choose|k: int| 0 <= k < c.copies().len() && c.copies()[k] == a;
        assert(c.copy_ok(k));
    }
    if c.moved().contains(a) {
        assert(c.home_ok(a));
        assert(c.copies()[c.home()[a]] == a);
    }
}

/// Forwarding an object is visiting it: it is copied if it is met for the
/// first time, and nothing is copied if it has been met before.
pub proof fn lemma_visit(c: Cycle, e: Cycle, visits: Seq<int>, ptr: usize, r: usize)
    requires
        c.inv(),
        c.pre().is_object(ptr as int),
        c.forwards(&e, ptr, r),
        c.follows(visits),
    ensures
        e.follows(visits.push(ptr as int)),
{
    let a = ptr as int;
    let next = visits.push(a);
    assert(next.drop_last() =~= visits);
    lemma_copied_contains(c, a);
    if !c.moved().contains(a) {
        assert(e.copies() =~= c.copies().push(a));
    }
}

/// Moving the mark over words that are no pointer slots visits nothing.
pub(crate) proof fn lemma_follow_skip(c: Cycle, k: int, m: int)
    requires
        c.inv(),
        0 <= k < c.dst().count(),
        c.dst().bounds[k] <= c.mark() <= m <= c.dst().bounds[k + 1],
        forall|j: int|
            0 <= j < c.dst().words(k) && c.mark() <= c.dst().bounds[k] + j < m ==> !#[trigger] c.pre().is_ptr(
                c.types(),
                c.sources()[k],
                j,
            ),
        c.follows(c.scan_visits(k)),
    ensures
        c.marked(m).follows(c.marked(m).scan_visits(k)),
{
    let e = c.marked(m);
    let i = c.sources()[k];
    let start = c.dst().bounds[k];
    assert(c.dst().link(k));
    assert forall|j: int| c.mark() - start <= j < m - start implies !(#[trigger] c.pre().is_ptr(
        c.types(),
        i,
        j,
    ) && c.pre().word(i, j) != 0) by {}
    lemma_targets_skip(c.pre(), c.types(), i, c.mark() - start, m - start);
    assert(e.scan_visits(k) == c.scan_visits(k));
    assert(e.copies() == c.copies());
}

/// Rewriting the pointer slot at the mark visits what the slot pointed to,
/// if that is not null.
pub(crate) proof fn lemma_follow_slot(c: Cycle, f: Cycle, e: Cycle, k: int, j: int, r: usize)
    requires
        c.inv(),
        0 <= k < c.dst().count(),
        3 <= j < c.dst().words(k),
        c.mark() == c.dst().bounds[k] + j,
        c.pre().is_ptr(c.types(), c.sources()[k], j),
        c.follows(c.scan_visits(k)),
        c.pre().word(c.sources()[k], j) == 0 ==> f == c,
        c.pre().word(c.sources()[k], j) != 0 ==> c.pre().is_object(
            c.pre().word(c.sources()[k], j) as int,
        ) && c.forwards(&f, c.pre().word(c.sources()[k], j) as usize, r),
        e.trace@ == (crate::cycle::Trace { mark: c.mark() + 1, ..f.trace@ }),
        e.to.base == f.to.base,
        e.to@.len() == f.to@.len(),
    ensures
        e.follows(e.scan_visits(k)),
{
    let i = c.sources()[k];
    let v = c.pre().word(i, j);
    let before = c.pre().targets(c.types(), i, j);
    assert(c.pre().targets(c.types(), i, j + 1) == if v != 0 {
        before.push(v as int)
    } else {
        before
    });
    assert(e.copies() == f.copies());
    assert(e.dst().bounds[k] == c.dst().bounds[k]);
    if v != 0 {
        crate::space::lemma_object_placed(c.pre(), v as int);
        lemma_visit(c, f, c.scan_visits(k), v as usize, r);
        lemma_fanout_prefix(c.pre(), c.types(), c.sources(), e.sources(), k);
        assert(e.sources()[k] == i);
        assert(e.scan_visits(k) =~= c.scan_visits(k).push(v as int));
    } else {
        assert(e.scan_visits(k) == c.scan_visits(k));
    }
}

/// When the mark has reached the end of a block, the block has been
/// scanned; the next block has not been begun.
pub(crate) proof fn lemma_follow_block(c: Cycle, k: int)
    requires
        c.inv(),
        0 <= k < c.dst().count(),
    ensures
        c.mark() == c.dst().bounds[k + 1] ==> c.scan_visits(k) == c.block_visits(k + 1),
        c.mark() == c.dst().bounds[k] ==> c.scan_visits(k) == c.block_visits(k),
{
    let i = c.sources()[k];
    assert(c.copy_ok(k));
    assert(c.dst().words(k) == c.pre().words(i));
    let a = nonnull(c.roots());
    let b = c.pre().fanout(c.types(), c.sources(), k);
    let t = c.pre().targets(c.types(), i, c.pre().words(i));
    assert((a + b) + t =~= a + (b + t));
    assert(c.pre().targets(c.types(), i, 0) =~= Seq::<int>::empty());
    assert((a + b) + Seq::<int>::empty() =~= a + b);
}

} // verus!
