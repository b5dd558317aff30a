//! The scan of the to-space: every pointer slot of every copy is rewritten
//! to the new address of its target, which is copied on the way if needed.

use crate::cycle::{Cycle, Trace};
use crate::order::{lemma_follow_block, lemma_follow_skip, lemma_follow_slot};
use crate::space::{
    lemma_chain_ordered, lemma_item_slot, lemma_kept_bounded, lemma_object_placed,
    lemma_reach_step, lemma_word_owner,
};
use crate::types::{header_is_array, lemma_span, GcMemHeader, GcType, GcTypes};
use vstd::prelude::*;

verus! {

impl Cycle {
    /// The word below which every pointer slot of the to-space has been
    /// rewritten.
    pub open(crate) spec fn mark(&self) -> int {
        self.trace@.mark
    }

    /// The step from `self` to `next` kept what was known of the copies and
    /// did not move the mark back.
    pub open(crate) spec fn scans_to(&self, next: &Cycle) -> bool {
        let t = self.trace@;
        let u = next.trace@;
        &&& u.types == t.types
        &&& u.pre == t.pre
        &&& u.roots == t.roots
        &&& t.mark <= u.mark
        &&& next.to.base == self.to.base
        &&& next.from.base == self.from.base
        &&& next.to@.len() == self.to@.len()
        &&& self.free <= next.free
        &&& t.tb.len() <= u.tb.len()
        &&& t.src.len() <= u.src.len()
        &&& forall|k: int| 0 <= k < t.tb.len() ==> #[trigger] u.tb[k] == t.tb[k]
        &&& forall|k: int| 0 <= k < t.src.len() ==> #[trigger] u.src[k] == t.src[k]
        &&& forall|a: int| #[trigger]
            t.home.contains_key(a) ==> u.home.contains_key(a) && u.home[a] == t.home[a]
    }

    /// The same state with the mark at word `m`.
    pub open(crate) spec fn marked(&self, m: int) -> Cycle {
        Cycle { trace: Ghost(Trace { mark: m, ..self.trace@ }), ..*self }
    }

    /// The `n` words from word `off` of to-block `k` are one payload of
    /// type `ty`: the pointer slots of the source block in that range are
    /// the pointer slots of that payload.
    pub open(crate) spec fn payload_at(&self, ty: GcType, k: int, off: int) -> bool {
        let i = self.trace@.src[k];
        let n = ty.slots();
        let first = self.pre().bounds[i] + off;
        &&& 3 <= off
        &&& off + n <= self.dst().words(k)
        &&& forall|j: int|
            off <= j < off + n ==> (#[trigger] self.pre().is_ptr(self.trace@.types, i, j)
                <==> ty.is_slot(self.pre().mem.subrange(first, first + n), j - off))
    }

    /// Rewrites the pointer slots of one payload of the to-space: the
    /// payload of type `ty` that starts at word `first`.  Each slot that is
    /// not null is forwarded and overwritten with the new address.
    pub fn process_block(&mut self, ty: &GcType, first: usize, Ghost(k): Ghost<int>)
        requires
            old(self).inv(),
            ty.wf(),
            0 <= k < old(self).dst().count(),
            old(self).mark() == first,
            old(self).payload_at(*ty, k, first - old(self).dst().bounds[k]),
            old(self).follows(old(self).scan_visits(k)),
        ensures
            final(self).inv(),
            old(self).scans_to(final(self)),
            final(self).mark() == first + ty.slots(),
            final(self).follows(final(self).scan_visits(k)),
    {
        let n: usize = ty.slot_count();
        let ghost c0 = *self;
        let ghost i = self.trace@.src[k];
        let ghost off = first - self.dst().bounds[k];
        let ghost pfirst = self.pre().bounds[i] + off;
        let ghost payload = self.pre().mem.subrange(pfirst, pfirst + n);
        proof {
            assert(self.dst().link(k));
            assert(self.copy_ok(k));
            assert(self.pre().link(i));
            lemma_chain_ordered(self.dst(), k + 1, self.dst().count());
        }
        let slots = ty.pointer_slots(self.to.slice(first, first + n));
        proof {
            assert forall|x: int| 0 <= x < n implies self.to@[first + x] == payload[x] by {
                assert(self.word_copied(k, off + x));
            }
            assert(self.to@.subrange(first as int, first + n) =~= payload);
        }
        let mut t: usize = 0;
        while t < slots.len()
            invariant
                self.inv(),
                self.follows(self.scan_visits(k)),
                c0.scans_to(self),
                ty.wf(),
                n == ty.slots(),
                0 <= k < c0.dst().count(),
                k < self.dst().count(),
                i == self.trace@.src[k],
                3 <= off,
                self.dst().bounds[k] == first - off,
                self.dst().bounds[k + 1] == c0.dst().bounds[k + 1],
                first + n <= self.dst().bounds[k + 1],
                pfirst == self.pre().bounds[i] + off,
                payload == self.pre().mem.subrange(pfirst, pfirst + n),
                forall|j: int|
                    off <= j < off + n ==> (#[trigger] self.pre().is_ptr(self.trace@.types, i, j)
                        <==> ty.is_slot(payload, j - off)),
                forall|q: int|
                    0 <= q < slots@.len() ==> ty.is_slot(payload, #[trigger] slots@[q] as int),
                forall|x: int| #[trigger]
                    ty.is_slot(payload, x) ==> exists|q: int|
                        0 <= q < slots@.len() && #[trigger] slots@[q] == x,
                forall|p: int, q: int| 0 <= p < q < slots@.len() ==> slots@[p] < slots@[q],
                t <= slots@.len(),
                t == 0 ==> self.mark() == first,
                t > 0 ==> self.mark() == first + slots@[t - 1] + 1,
            decreases slots@.len() - t,
        {
            let ghost cur = *self;
            let idx: usize = slots[t];
            assert(ty.is_slot(payload, slots@[t as int] as int));
            let w: usize = first + idx;
            proof {
                assert(self.dst().link(k));
                assert(self.copy_ok(k));
                let m = self.mark();
                assert(m <= w) by {
                    if t > 0 {
                        assert(slots@[t - 1] < slots@[t as int]);
                    }
                }
                assert forall|j: int|
                    0 <= j < self.dst().words(k) && m <= self.dst().bounds[k] + j
                        < w implies !#[trigger] self.pre().is_ptr(self.trace@.types, i, j) by {
                    if self.pre().is_ptr(self.trace@.types, i, j) {
                        let x = j - off;
                        assert(ty.is_slot(payload, x));
                        let q = choose|q: int| 0 <= q < slots@.len() && #[trigger] slots@[q] == x;
                        if q < t {
                            if q < t - 1 {
                                assert(slots@[q] < slots@[t - 1]);
                            }
                        } else if q > t {
                            assert(slots@[t as int] < slots@[q]);
                        }
                    }
                }
                lemma_skip(*self, k, w as int);
                lemma_follow_skip(*self, k, w as int);
                self.trace@ = Trace { mark: w as int, ..self.trace@ };
            }
            let v: u64 = self.to.get(w);
            proof {
                assert(self.word_copied(k, off + idx));
                assert(self.pre().is_ptr(self.trace@.types, i, off + idx));
                assert(self.pre().word_ok(self.trace@.types, i, off + idx));
                assert(v == self.pre().word(i, off + idx));
            }
            if v != 0 {
                proof {
                    let a = self.pre().addr(i);
                    assert(self.home_ok(a));
                    assert(self.pre().edge(self.trace@.types, a, v as int));
                    lemma_reach_step(self.pre(), self.trace@.types, self.trace@.roots, a, v as int);
                    lemma_object_placed(self.pre(), v as int);
                }
                let ghost cm = *self;
                let moved: usize = self.forward(v as usize);
                let ghost cf = *self;
                self.to.set(w, moved as u64);
                proof {
                    self.trace@ = Trace { mark: w + 1, ..self.trace@ };
                    lemma_rewritten(cf, *self, k, off + idx);
                    lemma_follow_slot(cm, cf, *self, k, off + idx, moved);
                    lemma_scans(c0, cur, cm);
                    lemma_scans(c0, cm, cf);
                    lemma_scans(c0, cf, *self);
                }
            } else {
                let ghost cf = *self;
                proof {
                    self.trace@ = Trace { mark: w + 1, ..self.trace@ };
                    assert(cf.to@.update(w as int, 0u64) =~= cf.to@);
                    lemma_rewritten(cf, *self, k, off + idx);
                    lemma_follow_slot(cf, cf, *self, k, off + idx, 0);
                    lemma_scans(c0, cur, *self);
                }
            }
            t += 1;
        }
        proof {
            let m = self.mark();
            assert forall|j: int|
                0 <= j < self.dst().words(k) && m <= self.dst().bounds[k] + j < first
                    + n implies !#[trigger] self.pre().is_ptr(self.trace@.types, i, j) by {
                if self.pre().is_ptr(self.trace@.types, i, j) {
                    let x = j - off;
                    assert(ty.is_slot(payload, x));
                    let q = choose|q: int| 0 <= q < slots@.len() && #[trigger] slots@[q] == x;
                    if q < t - 1 {
                        assert(slots@[q] < slots@[t - 1]);
                    }
                }
            }
            lemma_skip(*self, k, first + n);
            lemma_follow_skip(*self, k, first + n);
            self.trace@ = Trace { mark: first + n, ..self.trace@ };
        }
    }

    /// Scans the block that starts at word `scan` of the to-space: the
    /// pointer slots of its payload, or of each item if it is an array, are
    /// rewritten.  Returns the word that follows the block.
    pub fn scan_block(&mut self, types: &GcTypes, scan: usize, Ghost(k): Ghost<int>) -> (next:
        usize)
        requires
            old(self).inv(),
            types.wf(),
            types@ == old(self).types(),
            0 <= k < old(self).dst().count(),
            old(self).mark() == scan,
            old(self).dst().bounds[k] == scan,
            old(self).follows(old(self).block_visits(k)),
        ensures
            final(self).inv(),
            old(self).scans_to(final(self)),
            next == old(self).dst().bounds[k + 1],
            final(self).mark() == next,
            final(self).follows(final(self).block_visits(k + 1)),
    {
        let ghost c0 = *self;
        let ghost i = self.trace@.src[k];
        proof {
            lemma_follow_block(*self, k);
            assert(self.dst().link(k));
            assert(self.copy_ok(k));
            assert(self.pre().link(i));
            assert(self.pre().shaped(self.trace@.types, i));
            assert(self.word_copied(k, 2));
            lemma_chain_ordered(self.dst(), k + 1, self.dst().count());
        }
        let size: u64 = self.to.get(scan + 1);
        let n: usize = (size / 8) as usize;
        let header = GcMemHeader::from_word(self.to.get(scan + 2));
        let ty = types.get(header.get_type_id());
        let esz: usize = ty.slot_count();
        assert(ty.wf());
        assert(*ty == self.pre().type_of(self.trace@.types, i));
        if header.is_array() {
            proof {
                assert(self.word_copied(k, 3));
            }
            let count: u64 = self.to.get(scan + 3);
            proof {
                lemma_skip(*self, k, scan + 4);
                lemma_follow_skip(*self, k, scan + 4);
                self.trace@ = Trace { mark: scan + 4, ..self.trace@ };
                lemma_scans(c0, c0, *self);
            }
            if esz > 0 {
                proof {
                    lemma_span(*ty, count as int);
                    assert(esz * count == count * esz) by (nonlinear_arith);
                }
                let items: usize = count as usize;
                let mut e: usize = 0;
                let mut child: usize = scan + 4;
                while e < items
                    invariant
                        self.inv(),
                        self.follows(self.scan_visits(k)),
                        c0.scans_to(self),
                        ty.wf(),
                        esz == ty.slots(),
                        esz > 0,
                        0 <= k < c0.dst().count(),
                        k < self.dst().count(),
                        i == self.trace@.src[k],
                        0 <= i < self.pre().count(),
                        *ty == self.pre().type_of(self.trace@.types, i),
                        header_is_array(self.pre().header(i)),
                        self.dst().bounds[k] == scan,
                        self.dst().bounds[k + 1] == scan + n,
                        self.pre().words(i) == n,
                        n == 4 + items * esz,
                        scan + n <= usize::MAX,
                        e <= items,
                        child == scan + 4 + e * esz,
                        self.mark() == child,
                    decreases items - e,
                {
                    let ghost cur = *self;
                    proof {
                        assert((e + 1) * esz <= items * esz && (e + 1) * esz == e * esz + esz)
                            by (nonlinear_arith)
                            requires
                                e < items,
                                esz > 0,
                        ;
                        assert(self.dst().link(k));
                        let off = 4 + e * esz;
                        let first = self.pre().bounds[i] + off;
                        assert forall|j: int| off <= j < off + esz implies (
                        #[trigger] self.pre().is_ptr(self.trace@.types, i, j) <==> ty.is_slot(
                            self.pre().mem.subrange(first, first + esz),
                            j - off,
                        )) by {
                            lemma_item_slot(self.pre(), self.trace@.types, i, e as int, j - off);
                        }
                        assert(self.payload_at(*ty, k, off));
                    }
                    self.process_block(ty, child, Ghost(k));
                    proof {
                        lemma_scans(c0, cur, *self);
                    }
                    child += esz;
                    e += 1;
                }
            } else {
                proof {
                    let before = *self;
                    lemma_skip(*self, k, scan + n);
                    lemma_follow_skip(*self, k, scan + n);
                    self.trace@ = Trace { mark: scan + n, ..self.trace@ };
                    lemma_scans(c0, before, *self);
                }
            }
        } else {
            proof {
                lemma_skip(*self, k, scan + 3);
                lemma_follow_skip(*self, k, scan + 3);
                self.trace@ = Trace { mark: scan + 3, ..self.trace@ };
                lemma_scans(c0, c0, *self);
                if esz > 0 {
                    lemma_span(*ty, 1);
                }
                assert(self.payload_at(*ty, k, 3));
            }
            let ghost cur = *self;
            self.process_block(ty, scan + 3, Ghost(k));
            proof {
                lemma_scans(c0, cur, *self);
                let before = *self;
                lemma_skip(*self, k, scan + n);
                lemma_follow_skip(*self, k, scan + n);
                self.trace@ = Trace { mark: scan + n, ..self.trace@ };
                lemma_scans(c0, before, *self);
            }
        }
        proof {
            lemma_follow_block(*self, k);
        }
        scan + n
    }

    /// Scans the to-space from its first block to its write head, which
    /// moves on as the scan copies what it finds.  When the scan has caught
    /// up with the write head, every pointer slot of the to-space holds a
    /// new address.
    pub fn scan(&mut self, types: &GcTypes)
        requires
            old(self).inv(),
            types.wf(),
            types@ == old(self).types(),
            old(self).mark() == 0,
            old(self).follows(old(self).block_visits(0)),
        ensures
            final(self).inv(),
            old(self).scans_to(final(self)),
            final(self).mark() == final(self).dst().used(),
            final(self).follows(final(self).block_visits(final(self).dst().count())),
    {
        let ghost c0 = *self;
        let mut scan: usize = 0;
        let ghost mut k: int = 0;
        proof {
            lemma_kept_bounded(self.pre(), self.trace@.home.dom(), self.pre().count());
        }
        while scan < self.free
            invariant
                self.inv(),
                self.follows(self.block_visits(k)),
                c0.scans_to(self),
                types.wf(),
                types@ == self.types(),
                0 <= k <= self.dst().count(),
                self.dst().bounds[k] == scan,
                self.mark() == scan,
                scan <= self.free <= self.pre().used(),
            decreases self.pre().used() - scan,
        {
            let ghost cur = *self;
            scan = self.scan_block(types, scan, Ghost(k));
            proof {
                assert(cur.dst().link(k));
                lemma_scans(c0, cur, *self);
                lemma_kept_bounded(self.pre(), self.trace@.home.dom(), self.pre().count());
                lemma_chain_ordered(self.dst(), k + 1, self.dst().count());
                k = k + 1;
            }
        }
        proof {
            if k < self.dst().count() {
                assert(self.dst().link(k));
                lemma_chain_ordered(self.dst(), k + 1, self.dst().count());
            }
        }
    }
}

/// Steps that keep what was known of the copies can be chained.
pub(crate) proof fn lemma_scans(a: Cycle, b: Cycle, c: Cycle)
    requires
        a.scans_to(&b),
        b.scans_to(&c) || b.grows_to(&c),
    ensures
        a.scans_to(&c),
{
    let t = a.trace@;
    let u = b.trace@;
    let v = c.trace@;
    assert forall|k: int| 0 <= k < t.tb.len() implies #[trigger] v.tb[k] == t.tb[k] by {
        assert(u.tb[k] == t.tb[k]);
    }
    assert forall|k: int| 0 <= k < t.src.len() implies #[trigger] v.src[k] == t.src[k] by {
        assert(u.src[k] == t.src[k]);
    }
    assert forall|x: int| #[trigger] t.home.contains_key(x) implies v.home.contains_key(x)
        && v.home[x] == t.home[x] by {
        assert(u.home.contains_key(x));
    }
}

/// Moving the mark over words that are no pointer slots keeps the
/// invariant.
pub(crate) proof fn lemma_skip(c: Cycle, k: int, m: int)
    requires
        c.inv(),
        0 <= k < c.dst().count(),
        c.dst().bounds[k] <= c.mark() <= m <= c.dst().bounds[k + 1],
        forall|j: int|
            0 <= j < c.dst().words(k) && c.mark() <= c.dst().bounds[k] + j < m ==> !#[trigger] c.pre().is_ptr(
                c.trace@.types,
                c.trace@.src[k],
                j,
            ),
    ensures
        c.marked(m).inv(),
{
    let e = c.marked(m);
    assert(e.dst() == c.dst());
    lemma_chain_ordered(c.dst(), k + 1, c.dst().count());
    assert forall|i: int| 0 <= i < e.pre().count() implies #[trigger] e.fwd_ok(i) by {
        assert(c.fwd_ok(i));
    }
    assert forall|l: int| 0 <= l < e.dst().count() implies #[trigger] e.copy_ok(l) by {
        assert(c.copy_ok(l));
    }
    assert forall|a: int| #[trigger] e.trace@.home.contains_key(a) implies e.home_ok(a) by {
        assert(c.home_ok(a));
    }
    assert forall|l: int, j: int|
        0 <= l < e.dst().count() && 2 <= j < e.dst().words(l) implies #[trigger] e.word_copied(
        l,
        j,
    ) by {
        assert(c.word_copied(l, j));
        let w = c.dst().bounds[l] + j;
        if c.mark() <= w < m {
            lemma_chain_ordered(c.dst(), k, k + 1);
            lemma_word_owner(c.dst(), l, j, k, w - c.dst().bounds[k]);
        }
    }
}

/// Rewriting the pointer slot at the mark to the new address of its target
/// and moving the mark past it keeps the invariant.
pub(crate) proof fn lemma_rewritten(c: Cycle, e: Cycle, k: int, j: int)
    requires
        c.inv(),
        0 <= k < c.dst().count(),
        3 <= j < c.dst().words(k),
        c.mark() == c.dst().bounds[k] + j,
        c.pre().is_ptr(c.trace@.types, c.trace@.src[k], j),
        c.pre().word(c.trace@.src[k], j) != 0 ==> c.trace@.home.contains_key(
            c.pre().word(c.trace@.src[k], j) as int,
        ),
        e.from == c.from,
        e.free == c.free,
        e.to.base == c.to.base,
        e.to@ == c.to@.update(
            c.dst().bounds[k] + j,
            c.tr(c.pre().word(c.trace@.src[k], j)) as u64,
        ),
        e.trace@ == (Trace { mark: c.mark() + 1, ..c.trace@ }),
    ensures
        e.inv(),
{
    let t = c.trace@;
    let w = c.dst().bounds[k] + j;
    let v = c.pre().word(t.src[k], j);
    assert(c.dst().link(k));
    lemma_chain_ordered(c.dst(), k + 1, c.dst().count());
    assert forall|l: int| 0 <= l < c.dst().count() implies e.dst().addr(l) == c.dst().addr(l) by {}
    if v != 0 {
        assert(c.home_ok(v as int));
        assert(c.dst().link(t.home[v as int]));
        lemma_chain_ordered(c.dst(), t.home[v as int] + 1, c.dst().count());
    }
    assert(c.tr(v) as u64 as int == c.tr(v));
    assert forall|i: int| 0 <= i < e.pre().count() implies #[trigger] e.fwd_ok(i) by {
        assert(c.fwd_ok(i));
    }
    assert forall|l: int| 0 <= l < e.dst().count() implies #[trigger] e.dst().link(l) by {
        assert(c.dst().link(l));
        if c.dst().bounds[l] + 1 == w {
            lemma_word_owner(c.dst(), l, 1, k, j);
        }
    }
    assert forall|l: int| 0 <= l < e.dst().count() implies #[trigger] e.copy_ok(l) by {
        assert(c.copy_ok(l));
        assert(c.dst().link(l));
        if c.dst().bounds[l] == w {
            lemma_word_owner(c.dst(), l, 0, k, j);
        }
    }
    assert forall|a: int| #[trigger] e.trace@.home.contains_key(a) implies e.home_ok(a) by {
        assert(c.home_ok(a));
    }
    assert forall|l: int, x: int|
        0 <= l < e.dst().count() && 2 <= x < e.dst().words(l) implies #[trigger] e.word_copied(
        l,
        x,
    ) by {
        assert(c.word_copied(l, x));
        assert(c.dst().link(l));
        assert(0 <= w < c.to@.len());
        if c.dst().bounds[l] + x == w {
            lemma_word_owner(c.dst(), l, x, k, j);
            assert(e.dst().word(l, x) == c.tr(v) as u64);
            assert(e.tr(v) == c.tr(v));
            assert(e.word_copied(l, x));
        } else {
            let y = c.pre().word(t.src[l], x);
            assert(e.dst().word(l, x) == c.dst().word(l, x));
            assert(e.tr(y) == c.tr(y));
            assert(e.word_copied(l, x));
        }
    }
}

} // verus!
