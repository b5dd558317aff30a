//! One collection in progress: the two regions, the write head of the
//! to-space, and the bookkeeping that ties every copy to its source.

use crate::memory::Memory;
use crate::space::{
    lemma_addr_unique, lemma_chain_ordered, lemma_inside_not_start, lemma_kept_bounded,
    lemma_kept_insert, lemma_object_placed, Space, BLOCK_HEADER_SIZE,
};
use crate::types::GcType;
use vstd::prelude::*;

verus! {

/// What a collection knows beyond the bytes: the heap as it was when the
/// collection began, and which block went where.
pub ghost struct Trace {
    /// The registered types.
    pub types: Seq<GcType>,
    /// The from-space as the collection found it.
    pub pre: Space,
    /// The roots as the collection found them.
    pub roots: Seq<usize>,
    /// Block boundaries of the to-space.
    pub tb: Seq<int>,
    /// For each block of the to-space, the block of the from-space that it
    /// is a copy of.
    pub src: Seq<int>,
    /// For each object that has been copied, by its old address, the block
    /// of the to-space that holds the copy.
    pub home: Map<int, int>,
    /// Every pointer slot of the to-space below this word has been
    /// rewritten to the new address of its target; every slot at or above
    /// it still holds the old address.
    pub mark: int,
}

/// The block header that starts every block.
pub struct Header {
    pub forward: usize,
    pub size: usize,
}

impl Header {
    /// The header of a block of `size` bytes that has not moved.
    pub fn new(size: usize) -> (h: Header)
        ensures
            h.forward == 0,
            h.size == size,
    {
        Header { forward: 0, size }
    }

    /// Writes the header into the two words at `index`.
    pub fn store(&self, memory: &mut Memory, index: usize)
        requires
            index + 1 < old(memory)@.len(),
        ensures
            final(memory)@ == old(memory)@.update(index as int, self.forward as u64).update(
                index + 1,
                self.size as u64,
            ),
            final(memory).base() == old(memory).base(),
    {
        let limit: usize = memory.len();
        assert(index + 1 < limit);
        memory.set(index, self.forward as u64);
        memory.set(index + 1, self.size as u64);
    }
}

/// The state of a collection between two steps.
pub struct Cycle {
    pub(crate) from: Memory,
    pub(crate) to: Memory,
    pub(crate) free: usize,
    pub(crate) trace: Ghost<Trace>,
}

impl Cycle {
    /// The to-space with the blocks copied so far.
    pub open(crate) spec fn dst(&self) -> Space {
        Space { base: self.to.base as int, mem: self.to@, bounds: self.trace@.tb }
    }

    /// The from-space as the collection found it.
    pub open(crate) spec fn pre(&self) -> Space {
        self.trace@.pre
    }

    /// The registered types.
    pub open(crate) spec fn types(&self) -> Seq<GcType> {
        self.trace@.types
    }

    /// The roots as the collection found them.
    pub open(crate) spec fn roots(&self) -> Seq<usize> {
        self.trace@.roots
    }

    /// For each object copied so far, by its old address, the block of the
    /// to-space that holds the copy.
    pub open(crate) spec fn home(&self) -> Map<int, int> {
        self.trace@.home
    }

    /// The old addresses of the objects copied so far.
    pub open(crate) spec fn moved(&self) -> Set<int> {
        self.trace@.home.dom()
    }

    /// The new address of the object whose old address is `v`; null stays
    /// null.
    pub open(crate) spec fn tr(&self, v: u64) -> int {
        if v == 0 {
            0
        } else {
            self.dst().addr(self.trace@.home[v as int])
        }
    }

    /// The from-space differs from what the collection found only in the
    /// forwarding words.
    pub open(crate) spec fn from_ok(&self) -> bool {
        &&& self.from.base as int == self.pre().base
        &&& self.from@.len() == self.pre().mem.len()
        &&& forall|w: int|
            0 <= w < self.from@.len() ==> (#[trigger] self.from@[w]) == self.pre().mem[w]
                || self.pre().is_start(w)
    }

    /// The forwarding word of from-block `i` is null until the block has
    /// been copied, and then the address of the copy.
    pub open(crate) spec fn fwd_ok(&self, i: int) -> bool {
        let a = self.pre().addr(i);
        self.from@[self.pre().bounds[i]] as int == if self.trace@.home.contains_key(a) {
            self.dst().addr(self.trace@.home[a]) - 16
        } else {
            0
        }
    }

    /// To-block `k` is the one copy of its source.
    pub open(crate) spec fn copy_ok(&self, k: int) -> bool {
        let i = self.trace@.src[k];
        &&& 0 <= i < self.pre().count()
        &&& self.dst().words(k) == self.pre().words(i)
        &&& self.dst().forward(k) == 0
        &&& self.trace@.home.contains_key(self.pre().addr(i))
        &&& self.trace@.home[self.pre().addr(i)] == k
    }

    /// The copy of an object that has been copied names it as source.
    pub open(crate) spec fn home_ok(&self, a: int) -> bool {
        let k = self.trace@.home[a];
        &&& 0 <= k < self.dst().count()
        &&& self.pre().addr(self.trace@.src[k]) == a
    }

    /// Every object that has been copied could be reached from a root.
    pub open(crate) spec fn reached(&self) -> bool {
        forall|a: int| #[trigger]
            self.trace@.home.contains_key(a) ==> self.pre().reachable(
                self.trace@.types,
                self.trace@.roots,
                a,
            )
    }

    /// Word `j` of to-block `k` holds what the source holds, or, if it is a
    /// pointer slot below the mark, the new address of what the source
    /// points to.
    pub open(crate) spec fn word_copied(&self, k: int, j: int) -> bool {
        let i = self.trace@.src[k];
        let v = self.pre().word(i, j);
        if self.dst().bounds[k] + j < self.trace@.mark && self.pre().is_ptr(
            self.trace@.types,
            i,
            j,
        ) {
            &&& self.dst().word(k, j) as int == self.tr(v)
            &&& v != 0 ==> self.trace@.home.contains_key(v as int)
        } else {
            self.dst().word(k, j) == v
        }
    }

    /// What holds between any two steps of a collection: the spaces are
    /// in order, and only what could be reached has been copied.
    pub open(crate) spec fn inv(&self) -> bool {
        self.sound() && self.reached()
    }

    /// The two spaces are in order, whatever has been copied: the
    /// from-space is as the collection found it but for the forwarding
    /// words, and the to-space holds one copy of each object copied.
    pub open(crate) spec fn sound(&self) -> bool {
        let t = self.trace@;
        &&& forall|i: int| 0 <= i < t.types.len() ==> (#[trigger] t.types[i]).wf()
        &&& t.pre.heap_ok(t.types)
        &&& t.pre.roots_ok(t.roots)
        &&& self.from.wf()
        &&& self.to.wf()
        &&& self.from_ok()
        &&& forall|i: int| 0 <= i < t.pre.count() ==> #[trigger] self.fwd_ok(i)
        &&& self.dst().chain()
        &&& self.free == self.dst().used()
        &&& t.tb.len() == t.src.len() + 1
        &&& forall|k: int| 0 <= k < self.dst().count() ==> #[trigger] self.copy_ok(k)
        &&& forall|a: int| #[trigger] t.home.contains_key(a) ==> self.home_ok(a)
        &&& forall|k: int, j: int|
            0 <= k < self.dst().count() && 2 <= j < self.dst().words(k)
                ==> #[trigger] self.word_copied(k, j)
        &&& self.free == t.pre.kept_words(t.home.dom(), t.pre.count())
        &&& self.to@.len() >= t.pre.used()
        &&& 0 <= t.mark <= self.free
    }

    /// The step from `self` to `next` copied nothing away: what was known
    /// of the to-space and of the copies still holds.
    pub open(crate) spec fn grows_to(&self, next: &Cycle) -> bool {
        let t = self.trace@;
        let u = next.trace@;
        &&& u.types == t.types
        &&& u.pre == t.pre
        &&& u.roots == t.roots
        &&& u.mark == t.mark
        &&& next.to.base == self.to.base
        &&& next.from.base == self.from.base
        &&& next.to@.len() == self.to@.len()
        &&& self.free <= next.free
        &&& t.tb.len() <= u.tb.len()
        &&& t.src.len() <= u.src.len()
        &&& forall|k: int| 0 <= k < t.tb.len() ==> #[trigger] u.tb[k] == t.tb[k]
        &&& forall|k: int| 0 <= k < t.src.len() ==> #[trigger] u.src[k] == t.src[k]
        &&& forall|a: int| #[trigger]
            t.home.contains_key(a) ==> u.home.contains_key(a) && u.home[a] == t.home[a]
        &&& forall|w: int| 0 <= w < self.free ==> #[trigger] next.to@[w] == self.to@[w]
    }

    /// The step from `self` to `next` forwarded the object at `ptr`, with
    /// the result `r`: the object has a copy and no other object has got
    /// one, `r` is the address of the copy, and if the object had a copy
    /// before, nothing has changed.
    pub open(crate) spec fn forwards(&self, next: &Cycle, ptr: usize, r: usize) -> bool {
        &&& next.sound()
        &&& self.grows_to(next)
        &&& next.moved() == self.moved().insert(ptr as int)
        &&& next.moved().contains(ptr as int)
        &&& r == next.tr(ptr as u64)
        &&& r != 0
        &&& self.moved().contains(ptr as int) ==> *next == *self
        &&& !self.moved().contains(ptr as int) ==> next.sources() == self.sources().push(
            self.pre().index_of(ptr as int),
        )
    }

    /// For each block of the to-space, in order, the block of the
    /// from-space that it is a copy of.
    pub open(crate) spec fn sources(&self) -> Seq<int> {
        self.trace@.src
    }

    /// Copies the object at `ptr` to the to-space unless that has been
    /// done, and returns the address of the copy.
    ///
    /// The first call for an object appends a copy of its block to the
    /// to-space and records the copy's address in the forwarding word of
    /// the source.  Every later call finds that word set, changes
    /// nothing, and returns the same address.  This holds of every
    /// object of the from-space, reachable or not.
    pub fn forward(&mut self, ptr: usize) -> (r: usize)
        requires
            old(self).sound(),
            old(self).pre().is_object(ptr as int),
        ensures
            old(self).forwards(final(self), ptr, r),
    {
        proof {
            lemma_object_placed(self.pre(), ptr as int);
        }
        let ghost i = self.pre().index_of(ptr as int);
        let s: usize = (ptr - self.from.base) / 8 - 2;
        proof {
            assert(self.pre().link(i));
            assert(self.fwd_ok(i));
            lemma_inside_not_start(self.pre(), i, 1);
            lemma_chain_ordered(self.pre(), i + 1, self.pre().count());
        }
        let f: u64 = self.from.get(s);
        if f != 0 {
            proof {
                let k = self.trace@.home[ptr as int];
                assert(self.home_ok(ptr as int));
                assert(self.dst().link(k));
                lemma_chain_ordered(self.dst(), k + 1, self.dst().count());
                assert(self.moved().insert(ptr as int) =~= self.moved());
            }
            return f as usize + BLOCK_HEADER_SIZE;
        }
        let size: u64 = self.from.get(s + 1);
        let n: usize = (size / 8) as usize;
        let d: usize = self.free;
        proof {
            if self.trace@.home.contains_key(ptr as int) {
                let k = self.trace@.home[ptr as int];
                assert(self.home_ok(ptr as int));
                assert(self.dst().link(k));
                lemma_chain_ordered(self.dst(), k + 1, self.dst().count());
            }
            lemma_kept_insert(self.pre(), self.trace@.home.dom(), i, self.pre().count());
            lemma_kept_bounded(
                self.pre(),
                self.trace@.home.dom().insert(ptr as int),
                self.pre().count(),
            );
            assert(d + n <= self.to@.len());
        }
        let ghost before = *self;
        self.from.set(s, (self.to.base + 8 * d) as u64);
        Header::new(size as usize).store(&mut self.to, d);
        let ghost source = self.from;
        let mut j: usize = 2;
        while j < n
            invariant
                2 <= j <= n,
                d + n <= self.to@.len() <= usize::MAX,
                s + n <= self.from@.len() <= usize::MAX,
                self.to@.len() == before.to@.len(),
                self.to.base == before.to.base,
                self.from == source,
                self.free == before.free,
                self.trace == before.trace,
                forall|w: int| 0 <= w < d ==> #[trigger] self.to@[w] == before.to@[w],
                self.to@[d as int] == 0,
                self.to@[d + 1] == size,
                forall|w: int| d + 2 <= w < d + j ==> #[trigger] self.to@[w] == self.from@[w - d + s],
            decreases n - j,
        {
            let word: u64 = self.from.get(s + j);
            self.to.set(d + j, word);
            j += 1;
        }
        self.free = d + n;
        proof {
            let t = self.trace@;
            self.trace@ = Trace {
                tb: t.tb.push(d + n),
                src: t.src.push(i),
                home: t.home.insert(ptr as int, t.tb.len() - 1),
                ..t
            };
        }
        proof {
            assert forall|w: int| d + 2 <= w < d + n implies #[trigger] self.to@[w]
                == self.pre().mem[w - d + s] by {
                lemma_inside_not_start(self.pre(), i, w - d);
            }
            lemma_copied(before, *self, i);
            assert(self.dst().link(self.dst().count() - 1));
        }
        self.to.base + 8 * (d + 2)
    }

    /// The step from `self` to `next` copied from-block `i` to the write
    /// head of the to-space.
    pub open(crate) spec fn copied(&self, next: &Cycle, i: int) -> bool {
        let t = self.trace@;
        let s = t.pre.bounds[i];
        let n = t.pre.words(i);
        let d = self.free as int;
        &&& d + n <= self.to@.len()
        &&& next.from.base == self.from.base
        &&& next.to.base == self.to.base
        &&& next.from@ == self.from@.update(s, (self.to.base + 8 * d) as u64)
        &&& next.to@.len() == self.to@.len()
        &&& forall|w: int| 0 <= w < d ==> #[trigger] next.to@[w] == self.to@[w]
        &&& next.to@[d] == 0
        &&& next.to@[d + 1] == t.pre.mem[s + 1]
        &&& forall|w: int| d + 2 <= w < d + n ==> #[trigger] next.to@[w] == t.pre.mem[w - d + s]
        &&& next.free == d + n
        &&& next.trace@ == Trace {
            tb: t.tb.push(d + n),
            src: t.src.push(i),
            home: t.home.insert(t.pre.addr(i), t.tb.len() - 1),
            ..t
        }
    }
}

/// Forwarding idempotence: forwarding an object a second time yields the
/// address that the first time yielded, and changes nothing.
pub proof fn lemma_forward_again(
    c: Cycle,
    first: Cycle,
    r1: usize,
    second: Cycle,
    r2: usize,
    ptr: usize,
)
    requires
        c.forwards(&first, ptr, r1),
        first.forwards(&second, ptr, r2),
    ensures
        r2 == r1,
        second == first,
{
}

/// Steps that copy nothing away can be chained.
pub proof fn lemma_grows(a: Cycle, b: Cycle, c: Cycle)
    requires
        a.grows_to(&b),
        b.grows_to(&c),
    ensures
        a.grows_to(&c),
{
    let t = a.trace@;
    let u = b.trace@;
    let v = c.trace@;
    assert forall|k: int| 0 <= k < t.tb.len() implies #[trigger] v.tb[k] == t.tb[k] by {
        assert(u.tb[k] == t.tb[k]);
    }
    assert forall|k: int| 0 <= k < t.src.len() implies #[trigger] v.src[k] == t.src[k] by {
        assert(u.src[k] == t.src[k]);
    }
    assert forall|x: int| #[trigger] t.home.contains_key(x) implies v.home.contains_key(x)
        && v.home[x] == t.home[x] by {
        assert(u.home.contains_key(x));
    }
    assert forall|w: int| 0 <= w < a.free implies #[trigger] c.to@[w] == a.to@[w] by {
        assert(b.to@[w] == a.to@[w]);
    }
}

/// Copying a block that has not been copied keeps the two spaces in
/// order.
pub(crate) proof fn lemma_copied(c: Cycle, e: Cycle, i: int)
    requires
        c.sound(),
        0 <= i < c.pre().count(),
        !c.trace@.home.contains_key(c.pre().addr(i)),
        c.copied(&e, i),
    ensures
        e.sound(),
        c.grows_to(&e),
        e.moved() == c.moved().insert(c.pre().addr(i)),
{
    let t = c.trace@;
    let u = e.trace@;
    let pre = t.pre;
    let s = pre.bounds[i];
    let n = pre.words(i);
    let d = c.free as int;
    let a = pre.addr(i);
    let nt = c.dst().count();
    assert(pre.link(i));
    assert(e.dst().count() == nt + 1);
    assert(u.tb[nt] == d);
    assert(u.tb[nt + 1] == d + n);
    assert forall|k: int| 0 <= k <= nt implies #[trigger] u.tb[k] == t.tb[k] && t.tb[k] <= d by {
        lemma_chain_ordered(c.dst(), k, nt);
    }
    assert forall|k: int| 0 <= k < nt implies e.dst().addr(k) == c.dst().addr(k) by {}
    // the from-space
    assert(e.from_ok()) by {
        assert(pre.is_start(s));
    }
    assert forall|m: int| 0 <= m < pre.count() implies #[trigger] e.fwd_ok(m) by {
        assert(c.fwd_ok(m));
        assert(pre.link(m));
        if m != i {
            if pre.bounds[m] == s {
                lemma_addr_unique(pre, m, i);
            }
            assert(e.from@[pre.bounds[m]] == c.from@[pre.bounds[m]]);
            assert(pre.addr(m) != a);
            if t.home.contains_key(pre.addr(m)) {
                assert(c.home_ok(pre.addr(m)));
                let k = t.home[pre.addr(m)];
                assert(u.home[pre.addr(m)] == k);
                assert(u.tb[k] == t.tb[k]);
            }
        } else {
            assert(u.home.contains_key(a));
            assert(u.home[a] == nt);
            assert(e.from@[s] == (c.to.base + 8 * d) as u64);
            assert(e.dst().addr(nt) - 16 == c.to.base + 8 * d);
        }
    }
    // the chain of the to-space
    assert forall|k: int| 0 <= k < e.dst().count() implies #[trigger] e.dst().link(k) by {
        if k < nt {
            assert(c.dst().link(k));
        }
    }
    assert forall|k: int| 0 <= k < e.dst().count() implies #[trigger] e.copy_ok(k) by {
        if k < nt {
            assert(c.copy_ok(k));
            assert(c.dst().link(k));
        }
    }
    assert forall|b: int| #[trigger] u.home.contains_key(b) implies e.home_ok(b) by {
        if b != a {
            assert(c.home_ok(b));
        }
    }
    assert forall|k: int, j: int|
        0 <= k < e.dst().count() && 2 <= j < e.dst().words(k) implies #[trigger] e.word_copied(
        k,
        j,
    ) by {
        if k < nt {
            assert(c.word_copied(k, j));
            assert(c.dst().link(k));
            let v = pre.word(t.src[k], j);
            if v != 0 && t.home.contains_key(v as int) {
                assert(c.home_ok(v as int));
            }
        }
    }
    assert(u.home.dom() =~= t.home.dom().insert(a));
    lemma_kept_insert(pre, t.home.dom(), i, pre.count());
}

} // verus!
