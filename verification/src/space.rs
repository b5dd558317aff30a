//! The mathematical picture of a bump region: a chain of blocks, the
//! objects they hold, and the pointers between them.
//!
//! A block of `n` words that starts at word `s` is laid out as
//!
//! | word      | content                                              |
//! |-----------|------------------------------------------------------|
//! | `s`       | forwarding address, 0 while the block has not moved  |
//! | `s + 1`   | size of the whole block in bytes, `8 * n`            |
//! | `s + 2`   | object header: type id and array flag                |
//! | `s + 3..` | payload; for an array, its length and then its items |
//!
//! The address of the object is the address of its header word.

use crate::types::{header_is_array, header_type, GcType};
use vstd::arithmetic::div_mod::lemma_fundamental_div_mod_converse;
use vstd::prelude::*;

verus! {

/// Bytes taken by the block header.
pub const BLOCK_HEADER_SIZE: usize = 16;

/// Bytes taken by the object header.
pub const OBJECT_HEADER_SIZE: usize = 8;

/// A region of memory together with the boundaries of the blocks that have
/// been carved out of it.  `bounds` lists the first word of every block in
/// ascending order, followed by the first free word.
pub ghost struct Space {
    pub base: int,
    pub mem: Seq<u64>,
    pub bounds: Seq<int>,
}

impl Space {
    /// Number of blocks.
    pub open spec fn count(self) -> int {
        self.bounds.len() - 1
    }

    /// Number of words in use: the index of the first free word.
    pub open spec fn used(self) -> int {
        self.bounds[self.bounds.len() - 1]
    }

    /// Number of words of block `i`.
    pub open spec fn words(self, i: int) -> int {
        self.bounds[i + 1] - self.bounds[i]
    }

    /// Address of the object held by block `i`.
    pub open spec fn addr(self, i: int) -> int {
        self.base + 8 * (self.bounds[i] + 2)
    }

    /// The forwarding word of block `i`.
    pub open spec fn forward(self, i: int) -> u64 {
        self.mem[self.bounds[i]]
    }

    /// The object header of block `i`.
    pub open spec fn header(self, i: int) -> u64 {
        self.mem[self.bounds[i] + 2]
    }

    /// Word `j` of block `i`.
    pub open spec fn word(self, i: int, j: int) -> u64 {
        self.mem[self.bounds[i] + j]
    }

    /// Block `i` has room for its headers, lies inside the region and
    /// records its own size.
    pub open spec fn link(self, i: int) -> bool {
        &&& 0 <= self.bounds[i]
        &&& self.bounds[i] + 3 <= self.bounds[i + 1]
        &&& self.bounds[i + 1] <= self.mem.len()
        &&& self.mem[self.bounds[i] + 1] == 8 * self.words(i)
    }

    /// The region is a valid range of addresses.
    pub open spec fn placed(self) -> bool {
        &&& self.base >= 0
        &&& self.base % 8 == 0
        &&& self.base + 8 * self.mem.len() <= usize::MAX
        &&& self.mem.len() > 0 ==> self.base > 0
    }

    /// The blocks tile the used part of the region without gaps.
    pub open spec fn chain(self) -> bool {
        &&& self.placed()
        &&& self.bounds.len() >= 1
        &&& self.bounds[0] == 0
        &&& self.used() <= self.mem.len()
        &&& forall|i: int| 0 <= i < self.count() ==> #[trigger] self.link(i)
    }

    /// Whether `a` is the address of an object of the region.
    pub open spec fn is_object(self, a: int) -> bool {
        exists|i: int| 0 <= i < self.count() && #[trigger] self.addr(i) == a
    }

    /// The block that holds the object at address `a`.
    pub open spec fn index_of(self, a: int) -> int {
        choose|i: int| 0 <= i < self.count() && #[trigger] self.addr(i) == a
    }

    /// Whether word `w` is the first word of a block.
    pub open spec fn is_start(self, w: int) -> bool {
        exists|i: int| 0 <= i < self.count() && #[trigger] self.bounds[i] == w
    }

    /// Whether byte address `a` falls inside the region.
    pub open spec fn contains(self, a: int) -> bool {
        self.base <= a < self.base + 8 * self.mem.len()
    }

    /// The type of the object in block `i`.
    pub open spec fn type_of(self, types: Seq<GcType>, i: int) -> GcType {
        types[header_type(self.header(i))]
    }

    /// Block `i` has the size that its header calls for: three words of
    /// headers and one payload, or four words of headers and length and as
    /// many payloads as the length says.
    pub open spec fn shaped(self, types: Seq<GcType>, i: int) -> bool {
        let h = self.header(i);
        &&& 0 <= header_type(h) < types.len()
        &&& if header_is_array(h) {
            &&& self.words(i) >= 4
            &&& self.words(i) == 4 + types[header_type(h)].span(self.word(i, 3) as int)
        } else {
            self.words(i) == 3 + types[header_type(h)].span(1)
        }
    }

    /// Whether word `j` of block `i` is a pointer slot of the object.
    ///
    /// A single object has one payload, which starts at word 3.  An array
    /// has its items from word 4 on, each as long as one payload; the
    /// layout is applied to each item on its own.
    pub open spec fn is_ptr(self, types: Seq<GcType>, i: int, j: int) -> bool {
        let s = self.bounds[i];
        let t = self.type_of(types, i);
        let n = t.slots();
        &&& n > 0
        &&& j < self.words(i)
        &&& if header_is_array(self.header(i)) {
            let first = s + 4 + ((j - 4) / n) * n;
            j >= 4 && t.is_slot(self.mem.subrange(first, first + n), (j - 4) % n)
        } else {
            j >= 3 && t.is_slot(self.mem.subrange(s + 3, s + 3 + n), j - 3)
        }
    }

    /// Word `j` of block `i`, if it is a pointer slot, holds null or the
    /// address of an object of the region.
    pub open spec fn word_ok(self, types: Seq<GcType>, i: int, j: int) -> bool {
        self.is_ptr(types, i, j) ==> self.word(i, j) == 0 || self.is_object(self.word(i, j) as int)
    }

    /// Every block is unforwarded and has the shape its header calls for.
    pub open spec fn blocks_ok(self, types: Seq<GcType>) -> bool {
        forall|i: int|
            0 <= i < self.count() ==> self.forward(i) == 0 && #[trigger] self.shaped(types, i)
    }

    /// No pointer slot dangles.
    pub open spec fn closed(self, types: Seq<GcType>) -> bool {
        forall|i: int, j: int|
            0 <= i < self.count() && 0 <= j < self.words(i) ==> #[trigger] self.word_ok(
                types,
                i,
                j,
            )
    }

    /// The state in which the mutator finds the heap: the blocks tile the
    /// used part of the region, none is forwarded, each has the shape of its
    /// type, and every pointer slot holds null or the address of an object.
    pub open spec fn heap_ok(self, types: Seq<GcType>) -> bool {
        &&& self.chain()
        &&& self.blocks_ok(types)
        &&& self.closed(types)
    }

    /// Every root is null or the address of an object.
    pub open spec fn roots_ok(self, roots: Seq<usize>) -> bool {
        forall|r: int| 0 <= r < roots.len() ==> #[trigger] roots[r] == 0 || self.is_object(roots[r] as int)
    }

    /// The object at `a` keeps the address `b` in one of its pointer slots.
    pub open spec fn edge(self, types: Seq<GcType>, a: int, b: int) -> bool {
        exists|i: int, j: int|
            0 <= i < self.count() && 0 <= j < self.words(i) && self.addr(i) == a && b != 0
                && #[trigger] self.is_ptr(types, i, j) && self.word(i, j) == b
    }

    /// `path` leads from a root along pointer slots.
    pub open spec fn is_path(self, types: Seq<GcType>, roots: Seq<usize>, path: Seq<int>) -> bool {
        &&& path.len() >= 1
        &&& path[0] != 0
        &&& exists|r: int| 0 <= r < roots.len() && #[trigger] roots[r] == path[0]
        &&& forall|k: int|
            0 <= k < path.len() - 1 ==> #[trigger] self.edge(types, path[k], path[k + 1])
    }

    /// The object at `a` can be reached from a root.
    pub open spec fn reachable(self, types: Seq<GcType>, roots: Seq<usize>, a: int) -> bool {
        exists|path: Seq<int>| #[trigger]
            self.is_path(types, roots, path) && path[path.len() - 1] == a
    }

    /// The addresses of the objects that can be reached from a root.
    pub open spec fn live(self, types: Seq<GcType>, roots: Seq<usize>) -> Set<int> {
        Set::new(|a: int| self.reachable(types, roots, a))
    }

    /// Words taken by those of the first `n` blocks whose object is in
    /// `keep`.
    pub open spec fn kept_words(self, keep: Set<int>, n: int) -> int
        decreases n,
    {
        if n <= 0 {
            0
        } else {
            self.kept_words(keep, n - 1) + if keep.contains(self.addr(n - 1)) {
                self.words(n - 1)
            } else {
                0
            }
        }
    }

    /// Words taken by the blocks whose object can be reached from a root.
    pub open spec fn live_words(self, types: Seq<GcType>, roots: Seq<usize>) -> int {
        self.kept_words(self.live(types, roots), self.count())
    }
}

/// Blocks are laid out in ascending order and do not overlap.
pub proof fn lemma_chain_ordered(s: Space, i: int, j: int)
    requires
        s.chain(),
        0 <= i <= j <= s.count(),
    ensures
        s.bounds[i] <= s.bounds[j],
        i < j ==> s.bounds[i + 1] <= s.bounds[j],
        0 <= s.bounds[i],
        s.bounds[j] <= s.used(),
    decreases j - i,
{
    if i < j {
        assert(s.link(j - 1));
        lemma_chain_ordered(s, i, j - 1);
    }
    if j < s.count() {
        assert(s.link(j));
        lemma_chain_upto(s, j);
    }
    if i < s.count() {
        assert(s.link(i));
    } else if i > 0 {
        assert(s.link(i - 1));
    }
}

proof fn lemma_chain_upto(s: Space, j: int)
    requires
        s.chain(),
        0 <= j <= s.count(),
    ensures
        s.bounds[j] <= s.used(),
    decreases s.count() - j,
{
    if j < s.count() {
        assert(s.link(j));
        lemma_chain_upto(s, j + 1);
    }
}

/// No block starts in the middle of another.
pub proof fn lemma_inside_not_start(s: Space, i: int, j: int)
    requires
        s.chain(),
        0 <= i < s.count(),
        1 <= j < s.words(i),
    ensures
        !s.is_start(s.bounds[i] + j),
        0 <= s.bounds[i] + j < s.used(),
        s.bounds[i] + j < s.mem.len(),
{
    assert forall|k: int| 0 <= k < s.count() implies #[trigger] s.bounds[k] != s.bounds[i] + j by {
        if k <= i {
            lemma_chain_ordered(s, k, i);
        } else {
            lemma_chain_ordered(s, i, k);
        }
    }
    lemma_chain_ordered(s, i + 1, s.count());
    lemma_chain_ordered(s, 0, i);
}

/// Two blocks with the same object address are the same block.
pub proof fn lemma_addr_unique(s: Space, i: int, j: int)
    requires
        s.chain(),
        0 <= i < s.count(),
        0 <= j < s.count(),
        s.addr(i) == s.addr(j),
    ensures
        i == j,
{
    if i < j {
        lemma_chain_ordered(s, i, j);
        assert(s.link(i));
    }
    if j < i {
        lemma_chain_ordered(s, j, i);
        assert(s.link(j));
    }
}

/// The address of block `i` is an object, and `index_of` finds its block.
pub proof fn lemma_index_of(s: Space, i: int)
    requires
        s.chain(),
        0 <= i < s.count(),
    ensures
        s.is_object(s.addr(i)),
        s.index_of(s.addr(i)) == i,
{
    let k = s.index_of(s.addr(i));
    lemma_addr_unique(s, i, k);
}

/// An object lies inside its region, past the block header, on a word
/// boundary.
pub proof fn lemma_object_placed(s: Space, a: int)
    requires
        s.chain(),
        s.is_object(a),
    ensures
        0 <= s.index_of(a) < s.count(),
        s.addr(s.index_of(a)) == a,
        s.base + 16 <= a,
        a + 8 <= s.base + 8 * s.used(),
        a < s.base + 8 * s.mem.len(),
        a > 0,
        a <= usize::MAX,
        (a - s.base) % 8 == 0,
        (a - s.base) / 8 - 2 == s.bounds[s.index_of(a)],
{
    let i = s.index_of(a);
    assert(s.link(i));
    lemma_chain_ordered(s, i, i + 1);
    lemma_chain_ordered(s, i + 1, s.count());
}

/// The blocks that are kept take no more words than are in use.
pub proof fn lemma_kept_bounded(s: Space, keep: Set<int>, n: int)
    requires
        s.chain(),
        0 <= n <= s.count(),
    ensures
        0 <= s.kept_words(keep, n) <= s.bounds[n],
    decreases n,
{
    if n > 0 {
        lemma_kept_bounded(s, keep, n - 1);
        assert(s.link(n - 1));
    }
}

/// Keeping one more object adds the words of its block.
pub proof fn lemma_kept_insert(s: Space, keep: Set<int>, i: int, n: int)
    requires
        s.chain(),
        0 <= i < s.count(),
        0 <= n <= s.count(),
        !keep.contains(s.addr(i)),
    ensures
        s.kept_words(keep.insert(s.addr(i)), n) == s.kept_words(keep, n) + if i < n {
            s.words(i)
        } else {
            0
        },
    decreases n,
{
    if n > 0 {
        lemma_kept_insert(s, keep, i, n - 1);
        if n - 1 != i {
            if s.addr(n - 1) == s.addr(i) {
                lemma_addr_unique(s, n - 1, i);
            }
        }
    }
}

/// Keeping nothing takes no words.
pub proof fn lemma_kept_none(s: Space, keep: Set<int>, n: int)
    requires
        forall|i: int| 0 <= i < n ==> !keep.contains(#[trigger] s.addr(i)),
    ensures
        s.kept_words(keep, n) == 0,
    decreases n,
{
    if n > 0 {
        lemma_kept_none(s, keep, n - 1);
        assert(!keep.contains(s.addr(n - 1)));
    }
}

/// Keeping every object takes all the words in use.
pub proof fn lemma_kept_all(s: Space, keep: Set<int>, n: int)
    requires
        s.chain(),
        0 <= n <= s.count(),
        forall|i: int| 0 <= i < n ==> keep.contains(#[trigger] s.addr(i)),
    ensures
        s.kept_words(keep, n) == s.bounds[n],
    decreases n,
{
    if n > 0 {
        lemma_kept_all(s, keep, n - 1);
        assert(keep.contains(s.addr(n - 1)));
    }
}

/// A word belongs to one block only, at one offset.
pub proof fn lemma_word_owner(s: Space, k: int, j: int, m: int, l: int)
    requires
        s.chain(),
        0 <= k < s.count(),
        0 <= m < s.count(),
        0 <= j < s.words(k),
        0 <= l < s.words(m),
        s.bounds[k] + j == s.bounds[m] + l,
    ensures
        k == m,
        j == l,
{
    if k < m {
        lemma_chain_ordered(s, k, m);
    }
    if m < k {
        lemma_chain_ordered(s, m, k);
    }
}

/// A root that is not null can be reached.
pub proof fn lemma_reach_root(s: Space, types: Seq<GcType>, roots: Seq<usize>, r: int)
    requires
        0 <= r < roots.len(),
        roots[r] != 0,
    ensures
        s.reachable(types, roots, roots[r] as int),
{
    let path = seq![roots[r] as int];
    assert(s.is_path(types, roots, path));
    assert(path[path.len() - 1] == roots[r] as int);
}

/// What an object that can be reached points to can be reached.
pub proof fn lemma_reach_step(s: Space, types: Seq<GcType>, roots: Seq<usize>, a: int, b: int)
    requires
        s.reachable(types, roots, a),
        s.edge(types, a, b),
    ensures
        s.reachable(types, roots, b),
{
    let p = choose|p: Seq<int>| #[trigger] s.is_path(types, roots, p) && p[p.len() - 1] == a;
    let path = p.push(b);
    assert forall|k: int| 0 <= k < path.len() - 1 implies #[trigger] s.edge(
        types,
        path[k],
        path[k + 1],
    ) by {
        if k < p.len() - 1 {
            assert(s.edge(types, p[k], p[k + 1]));
        }
    }
    assert(path[0] == p[0]);
    assert(s.is_path(types, roots, path));
    assert(path[path.len() - 1] == b);
}

/// Slot `x` of item `e` of an array is word `4 + e * n + x` of its block,
/// where `n` is the number of slots of one item.
pub proof fn lemma_item_slot(s: Space, types: Seq<GcType>, i: int, e: int, x: int)
    requires
        header_is_array(s.header(i)),
        0 <= e,
        0 <= x < s.type_of(types, i).slots(),
    ensures
        ({
            let n = s.type_of(types, i).slots();
            let first = s.bounds[i] + 4 + e * n;
            s.is_ptr(types, i, 4 + e * n + x) == (4 + e * n + x < s.words(i) && s.type_of(
                types,
                i,
            ).is_slot(s.mem.subrange(first, first + n), x))
        }),
{
    let n = s.type_of(types, i).slots();
    lemma_fundamental_div_mod_converse(e * n + x, n, e, x);
    assert(e * n >= 0) by (nonlinear_arith)
        requires
            e >= 0,
            n >= 0,
    ;
}

} // verus!
