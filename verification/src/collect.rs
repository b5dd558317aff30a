//! What a collection does to a heap, stated over the heap before and the
//! heap after, and the proof that a finished scan has done it.

use crate::cycle::Cycle;
use crate::space::{lemma_addr_unique, lemma_chain_ordered, lemma_index_of, Space};
use crate::mutate::lemma_block_moved;
use crate::types::GcType;
use vstd::prelude::*;

verus! {

/// Where a collection that moves objects as `fwd` says takes the address
/// `v`: null stays null.
pub open spec fn relocated(fwd: Map<int, int>, v: int) -> int {
    if v == 0 {
        0
    } else {
        fwd[v]
    }
}

/// Word `j` of block `k` of `post` is word `j` of block `i` of `pre`,
/// moved: it is a pointer slot in both or in neither; a pointer slot holds
/// the new address of what it pointed to, any other word is unchanged.
pub open spec fn word_moved(
    types: Seq<GcType>,
    pre: Space,
    i: int,
    post: Space,
    k: int,
    fwd: Map<int, int>,
    j: int,
) -> bool {
    &&& post.is_ptr(types, k, j) == pre.is_ptr(types, i, j)
    &&& post.word(k, j) as int == if pre.is_ptr(types, i, j) {
        relocated(fwd, pre.word(i, j) as int)
    } else {
        pre.word(i, j) as int
    }
    &&& pre.is_ptr(types, i, j) && pre.word(i, j) != 0 ==> fwd.contains_key(pre.word(i, j) as int)
}

/// Block `k` of `post` is block `i` of `pre`, moved: same size, same
/// header, every word of the payload moved.
pub open spec fn copy_of(
    types: Seq<GcType>,
    pre: Space,
    i: int,
    post: Space,
    k: int,
    fwd: Map<int, int>,
) -> bool {
    &&& post.words(k) == pre.words(i)
    &&& post.header(k) == pre.header(i)
    &&& forall|j: int|
        3 <= j < pre.words(i) ==> #[trigger] word_moved(types, pre, i, post, k, fwd, j)
}

/// Some object has been moved to the address `b`.
pub open spec fn has_source(fwd: Map<int, int>, b: int) -> bool {
    exists|a: int| #[trigger] fwd.contains_key(a) && fwd[a] == b
}

/// The address of the object that has been moved to the address `b`.
pub open spec fn source(fwd: Map<int, int>, b: int) -> int {
    choose|a: int| #[trigger] fwd.contains_key(a) && fwd[a] == b
}

/// For each block of `post`, in order, the block of `pre` that it is a
/// copy of.
pub open spec fn sources(pre: Space, post: Space, fwd: Map<int, int>) -> Seq<int> {
    Seq::new(post.count() as nat, |k: int| pre.index_of(source(fwd, post.addr(k))))
}

/// The two regions share no address.
pub open spec fn apart(pre: Space, post: Space) -> bool {
    pre.base + 8 * pre.mem.len() <= post.base || post.base + 8 * post.mem.len() <= pre.base
}

/// `post` with the roots `new_roots` is what a collection makes of `pre`
/// with the roots `roots`, moving objects as `fwd` says.
///
/// The objects moved are those that could be reached from a root.  Each
/// has one copy, no two share a copy, and the new heap holds nothing but
/// these copies, so it uses as many words as the reachable objects took.
/// Each root and each pointer slot of a copy holds the new address of what
/// it pointed to.  The new heap is in the state in which the mutator
/// expects it, in a region of its own.
#[verifier::opaque]
pub open spec fn collected(
    types: Seq<GcType>,
    pre: Space,
    roots: Seq<usize>,
    post: Space,
    new_roots: Seq<usize>,
    fwd: Map<int, int>,
) -> bool {
    &&& post.heap_ok(types)
    &&& post.roots_ok(new_roots)
    &&& fwd.dom() == pre.live(types, roots)
    &&& forall|a: int| #[trigger]
        fwd.contains_key(a) ==> pre.is_object(a) && post.is_object(fwd[a]) && copy_of(
            types,
            pre,
            pre.index_of(a),
            post,
            post.index_of(fwd[a]),
            fwd,
        )
    &&& forall|a: int, b: int|
        fwd.contains_key(a) && fwd.contains_key(b) && #[trigger] fwd[a] == #[trigger] fwd[b] ==> a
            == b
    &&& forall|k: int| 0 <= k < post.count() ==> has_source(fwd, #[trigger] post.addr(k))
    &&& new_roots.len() == roots.len()
    &&& forall|r: int|
        0 <= r < roots.len() ==> #[trigger] new_roots[r] as int == relocated(fwd, roots[r] as int)
    &&& forall|r: int|
        0 <= r < roots.len() && #[trigger] roots[r] != 0 ==> fwd.contains_key(roots[r] as int)
    &&& post.used() == pre.live_words(types, roots)
    &&& pre.copy_order(types, roots, sources(pre, post, fwd))
    &&& apart(pre, post)
}

impl Cycle {
    /// Where the collection has moved each object so far: old address to
    /// new address.
    pub open(crate) spec fn fwd(&self) -> Map<int, int> {
        Map::new(
            |a: int| self.trace@.home.contains_key(a),
            |a: int| self.dst().addr(self.trace@.home[a]),
        )
    }

    /// The scan has caught up with the write head.
    pub open(crate) spec fn done(&self) -> bool {
        &&& self.inv()
        &&& self.trace@.mark == self.dst().used()
    }
}

/// A copy that has been scanned has its pointer slots where its source
/// has them.
proof fn lemma_same_ptrs(c: Cycle, k: int, j: int)
    requires
        c.done(),
        0 <= k < c.dst().count(),
    ensures
        c.dst().is_ptr(c.types(), k, j) == c.pre().is_ptr(c.types(), c.trace@.src[k], j),
        c.dst().header(k) == c.pre().header(c.trace@.src[k]),
        c.dst().words(k) == c.pre().words(c.trace@.src[k]),
        c.dst().shaped(c.types(), k),
{
    let i = c.trace@.src[k];
    let pre = c.pre();
    let post = c.dst();
    let types = c.types();
    assert(c.copy_ok(k));
    assert(post.link(k));
    assert(pre.link(i));
    assert(pre.shaped(types, i));
    lemma_chain_ordered(post, k + 1, post.count());
    assert forall|x: int| 0 <= x < pre.words(i) && !pre.is_ptr(types, i, x) implies #[trigger] post.word(
        k,
        x,
    ) == pre.word(i, x) by {
        if x >= 2 {
            assert(c.word_copied(k, x));
        }
    }
    lemma_block_moved(types, pre, i, post, k, j);
}

/// When the scan is done, everything on a path from a root has been moved.
proof fn lemma_path_moved(c: Cycle, path: Seq<int>, n: int)
    requires
        c.done(),
        forall|r: int|
            0 <= r < c.roots().len() && #[trigger] c.roots()[r] != 0 ==> c.home().contains_key(
                c.roots()[r] as int,
            ),
        c.pre().is_path(c.types(), c.roots(), path),
        0 <= n < path.len(),
    ensures
        c.home().contains_key(path[n]),
    decreases n,
{
    let pre = c.pre();
    if n == 0 {
        let r = choose|r: int| 0 <= r < c.roots().len() && #[trigger] c.roots()[r] == path[0];
        assert(c.roots()[r] != 0);
    } else {
        lemma_path_moved(c, path, n - 1);
        let a = path[n - 1];
        let b = path[n];
        assert(pre.edge(c.types(), path[n - 1], path[n - 1 + 1]));
        let (i, j) = choose|i: int, j: int|
            0 <= i < pre.count() && 0 <= j < pre.words(i) && pre.addr(i) == a && b != 0
                && #[trigger] pre.is_ptr(c.types(), i, j) && pre.word(i, j) == b;
        let k = c.home()[a];
        assert(c.home_ok(a));
        assert(c.copy_ok(k));
        lemma_addr_unique(pre, i, c.trace@.src[k]);
        assert(c.dst().link(k));
        lemma_chain_ordered(c.dst(), k + 1, c.dst().count());
        assert(c.word_copied(k, j));
    }
}

/// The blocks of the to-space are copies of the blocks that the collection
/// has recorded as their sources.
proof fn lemma_sources(c: Cycle)
    requires
        c.done(),
    ensures
        sources(c.pre(), c.dst(), c.fwd()) == c.sources(),
{
    let pre = c.pre();
    let post = c.dst();
    let fwd = c.fwd();
    let found = sources(pre, post, fwd);
    assert forall|k: int| 0 <= k < post.count() implies found[k] == c.sources()[k] by {
        assert(c.copy_ok(k));
        let a = pre.addr(c.sources()[k]);
        assert(fwd.contains_key(a) && fwd[a] == post.addr(k));
        let b = source(fwd, post.addr(k));
        assert(fwd.contains_key(b) && fwd[b] == post.addr(k));
        assert(c.home_ok(b));
        lemma_addr_unique(post, c.home()[a], c.home()[b]);
        lemma_index_of(pre, c.sources()[k]);
    }
    assert(found =~= c.sources());
}

/// A collection whose scan is done, and which has rewritten the roots, has
/// collected the heap it began with.
pub(crate) proof fn lemma_collected(c: Cycle, new_roots: Seq<usize>)
    requires
        c.done(),
        apart(c.pre(), c.dst()),
        new_roots.len() == c.roots().len(),
        forall|r: int|
            0 <= r < c.roots().len() ==> #[trigger] new_roots[r] as int == c.tr(c.roots()[r] as u64),
        forall|r: int|
            0 <= r < c.roots().len() && #[trigger] c.roots()[r] != 0 ==> c.home().contains_key(
                c.roots()[r] as int,
            ),
        c.follows(c.block_visits(c.dst().count())),
    ensures
        collected(c.types(), c.pre(), c.roots(), c.dst(), new_roots, c.fwd()),
{
    reveal(collected);
    lemma_sources(c);
    let pre = c.pre();
    let post = c.dst();
    let types = c.types();
    let roots = c.roots();
    let fwd = c.fwd();
    let home = c.home();
    assert forall|k: int| 0 <= k < post.count() implies post.forward(k) == 0
        && #[trigger] post.shaped(types, k) by {
        assert(c.copy_ok(k));
        lemma_same_ptrs(c, k, 0);
    }
    assert forall|k: int, j: int|
        0 <= k < post.count() && 0 <= j < post.words(k) implies #[trigger] post.word_ok(
        types,
        k,
        j,
    ) by {
        lemma_same_ptrs(c, k, j);
        if post.is_ptr(types, k, j) {
            assert(post.link(k));
            lemma_chain_ordered(post, k + 1, post.count());
            assert(c.word_copied(k, j));
            let v = pre.word(c.trace@.src[k], j);
            if v != 0 {
                assert(c.home_ok(v as int));
                assert(post.addr(home[v as int]) == post.word(k, j));
            }
        }
    }
    assert forall|r: int| 0 <= r < new_roots.len() implies #[trigger] new_roots[r] == 0
        || post.is_object(new_roots[r] as int) by {
        if roots[r] != 0 {
            assert(c.home_ok(roots[r] as int));
            assert(post.addr(home[roots[r] as int]) == new_roots[r]);
        }
    }
    assert forall|a: int| fwd.dom().contains(a) == pre.live(types, roots).contains(a) by {
        if home.contains_key(a) {
            assert(c.home_ok(a));
        }
        if pre.reachable(types, roots, a) {
            let path = choose|path: Seq<int>| #[trigger]
                pre.is_path(types, roots, path) && path[path.len() - 1] == a;
            lemma_path_moved(c, path, path.len() - 1);
        }
    }
    assert(fwd.dom() =~= pre.live(types, roots));
    assert(home.dom() =~= fwd.dom());
    assert forall|a: int| #[trigger] fwd.contains_key(a) implies pre.is_object(a)
        && post.is_object(fwd[a]) && copy_of(
        types,
        pre,
        pre.index_of(a),
        post,
        post.index_of(fwd[a]),
        fwd,
    ) by {
        let k = home[a];
        let i = c.trace@.src[k];
        assert(c.home_ok(a));
        assert(c.copy_ok(k));
        lemma_index_of(pre, i);
        lemma_index_of(post, k);
        lemma_same_ptrs(c, k, 0);
        assert(post.link(k));
        lemma_chain_ordered(post, k + 1, post.count());
        assert forall|j: int| 3 <= j < pre.words(i) implies #[trigger] word_moved(
            types,
            pre,
            i,
            post,
            k,
            fwd,
            j,
        ) by {
            lemma_same_ptrs(c, k, j);
            assert(c.word_copied(k, j));
        }
    }
    assert forall|a: int, b: int|
        fwd.contains_key(a) && fwd.contains_key(b) && #[trigger] fwd[a] == #[trigger] fwd[b] implies a
        == b by {
        assert(c.home_ok(a));
        assert(c.home_ok(b));
        lemma_addr_unique(post, home[a], home[b]);
    }
    assert forall|k: int| 0 <= k < post.count() implies has_source(
        fwd,
        #[trigger] post.addr(k),
    ) by {
        assert(c.copy_ok(k));
        let a = pre.addr(c.trace@.src[k]);
        assert(fwd.contains_key(a) && fwd[a] == post.addr(k));
    }
    assert forall|r: int| 0 <= r < roots.len() implies #[trigger] new_roots[r] as int
        == relocated(fwd, roots[r] as int) by {
        assert(new_roots[r] as int == c.tr(roots[r] as u64));
    }
    assert forall|k: int| 0 <= k < post.count() implies #[trigger] post.forward(k) == 0 by {
        assert(c.copy_ok(k));
    }
}

} // verus!
