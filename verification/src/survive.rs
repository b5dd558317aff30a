//! What follows for every collection from what `collected` says.

use crate::collect::{collected, copy_of, has_source, relocated, source, sources, word_moved};
use crate::space::{lemma_index_of, lemma_kept_all, lemma_kept_none, lemma_object_placed, Space};
use crate::types::GcType;
use vstd::prelude::*;

verus! {

/// An object that is moved is an object before and after, and its block
/// after is a copy of its block before.
pub proof fn lemma_moved_copy(
    types: Seq<GcType>,
    pre: Space,
    roots: Seq<usize>,
    post: Space,
    new_roots: Seq<usize>,
    fwd: Map<int, int>,
    a: int,
)
    requires
        collected(types, pre, roots, post, new_roots, fwd),
        fwd.contains_key(a),
    ensures
        pre.is_object(a),
        post.is_object(fwd[a]),
        post.chain(),
        copy_of(types, pre, pre.index_of(a), post, post.index_of(fwd[a]), fwd),
{
    reveal(collected);
}

/// A collection moves the objects that can be reached and no others; the
/// heap it leaves is in order and holds nothing but the copies, so it uses
/// the words that the reachable objects took.
pub proof fn lemma_exactly_live(
    types: Seq<GcType>,
    pre: Space,
    roots: Seq<usize>,
    post: Space,
    new_roots: Seq<usize>,
    fwd: Map<int, int>,
)
    requires
        collected(types, pre, roots, post, new_roots, fwd),
    ensures
        post.heap_ok(types),
        post.roots_ok(new_roots),
        fwd.dom() == pre.live(types, roots),
        post.used() == pre.live_words(types, roots),
        forall|k: int| 0 <= k < post.count() ==> has_source(fwd, #[trigger] post.addr(k)),
        forall|a: int, b: int|
            fwd.contains_key(a) && fwd.contains_key(b) && #[trigger] fwd[a] == #[trigger] fwd[b] ==> a
                == b,
{
    reveal(collected);
}

/// A collection lays the copies out in the order in which it meets the
/// objects: block `k` of the new heap is the copy of the `k`-th object met
/// when the roots are visited in order and then the pointer slots of the
/// copies, copy by copy and slot by slot.
pub proof fn lemma_copy_order(
    types: Seq<GcType>,
    pre: Space,
    roots: Seq<usize>,
    post: Space,
    new_roots: Seq<usize>,
    fwd: Map<int, int>,
    k: int,
)
    requires
        collected(types, pre, roots, post, new_roots, fwd),
        0 <= k < post.count(),
    ensures
        pre.copy_order(types, roots, sources(pre, post, fwd)),
        sources(pre, post, fwd).len() == post.count(),
        fwd.contains_key(source(fwd, post.addr(k))),
        fwd[source(fwd, post.addr(k))] == post.addr(k),
        pre.addr(sources(pre, post, fwd)[k]) == source(fwd, post.addr(k)),
{
    reveal(collected);
    assert(has_source(fwd, post.addr(k)));
    let a = source(fwd, post.addr(k));
    assert(pre.is_object(a));
}

/// Integrity across a collection: what a pointer slot of a surviving
/// object pointed to has survived too, the slot now holds its new address,
/// and there the object is found with its size, its header and its payload,
/// word for word but for the pointer slots, which are relocated in turn.
pub proof fn lemma_integrity(
    types: Seq<GcType>,
    pre: Space,
    roots: Seq<usize>,
    post: Space,
    new_roots: Seq<usize>,
    fwd: Map<int, int>,
    a: int,
    j: int,
)
    requires
        pre.chain(),
        collected(types, pre, roots, post, new_roots, fwd),
        fwd.contains_key(a),
        3 <= j < pre.words(pre.index_of(a)),
        pre.is_ptr(types, pre.index_of(a), j),
        pre.word(pre.index_of(a), j) != 0,
    ensures
        ({
            let b = pre.word(pre.index_of(a), j) as int;
            &&& fwd.contains_key(b)
            &&& post.is_ptr(types, post.index_of(fwd[a]), j)
            &&& post.word(post.index_of(fwd[a]), j) == fwd[b]
            &&& pre.is_object(b)
            &&& post.is_object(fwd[b])
            &&& copy_of(types, pre, pre.index_of(b), post, post.index_of(fwd[b]), fwd)
        }),
{
    reveal(collected);
    let i = pre.index_of(a);
    let k = post.index_of(fwd[a]);
    assert(copy_of(types, pre, i, post, k, fwd));
    assert(word_moved(types, pre, i, post, k, fwd, j));
    let b = pre.word(i, j) as int;
    assert(fwd.contains_key(b));
}

/// Root stability: a root that is not null stands, after the collection,
/// for the copy of the object it stood for before.
pub proof fn lemma_root_stable(
    types: Seq<GcType>,
    pre: Space,
    roots: Seq<usize>,
    post: Space,
    new_roots: Seq<usize>,
    fwd: Map<int, int>,
    r: int,
)
    requires
        collected(types, pre, roots, post, new_roots, fwd),
        0 <= r < roots.len(),
    ensures
        roots[r] == 0 ==> new_roots[r] == 0,
        roots[r] != 0 ==> {
            let a = roots[r] as int;
            &&& fwd.contains_key(a)
            &&& new_roots[r] == fwd[a]
            &&& post.is_object(new_roots[r] as int)
            &&& copy_of(types, pre, pre.index_of(a), post, post.index_of(fwd[a]), fwd)
        },
{
    reveal(collected);
    assert(new_roots[r] as int == relocated(fwd, roots[r] as int));
    if roots[r] != 0 {
        assert(fwd.contains_key(roots[r] as int));
    }
}

/// A collection hands out no address of the region it collected.
pub proof fn lemma_forward_only(
    types: Seq<GcType>,
    pre: Space,
    roots: Seq<usize>,
    post: Space,
    new_roots: Seq<usize>,
    fwd: Map<int, int>,
    a: int,
)
    requires
        collected(types, pre, roots, post, new_roots, fwd),
        post.is_object(a),
    ensures
        !pre.contains(a),
        !pre.is_object(a) || !pre.chain(),
{
    reveal(collected);
    lemma_object_placed(post, a);
    if pre.chain() && pre.is_object(a) {
        lemma_object_placed(pre, a);
    }
}

/// Without a root that is not null nothing can be reached, and a
/// collection leaves an empty heap.
pub proof fn lemma_no_roots(types: Seq<GcType>, s: Space, roots: Seq<usize>)
    requires
        forall|r: int| 0 <= r < roots.len() ==> #[trigger] roots[r] == 0,
    ensures
        s.live(types, roots) =~= Set::<int>::empty(),
        s.live_words(types, roots) == 0,
{
    assert forall|a: int| !s.reachable(types, roots, a) by {
        if s.reachable(types, roots, a) {
            let path = choose|path: Seq<int>| #[trigger]
                s.is_path(types, roots, path) && path[path.len() - 1] == a;
            let r = choose|r: int| 0 <= r < roots.len() && #[trigger] roots[r] == path[0];
            assert(roots[r] == 0);
        }
    }
    lemma_kept_none(s, s.live(types, roots), s.count());
}

/// What a surviving object pointed to has survived, and the copy points
/// to its copy.
proof fn lemma_edge_copied(
    types: Seq<GcType>,
    pre: Space,
    roots: Seq<usize>,
    post: Space,
    new_roots: Seq<usize>,
    fwd: Map<int, int>,
    b: int,
    a: int,
)
    requires
        pre.chain(),
        collected(types, pre, roots, post, new_roots, fwd),
        fwd.contains_key(b),
        pre.edge(types, b, a),
    ensures
        fwd.contains_key(a),
        post.edge(types, fwd[b], fwd[a]),
{
    reveal(collected);
    let (i, j) = choose|i: int, j: int|
        0 <= i < pre.count() && 0 <= j < pre.words(i) && pre.addr(i) == b && a != 0
            && #[trigger] pre.is_ptr(types, i, j) && pre.word(i, j) == a;
    lemma_index_of(pre, i);
    let k = post.index_of(fwd[b]);
    assert(copy_of(types, pre, i, post, k, fwd));
    assert(word_moved(types, pre, i, post, k, fwd, j));
    assert(post.is_object(fwd[b]));
    assert(post.is_object(fwd[a]));
    lemma_object_placed(post, fwd[b]);
    lemma_object_placed(post, fwd[a]);
}

/// The copy of what a root stood for can be reached from that root.
proof fn lemma_root_copied(
    types: Seq<GcType>,
    pre: Space,
    roots: Seq<usize>,
    post: Space,
    new_roots: Seq<usize>,
    fwd: Map<int, int>,
    r: int,
)
    requires
        collected(types, pre, roots, post, new_roots, fwd),
        0 <= r < roots.len(),
        roots[r] != 0,
    ensures
        fwd.contains_key(roots[r] as int),
        post.reachable(types, new_roots, fwd[roots[r] as int]),
{
    reveal(collected);
    assert(new_roots[r] as int == relocated(fwd, roots[r] as int));
    assert(fwd.contains_key(roots[r] as int));
    assert(post.is_object(fwd[roots[r] as int]));
    lemma_object_placed(post, fwd[roots[r] as int]);
    crate::space::lemma_reach_root(post, types, new_roots, r);
}

/// The copies of the objects on a path from a root form a path from a
/// root.
proof fn lemma_path_copied(
    types: Seq<GcType>,
    pre: Space,
    roots: Seq<usize>,
    post: Space,
    new_roots: Seq<usize>,
    fwd: Map<int, int>,
    path: Seq<int>,
    n: int,
)
    requires
        pre.chain(),
        collected(types, pre, roots, post, new_roots, fwd),
        pre.is_path(types, roots, path),
        1 <= n <= path.len(),
    ensures
        fwd.contains_key(path[n - 1]),
        post.reachable(types, new_roots, fwd[path[n - 1]]),
    decreases n,
{
    if n == 1 {
        let r = choose|r: int| 0 <= r < roots.len() && #[trigger] roots[r] == path[0];
        lemma_root_copied(types, pre, roots, post, new_roots, fwd, r);
    } else {
        lemma_path_copied(types, pre, roots, post, new_roots, fwd, path, n - 1);
        assert(pre.edge(types, path[n - 2], path[n - 2 + 1]));
        lemma_edge_copied(types, pre, roots, post, new_roots, fwd, path[n - 2], path[n - 1]);
        crate::space::lemma_reach_step(
            post,
            types,
            new_roots,
            fwd[path[n - 2]],
            fwd[path[n - 1]],
        );
    }
}

/// After a collection every object of the heap can be reached from a root.
pub proof fn lemma_all_live(
    types: Seq<GcType>,
    pre: Space,
    roots: Seq<usize>,
    post: Space,
    new_roots: Seq<usize>,
    fwd: Map<int, int>,
    k: int,
)
    requires
        pre.chain(),
        collected(types, pre, roots, post, new_roots, fwd),
        0 <= k < post.count(),
    ensures
        post.reachable(types, new_roots, post.addr(k)),
{
    reveal(collected);
    assert(has_source(fwd, post.addr(k)));
    let a = choose|a: int| #[trigger] fwd.contains_key(a) && fwd[a] == post.addr(k);
    assert(pre.live(types, roots).contains(a));
    let path = choose|path: Seq<int>| #[trigger]
        pre.is_path(types, roots, path) && path[path.len() - 1] == a;
    lemma_path_copied(types, pre, roots, post, new_roots, fwd, path, path.len() as int);
}

/// A second collection with nothing changed in between keeps every
/// object: the heap uses as many words after it as before it, every object
/// is moved, and so is every root that is not null.
pub proof fn lemma_collect_again(
    types: Seq<GcType>,
    pre: Space,
    roots: Seq<usize>,
    mid: Space,
    mid_roots: Seq<usize>,
    fwd: Map<int, int>,
    post: Space,
    new_roots: Seq<usize>,
    again: Map<int, int>,
)
    requires
        pre.chain(),
        collected(types, pre, roots, mid, mid_roots, fwd),
        collected(types, mid, mid_roots, post, new_roots, again),
    ensures
        post.used() == mid.used(),
        forall|k: int| 0 <= k < mid.count() ==> again.contains_key(#[trigger] mid.addr(k)),
{
    reveal(collected);
    assert forall|k: int| 0 <= k < mid.count() implies mid.live(types, mid_roots).contains(
        #[trigger] mid.addr(k),
    ) by {
        lemma_all_live(types, pre, roots, mid, mid_roots, fwd, k);
    }
    lemma_kept_all(mid, mid.live(types, mid_roots), mid.count());
}

} // verus!
