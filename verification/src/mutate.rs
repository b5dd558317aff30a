//! What the mutator may do to a heap between collections, and why the heap
//! stays in the state that a collection expects.

use crate::space::{lemma_chain_ordered, lemma_item_slot, lemma_word_owner, Space};
use crate::types::{
    header_is_array, header_type, lemma_span, lemma_stable_slots, GcType, GcTypeLayout,
};
use vstd::arithmetic::div_mod::{lemma_div_pos_is_pos, lemma_fundamental_div_mod, lemma_mod_bound};
use vstd::prelude::*;

verus! {

/// Every type is well formed.
pub open spec fn types_ok(types: Seq<GcType>) -> bool {
    forall|i: int| 0 <= i < types.len() ==> (#[trigger] types[i]).wf()
}

/// `more` holds the types of `types` under the same ids, and maybe others
/// after them.
pub open spec fn extends(types: Seq<GcType>, more: Seq<GcType>) -> bool {
    &&& types.len() <= more.len()
    &&& forall|i: int| 0 <= i < types.len() ==> #[trigger] more[i] == types[i]
}

/// Blocks `i` of `a` and `k` of `b` hold the same words, but for the
/// pointer slots of the former.
pub open spec fn same_but_pointers(types: Seq<GcType>, a: Space, i: int, b: Space, k: int) -> bool {
    &&& a.words(i) == b.words(k)
    &&& forall|j: int|
        0 <= j < a.words(i) && !a.is_ptr(types, i, j) ==> #[trigger] b.word(k, j) == a.word(i, j)
}

/// Blocks `i` of `a` and `k` of `b` hold the same words.
pub open spec fn same_words(a: Space, i: int, b: Space, k: int) -> bool {
    &&& a.words(i) == b.words(k)
    &&& forall|j: int| 0 <= j < a.words(i) ==> #[trigger] b.word(k, j) == a.word(i, j)
}

/// One payload of a block that differs from another at most in its
/// pointer slots has its pointer slots where the other has them.
proof fn lemma_payload_moved(
    types: Seq<GcType>,
    a: Space,
    i: int,
    b: Space,
    k: int,
    off: int,
    x: int,
)
    requires
        types_ok(types),
        0 <= header_type(a.header(i)) < types.len(),
        a.link(i),
        b.link(k),
        same_but_pointers(types, a, i, b, k),
        3 <= off,
        off + a.type_of(types, i).slots() <= a.words(i),
        forall|j: int|
            off <= j < off + a.type_of(types, i).slots() ==> (#[trigger] a.is_ptr(types, i, j)
                <==> a.type_of(types, i).is_slot(
                a.mem.subrange(a.bounds[i] + off, a.bounds[i] + off + a.type_of(types, i).slots()),
                j - off,
            )),
    ensures
        ({
            let t = a.type_of(types, i);
            let n = t.slots();
            let p = a.mem.subrange(a.bounds[i] + off, a.bounds[i] + off + n);
            let q = b.mem.subrange(b.bounds[k] + off, b.bounds[k] + off + n);
            t.is_slot(p, x) == t.is_slot(q, x)
        }),
{
    let t = a.type_of(types, i);
    let n = t.slots();
    let p = a.mem.subrange(a.bounds[i] + off, a.bounds[i] + off + n);
    let q = b.mem.subrange(b.bounds[k] + off, b.bounds[k] + off + n);
    lemma_layout_stable(t);
    assert forall|y: int| 0 <= y < n && !t.layout().is_slot(n, p, y) implies p[y] == q[y] by {
        assert(!a.is_ptr(types, i, off + y));
        assert(b.word(k, off + y) == a.word(i, off + y));
    }
    assert(t.layout().same_outside_pointers(n, p, q));
    lemma_stable_slots(t.layout(), n, p, q, x);
}

/// A block that differs from another at most in the pointer slots of the
/// other has the same header, the same shape, and the same pointer slots.
pub proof fn lemma_block_moved(types: Seq<GcType>, a: Space, i: int, b: Space, k: int, j: int)
    requires
        types_ok(types),
        a.chain(),
        b.chain(),
        0 <= i < a.count(),
        0 <= k < b.count(),
        a.shaped(types, i),
        same_but_pointers(types, a, i, b, k),
    ensures
        b.shaped(types, k),
        b.header(k) == a.header(i),
        b.is_ptr(types, k, j) == a.is_ptr(types, i, j),
{
    assert(a.link(i));
    assert(b.link(k));
    assert(b.word(k, 2) == a.word(i, 2));
    let t = a.type_of(types, i);
    let n = t.slots();
    if header_is_array(a.header(i)) {
        assert(b.word(k, 3) == a.word(i, 3));
    }
    if n > 0 && 3 <= j < a.words(i) {
        if header_is_array(a.header(i)) {
            let len = a.word(i, 3) as int;
            lemma_span(t, len);
            if j >= 4 {
                let e = (j - 4) / n;
                let x = (j - 4) % n;
                lemma_fundamental_div_mod(j - 4, n);
                lemma_mod_bound(j - 4, n);
                lemma_div_pos_is_pos(j - 4, n);
                assert(e * n == n * e) by (nonlinear_arith);
                assert(e < len) by (nonlinear_arith)
                    requires
                        e * n + x < n * len,
                        0 <= x,
                        n > 0,
                ;
                assert((e + 1) * n <= n * len && (e + 1) * n == e * n + n && e * n >= 0)
                    by (nonlinear_arith)
                    requires
                        0 <= e < len,
                        n > 0,
                ;
                let off = 4 + e * n;
                assert forall|y: int| off <= y < off + n implies (#[trigger] a.is_ptr(types, i, y)
                    <==> t.is_slot(
                    a.mem.subrange(a.bounds[i] + off, a.bounds[i] + off + n),
                    y - off,
                )) by {
                    lemma_item_slot(a, types, i, e, y - off);
                }
                lemma_payload_moved(types, a, i, b, k, off, x);
            }
        } else {
            lemma_span(t, 1);
            lemma_payload_moved(types, a, i, b, k, 3, j - 3);
        }
    }
}

/// Two blocks that hold the same words have the same shape and the same
/// pointer slots.
pub proof fn lemma_block_kept(types: Seq<GcType>, a: Space, i: int, b: Space, k: int, j: int)
    requires
        types_ok(types),
        a.chain(),
        b.chain(),
        0 <= i < a.count(),
        0 <= k < b.count(),
        a.shaped(types, i),
        same_words(a, i, b, k),
    ensures
        b.shaped(types, k),
        b.header(k) == a.header(i),
        b.is_ptr(types, k, j) == a.is_ptr(types, i, j),
{
    assert forall|x: int| 0 <= x < a.words(i) && !a.is_ptr(types, i, x) implies #[trigger] b.word(
        k,
        x,
    ) == a.word(i, x) by {}
    lemma_block_moved(types, a, i, b, k, j);
}

/// A type that is well formed has a stable layout: a bitmap does not look
/// at the payload, and a callback is required to be stable.
pub proof fn lemma_layout_stable(ty: GcType)
    requires
        ty.wf(),
    ensures
        ty.layout().stable(ty.slots()),
{
    let layout = ty.layout();
    match layout {
        GcTypeLayout::Callback(_) => {},
        _ => {
            assert forall|p: Seq<u64>, q: Seq<u64>, i: u32| #[trigger]
                layout.same_outside_pointers(ty.slots(), p, q) implies #[trigger] layout.answer(
                p,
                i,
            ) == layout.answer(q, i) by {}
        },
    }
}

/// Registering more types leaves a heap in order.
pub proof fn lemma_types_grow(types: Seq<GcType>, more: Seq<GcType>, s: Space)
    requires
        s.heap_ok(types),
        extends(types, more),
    ensures
        s.heap_ok(more),
{
    assert forall|i: int| 0 <= i < s.count() implies s.forward(i) == 0 && #[trigger] s.shaped(
        more,
        i,
    ) by {
        assert(s.shaped(types, i));
    }
    assert forall|i: int| 0 <= i < s.count() implies #[trigger] s.forward(i) == 0 by {
        assert(s.shaped(types, i));
    }
    assert forall|i: int, j: int| 0 <= i < s.count() && 0 <= j < s.words(i) implies #[trigger] s.word_ok(
        more,
        i,
        j,
    ) by {
        assert(s.shaped(types, i));
        assert(s.word_ok(types, i, j));
        assert(s.type_of(more, i) == s.type_of(types, i));
    }
}

/// `new` is `old` with one more block at its end: a block of `n` words
/// with the object header `header`, the length `len` if it is an array,
/// and a payload of zeros.  Nothing else has changed.
pub open spec fn fresh(old: Space, new: Space, n: int, header: u64, len: int) -> bool {
    let s = old.used();
    &&& n >= 3
    &&& new.base == old.base
    &&& new.mem.len() == old.mem.len()
    &&& new.bounds == old.bounds.push(s + n)
    &&& s + n <= new.mem.len()
    &&& forall|w: int| 0 <= w < s ==> #[trigger] new.mem[w] == old.mem[w]
    &&& new.mem[s] == 0
    &&& new.mem[s + 1] == 8 * n
    &&& new.mem[s + 2] == header
    &&& header_is_array(header) ==> n >= 4 && new.mem[s + 3] == len
    &&& forall|w: int|
        s + 3 <= w < s + n && !(header_is_array(header) && w == s + 3) ==> #[trigger] new.mem[w]
            == 0
}

/// A fresh object of the right size leaves the heap in order: the new
/// block has the shape of its type and all its pointer slots are null.
pub proof fn lemma_fresh_ok(
    types: Seq<GcType>,
    old: Space,
    new: Space,
    roots: Seq<usize>,
    n: int,
    header: u64,
    len: int,
)
    requires
        types_ok(types),
        old.heap_ok(types),
        old.roots_ok(roots),
        fresh(old, new, n, header, len),
        0 <= header_type(header) < types.len(),
        n == if header_is_array(header) {
            4 + types[header_type(header)].span(len)
        } else {
            3 + types[header_type(header)].span(1)
        },
        0 <= len <= u64::MAX,
    ensures
        new.heap_ok(types),
        new.roots_ok(roots),
        new.count() == old.count() + 1,
        new.is_object(old.base + 8 * (old.used() + 2)),
        forall|a: int| old.is_object(a) ==> new.is_object(a),
{
    let c = old.count();
    lemma_chain_ordered(old, 0, c);
    assert forall|i: int| 0 <= i <= c implies #[trigger] new.bounds[i] == old.bounds[i] && old.bounds[i]
        <= old.used() by {
        lemma_chain_ordered(old, i, c);
    }
    assert forall|i: int| 0 <= i < new.count() implies #[trigger] new.link(i) by {
        if i < c {
            assert(old.link(i));
            lemma_chain_ordered(old, i + 1, c);
        }
    }
    assert(new.chain());
    assert forall|a: int| old.is_object(a) implies new.is_object(a) by {
        let i = old.index_of(a);
        assert(new.addr(i) == a);
    }
    assert(new.addr(c) == old.base + 8 * (old.used() + 2));
    assert forall|i: int| 0 <= i < c implies same_words(old, i, new, i) by {
        lemma_chain_ordered(old, i + 1, c);
        assert(old.link(i));
    }
    assert forall|i: int| 0 <= i < new.count() implies new.forward(i) == 0
        && #[trigger] new.shaped(types, i) by {
        if i < c {
            assert(old.shaped(types, i));
            assert(same_words(old, i, new, i));
            assert(new.word(i, 0) == old.word(i, 0));
            lemma_block_kept(types, old, i, new, i, 0);
        }
    }
    assert forall|i: int| 0 <= i < new.count() implies #[trigger] new.forward(i) == 0 by {
        assert(new.shaped(types, i));
    }
    assert forall|i: int, j: int|
        0 <= i < new.count() && 0 <= j < new.words(i) implies #[trigger] new.word_ok(
        types,
        i,
        j,
    ) by {
        if i < c {
            assert(old.shaped(types, i));
            assert(same_words(old, i, new, i));
            lemma_block_kept(types, old, i, new, i, j);
            assert(old.word_ok(types, i, j));
            assert(new.word(i, j) == old.word(i, j));
        } else {
            if new.is_ptr(types, i, j) {
                assert(j >= 3);
                assert(new.word(i, j) == 0);
            }
        }
    }
    assert forall|r: int| 0 <= r < roots.len() implies #[trigger] roots[r] == 0 || new.is_object(
        roots[r] as int,
    ) by {
        if roots[r] != 0 {
            assert(old.is_object(roots[r] as int));
        }
    }
}

/// Writing a word of a payload leaves the blocks where they are.
pub proof fn lemma_write_chain(old: Space, new: Space, i: int, j: int, v: u64)
    requires
        old.chain(),
        0 <= i < old.count(),
        2 <= j < old.words(i),
        new == (Space { mem: old.mem.update(old.bounds[i] + j, v), ..old }),
    ensures
        new.chain(),
        forall|a: int| old.is_object(a) == new.is_object(a),
        forall|m: int| 0 <= m < old.count() && m != i ==> #[trigger] same_words(old, m, new, m),
        forall|x: int| 0 <= x < old.words(i) && x != j ==> #[trigger] new.word(i, x) == old.word(i, x),
        new.word(i, j) == v,
{
    let c = old.count();
    assert(old.link(i));
    lemma_chain_ordered(old, i + 1, c);
    let w = old.bounds[i] + j;
    assert forall|m: int| 0 <= m < new.count() implies #[trigger] new.link(m) by {
        assert(old.link(m));
        if old.bounds[m] + 1 == w {
            lemma_word_owner(old, m, 1, i, j);
        }
    }
    assert forall|a: int| old.is_object(a) == new.is_object(a) by {
        if old.is_object(a) {
            assert(new.addr(old.index_of(a)) == a);
        }
        if new.is_object(a) {
            assert(old.addr(new.index_of(a)) == a);
        }
    }
    assert forall|m: int| 0 <= m < c && m != i implies #[trigger] same_words(old, m, new, m) by {
        assert(old.link(m));
        assert forall|x: int| 0 <= x < old.words(m) implies #[trigger] new.word(m, x) == old.word(
            m,
            x,
        ) by {
            if old.bounds[m] + x == w {
                lemma_word_owner(old, m, x, i, j);
            }
        }
    }
}

/// A layout that is no callback finds the same pointer slots in every
/// payload.
pub proof fn lemma_fixed_layout(layout: GcTypeLayout, n: int, p: Seq<u64>, q: Seq<u64>, x: int)
    requires
        !(layout is Callback),
    ensures
        layout.is_slot(n, p, x) == layout.is_slot(n, q, x),
{
    if 0 <= x <= u32::MAX {
        lemma_fixed_ended(layout, p, q, x);
    }
}

proof fn lemma_fixed_ended(layout: GcTypeLayout, p: Seq<u64>, q: Seq<u64>, x: int)
    requires
        !(layout is Callback),
        0 <= x,
    ensures
        layout.ended_before(p, x) == layout.ended_before(q, x),
    decreases x,
{
    if x > 0 {
        lemma_fixed_ended(layout, p, q, x - 1);
    }
}

/// Storing null or the address of an object in a pointer slot leaves the
/// object in order: its pointer slots stay where they are, and each holds
/// null or the address of an object.
pub proof fn lemma_pointer_write(
    types: Seq<GcType>,
    old: Space,
    new: Space,
    i: int,
    j: int,
    v: u64,
    x: int,
)
    requires
        types_ok(types),
        old.heap_ok(types),
        0 <= i < old.count(),
        3 <= j < old.words(i),
        old.is_ptr(types, i, j),
        v == 0 || old.is_object(v as int),
        new == (Space { mem: old.mem.update(old.bounds[i] + j, v), ..old }),
        0 <= x < old.words(i),
    ensures
        new.word_ok(types, i, x),
{
    lemma_write_chain(old, new, i, j, v);
    assert(old.shaped(types, i));
    lemma_block_moved(types, old, i, new, i, x);
    assert(old.word_ok(types, i, x));
}

/// Storing anything in a word that is no pointer slot leaves the object in
/// order, if the layout of its type is no callback.
pub proof fn lemma_data_write(
    types: Seq<GcType>,
    old: Space,
    new: Space,
    i: int,
    j: int,
    v: u64,
    x: int,
)
    requires
        types_ok(types),
        old.heap_ok(types),
        0 <= i < old.count(),
        3 <= j < old.words(i),
        header_is_array(old.header(i)) ==> 4 <= j,
        !old.is_ptr(types, i, j),
        !(old.type_of(types, i).layout() is Callback),
        new == (Space { mem: old.mem.update(old.bounds[i] + j, v), ..old }),
        0 <= x < old.words(i),
    ensures
        new.word_ok(types, i, x),
{
    lemma_write_chain(old, new, i, j, v);
    assert(old.shaped(types, i));
    assert(old.word_ok(types, i, x));
    let t = old.type_of(types, i);
    let n = t.slots();
    assert(new.word(i, 2) == old.word(i, 2));
    assert(new.header(i) == old.header(i));
    if x != j {
        assert(new.word(i, x) == old.word(i, x));
    }
    if n > 0 {
        if header_is_array(old.header(i)) {
            let first = old.bounds[i] + 4 + ((x - 4) / n) * n;
            lemma_fixed_layout(
                t.layout(),
                n,
                old.mem.subrange(first, first + n),
                new.mem.subrange(first, first + n),
                (x - 4) % n,
            );
        } else {
            let first = old.bounds[i] + 3;
            lemma_fixed_layout(
                t.layout(),
                n,
                old.mem.subrange(first, first + n),
                new.mem.subrange(first, first + n),
                x - 3,
            );
        }
    }
}

/// The word of block `i` at which the payload begins that holds word `j`
/// of the block: the one payload of a single object, or the item of an
/// array.
pub open spec fn item_start(types: Seq<GcType>, s: Space, i: int, j: int) -> int {
    let n = s.type_of(types, i).slots();
    if header_is_array(s.header(i)) {
        4 + ((j - 4) / n) * n
    } else {
        3
    }
}

/// Each pointer slot of `item`, a payload of type `t`, holds null or the
/// address of an object of `s`.
pub open spec fn item_ok(s: Space, t: GcType, item: Seq<u64>) -> bool {
    forall|y: int|
        0 <= y < t.slots() && #[trigger] t.is_slot(item, y) ==> item[y] == 0 || s.is_object(
            item[y] as int,
        )
}

/// The payload that holds a word of a block lies inside the block.
pub proof fn lemma_item_bounds(types: Seq<GcType>, s: Space, i: int, j: int)
    requires
        types_ok(types),
        s.heap_ok(types),
        0 <= i < s.count(),
        s.type_of(types, i).slots() > 0,
        3 <= j < s.words(i),
        header_is_array(s.header(i)) ==> 4 <= j,
    ensures
        3 <= item_start(types, s, i, j) <= j < item_start(types, s, i, j) + s.type_of(
            types,
            i,
        ).slots(),
        0 <= s.bounds[i],
        s.bounds[i] + item_start(types, s, i, j) + s.type_of(types, i).slots() <= s.bounds[i + 1],
        s.bounds[i + 1] <= s.mem.len(),
{
    let t = s.type_of(types, i);
    let n = t.slots();
    assert(s.link(i));
    assert(s.shaped(types, i));
    assert(t.wf());
    if header_is_array(s.header(i)) {
        let len = s.word(i, 3) as int;
        let e = (j - 4) / n;
        let yj = (j - 4) % n;
        lemma_span(t, len);
        lemma_fundamental_div_mod(j - 4, n);
        lemma_mod_bound(j - 4, n);
        lemma_div_pos_is_pos(j - 4, n);
        assert(e * n == n * e) by (nonlinear_arith);
        assert(e < len) by (nonlinear_arith)
            requires
                e * n + yj < n * len,
                0 <= yj,
                n > 0,
        ;
        assert((e + 1) * n <= n * len && (e + 1) * n == e * n + n && e * n >= 0)
            by (nonlinear_arith)
            requires
                0 <= e < len,
                n > 0,
        ;
    } else {
        lemma_span(t, 1);
    }
}

/// A store in a payload leaves the object in order exactly if the payload
/// stored to is in order afterwards; the other items of an array are as
/// they were.
pub proof fn lemma_store_item(
    types: Seq<GcType>,
    old: Space,
    new: Space,
    i: int,
    j: int,
    v: u64,
    item: Seq<u64>,
)
    requires
        types_ok(types),
        old.heap_ok(types),
        0 <= i < old.count(),
        old.type_of(types, i).slots() > 0,
        3 <= j < old.words(i),
        header_is_array(old.header(i)) ==> 4 <= j,
        new == (Space { mem: old.mem.update(old.bounds[i] + j, v), ..old }),
        item == new.mem.subrange(
            old.bounds[i] + item_start(types, old, i, j),
            old.bounds[i] + item_start(types, old, i, j) + old.type_of(types, i).slots(),
        ),
    ensures
        (forall|x: int| 0 <= x < old.words(i) ==> #[trigger] new.word_ok(types, i, x)) <==> item_ok(
            old,
            old.type_of(types, i),
            item,
        ),
{
    let t = old.type_of(types, i);
    let n = t.slots();
    let s = old.bounds[i];
    let arr = header_is_array(old.header(i));
    let st = item_start(types, old, i, j);
    let first = s + st;
    lemma_write_chain(old, new, i, j, v);
    assert(old.link(i));
    assert(old.shaped(types, i));
    assert(t.wf());
    assert(new.word(i, 2) == old.word(i, 2));
    assert(new.header(i) == old.header(i));
    assert(new.type_of(types, i) == t);
    let len = old.word(i, 3) as int;
    let e = (j - 4) / n;
    let yj = (j - 4) % n;
    lemma_item_bounds(types, old, i, j);
    if arr {
        assert(new.word(i, 3) == old.word(i, 3));
        lemma_span(t, len);
        lemma_fundamental_div_mod(j - 4, n);
        lemma_mod_bound(j - 4, n);
        lemma_div_pos_is_pos(j - 4, n);
        assert(e * n == n * e) by (nonlinear_arith);
    } else {
        lemma_span(t, 1);
    }
    if item_ok(old, t, item) {
        assert forall|x: int| 0 <= x < old.words(i) implies #[trigger] new.word_ok(
            types,
            i,
            x,
        ) by {
            if new.is_ptr(types, i, x) {
                if arr {
                    let e2 = (x - 4) / n;
                    let y = (x - 4) % n;
                    lemma_fundamental_div_mod(x - 4, n);
                    lemma_mod_bound(x - 4, n);
                    lemma_div_pos_is_pos(x - 4, n);
                    assert(e2 * n == n * e2) by (nonlinear_arith);
                    let f2 = s + 4 + e2 * n;
                    if e2 == e {
                        assert(item[y] == new.mem[first + y]);
                    } else {
                        assert(e2 < len) by (nonlinear_arith)
                            requires
                                e2 * n + y < n * len,
                                0 <= y,
                                n > 0,
                        ;
                        assert((e2 + 1) * n <= n * len && (e2 + 1) * n == e2 * n + n && e2 * n
                            >= 0) by (nonlinear_arith)
                            requires
                                0 <= e2 < len,
                                n > 0,
                        ;
                        assert(e * n + yj < e2 * n || e * n + yj >= e2 * n + n)
                            by (nonlinear_arith)
                            requires
                                e != e2,
                                0 <= yj < n,
                        ;
                        assert(new.mem.subrange(f2, f2 + n) =~= old.mem.subrange(f2, f2 + n));
                        assert(old.is_ptr(types, i, x));
                        assert(old.word_ok(types, i, x));
                    }
                } else {
                    assert(item[x - 3] == new.mem[s + x]);
                }
            }
        }
    }
    if forall|x: int| 0 <= x < old.words(i) ==> #[trigger] new.word_ok(types, i, x) {
        assert forall|y: int| 0 <= y < n && #[trigger] t.is_slot(item, y) implies item[y] == 0
            || old.is_object(item[y] as int) by {
            let x = st + y;
            if arr {
                lemma_item_slot(new, types, i, e, y);
            }
            assert(new.is_ptr(types, i, x));
            assert(new.word_ok(types, i, x));
            assert(new.word(i, x) == item[y]);
        }
    }
}

/// Writing a word of a payload leaves the heap in order if the object
/// written to is in order afterwards: each of its pointer slots holds null
/// or the address of an object.
pub proof fn lemma_write_ok(
    types: Seq<GcType>,
    old: Space,
    new: Space,
    roots: Seq<usize>,
    i: int,
    j: int,
    v: u64,
)
    requires
        types_ok(types),
        old.heap_ok(types),
        old.roots_ok(roots),
        0 <= i < old.count(),
        3 <= j < old.words(i),
        header_is_array(old.header(i)) ==> 4 <= j,
        new == (Space { mem: old.mem.update(old.bounds[i] + j, v), ..old }),
        forall|x: int| 0 <= x < old.words(i) ==> #[trigger] new.word_ok(types, i, x),
    ensures
        new.heap_ok(types),
        new.roots_ok(roots),
        forall|a: int| old.is_object(a) == new.is_object(a),
{
    lemma_write_chain(old, new, i, j, v);
    assert forall|m: int| 0 <= m < new.count() implies new.forward(m) == 0
        && #[trigger] new.shaped(types, m) by {
        assert(old.shaped(types, m));
        assert(old.link(m));
        if m != i {
            assert(same_words(old, m, new, m));
            assert(new.word(m, 0) == old.word(m, 0));
            lemma_block_kept(types, old, m, new, m, 0);
        } else {
            assert(new.word(i, 0) == old.word(i, 0));
            assert(new.word(i, 2) == old.word(i, 2));
            if header_is_array(old.header(i)) {
                assert(new.word(i, 3) == old.word(i, 3));
            }
        }
    }
    assert forall|m: int| 0 <= m < new.count() implies #[trigger] new.forward(m) == 0 by {
        assert(new.shaped(types, m));
    }
    assert forall|m: int, x: int|
        0 <= m < new.count() && 0 <= x < new.words(m) implies #[trigger] new.word_ok(
        types,
        m,
        x,
    ) by {
        if m != i {
            assert(old.shaped(types, m));
            assert(same_words(old, m, new, m));
            lemma_block_kept(types, old, m, new, m, x);
            assert(old.word_ok(types, m, x));
            assert(new.word(m, x) == old.word(m, x));
        }
    }
    assert forall|r: int| 0 <= r < roots.len() implies #[trigger] roots[r] == 0 || new.is_object(
        roots[r] as int,
    ) by {
        if roots[r] != 0 {
            assert(old.is_object(roots[r] as int));
        }
    }
}

} // verus!
