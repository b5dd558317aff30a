use rjs_gc::walker::callback;
use rjs_gc::{GcHeap, GcOpts, GcPtr, GcType, GcTypeId, GcTypeLayout, GcTypeWalk, Ratio};

const BLOCK_A: usize = 40;

struct Types {
    id: GcTypeId,
    ref_id: GcTypeId,
    callback_id: GcTypeId,
}

fn callback_walker(payload: &[u64], index: u32) -> GcTypeWalk {
    match index {
        0 => GcTypeWalk::Skip,
        1 => {
            if payload[0] & 0xff != 0 {
                GcTypeWalk::Pointer
            } else {
                GcTypeWalk::Skip
            }
        }
        _ => GcTypeWalk::End,
    }
}

fn create_heap_with(opts: GcOpts) -> (GcHeap, Types) {
    let mut heap = GcHeap::new(opts);
    let ref_bitmap = GcTypeLayout::new_bitmap(16, vec![0, 8]);
    let id = heap.types().add(GcType::new(12, GcTypeLayout::Leaf));
    let ref_id = heap.types().add(GcType::new(16, ref_bitmap));
    let callback_id = heap.types().add(GcType::new(16, callback(callback_walker)));
    (heap, Types { id, ref_id, callback_id })
}

fn create_heap() -> (GcHeap, Types) {
    create_heap_with(GcOpts::default())
}

fn alloc_struct(heap: &mut GcHeap, types: &Types, a: i32, b: i32, c: i32) -> GcPtr {
    let ptr = heap.allocate(types.id);
    heap.set(ptr, 0, (a as u32 as u64) | ((b as u32 as u64) << 32));
    heap.set(ptr, 1, c as u32 as u64);
    ptr
}

fn fields(heap: &GcHeap, ptr: GcPtr) -> (i32, i32, i32) {
    let low = heap.get(ptr, 0);
    let high = heap.get(ptr, 1);
    (low as u32 as i32, (low >> 32) as u32 as i32, high as u32 as i32)
}

fn sum_of_pair(heap: &GcHeap, first: u64, second: u64) -> i32 {
    let a = fields(heap, GcPtr::from_usize(first as usize));
    let b = fields(heap, GcPtr::from_usize(second as usize));
    a.0 + a.1 + a.2 + b.0 + b.1 + b.2
}

#[test]
fn simple_integrity() {
    let (mut heap, types) = create_heap();
    let root = heap.alloc_root(types.ref_id);
    let a = alloc_struct(&mut heap, &types, 1, 2, 3);
    let item = heap.root_ptr(root);
    heap.set(item, 0, a.usize() as u64);
    let b = alloc_struct(&mut heap, &types, 4, 5, 6);
    let item = heap.root_ptr(root);
    heap.set(item, 1, b.usize() as u64);
    let before = heap.root_ptr(root);

    heap.gc();

    let item = heap.root_ptr(root);
    assert_ne!(item, before);
    let first = GcPtr::from_usize(heap.get(item, 0) as usize);
    let second = GcPtr::from_usize(heap.get(item, 1) as usize);
    assert_eq!(fields(&heap, first), (1, 2, 3));
    assert_eq!(fields(&heap, second), (4, 5, 6));
    assert_eq!(fields(&heap, first).2, 3);
    assert_eq!(fields(&heap, second).0, 4);
    assert_eq!(sum_of_pair(&heap, heap.get(item, 0), heap.get(item, 1)), 21);
    assert_eq!(heap.mem_used(), 40 + 2 * BLOCK_A);

    heap.gc();

    let item = heap.root_ptr(root);
    assert_eq!(sum_of_pair(&heap, heap.get(item, 0), heap.get(item, 1)), 21);
}

#[test]
fn array_trace() {
    let (mut heap, types) = create_heap();
    let array = heap.alloc_array_handle(types.ref_id, 10);
    assert_eq!(array.len(&heap), 10);
    for i in 0..10 {
        let a = alloc_struct(&mut heap, &types, 1, 2, 3);
        let items = array.as_ptr(&heap).to_ptr();
        heap.set(items, 2 * i, a.usize() as u64);
        let b = alloc_struct(&mut heap, &types, 4, 5, 6);
        let items = array.as_ptr(&heap).to_ptr();
        heap.set(items, 2 * i + 1, b.usize() as u64);
    }
    let before: Vec<u64> = heap.as_slice(array.as_ptr(&heap).to_ptr()).to_vec();

    heap.gc();

    assert_eq!(array.len(&heap), 10);
    let items = array.as_ptr(&heap).to_ptr();
    assert_eq!(heap.payload_words(items), 20);
    for i in 0..10 {
        let first = heap.get(items, 2 * i);
        let second = heap.get(items, 2 * i + 1);
        assert_ne!(first, before[2 * i]);
        assert_ne!(second, before[2 * i + 1]);
        assert_eq!(sum_of_pair(&heap, first, second), 21);
    }
    assert_eq!(heap.mem_used(), (16 + 8 + 8 + 160) + 20 * BLOCK_A);
}

#[test]
fn callback_layout() {
    let (mut heap, types) = create_heap();
    let scope = heap.new_local_scope();
    let stale: u64 = 0xdead_beef_0000;

    let plain = heap.alloc_local(types.callback_id);
    let at = heap.local_ptr(&plain);
    heap.set(at, 0, 0);
    heap.set(at, 1, stale);

    let linked = heap.alloc_local(types.callback_id);
    let at = heap.local_ptr(&linked);
    heap.set(at, 0, 1);
    let child = alloc_struct(&mut heap, &types, 1, 2, 3);
    let at = heap.local_ptr(&linked);
    heap.set(at, 1, child.usize() as u64);

    heap.gc();

    let at = heap.local_ptr(&plain);
    assert_eq!(heap.get(at, 0), 0);
    assert_eq!(heap.get(at, 1), stale);
    let at = heap.local_ptr(&linked);
    assert_eq!(heap.get(at, 0), 1);
    let moved = heap.get(at, 1);
    assert_ne!(moved, child.usize() as u64);
    let (a, b, c) = fields(&heap, GcPtr::from_usize(moved as usize));
    assert_eq!(1 + 2 + 3, a + b + c);
    assert_eq!(heap.mem_used(), 2 * 40 + BLOCK_A);

    heap.close_local_scope(scope);
    heap.gc();
    assert_eq!(heap.mem_used(), 0);
}

#[test]
fn sizing() {
    let opts = GcOpts {
        initial_heap: 64 * 1024,
        slow_growth_factor: Ratio::new(3, 2),
        fast_growth_factor: Ratio::new(3, 1),
    };
    let (mut heap, types) = create_heap_with(opts);
    assert_eq!(heap.mem_allocated(), 65536);
    let mut live = 0usize;
    let mut collections = 0;
    let mut capacities = Vec::new();
    let mut allocated = heap.mem_allocated();
    while collections < 3 {
        heap.alloc_root(types.id);
        live += 1;
        if heap.mem_allocated() != allocated {
            allocated = heap.mem_allocated();
            collections += 1;
            capacities.push(allocated);
            assert_eq!(heap.mem_used(), live * BLOCK_A);
        }
    }
    assert_eq!(capacities, vec![102400 + 65536, 311296 + 102400, 937984 + 311296]);
    assert_eq!(live, 1639 + 2560 - 1638 + 7782 - 2560);
    assert_eq!(heap.mem_used(), live * BLOCK_A);
    let first = capacities[0] - 65536;
    let third = capacities[2] - (capacities[1] - 102400);
    assert!(third >= 3 * first);
}

#[test]
fn local_scope() {
    let (mut heap, types) = create_heap();
    let kept = heap.alloc_root(types.ref_id);
    let child = alloc_struct(&mut heap, &types, 7, 8, 9);
    let at = heap.root_ptr(kept);
    heap.set(at, 0, child.usize() as u64);
    {
        let scope = heap.new_local_scope();
        for _ in 0..400000 {
            let local = heap.alloc_local(types.ref_id);
            let a = alloc_struct(&mut heap, &types, 1, 2, 3);
            let at = heap.local_ptr(&local);
            heap.set(at, 0, a.usize() as u64);
            let b = alloc_struct(&mut heap, &types, 4, 5, 6);
            let at = heap.local_ptr(&local);
            heap.set(at, 1, b.usize() as u64);
        }
        assert!(heap.mem_used() >= 400000 * 40);
        heap.close_local_scope(scope);
    }
    heap.gc();
    assert_eq!(heap.mem_used(), 40 + BLOCK_A);
    let at = heap.root_ptr(kept);
    assert_eq!(fields(&heap, GcPtr::from_usize(heap.get(at, 0) as usize)), (7, 8, 9));
}

#[test]
fn forward_only() {
    let (mut heap, types) = create_heap();
    let mut roots = Vec::new();
    let mut old = Vec::new();
    for i in 0..100 {
        let root = heap.alloc_root(types.id);
        let at = heap.root_ptr(root);
        heap.set(at, 0, i);
        old.push(at.usize());
        roots.push(root);
    }
    let low = old[0] - 16;
    let high = low + 16 * 1024 * 1024;
    heap.gc();
    for (i, root) in roots.iter().enumerate() {
        let at = heap.root_ptr(*root);
        assert!(at.usize() < low || at.usize() >= high);
        assert!(!old.contains(&at.usize()));
        assert_eq!(heap.get(at, 0), i as u64);
    }
}
