use rjs_gc::handles::GcHandles;
use rjs_gc::walker::callback;
use rjs_gc::{
    GcError, GcHeap, GcOpts, GcPtr, GcRoot, GcType, GcTypeId, GcTypeLayout, GcTypeWalk, Ratio,
};

fn small_heap() -> GcHeap {
    GcHeap::new(GcOpts {
        initial_heap: 64 * 1024,
        slow_growth_factor: Ratio::new(3, 2),
        fast_growth_factor: Ratio::new(3, 1),
    })
}

fn leaf(heap: &mut GcHeap) -> GcTypeId {
    heap.types().add(GcType::new(12, GcTypeLayout::Leaf))
}

fn pair(heap: &mut GcHeap) -> GcTypeId {
    heap.types().add(GcType::new(16, GcTypeLayout::new_bitmap(16, vec![0, 8])))
}

fn never(_payload: &[u64], _index: u32) -> GcTypeWalk {
    GcTypeWalk::End
}

#[test]
fn collect_twice_changes_nothing() {
    let mut heap = small_heap();
    let a = leaf(&mut heap);
    let b = pair(&mut heap);
    let root = heap.alloc_root(b);
    let child = heap.allocate(a);
    heap.set_data(child, 0, 77);
    let at = heap.root_ptr(root);
    heap.set_ptr(at, 0, child);
    heap.allocate(a);
    heap.allocate(a);

    heap.gc();
    let used = heap.mem_used();
    assert_eq!(used, 40 + 40);
    let at = heap.root_ptr(root);
    let first = heap.get_ptr(at, 0);
    assert_eq!(heap.get(first, 0), 77);
    assert_eq!(heap.get_ptr(at, 1), GcPtr::from_usize(0));

    heap.gc();
    assert_eq!(heap.mem_used(), used);
    let at = heap.root_ptr(root);
    let again = heap.get_ptr(at, 0);
    assert_eq!(heap.get(again, 0), 77);
    assert_eq!(heap.get_ptr(at, 1), GcPtr::from_usize(0));
}

#[test]
fn dropping_all_roots_empties_the_heap() {
    let mut heap = small_heap();
    let a = leaf(&mut heap);
    let mut roots = Vec::new();
    for _ in 0..500 {
        roots.push(heap.alloc_handle(a));
    }
    assert_eq!(heap.mem_used(), 500 * 40);
    for root in roots {
        root.release(&mut heap);
    }
    assert_eq!(heap.mem_used(), 500 * 40);
    heap.gc();
    assert_eq!(heap.mem_used(), 0);
}

#[test]
fn full_bitmap_traces() {
    let mut heap = small_heap();
    let a = leaf(&mut heap);
    let offsets: Vec<usize> = (0..64).map(|i| i * 8).collect();
    let layout = GcTypeLayout::new_bitmap(512, offsets);
    assert!(matches!(layout, GcTypeLayout::Bitmap(u64::MAX)));
    let wide = heap.types().add(GcType::new(512, layout));
    let root = heap.alloc_root(wide);
    let mut before = Vec::new();
    for i in 0..64 {
        let child = heap.allocate(a);
        heap.set_data(child, 1, 1000 + i as u64);
        let at = heap.root_ptr(root);
        heap.set_ptr(at, i, child);
        before.push(child);
    }
    heap.allocate(a);
    heap.gc();
    assert_eq!(heap.mem_used(), (16 + 8 + 512) + 64 * 40);
    let at = heap.root_ptr(root);
    assert_eq!(heap.payload_words(at), 64);
    for i in 0..64 {
        let child = heap.get_ptr(at, i);
        assert_ne!(child, before[i]);
        assert_eq!(heap.get(child, 1), 1000 + i as u64);
    }
}

#[test]
fn empty_array_survives() {
    let mut heap = small_heap();
    let b = pair(&mut heap);
    let array = heap.alloc_array_handle(b, 0);
    assert_eq!(heap.mem_used(), 16 + 8 + 8);
    assert_eq!(array.len(&heap), 0);
    let before = array.as_ptr(&heap);
    heap.gc();
    assert_eq!(heap.mem_used(), 16 + 8 + 8);
    assert_eq!(array.len(&heap), 0);
    assert_ne!(array.as_ptr(&heap), before);
    assert_eq!(heap.payload_words(array.as_ptr(&heap).to_ptr()), 0);
}

#[test]
fn callback_that_ends_at_once_is_a_leaf() {
    let mut heap = small_heap();
    let a = leaf(&mut heap);
    let ended = heap.types().add(GcType::new(16, callback(never)));
    let plain = heap.types().add(GcType::new(16, GcTypeLayout::Leaf));
    let victim = heap.allocate(a);
    let first = heap.alloc_root(ended);
    let second = heap.alloc_root(plain);
    for root in [first, second] {
        let at = heap.root_ptr(root);
        heap.set(at, 0, victim.usize() as u64);
        heap.set(at, 1, 0xffff_0000_ffff);
    }
    assert_eq!(GcType::new(16, callback(never)).pointer_slots(&[1, 2]), Vec::<usize>::new());
    assert_eq!(GcType::new(16, GcTypeLayout::Leaf).pointer_slots(&[1, 2]), Vec::<usize>::new());
    heap.gc();
    assert_eq!(heap.mem_used(), 2 * 40);
    for root in [first, second] {
        let at = heap.root_ptr(root);
        assert_eq!(heap.get(at, 0), victim.usize() as u64);
        assert_eq!(heap.get(at, 1), 0xffff_0000_ffff);
    }
}

#[test]
fn handles_are_recycled_last_freed_first() {
    let mut table = GcHandles::new();
    let a = table.add(0x1000);
    let b = table.add(0x2000);
    let c = table.add(0x3000);
    assert_eq!((a.u32(), b.u32(), c.u32()), (0, 1, 2));
    table.remove(a);
    table.remove(c);
    let d = table.add(0x4000);
    let e = table.add(0x5000);
    let f = table.add(0x6000);
    assert_eq!((d.u32(), e.u32(), f.u32()), (2, 0, 3));
    assert_eq!(table.get(b), 0x2000);
    assert_eq!(table.get(d), 0x4000);
    assert_eq!(table.get(e), 0x5000);
    assert_eq!(table.get(f), 0x6000);
}

#[test]
fn live_handles_never_share_an_index() {
    let mut table = GcHandles::new();
    let mut live: Vec<(GcRoot, usize)> = Vec::new();
    let mut seed: u32 = 12345;
    for step in 0..2000u32 {
        seed = seed.wrapping_mul(1103515245).wrapping_add(12345);
        if live.is_empty() || seed % 3 != 0 {
            let ptr = 0x1000 + 8 * step as usize;
            let h = table.add(ptr);
            assert!(live.iter().all(|(other, _)| other.u32() != h.u32()));
            live.push((h, ptr));
        } else {
            let at = (seed / 7) as usize % live.len();
            let (h, _) = live.swap_remove(at);
            table.remove(h);
        }
        for (h, ptr) in live.iter() {
            assert_eq!(table.get(*h), *ptr);
        }
    }
    assert!(live.len() > 100);
}

#[test]
fn allocation_bumps_the_offset() {
    let mut heap = small_heap();
    let a = leaf(&mut heap);
    let b = pair(&mut heap);
    let mut used = 0;
    let first = heap.allocate(a);
    used += 16 + 8 + 16;
    assert_eq!(heap.mem_used(), used);
    let second = heap.allocate(b);
    used += 16 + 8 + 16;
    assert_eq!(heap.mem_used(), used);
    assert_eq!(second.usize(), first.usize() + 40);
    let third = heap.alloc_array(a, 3);
    used += 16 + 8 + 8 + 40;
    assert_eq!(heap.mem_used(), used);
    assert_eq!(third.usize(), second.usize() + 40);
    assert_eq!(heap.len(third), 3);
    assert_eq!(heap.payload_words(third.to_ptr()), 5);
    assert!(heap.has_items(third.to_ptr()));
    assert!(!heap.has_items(second));
    assert_eq!(heap.type_id_of(third.to_ptr()), a);
    assert_eq!(heap.type_id_of(second), b);
    heap.set_data(first, 0, 1);
    heap.add_root(first);
    assert_eq!(heap.mem_used(), used);
}

#[test]
fn an_object_with_two_roots_is_copied_once() {
    let mut heap = small_heap();
    let a = leaf(&mut heap);
    let first = heap.alloc_handle(a);
    let second = first.duplicate(&mut heap);
    assert_ne!(first.as_root(), second.as_root());
    assert_eq!(first.as_ptr(&heap), second.as_ptr(&heap));
    let before = first.as_ptr(&heap);
    heap.gc();
    assert_eq!(heap.mem_used(), 40);
    assert_eq!(first.as_ptr(&heap), second.as_ptr(&heap));
    assert_ne!(first.as_ptr(&heap), before);
    first.release(&mut heap);
    heap.gc();
    assert_eq!(heap.mem_used(), 40);
    second.release(&mut heap);
    heap.gc();
    assert_eq!(heap.mem_used(), 0);
}

#[test]
fn a_cycle_of_objects_survives_and_dies_together() {
    let mut heap = small_heap();
    let b = pair(&mut heap);
    let root = heap.alloc_handle(b);
    let other = heap.allocate(b);
    let at = root.as_ptr(&heap);
    heap.set_ptr(at, 0, other);
    heap.set_ptr(other, 1, at);
    heap.set_ptr(other, 0, other);
    heap.gc();
    assert_eq!(heap.mem_used(), 2 * 40);
    let at = root.as_ptr(&heap);
    let moved = heap.get_ptr(at, 0);
    assert_eq!(heap.get_ptr(moved, 1), at);
    assert_eq!(heap.get_ptr(moved, 0), moved);
    root.release(&mut heap);
    heap.gc();
    assert_eq!(heap.mem_used(), 0);
}

#[test]
fn a_request_that_cannot_fit_is_out_of_memory() {
    let mut heap = small_heap();
    let a = leaf(&mut heap);
    let b = pair(&mut heap);
    let kept = heap.alloc_root(a);
    assert_eq!(heap.make_room_for_array(a, usize::MAX / 8), Err(GcError::OutOfMemory));
    assert_eq!(heap.make_room_for_array(b, usize::MAX / 16), Err(GcError::OutOfMemory));
    assert_eq!(heap.make_room_for_array(b, 15 << 56), Err(GcError::NoToSpace));
    assert_eq!(heap.make_room((15 << 60) + 16), Err(GcError::NoToSpace));
    assert_eq!(heap.mem_used(), 40);
    assert_eq!(heap.mem_allocated(), 65536);
    let at = heap.root_ptr(kept);
    assert_eq!(heap.get(at, 0), 0);
    // the failure is remembered, so not even a collection can be had
    assert!(!heap.can_gc());
    assert_eq!(heap.make_room_for(a), Ok(()));
    assert_eq!(heap.mem_used(), 40);
}

#[test]
fn room_is_made_by_collecting_once() {
    let mut heap = small_heap();
    let a = leaf(&mut heap);
    let kept = heap.alloc_root(a);
    assert_eq!(heap.make_room_for(a), Ok(()));
    assert_eq!(heap.make_room(8), Ok(()));
    assert_eq!((heap.mem_used(), heap.mem_allocated()), (40, 65536));
    for _ in 0..1637 {
        heap.allocate(a);
    }
    assert_eq!(heap.mem_used(), 65520);
    assert!(heap.can_gc());
    assert_eq!(heap.make_room_for(a), Ok(()));
    // (65520 + 24) * 3/2 in pages, and the one object with a root is kept
    assert_eq!((heap.mem_used(), heap.mem_allocated()), (40, 102400 + 65536));
    let ptr = heap.allocate(a);
    assert_eq!(ptr.usize(), heap.root_ptr(kept).usize() + 40);
    assert_eq!((heap.mem_used(), heap.mem_allocated()), (80, 102400 + 65536));
}

#[test]
fn settings_are_checked() {
    let good = Ratio::new(3, 2);
    let one = Ratio::new(2, 2);
    let undefined = Ratio::new(1, 0);
    let startable = |initial_heap, slow_growth_factor, fast_growth_factor| {
        GcOpts { initial_heap, slow_growth_factor, fast_growth_factor }.is_startable()
    };
    assert!(!startable(4096, good, one));
    assert!(!startable(4096, one, one));
    assert!(!startable(4096, one, good));
    assert!(!startable(4096, undefined, good));
    assert!(!startable(0, good, good));
    assert!(!startable(usize::MAX, good, good));
    // the largest size whose pages, after the page at 0, still have addresses
    assert!(!startable(usize::MAX - 8190, good, good));
    assert!(startable(usize::MAX - 8191, good, good));
    assert!(startable(1, good, good));
    let heap = GcHeap::new(GcOpts {
        initial_heap: 1,
        slow_growth_factor: good,
        fast_growth_factor: Ratio::new(2, 1),
    });
    assert_eq!((heap.mem_used(), heap.mem_allocated()), (0, 4096));
}

#[test]
fn local_scopes_nest() {
    let mut heap = small_heap();
    let a = leaf(&mut heap);
    let outer = heap.new_local_scope();
    let first = heap.alloc_local(a);
    let inner = heap.new_local_scope();
    heap.alloc_local(a);
    heap.alloc_local(a);
    heap.gc();
    assert_eq!(heap.mem_used(), 3 * 40);
    let last = heap.alloc_local(a);
    assert!(heap.local_in_scope(&last));
    heap.close_local_scope(inner);
    assert!(!heap.local_in_scope(&last));
    assert!(heap.local_in_scope(&first));
    heap.gc();
    assert_eq!(heap.mem_used(), 40);
    let at = heap.local_ptr(&first);
    heap.set_data(at, 0, 5);
    heap.gc();
    assert_eq!(heap.get(heap.local_ptr(&first), 0), 5);
    heap.close_local_scope(outer);
    heap.gc();
    assert_eq!(heap.mem_used(), 0);
}

#[test]
fn copies_are_laid_out_in_the_order_of_first_meeting() {
    let mut heap = small_heap();
    let b = pair(&mut heap);
    // allocated in the order e, d, c, second, first; met in the order
    // first, second (roots), c, d (slots of first), e (slot of second)
    let e = heap.allocate(b);
    let d = heap.allocate(b);
    let c = heap.allocate(b);
    let second = heap.allocate(b);
    let first = heap.allocate(b);
    heap.allocate(b);
    heap.set_ptr(first, 0, c);
    heap.set_ptr(first, 1, d);
    heap.set_ptr(second, 0, d);
    heap.set_ptr(second, 1, e);
    heap.set_ptr(e, 0, first);
    let root_first = heap.add_root(first);
    let unused = heap.add_root(c);
    let root_second = heap.add_root(second);
    heap.remove_root(unused);
    let stack = heap.add_local(e);

    heap.gc();

    let base = 4096 + 65536 + 16;
    assert_eq!(heap.mem_used(), 5 * 40);
    let first = heap.root_ptr(root_first);
    let second = heap.root_ptr(root_second);
    assert_eq!(first.usize(), base);
    assert_eq!(second.usize(), base + 40);
    assert_eq!(heap.local_ptr(&stack).usize(), base + 2 * 40);
    assert_eq!(heap.get_ptr(first, 0).usize(), base + 3 * 40);
    assert_eq!(heap.get_ptr(first, 1).usize(), base + 4 * 40);
    assert_eq!(heap.get_ptr(second, 0).usize(), base + 4 * 40);
    assert_eq!(heap.get_ptr(second, 1).usize(), base + 2 * 40);
    assert_eq!(heap.get_ptr(heap.local_ptr(&stack), 0), first);

    // 200 of 240 bytes were kept, more than four fifths: the next to-space
    // is three times the initial size and lies after the regions so far
    assert_eq!(heap.mem_allocated(), 98304 + 65536);
    heap.gc();
    assert_eq!(heap.mem_allocated(), 196608 + 98304);
    assert_eq!(heap.root_ptr(root_first).usize(), 4096 + 65536 + 98304 + 16);
    assert_eq!(heap.mem_used(), 5 * 40);
}

#[test]
fn a_freed_entry_stays_free_across_a_collection() {
    let mut heap = small_heap();
    let a = leaf(&mut heap);
    let first = heap.alloc_root(a);
    let second = heap.alloc_root(a);
    let third = heap.alloc_root(a);
    assert!(heap.root_in_use(second));
    heap.remove_root(second);
    assert!(!heap.root_in_use(second));
    assert!(heap.root_in_use(third));
    assert!(!heap.roots_full());
    heap.gc();
    assert_eq!(heap.mem_used(), 2 * 40);
    assert_ne!(heap.root_ptr(first), heap.root_ptr(third));
    let again = heap.alloc_root(a);
    assert_eq!(again.u32(), second.u32());
    assert_eq!(heap.alloc_root(a).u32(), 3);
}

#[test]
fn items_of_an_array_are_found_by_index() {
    let mut heap = small_heap();
    let a = leaf(&mut heap);
    let wide = heap.types().add(GcType::new(24, GcTypeLayout::Bitmap(0b100)));
    let array = heap.alloc_array_handle(wide, 5);
    for i in 0..5 {
        let child = heap.allocate(a);
        heap.set_data(child, 0, 10 * i as u64);
        let at = array.index(&heap, i);
        assert_eq!(at, 3 * i);
        let items = array.as_ptr(&heap);
        assert_eq!(heap.item(items, i), 3 * i);
        heap.set_data(items.to_ptr(), at, i as u64);
        heap.set_ptr(items.to_ptr(), at + 2, child);
    }
    heap.gc();
    assert_eq!(heap.mem_used(), (16 + 8 + 8 + 5 * 24) + 5 * 40);
    let items = array.as_ptr(&heap);
    assert_eq!(items.len(&heap), 5);
    assert_eq!(items.as_slice(&heap).len(), 15);
    for i in 0..5 {
        let at = array.index(&heap, i);
        assert_eq!(heap.get(items.to_ptr(), at), i as u64);
        assert_eq!(heap.get(items.to_ptr(), at + 1), 0);
        let child = heap.get_ptr(items.to_ptr(), at + 2);
        assert_eq!(heap.get(child, 0), 10 * i as u64);
    }
    let other = array.duplicate(&mut heap);
    array.release(&mut heap);
    heap.gc();
    assert_eq!(other.len(&heap), 5);
    other.release(&mut heap);
    heap.gc();
    assert_eq!(heap.mem_used(), 0);
}

#[test]
fn a_walker_can_be_made_from_a_function() {
    // word 0 is a mask that says which of the words after it are pointers
    let walker = rjs_gc::walker::FnWalker::new(|payload: &[u64], index: u32| {
        if index as usize >= payload.len() {
            GcTypeWalk::End
        } else if index > 0 && (payload[0] >> index) & 1 == 1 {
            GcTypeWalk::Pointer
        } else {
            GcTypeWalk::Skip
        }
    });
    let ty = GcType::new(32, GcTypeLayout::Callback(Box::new(walker)));
    assert_eq!(ty.pointer_slots(&[0b0110, 0, 0, 0]), vec![1, 2]);
    assert_eq!(ty.pointer_slots(&[0b1001, 7, 7, 7]), vec![3]);
    assert_eq!(ty.pointer_slots(&[0, 7, 7, 7]), Vec::<usize>::new());
}

#[test]
fn a_collection_that_leaves_too_little_room_is_out_of_memory() {
    let mut heap = small_heap();
    let a = leaf(&mut heap);
    for i in 0..1000 {
        if i % 10 == 0 {
            heap.alloc_root(a);
        } else {
            heap.allocate(a);
        }
    }
    heap.gc();
    assert_eq!(heap.mem_used(), 100 * 40);
    assert_eq!(heap.mem_allocated(), 98304 + 65536);
    // a tenth was kept, so the collector expects a tenth of what is asked
    // for to do: (4000 + 1200016) / 10, times 3/2, in pages
    assert_eq!(heap.make_room_for_array(a, 100_000), Err(GcError::OutOfMemory));
    assert_eq!(heap.mem_used(), 100 * 40);
    assert_eq!(heap.mem_allocated(), 184320 + 98304);
    // now everything was kept, and the collector triples
    assert_eq!(heap.make_room_for_array(a, 100_000), Ok(()));
    assert_eq!(heap.mem_used(), 100 * 40);
    assert_eq!(heap.mem_allocated(), 3612672 + 184320);
    let array = heap.alloc_array(a, 100_000);
    assert_eq!(heap.len(array), 100_000);
    assert_eq!(heap.mem_used(), 100 * 40 + 16 + 16 + 1_200_000);
    assert_eq!(heap.mem_allocated(), 3612672 + 184320);
}

#[test]
fn addresses_of_objects_are_told_apart() {
    let mut heap = small_heap();
    let a = leaf(&mut heap);
    assert!(!heap.holds(GcPtr::from_usize(4096 + 16)));
    let first = heap.allocate(a);
    let second = heap.allocate(a);
    assert_eq!((first.usize(), second.usize()), (4096 + 16, 4096 + 56));
    assert!(heap.holds(first));
    assert!(heap.holds(second));
    assert!(!heap.holds(GcPtr::from_usize(0)));
    assert!(!heap.holds(GcPtr::from_usize(4096)));
    assert!(!heap.holds(GcPtr::from_usize(first.usize() + 8)));
    assert!(!heap.holds(GcPtr::from_usize(second.usize() + 40)));
    assert!(!heap.holds(GcPtr::from_usize(usize::MAX)));
    let root = heap.add_root(second);
    heap.gc();
    assert!(heap.holds(heap.root_ptr(root)));
    assert!(!heap.holds(first));
    assert!(!heap.holds(second));
}

fn flagged(payload: &[u64], index: u32) -> GcTypeWalk {
    match index {
        0 => GcTypeWalk::Skip,
        1 if payload[0] & 0xff != 0 => GcTypeWalk::Pointer,
        1 => GcTypeWalk::Skip,
        _ => GcTypeWalk::End,
    }
}

#[test]
fn a_store_is_taken_if_every_pointer_slot_stays_a_pointer() {
    let mut heap = small_heap();
    let a = leaf(&mut heap);
    let second = heap.types().add(GcType::new(16, GcTypeLayout::Bitmap(2)));
    let choice = heap.types().add(GcType::new(16, callback(flagged)));
    let target = heap.allocate(a);
    let there = target.usize() as u64;

    // a payload without pointers takes anything
    assert!(heap.takes(target, 0, 12345));
    assert!(heap.takes(target, 1, u64::MAX));

    assert!(!heap.points(target, 0));
    assert!(!heap.points(target, 1));

    let object = heap.allocate(second);
    assert!(!heap.points(object, 0));
    assert!(heap.points(object, 1));
    assert!(heap.takes(object, 0, 12345));
    assert!(heap.takes(object, 1, 0));
    assert!(heap.takes(object, 1, there));
    assert!(!heap.takes(object, 1, there + 8));
    assert!(!heap.takes(object, 1, 12345));
    assert!(!heap.takes(object, 1, u64::MAX));

    // in an array the layout is asked about the item stored to
    let items = heap.alloc_array(second, 3).to_ptr();
    assert_eq!((0..6).filter(|&i| heap.points(items, i)).collect::<Vec<_>>(), vec![1, 3, 5]);
    assert!(heap.takes(items, 4, 12345));
    assert!(heap.takes(items, 5, there));
    assert!(!heap.takes(items, 5, 12345));
    assert!(!heap.takes(items, 1, 8));
    heap.set(items, 5, there);
    assert_eq!(heap.get_ptr(items, 5), target);

    // a callback is asked about the payload as the store leaves it
    let either = heap.allocate(choice);
    assert!(!heap.points(either, 0));
    assert!(!heap.points(either, 1));
    assert!(heap.takes(either, 1, 12345));
    assert!(heap.takes(either, 0, 1));
    heap.set(either, 1, 12345);
    assert!(!heap.takes(either, 0, 1));
    assert!(heap.takes(either, 0, 256));
    heap.set(either, 1, there);
    assert!(heap.takes(either, 0, 1));
    heap.set(either, 0, 1);
    assert!(!heap.points(either, 0));
    assert!(heap.points(either, 1));
    assert_eq!(heap.get_ptr(either, 1), target);
    assert!(!heap.takes(either, 1, 12345));
    assert!(heap.takes(either, 1, 0));
    assert!(heap.takes(either, 0, 0));
}
