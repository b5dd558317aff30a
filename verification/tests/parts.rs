use rjs_gc::block::Block;
use rjs_gc::copying::{target, Fill};
use rjs_gc::handles::{GcHandles, RootWalker};
use rjs_gc::memory::{Memory, Pages};
use rjs_gc::types::GcMemHeader;
use rjs_gc::{
    Compacting, Copying, GcError, GcHeap, GcOpts, GcType, GcTypeLayout, GcTypes, Ratio, Strategy,
};

fn opts(initial_heap: usize) -> GcOpts {
    GcOpts {
        initial_heap,
        slow_growth_factor: Ratio::new(3, 2),
        fast_growth_factor: Ratio::new(3, 1),
    }
}

#[test]
fn default_settings() {
    let opts = GcOpts::default();
    assert_eq!(opts.initial_heap, 16 * 1024 * 1024);
    assert_eq!(opts.slow_growth_factor, Ratio::new(3, 2));
    assert_eq!(opts.fast_growth_factor, Ratio::new(3, 1));
    assert!(opts.slow_growth_factor.is_above_one());
    assert!(!Ratio::new(5, 5).is_above_one());
    assert!(!Ratio::new(5, 0).is_above_one());
}

#[test]
fn pages_are_handed_out_in_order() {
    let mut pages = Pages::new();
    let first = pages.reserve(1).unwrap();
    assert_eq!((first.ptr(), first.size(), first.len()), (4096, 4096, 512));
    let second = pages.reserve(4097).unwrap();
    assert_eq!((second.ptr(), second.size()), (8192, 8192));
    let third = pages.reserve(0).unwrap();
    assert_eq!((third.ptr(), third.size()), (16384, 0));
    assert!(pages.reserve(usize::MAX - 4096).is_none());
    pages.release(first);
    let fourth = pages.reserve(4096).unwrap();
    assert_eq!(fourth.ptr(), 16384);
    assert!((0..512).all(|i| fourth.get(i) == 0));
}

#[test]
fn memory_keeps_what_is_stored() {
    let mut pages = Pages::new();
    let mut memory = pages.reserve(64).unwrap();
    memory.set(3, 7);
    memory.set(4, 9);
    assert_eq!((memory.get(2), memory.get(3), memory.get(4)), (0, 7, 9));
    assert_eq!(memory.slice(3, 5), &[7, 9]);
    let empty = Memory::empty();
    assert_eq!((empty.ptr(), empty.size()), (0, 0));
}

#[test]
fn bitmap_from_offsets() {
    assert!(matches!(GcTypeLayout::new_bitmap(16, vec![0, 8]), GcTypeLayout::Bitmap(3)));
    assert!(matches!(GcTypeLayout::new_bitmap(16, vec![8]), GcTypeLayout::Bitmap(2)));
    assert!(matches!(GcTypeLayout::new_bitmap(16, vec![]), GcTypeLayout::Bitmap(0)));
    let wide = GcTypeLayout::new_bitmap(512, vec![504, 0, 504]);
    assert!(matches!(wide, GcTypeLayout::Bitmap(b) if b == (1 << 63) | 1));
}

#[test]
fn bitmaps_that_cannot_be_made() {
    let fits = |size, ptrs: Vec<usize>| GcTypeLayout::check_bitmap(size, &ptrs);
    assert!(!fits(520, vec![]));
    assert!(!fits(520, vec![0]));
    assert!(fits(519, vec![0]));
    assert!(fits(512, vec![]));
    assert!(!fits(16, vec![3]));
    assert!(!fits(16, vec![4]));
    assert!(!fits(16, vec![0, 8, 9]));
    assert!(!fits(16, vec![512]));
    assert!(!fits(16, vec![0, 512]));
    assert!(fits(16, vec![504]));
    assert!(fits(16, vec![0, 8]));
}

#[test]
fn pointer_slots_of_a_bitmap() {
    let ty = GcType::new(24, GcTypeLayout::Bitmap(0b101));
    assert_eq!(ty.pointer_slots(&[9, 9, 9]), vec![0, 2]);
    assert_eq!(ty.slot_count(), 3);
    assert_eq!(ty.byte_size(), 24);
    let short = GcType::new(8, GcTypeLayout::Bitmap(0b111));
    assert_eq!(short.pointer_slots(&[9]), vec![0]);
    let none = GcType::new(12, GcTypeLayout::Leaf);
    assert_eq!(none.slot_count(), 0);
}

#[test]
fn registry_numbers_types_in_order() {
    let mut types = GcTypes::new();
    let a = types.add(GcType::new(12, GcTypeLayout::Leaf));
    let b = types.add(GcType::new(16, GcTypeLayout::Bitmap(3)));
    assert_eq!((a.usize(), b.usize(), types.len()), (0, 1, 2));
    assert_eq!(types.get(a).byte_size(), 12);
    assert_eq!(types.get(b).byte_size(), 16);
    assert!(matches!(types.get(b).pointer_slots(&[0, 0]).as_slice(), [0, 1]));
}

#[test]
fn header_packs_type_and_kind() {
    let mut types = GcTypes::new();
    for _ in 0..6 {
        types.add(GcType::new(8, GcTypeLayout::Leaf));
    }
    let five = types.add(GcType::new(8, GcTypeLayout::Leaf));
    assert_eq!(five.usize(), 6);
    let header = GcMemHeader::new(five, true);
    assert_eq!(header.to_word(), 13);
    assert!(header.is_array());
    assert_eq!(header.get_type_id(), five);
    let header = GcMemHeader::new(five, false);
    assert_eq!(header.to_word(), 12);
    assert!(!header.is_array());
    let read = GcMemHeader::from_word(12);
    assert_eq!(read.get_type_id().usize(), 6);
}

#[test]
fn target_size_follows_the_policy() {
    let o = opts(65536);
    let nothing = Fill { used: 0, allocated: 0 };
    let full = Fill { used: 65520, allocated: 65520 };
    assert_eq!(target(&o, 65520, 24, nothing), 102400);
    assert_eq!(target(&o, 102400, 24, full), 311296);
    assert_eq!(target(&o, 0, 0, nothing), 98304);
    // four fifths exactly is not more than four fifths
    assert_eq!(target(&o, 400000, 0, Fill { used: 4, allocated: 5 }), 480000 / 4096 * 4096 + 4096);
    // a little more is
    assert_eq!(target(&o, 400000, 0, Fill { used: 401, allocated: 500 }), 962400 / 4096 * 4096 + 4096);
    // the target never falls below what is in use
    assert_eq!(target(&o, 400000, 0, Fill { used: 1, allocated: 10 }), 401408);
    // what the failed allocation asked for is counted
    assert_eq!(target(&o, 0, 1 << 20, nothing), 1572864);
}

#[test]
fn bump_block_allocates_in_order() {
    let mut pages = Pages::new();
    let mut block = Block::new(pages.reserve(4096).unwrap());
    assert_eq!(block.allocate(24), 4096 + 16);
    assert_eq!(block.allocate(8), 4096 + 40 + 16);
    assert_eq!(block.allocate(4096 - 64 - 16), 4096 + 64 + 16);
    assert_eq!(block.allocate(8), 0);
}

#[test]
fn copying_remembers_a_failed_allocation() {
    let mut heap = Copying::new(opts(4096));
    assert_eq!((heap.mem_used(), heap.mem_allocated()), (0, 4096));
    assert_eq!(heap.alloc_raw(20), 4096 + 16);
    assert_eq!(heap.mem_used(), 40);
    assert!(heap.fits_now(4096 - 40 - 16));
    assert!(!heap.fits_now(4096 - 40 - 15));
    assert_eq!(heap.alloc_raw(4096), 0);
    assert_eq!(heap.mem_used(), 40);
    // the block is an object of type 0, which has 16 bytes of payload
    let mut types = GcTypes::new();
    types.add(GcType::new(16, GcTypeLayout::Leaf));
    let mut handles = GcHandles::new();
    assert!(heap.can_collect_now());
    assert!(Strategy::can_gc_now(&heap));
    Strategy::gc(&mut heap, &types, &mut handles);
    assert_eq!(heap.mem_used(), 0);
    // (40 + 4096) clamped to 4096, times 3/2, rounded up to pages
    assert_eq!(heap.mem_allocated(), 8192 + 4096);
    assert_eq!(Strategy::alloc_raw(&mut heap, 4096), 8192 + 16);
    assert_eq!(Strategy::mem_used(&heap), 4096 + 16);
}

#[test]
fn compacting_bumps_until_full() {
    let mut heap = Compacting::new();
    assert_eq!(heap.alloc_raw(100), 4096);
    assert_eq!(heap.alloc_raw(28), 4196);
    assert_eq!(heap.alloc_raw(524288), 0);
    assert_eq!(heap.alloc_raw(524288 - 128), 4224);
    assert_eq!(heap.alloc_raw(1), 0);
    assert_eq!(heap.alloc_raw(0), 4096 + 524288);
}

#[test]
fn root_walker_stops_at_roots_in_use() {
    let mut table = GcHandles::new();
    let a = table.add(0x10);
    let b = table.add(0x20);
    let c = table.add(0x30);
    table.remove(b);
    table.push_local(0x40);
    let mut walker = RootWalker::new(false);
    assert_eq!(walker.next(&table), 0x10);
    walker.rewrite(&mut table, 0x11);
    assert_eq!(walker.next(&table), 0x30);
    walker.rewrite(&mut table, 0x31);
    assert_eq!(walker.next(&table), 0);
    assert_eq!((table.get(a), table.get(b), table.get(c)), (0x11, 0, 0x31));
    let mut walker = RootWalker::new(true);
    assert_eq!(walker.next(&table), 0x40);
    walker.rewrite(&mut table, 0x41);
    assert_eq!(walker.next(&table), 0);
    assert_eq!(table.get_local(0), 0x41);
    assert_eq!(table.local_depth(), 1);
    table.truncate_locals(0);
    assert_eq!(table.local_depth(), 0);
}

#[test]
fn roots_look_up_the_address_as_it_is() {
    let mut heap = GcHeap::new(opts(4096));
    let a = heap.add_type(GcType::new(8, GcTypeLayout::Leaf));
    let root = heap.alloc_root(a);
    let handle = root.as_handle(&heap);
    assert_eq!(handle.as_root(), root);
    assert_eq!(handle.as_ptr(&heap).usize(), 4096 + 16);
    assert_eq!(root.deref(&heap), 4096 + 16 + 8);
    let second = root.as_new_handle(&mut heap);
    assert_eq!(second.as_root().u32(), 1);
    heap.gc();
    assert_eq!(handle.as_ptr(&heap).usize(), 8192 + 16);
    assert_eq!(second.as_ptr(&heap).usize(), 8192 + 16);
    assert_eq!(root.deref(&heap), 8192 + 16 + 8);
    let array = heap.alloc_array_root(a, 4);
    let vec = array.as_vec_handle(&heap);
    assert_eq!(vec.len(&heap), 4);
    let other = array.as_new_vec_handle(&mut heap);
    assert_eq!(other.as_ptr(&heap), vec.as_ptr(&heap));
    assert_eq!(other.as_root().u32(), 3);
    vec.release(&mut heap);
    assert_eq!(heap.alloc_root(a).u32(), 2);
}

#[test]
fn pages_tell_whether_they_have_room() {
    let mut pages = Pages::new();
    assert!(pages.has_room(0));
    assert!(pages.has_room(usize::MAX - 8191));
    assert!(!pages.has_room(usize::MAX - 8190));
    assert!(!pages.has_room(usize::MAX));
    pages.reserve(4096).unwrap();
    assert!(!pages.has_room(usize::MAX - 8191));
    assert!(pages.has_room(usize::MAX - 8191 - 4096));
}

#[test]
fn a_noted_failure_counts_in_the_next_collection() {
    let mut heap = Copying::new(opts(4096));
    let types = GcTypes::new();
    let mut handles = GcHandles::new();
    heap.note_failure(9999);
    assert!(heap.can_collect_now());
    Strategy::gc(&mut heap, &types, &mut handles);
    // 10000 bytes asked for, times 3/2, in whole pages
    assert_eq!(heap.mem_allocated(), 16384 + 4096);
    assert_eq!(heap.mem_used(), 0);
    assert!(heap.fits_now(16384 - 16));
    assert!(!heap.fits_now(16384 - 15));
    heap.note_failure(usize::MAX - 23);
    assert!(!heap.can_collect_now());
}
