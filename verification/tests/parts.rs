use motoko_rts::bitmap::{Bitmap, BITMAP_ITER_END};
use motoko_rts::experimental::{
    compaction_is_beneficial, threshold_for, Collector, ExperimentalGC, Strategy,
};
use motoko_rts::heap::{Heap, Limits, Roots};
use motoko_rts::mark_stack::MarkStack;
use motoko_rts::memory::Memory;
use motoko_rts::remembered_set::RememberedSet;
use motoko_rts::types::{
    skew, size_of, Array, Bytes, Closure, Object, SkewedPtr, Words, TAG_ARRAY, TAG_BIGINT,
    TAG_BITS32, TAG_BITS64, TAG_BLOB, TAG_CLOSURE, TAG_CONCAT, TAG_FREE_SPACE, TAG_MUTBOX,
    TAG_OBJECT, TAG_OBJ_IND, TAG_ONE_WORD_FILLER, TAG_SOME, TAG_VARIANT,
};
use motoko_rts::visitor::{object_size, pointer_fields, pointer_to_dynamic_heap, value_is_ptr};

fn memory_with(words: &[u32]) -> Memory {
    Memory::from_words(words.to_vec())
}

#[test]
fn size_of_counts_whole_words() {
    assert_eq!(size_of::<Array>().0, 3);
    assert_eq!(size_of::<Object>().0, 4);
    assert_eq!(size_of::<Closure>().0, 4);
}

#[test]
fn units_compare_by_their_number() {
    assert!(Words(3u32) < Words(4u32));
    assert!(Bytes(8u32) == Bytes(8u32));
    assert!(Bytes(9u32) > Bytes(8u32));
}

#[test]
fn memory_reads_back_what_was_stored() {
    let mut mem = Memory::new(8);
    assert_eq!(mem.len(), 8);
    for i in 0..8u32 {
        assert_eq!(mem.load(4 * i), 0);
    }
    mem.store(12, 0xDEAD_BEEF);
    assert_eq!(mem.load(12), 0xDEAD_BEEF);
    assert_eq!(mem.load(8), 0);
    assert_eq!(mem.load(16), 0);
    assert!(mem.contains(28));
    assert!(!mem.contains(32));
    assert!(!mem.contains(30));
}

#[test]
fn memcpy_words_copies_down_over_an_overlap() {
    let mut mem = memory_with(&[0, 1, 2, 3, 4, 5, 6, 7]);
    mem.memcpy_words(4, 12, Words(4));
    let after: Vec<u32> = (0..8u32).map(|i| mem.load(4 * i)).collect();
    assert_eq!(after, vec![0, 3, 4, 5, 6, 5, 6, 7]);
    mem.memcpy_words(0, 0, Words(8));
    let same: Vec<u32> = (0..8u32).map(|i| mem.load(4 * i)).collect();
    assert_eq!(same, after);
}

#[test]
fn bitmap_iterates_set_bits_in_ascending_order() {
    let mut bitmap = Bitmap::alloc_bitmap(Bytes(64), 0x400);
    for idx in 0x400..0x410u32 {
        assert!(!bitmap.get_bit(idx));
    }
    bitmap.set_bit(0x40B);
    bitmap.set_bit(0x402);
    bitmap.set_bit(0x40F);
    bitmap.set_bit(0x402);
    assert!(bitmap.get_bit(0x402));
    assert!(!bitmap.get_bit(0x403));
    let mut iter = bitmap.iter_bits();
    assert_eq!(iter.next(&bitmap), 0x402);
    assert_eq!(iter.next(&bitmap), 0x40B);
    assert_eq!(iter.next(&bitmap), 0x40F);
    assert_eq!(iter.next(&bitmap), BITMAP_ITER_END);
    assert_eq!(iter.next(&bitmap), BITMAP_ITER_END);
}

#[test]
fn bitmap_iterator_advance_skips_lower_bits() {
    let mut bitmap = Bitmap::alloc_bitmap(Bytes(64), 0x400);
    bitmap.set_bit(0x400);
    bitmap.set_bit(0x405);
    bitmap.set_bit(0x406);
    let mut iter = bitmap.iter_bits();
    iter.advance(0x405);
    assert_eq!(iter.next(&bitmap), 0x405);
    iter.advance(0x401);
    assert_eq!(iter.next(&bitmap), 0x406);
    assert_eq!(iter.next(&bitmap), BITMAP_ITER_END);
}

#[test]
fn empty_bitmap_has_no_bits() {
    let bitmap = Bitmap::alloc_bitmap(Bytes(0), 0x400);
    let mut iter = bitmap.iter_bits();
    assert_eq!(iter.next(&bitmap), BITMAP_ITER_END);
}

#[test]
fn mark_stack_is_last_in_first_out() {
    let mut stack = MarkStack::alloc_mark_stack();
    assert_eq!(stack.pop(), None);
    stack.push(0x1000, TAG_ARRAY);
    stack.push(0x1000, 127);
    stack.push(0x2000, TAG_MUTBOX);
    assert_eq!(stack.pop(), Some((0x2000, TAG_MUTBOX)));
    assert_eq!(stack.pop(), Some((0x1000, 127)));
    stack.push(0x3000, TAG_BLOB);
    assert_eq!(stack.pop(), Some((0x3000, TAG_BLOB)));
    assert_eq!(stack.pop(), Some((0x1000, TAG_ARRAY)));
    assert_eq!(stack.pop(), None);
}

#[test]
fn remembered_set_keeps_insertion_order_without_duplicates() {
    let mut set = RememberedSet::new();
    assert_eq!(set.count(), 0);
    assert!(!set.contains(0x1008));
    set.insert(0x1008);
    set.insert(0x1020);
    set.insert(0x1008);
    set.insert(0x1004);
    assert_eq!(set.count(), 3);
    assert_eq!(set.get(0), 0x1008);
    assert_eq!(set.get(1), 0x1020);
    assert_eq!(set.get(2), 0x1004);
    assert!(set.contains(0x1020));
    assert!(!set.contains(0x1024));
}

#[test]
fn write_barrier_records_only_pointers_stored_into_the_old_generation() {
    let heap = Heap {
        mem: Memory::new(0x800),
        limits: Limits { base: 0x1000, last_free: 0x1100, free: 0x1200 },
        roots: Roots { static_roots: skew(0x100), continuation_table_ptr_loc: 0x300 },
    };
    let mut collector = Collector::new(heap);
    collector.record(0x1008, skew(0x1150).0);
    collector.record(0x1108, skew(0x1150).0);
    collector.record(0x100C, 42);
    collector.record(0x1010, skew(0x200).0);
    collector.record(0x1008, skew(0x1180).0);
    collector.record(0x1014, skew(0x1040).0);
    assert_eq!(collector.gc.remembered_set.count(), 2);
    assert_eq!(collector.gc.remembered_set.get(0), 0x1008);
    assert_eq!(collector.gc.remembered_set.get(1), 0x1014);
}

#[test]
fn pointers_are_odd_words_other_than_one() {
    assert!(value_is_ptr(skew(0x1000).0));
    assert!(value_is_ptr(3));
    assert!(!value_is_ptr(1));
    assert!(!value_is_ptr(0));
    assert!(!value_is_ptr(0x1000));
    assert!(value_is_ptr(u32::MAX));
    let mem = memory_with(&[skew(0x1000).0, skew(0xFFC).0, 0x1000, u32::MAX, 1]);
    assert!(pointer_to_dynamic_heap(&mem, 0, 0x1000));
    assert!(!pointer_to_dynamic_heap(&mem, 4, 0x1000));
    assert!(!pointer_to_dynamic_heap(&mem, 8, 0x1000));
    assert!(!pointer_to_dynamic_heap(&mem, 12, 0x1000));
    assert!(!pointer_to_dynamic_heap(&mem, 16, 0));
}

#[test]
fn object_size_follows_the_tag() {
    let cases: Vec<(Vec<u32>, u32)> = vec![
        (vec![TAG_OBJECT, 0, 2, 99, 0, 0], 6),
        (vec![TAG_OBJECT, 0, 0, 99], 4),
        (vec![TAG_OBJ_IND, 0, 0], 3),
        (vec![TAG_ARRAY, 0, 4, 0, 0, 0, 0], 7),
        (vec![TAG_ARRAY, 0, 0], 3),
        (vec![TAG_BITS64, 0, 1, 2], 4),
        (vec![TAG_MUTBOX, 0, 0], 3),
        (vec![TAG_CLOSURE, 0, 7, 1, 0], 5),
        (vec![TAG_SOME, 0, 0], 3),
        (vec![TAG_VARIANT, 0, 5, 0], 4),
        (vec![TAG_BLOB, 0, 0], 3),
        (vec![TAG_BLOB, 0, 1, 0], 4),
        (vec![TAG_BLOB, 0, 4, 0], 4),
        (vec![TAG_BLOB, 0, 5, 0, 0], 5),
        (vec![TAG_BITS32, 0, 7], 3),
        (vec![TAG_BIGINT, 0, 1, 2, 0, 0, 0, 0], 8),
        (vec![TAG_CONCAT, 0, 9, 0, 0], 5),
        (vec![TAG_ONE_WORD_FILLER], 1),
        (vec![TAG_FREE_SPACE, 4, 0, 0], 4),
    ];
    for (words, expected) in cases {
        let mem = memory_with(&words);
        assert_eq!(object_size(&mem, 0).0, expected, "tag {}", words[0]);
    }
}

#[test]
fn pointer_fields_gives_the_places_of_each_kind_of_object() {
    let cases: Vec<(Vec<u32>, (u32, u32))> = vec![
        (vec![TAG_OBJECT, 0, 2, 99, 0, 0], (16, 24)),
        (vec![TAG_OBJ_IND, 0, 0], (8, 12)),
        (vec![TAG_ARRAY, 0, 4, 0, 0, 0, 0], (12, 28)),
        (vec![TAG_ARRAY, 0, 0], (12, 12)),
        (vec![TAG_BITS64, 0, 1, 2], (8, 8)),
        (vec![TAG_MUTBOX, 0, 0], (8, 12)),
        (vec![TAG_CLOSURE, 0, 7, 1, 0], (16, 20)),
        (vec![TAG_SOME, 0, 0], (8, 12)),
        (vec![TAG_VARIANT, 0, 5, 0], (12, 16)),
        (vec![TAG_BLOB, 0, 5, 0, 0], (8, 8)),
        (vec![TAG_BITS32, 0, 7], (8, 8)),
        (vec![TAG_BIGINT, 0, 1, 2, 0, 0, 0, 0], (8, 8)),
        (vec![TAG_CONCAT, 0, 9, 0, 0], (12, 20)),
    ];
    for (words, expected) in cases {
        let mem = memory_with(&words);
        assert_eq!(pointer_fields(&mem, 0, words[0], u32::MAX), expected, "tag {}", words[0]);
    }
}

#[test]
fn pointer_fields_slices_long_arrays() {
    let mut words = vec![TAG_ARRAY, 0, 300];
    words.extend(std::iter::repeat(0).take(300));
    let mem = memory_with(&words);
    assert_eq!(pointer_fields(&mem, 0, TAG_ARRAY, 127), (12, 12 + 4 * 127));
    assert_eq!(pointer_fields(&mem, 0, 127, 127), (12 + 4 * 127, 12 + 4 * 254));
    assert_eq!(pointer_fields(&mem, 0, 254, 127), (12 + 4 * 254, 12 + 4 * 300));
    assert_eq!(pointer_fields(&mem, 0, 300, 127), (12 + 4 * 300, 12 + 4 * 300));
    assert_eq!(pointer_fields(&mem, 0, 173, 127), (12 + 4 * 173, 12 + 4 * 300));
    assert_eq!(pointer_fields(&mem, 0, 172, 127), (12 + 4 * 172, 12 + 4 * 299));
}

#[test]
fn layout_accessors_skip_the_headers() {
    assert_eq!(Array::payload_addr(0x1000), 0x100C);
    assert_eq!(Object::payload_addr(0x1000), 0x1010);
    assert_eq!(Closure::payload_addr(0x1000), 0x1010);
    let mem = memory_with(&[TAG_ARRAY, 0, 2, 11, skew(0x1000).0]);
    assert_eq!(Array::len(&mem, 0), 2);
    assert_eq!(Array::get(&mem, 0, 0).0, 11);
    assert_eq!(Array::get(&mem, 0, 1).unskew(), 0x1000);
    assert_eq!(SkewedPtr(11).unskew(), 12);
}

fn collector_on(words: &[u32], strategy: Strategy, last_free: u32) -> ExperimentalGC {
    let heap = Heap {
        mem: memory_with(words),
        limits: Limits { base: 0x80, last_free, free: 4 * words.len() as u32 },
        roots: Roots { static_roots: skew(0), continuation_table_ptr_loc: 0x40 },
    };
    let mut gc = Collector::new(heap).gc;
    gc.strategy = strategy;
    gc
}

#[test]
fn threading_swaps_a_field_with_the_tag_it_refers_to() {
    let mut words = vec![0u32; 0x30];
    words[0x20] = TAG_MUTBOX;
    words[0x21] = skew(0x80).0;
    words[0x22] = skew(0x8C).0;
    words[0x23] = TAG_BLOB;
    words[0x24] = skew(0x8C).0;
    words[0x25] = 0;
    let mut gc = collector_on(&words, Strategy::Full, 0x80);
    assert!(gc.should_be_threaded(0x8C));
    gc.thread(0x88);
    assert_eq!(gc.heap.mem.load(0x88), TAG_BLOB);
    assert_eq!(gc.heap.mem.load(0x8C), 0x88);
    assert_eq!(gc.heap.mem.load(0x80), TAG_MUTBOX);
}

#[test]
fn young_cycle_threads_only_fields_that_refer_to_the_young_generation() {
    let mut words = vec![0u32; 0x30];
    words[0x20] = TAG_MUTBOX;
    words[0x21] = skew(0x80).0;
    words[0x22] = skew(0x8C).0;
    words[0x23] = TAG_MUTBOX;
    words[0x24] = skew(0x8C).0;
    words[0x25] = skew(0x80).0;
    let mut gc = collector_on(&words, Strategy::Young, 0x8C);
    assert!(!gc.should_be_threaded(0x80));
    assert!(gc.should_be_threaded(0x8C));
    gc.thread(0x94);
    assert_eq!(gc.heap.mem.load(0x94), skew(0x80).0);
    assert_eq!(gc.heap.mem.load(0x80), TAG_MUTBOX);
    gc.thread(0x88);
    assert_eq!(gc.heap.mem.load(0x88), TAG_MUTBOX);
    assert_eq!(gc.heap.mem.load(0x8C), 0x88);
}

#[test]
fn generation_size_and_compaction_threshold() {
    let words = vec![0u32; 0x400];
    let mut gc = collector_on(&words, Strategy::Young, 0x400);
    assert_eq!(gc.generation_size(), 0x1000 - 0x400);
    gc.marked_space = 0;
    assert!(gc.is_compaction_beneficial());
    gc.strategy = Strategy::Full;
    assert_eq!(gc.generation_size(), 0x1000 - 0x80);
    // 95% of 4000 bytes is 3800.
    gc.heap.limits.free = 0x80 + 4000;
    gc.marked_space = 3799;
    assert!(gc.is_compaction_beneficial());
    gc.marked_space = 3800;
    assert!(!gc.is_compaction_beneficial());
    gc.marked_space = 4000;
    assert!(!gc.is_compaction_beneficial());
    // An empty generation is not compacted.
    gc.heap.limits.free = 0x80;
    gc.marked_space = 0;
    assert!(!gc.is_compaction_beneficial());
}

#[test]
fn unthreading_undoes_threading_and_writes_the_new_address() {
    let mut words = vec![0u32; 0x30];
    // A mutbox, the blob it refers to, and a second mutbox that refers to
    // the blob too.
    words[0x20] = TAG_MUTBOX;
    words[0x21] = skew(0x80).0;
    words[0x22] = skew(0x8C).0;
    words[0x23] = TAG_BLOB;
    words[0x24] = skew(0x8C).0;
    words[0x25] = 0;
    words[0x26] = TAG_MUTBOX;
    words[0x27] = skew(0x98).0;
    words[0x28] = skew(0x8C).0;
    let mut gc = collector_on(&words, Strategy::Full, 0x80);
    gc.thread(0x88);
    gc.thread(0xA0);
    assert_eq!(gc.heap.mem.load(0x8C), 0xA0);
    assert_eq!(gc.heap.mem.load(0xA0), 0x88);
    assert_eq!(gc.heap.mem.load(0x88), TAG_BLOB);
    gc.unthread(0x8C, 0x80);
    assert_eq!(gc.heap.mem.load(0x8C), TAG_BLOB);
    assert_eq!(gc.heap.mem.load(0x88), skew(0x80).0);
    assert_eq!(gc.heap.mem.load(0xA0), skew(0x80).0);
    for (i, w) in words.iter().enumerate() {
        if i != 0x22 && i != 0x28 {
            assert_eq!(gc.heap.mem.load(4 * i as u32), *w);
        }
    }
    // An object that nothing was threaded onto keeps its tag.
    gc.unthread(0x98, 0x8C);
    assert_eq!(gc.heap.mem.load(0x98), TAG_MUTBOX);
}

#[test]
fn compaction_pays_below_ninety_five_percent() {
    assert!(compaction_is_beneficial(0, 24));
    assert!(compaction_is_beneficial(94, 100));
    assert!(!compaction_is_beneficial(95, 100));
    assert!(!compaction_is_beneficial(100, 100));
    assert!(!compaction_is_beneficial(0, 0));
    assert!(compaction_is_beneficial(u32::MAX / 2, u32::MAX));
    assert!(!compaction_is_beneficial(u32::MAX, u32::MAX));
}

#[test]
fn threshold_is_the_reservation_less_slack_and_bitmap() {
    assert_eq!(threshold_for(0x1_0000_0000).map(|b| b.0), Some(0xD800_0000));
    assert_eq!(threshold_for(0x2108_421C).map(|b| b.0), Some(12));
    assert_eq!(threshold_for(0x1000_0000).map(|b| b.0), None);
    assert_eq!(threshold_for(0x2000_0000).map(|b| b.0), None);
    assert_eq!(threshold_for(0).map(|b| b.0), None);
}

#[test]
fn unthreading_in_a_young_cycle_takes_a_young_object() {
    let mut words = vec![0u32; 0x30];
    words[0x20] = TAG_MUTBOX;
    words[0x21] = skew(0x80).0;
    words[0x22] = skew(0x8C).0;
    words[0x23] = TAG_BLOB;
    words[0x24] = skew(0x8C).0;
    words[0x25] = 0;
    let mut gc = collector_on(&words, Strategy::Young, 0x8C);
    gc.thread(0x88);
    assert_eq!(gc.heap.mem.load(0x8C), 0x88);
    gc.unthread(0x8C, 0x8C);
    assert_eq!(gc.heap.mem.load(0x8C), TAG_BLOB);
    assert_eq!(gc.heap.mem.load(0x88), skew(0x8C).0);
}
