use motoko_rts::experimental::{Collector, Strategy};
use motoko_rts::heap::{Heap, Limits, Roots};
use motoko_rts::memory::Memory;
use motoko_rts::sanity::{checked_block_size, tag_is_object};
use motoko_rts::types::{
    skew, TAG_ARRAY, TAG_BLOB, TAG_FREE_SPACE, TAG_FWD_PTR, TAG_MUTBOX, TAG_NULL, TAG_OBJECT,
    TAG_ONE_WORD_FILLER,
};

const BASE: u32 = 0x1000;
const ROOT_ARRAY: u32 = 0x100;
const ROOT_BOX: u32 = 0x200;
const TABLE_LOC: u32 = 0x300;

/// A well-formed heap: one root box that refers to an array, which refers
/// to a mutbox; a filler, a free block and a blob beside them.
fn sound() -> Collector {
    let mut mem = Memory::new(0x800);
    let static_words: [(u32, u32); 7] = [
        (ROOT_ARRAY, TAG_ARRAY),
        (ROOT_ARRAY + 4, skew(ROOT_ARRAY).0),
        (ROOT_ARRAY + 8, 1),
        (ROOT_ARRAY + 12, skew(ROOT_BOX).0),
        (ROOT_BOX, TAG_MUTBOX),
        (ROOT_BOX + 4, skew(ROOT_BOX).0),
        (ROOT_BOX + 8, skew(0x1000).0),
    ];
    for (addr, w) in static_words {
        mem.store(addr, w);
    }
    let heap_words: [u32; 17] = [
        TAG_ARRAY, skew(0x1000).0, 2, skew(0x1014).0, 7,   // 0x1000
        TAG_MUTBOX, skew(0x1014).0, skew(0x1000).0,        // 0x1014
        TAG_ONE_WORD_FILLER,                               // 0x1020
        TAG_FREE_SPACE, 3, 0,                              // 0x1024
        TAG_BLOB, skew(0x1030).0, 5, 0, 0,                 // 0x1030
    ];
    for (i, w) in heap_words.iter().enumerate() {
        mem.store(BASE + 4 * i as u32, *w);
    }
    Collector::new(Heap {
        mem,
        limits: Limits { base: BASE, last_free: BASE, free: BASE + 4 * 17 },
        roots: Roots { static_roots: skew(ROOT_ARRAY), continuation_table_ptr_loc: TABLE_LOC },
    })
}

fn broken(change: impl FnOnce(&mut Collector)) -> bool {
    let mut collector = sound();
    change(&mut collector);
    collector.is_ready()
}

#[test]
fn sound_heap_is_ready() {
    assert!(sound().is_ready());
    assert!(broken(|c| c.gc.heap.limits.last_free = 0x1020));
    assert!(broken(|c| c.gc.heap.limits.last_free = c.gc.heap.limits.free));
    assert!(broken(|c| c.gc.heap.mem.store(TABLE_LOC, skew(0x1030).0)));
}

#[test]
fn heap_with_anchors_out_of_order_is_not_ready() {
    assert!(!broken(|c| c.gc.heap.limits.base = 0x1040));
    assert!(!broken(|c| c.gc.heap.limits.last_free = 0xFFC));
    assert!(!broken(|c| c.gc.heap.limits.last_free = 0x1048));
    assert!(!broken(|c| c.gc.heap.limits.free = 0x2004));
    assert!(!broken(|c| {
        c.gc.heap.limits.base = 0;
        c.gc.heap.limits.last_free = 0;
    }));
}

#[test]
fn heap_whose_blocks_do_not_fit_is_not_ready() {
    // The end of the heap cuts the last block.
    assert!(!broken(|c| c.gc.heap.limits.free -= 4));
    // An unknown tag.
    assert!(!broken(|c| c.gc.heap.mem.store(0x1020, 0)));
    assert!(!broken(|c| c.gc.heap.mem.store(0x1020, TAG_NULL)));
    assert!(!broken(|c| c.gc.heap.mem.store(0x1020, TAG_FWD_PTR)));
    // A length that reaches beyond the heap.
    assert!(!broken(|c| c.gc.heap.mem.store(0x1038, 0x4000_0000)));
    // A free block that is shorter than its header.
    assert!(!broken(|c| c.gc.heap.mem.store(0x1028, 1)));
    // The old generation ends inside a block.
    assert!(!broken(|c| c.gc.heap.limits.last_free = 0x1018));
}

#[test]
fn heap_with_a_pointer_to_no_object_is_not_ready() {
    assert!(!broken(|c| c.gc.heap.mem.store(0x100C, skew(0x1018).0)));
    assert!(!broken(|c| c.gc.heap.mem.store(0x100C, skew(0x1020).0)));
    assert!(!broken(|c| c.gc.heap.mem.store(0x100C, skew(0x1024).0)));
    assert!(!broken(|c| c.gc.heap.mem.store(0x100C, skew(0x1044).0)));
    assert!(!broken(|c| c.gc.heap.mem.store(0x101C, skew(0x1002).0)));
    // A pointer below the dynamic heap is none of the collector's business.
    assert!(broken(|c| c.gc.heap.mem.store(0x100C, skew(0x0200).0)));
    // Nor is what a blob holds.
    assert!(broken(|c| c.gc.heap.mem.store(0x103C, skew(0x1018).0)));
}

#[test]
fn heap_with_broken_roots_is_not_ready() {
    assert!(!broken(|c| c.gc.heap.roots.static_roots = skew(0x1000)));
    assert!(!broken(|c| c.gc.heap.roots.static_roots = skew(0x102)));
    assert!(!broken(|c| c.gc.heap.mem.store(ROOT_ARRAY, TAG_OBJECT)));
    assert!(!broken(|c| c.gc.heap.mem.store(ROOT_ARRAY + 8, 0x1000)));
    assert!(!broken(|c| c.gc.heap.mem.store(ROOT_BOX, TAG_BLOB)));
    assert!(!broken(|c| c.gc.heap.mem.store(ROOT_BOX + 8, skew(0x1020).0)));
    assert!(!broken(|c| c.gc.heap.mem.store(ROOT_ARRAY + 12, skew(0xFF8).0)));
    assert!(!broken(|c| c.gc.heap.mem.store(ROOT_ARRAY + 12, skew(ROOT_ARRAY - 4).0)));
    assert!(!broken(|c| c.gc.heap.roots.continuation_table_ptr_loc = ROOT_BOX + 8));
    assert!(!broken(|c| c.gc.heap.roots.continuation_table_ptr_loc = ROOT_ARRAY + 8));
    assert!(!broken(|c| c.gc.heap.roots.continuation_table_ptr_loc = 0x1000));
    assert!(!broken(|c| c.gc.heap.mem.store(TABLE_LOC, skew(0x1020).0)));
    assert!(!broken(|c| c.gc.heap.mem.store(TABLE_LOC, skew(0x200).0)));
}

#[test]
fn old_pointer_into_the_young_generation_must_be_recorded() {
    let old_to_young = |c: &mut Collector| {
        c.gc.heap.limits.last_free = 0x1014;
    };
    // The array at 0x1000 is old and refers to the young mutbox at 0x1014.
    assert!(!broken(|c| {
        old_to_young(c);
        c.gc.remembered_set = motoko_rts::remembered_set::RememberedSet::new();
    }));
    assert!(!broken(old_to_young));
    assert!(broken(|c| {
        old_to_young(c);
        c.record(0x100C, skew(0x1014).0);
    }));
    // A recorded field outside the memory, or one that holds a pointer to
    // no object.
    assert!(!broken(|c| c.gc.remembered_set.insert(0x4000)));
    assert!(!broken(|c| c.gc.remembered_set.insert(0x1002)));
    assert!(!broken(|c| {
        c.gc.heap.limits.last_free = 0x1024;
        c.gc.heap.mem.store(0x1040, skew(0x1028).0);
        c.gc.remembered_set.insert(0x1040);
    }));
}

#[test]
fn checked_cycle_runs_only_on_a_ready_heap() {
    let mut collector = sound();
    assert!(collector.checked_experimental_gc());
    assert_eq!(collector.gc.strategy, Strategy::Young);
    assert_eq!(collector.gc.heap.limits.free, 0x1020);
    assert!(collector.is_ready());
    assert!(collector.checked_experimental_gc());
    assert!(collector.checked_experimental_gc());
    assert_eq!(collector.gc.strategy, Strategy::Full);
    assert!(collector.is_ready());

    let mut collector = sound();
    collector.gc.heap.mem.store(0x100C, skew(0x1018).0);
    assert!(!collector.checked_experimental_gc());
    assert_eq!(collector.run, 0);
    assert_eq!(collector.gc.heap.limits.free, 0x1044);
    assert_eq!(collector.gc.heap.mem.load(0x1000), TAG_ARRAY);
}

#[test]
fn counters_that_would_overflow_make_the_heap_unready() {
    assert!(!broken(|c| c.reclaimed = motoko_rts::types::Bytes(u64::MAX - 0x1000)));
    assert!(broken(|c| c.reclaimed = motoko_rts::types::Bytes(u64::MAX - 0x1044)));
    assert!(!broken(|c| c.run = u32::MAX));
    assert!(broken(|c| c.run = u32::MAX - 1));
    let mut collector = sound();
    collector.run = u32::MAX - 1;
    assert!(collector.checked_experimental_gc());
    assert_eq!(collector.run, u32::MAX);
    assert!(!collector.checked_experimental_gc());
    assert_eq!(collector.run, u32::MAX);
}

#[test]
fn checked_block_size_tells_blocks_from_other_words() {
    let mem = Memory::from_words(vec![TAG_ARRAY, 0, 2, 0, 0, TAG_FREE_SPACE, 1, 3]);
    assert_eq!(checked_block_size(&mem, 0, 20), Some(5));
    assert_eq!(checked_block_size(&mem, 0, 32), Some(5));
    assert_eq!(checked_block_size(&mem, 0, 16), None);
    assert_eq!(checked_block_size(&mem, 20, 32), None);
    assert_eq!(checked_block_size(&mem, 28, 32), None);
    assert!(tag_is_object(TAG_ARRAY));
    assert!(!tag_is_object(TAG_FREE_SPACE));
    assert!(!tag_is_object(TAG_NULL));
    assert!(!tag_is_object(0));
}
