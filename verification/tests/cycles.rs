use motoko_rts::experimental::{
    decide_strategy, experimental_gc_internal, Collector, Strategy, CRITICAL_MEMORY_LIMIT,
};
use motoko_rts::heap::{Heap, Limits, Roots};
use motoko_rts::memory::Memory;
use motoko_rts::types::{
    skew, TAG_ARRAY, TAG_BLOB, TAG_MUTBOX, TAG_ONE_WORD_FILLER,
};

const BASE: u32 = 0x1000;
const ROOT_ARRAY: u32 = 0x100;
const ROOT_BOXES: u32 = 0x200;
const TABLE_LOC: u32 = 0x300;

/// A memory of 0x2000 bytes with `roots` static root boxes, each holding
/// the given word, and an empty dynamic heap at `BASE`.
fn heap_with_roots(roots: &[u32]) -> Heap {
    let mut mem = Memory::new(0x800);
    mem.store(ROOT_ARRAY, TAG_ARRAY);
    mem.store(ROOT_ARRAY + 4, skew(ROOT_ARRAY).0);
    mem.store(ROOT_ARRAY + 8, roots.len() as u32);
    for (i, value) in roots.iter().enumerate() {
        let root_box = ROOT_BOXES + 12 * i as u32;
        mem.store(ROOT_ARRAY + 12 + 4 * i as u32, skew(root_box).0);
        mem.store(root_box, TAG_MUTBOX);
        mem.store(root_box + 4, skew(root_box).0);
        mem.store(root_box + 8, *value);
    }
    Heap {
        mem,
        limits: Limits { base: BASE, last_free: BASE, free: BASE },
        roots: Roots { static_roots: skew(ROOT_ARRAY), continuation_table_ptr_loc: TABLE_LOC },
    }
}

fn root_field(i: u32) -> u32 {
    ROOT_BOXES + 12 * i + 8
}

fn place(heap: &mut Heap, words: &[u32]) -> u32 {
    let addr = heap.limits.free;
    for (i, w) in words.iter().enumerate() {
        heap.mem.store(addr + 4 * i as u32, *w);
    }
    heap.limits.free = addr + 4 * words.len() as u32;
    addr
}

fn new_mutbox(heap: &mut Heap, field: u32) -> u32 {
    let addr = heap.limits.free;
    place(heap, &[TAG_MUTBOX, skew(addr).0, field])
}

fn new_blob(heap: &mut Heap, bytes: u32) -> u32 {
    let addr = heap.limits.free;
    let mut words = vec![TAG_BLOB, skew(addr).0, bytes];
    for _ in 0..(bytes + 3) / 4 {
        words.push(0xAAAA_AAAA);
    }
    place(heap, &words)
}

fn new_array(heap: &mut Heap, elems: &[u32]) -> u32 {
    let addr = heap.limits.free;
    let mut words = vec![TAG_ARRAY, skew(addr).0, elems.len() as u32];
    words.extend_from_slice(elems);
    place(heap, &words)
}

#[test]
fn young_cycle_with_everything_dead_reclaims_the_generation() {
    let mut heap = heap_with_roots(&[0]);
    let blob_addr = BASE + 12;
    let mutbox = new_mutbox(&mut heap, skew(blob_addr).0);
    let blob = new_blob(&mut heap, 0);
    assert_eq!(mutbox, 0x1000);
    assert_eq!(blob, blob_addr);
    assert_eq!(heap.limits.free, 0x1018);
    let mut collector = Collector::new(heap);
    let (reclaimed, live) = experimental_gc_internal(&mut collector.gc, Strategy::Young);
    assert_eq!(collector.gc.heap.limits.free, 0x1000);
    assert_eq!(reclaimed.0, 0x18);
    assert_eq!(live.0, 0);
    assert_eq!(collector.gc.marked_space, 0);
}

#[test]
fn young_cycle_with_everything_live_moves_nothing() {
    let mut heap = heap_with_roots(&[skew(BASE).0]);
    let mutbox = new_mutbox(&mut heap, skew(BASE + 12).0);
    let blob = new_blob(&mut heap, 0);
    let mut before = Vec::new();
    for i in 0..0x800u32 {
        before.push(heap.mem.load(4 * i));
    }
    let mut collector = Collector::new(heap);
    collector.experimental_gc();
    assert_eq!(collector.run, 1);
    assert_eq!(collector.gc.strategy, Strategy::Young);
    assert_eq!(collector.gc.marked_space, 0x18);
    assert_eq!(collector.gc.heap.limits.free, 0x1018);
    assert_eq!(collector.gc.heap.limits.last_free, 0x1018);
    assert_eq!(collector.reclaimed.0, 0);
    assert_eq!(collector.max_live.0, 0x18);
    for i in 0..0x800u32 {
        assert_eq!(collector.gc.heap.mem.load(4 * i), before[i as usize]);
    }
    assert_eq!(collector.gc.heap.mem.load(mutbox + 8), skew(blob).0);
}

#[test]
fn young_cycle_slides_survivors_over_a_dead_object() {
    let mut heap = heap_with_roots(&[skew(0x1000).0, skew(0x1030).0]);
    let a = new_array(&mut heap, &[2, 4, 6]);
    let b = new_array(&mut heap, &[skew(0x1000).0, 8, 10]);
    let c = new_array(&mut heap, &[skew(0x1000).0, 12, 14]);
    assert_eq!((a, b, c), (0x1000, 0x1018, 0x1030));
    let mut collector = Collector::new(heap);
    let (reclaimed, live) = experimental_gc_internal(&mut collector.gc, Strategy::Young);
    let mem = &collector.gc.heap.mem;
    assert_eq!(collector.gc.heap.limits.free, 0x1030);
    assert_eq!(reclaimed.0, 0x18);
    assert_eq!(live.0, 0x30);
    // A stays where it was.
    assert_eq!(mem.load(0x1000), TAG_ARRAY);
    assert_eq!(mem.load(0x1004), skew(0x1000).0);
    assert_eq!(mem.load(0x1008), 3);
    assert_eq!(mem.load(0x100C), 2);
    assert_eq!(mem.load(0x1010), 4);
    assert_eq!(mem.load(0x1014), 6);
    // C lies where B was, and still refers to A.
    assert_eq!(mem.load(0x1018), TAG_ARRAY);
    assert_eq!(mem.load(0x101C), skew(0x1018).0);
    assert_eq!(mem.load(0x1020), 3);
    assert_eq!(mem.load(0x1024), skew(0x1000).0);
    assert_eq!(mem.load(0x1028), 12);
    assert_eq!(mem.load(0x102C), 14);
    // The roots follow.
    assert_eq!(mem.load(root_field(0)), skew(0x1000).0);
    assert_eq!(mem.load(root_field(1)), skew(0x1018).0);
}

#[test]
fn cycle_above_the_critical_limit_is_full() {
    let mut run = 0;
    assert_eq!(decide_strategy(&mut run, CRITICAL_MEMORY_LIMIT + 4), Strategy::Full);
    assert_eq!(run, 1);
    assert_eq!(decide_strategy(&mut run, CRITICAL_MEMORY_LIMIT + 1), Strategy::Full);
    assert_eq!(run, 2);
    // At the limit itself, and below it, the cycle is a young one.
    let mut run = 0;
    assert_eq!(decide_strategy(&mut run, CRITICAL_MEMORY_LIMIT), Strategy::Young);
    assert_eq!(decide_strategy(&mut run, CRITICAL_MEMORY_LIMIT - 4), Strategy::Young);
    assert_eq!(decide_strategy(&mut run, CRITICAL_MEMORY_LIMIT), Strategy::Full);
    assert_eq!(run, 3);
}

#[test]
fn every_third_cycle_is_full() {
    let mut run = 0;
    assert_eq!(decide_strategy(&mut run, 0x2000), Strategy::Young);
    assert_eq!(decide_strategy(&mut run, 0x2000), Strategy::Young);
    assert_eq!(decide_strategy(&mut run, 0x2000), Strategy::Full);
    assert_eq!(run, 3);
    assert_eq!(decide_strategy(&mut run, 0x2000), Strategy::Young);
    assert_eq!(run, 4);
    assert_eq!(decide_strategy(&mut run, 0x2000), Strategy::Young);
    assert_eq!(decide_strategy(&mut run, 0x2000), Strategy::Full);
    assert_eq!(run, 6);
    // The count goes on from wherever it stands.
    let mut run = 299;
    assert_eq!(decide_strategy(&mut run, 0x2000), Strategy::Full);
    assert_eq!(run, 300);
    let mut run = u32::MAX - 1;
    assert_eq!(decide_strategy(&mut run, 0x2000), Strategy::Full);
    assert_eq!(run, u32::MAX);
}

#[test]
fn full_cycle_keeps_a_cycle_of_objects_together() {
    let mut heap = heap_with_roots(&[skew(0x1020).0]);
    let dead1 = new_blob(&mut heap, 20);
    let first = new_mutbox(&mut heap, skew(0x103C).0);
    let dead2 = new_array(&mut heap, &[skew(0x1020).0]);
    let second = new_mutbox(&mut heap, skew(0x1020).0);
    assert_eq!((dead1, first, dead2, second), (0x1000, 0x1020, 0x102C, 0x103C));
    assert_eq!(heap.limits.free, 0x1048);
    let mut collector = Collector::new(heap);
    let (reclaimed, live) = experimental_gc_internal(&mut collector.gc, Strategy::Full);
    let mem = &collector.gc.heap.mem;
    assert_eq!(collector.gc.heap.limits.free, 0x1018);
    assert_eq!(reclaimed.0, 0x30);
    assert_eq!(live.0, 0x18);
    assert_eq!(mem.load(0x1000), TAG_MUTBOX);
    assert_eq!(mem.load(0x1004), skew(0x1000).0);
    assert_eq!(mem.load(0x1008), skew(0x100C).0);
    assert_eq!(mem.load(0x100C), TAG_MUTBOX);
    assert_eq!(mem.load(0x1010), skew(0x100C).0);
    assert_eq!(mem.load(0x1014), skew(0x1000).0);
    assert_eq!(mem.load(root_field(0)), skew(0x1000).0);
}

#[test]
fn stale_recorded_field_keeps_nothing_alive() {
    let mut heap = heap_with_roots(&[skew(0x1000).0]);
    let old = new_mutbox(&mut heap, skew(0x100C).0);
    heap.limits.last_free = heap.limits.free;
    let young = new_blob(&mut heap, 0);
    assert_eq!((old, young), (0x1000, 0x100C));
    let mut collector = Collector::new(heap);
    collector.record(old + 8, skew(young).0);
    assert_eq!(collector.gc.remembered_set.count(), 1);
    // The mutator overwrites the field with a scalar.
    collector.gc.heap.mem.store(old + 8, 42);
    let (reclaimed, _) = experimental_gc_internal(&mut collector.gc, Strategy::Young);
    assert_eq!(collector.gc.marked_space, 0);
    assert_eq!(collector.gc.heap.limits.free, 0x100C);
    assert_eq!(reclaimed.0, 0xC);
    assert_eq!(collector.gc.heap.mem.load(old), TAG_MUTBOX);
    assert_eq!(collector.gc.heap.mem.load(old + 8), 42);
}

#[test]
fn recorded_field_keeps_a_young_object_alive_and_follows_it() {
    let mut heap = heap_with_roots(&[skew(0x1000).0]);
    let old = new_mutbox(&mut heap, 0);
    heap.limits.last_free = heap.limits.free;
    let dead = new_blob(&mut heap, 64);
    let young = new_blob(&mut heap, 0);
    assert_eq!((old, dead, young), (0x1000, 0x100C, 0x1058));
    let mut collector = Collector::new(heap);
    collector.gc.heap.mem.store(old + 8, skew(young).0);
    collector.record(old + 8, skew(young).0);
    collector.experimental_gc();
    assert_eq!(collector.gc.strategy, Strategy::Young);
    assert_eq!(collector.gc.marked_space, 12);
    assert_eq!(collector.gc.heap.limits.free, 0x1018);
    assert_eq!(collector.gc.heap.limits.last_free, 0x1018);
    assert_eq!(collector.gc.heap.mem.load(old + 8), skew(0x100C).0);
    assert_eq!(collector.gc.heap.mem.load(0x100C), TAG_BLOB);
    assert_eq!(collector.gc.heap.mem.load(0x1010), skew(0x100C).0);
    assert_eq!(collector.gc.remembered_set.count(), 0);
    assert_eq!(collector.reclaimed.0, 0x4C);
    assert_eq!(collector.max_live.0, 0x18);
}

#[test]
fn long_array_is_marked_in_slices() {
    let mut heap = heap_with_roots(&[skew(0x1000).0]);
    let len = 300u32;
    let target = 0x1000 + 4 * (3 + len) + 0x100;
    let mut elems = vec![0u32; len as usize];
    elems[0] = skew(target).0;
    elems[130] = skew(target + 12).0;
    elems[299] = skew(target + 24).0;
    let array = new_array(&mut heap, &elems);
    let dead = new_blob(&mut heap, 0x100 - 12);
    let t0 = new_mutbox(&mut heap, 1);
    let t1 = new_mutbox(&mut heap, 3);
    let t2 = new_mutbox(&mut heap, 5);
    assert_eq!(array, 0x1000);
    assert_eq!(t0, target);
    let mut collector = Collector::new(heap);
    let (reclaimed, _) = experimental_gc_internal(&mut collector.gc, Strategy::Full);
    assert_eq!(reclaimed.0, 0x100);
    assert_eq!(collector.gc.marked_space, 4 * (3 + len) + 36);
    let mem = &collector.gc.heap.mem;
    assert_eq!(mem.load(array + 12), skew(dead).0);
    assert_eq!(mem.load(array + 12 + 4 * 130), skew(dead + 12).0);
    assert_eq!(mem.load(array + 12 + 4 * 299), skew(dead + 24).0);
    assert_eq!(mem.load(dead + 8), 1);
    assert_eq!(mem.load(dead + 12 + 8), 3);
    assert_eq!(mem.load(dead + 24 + 8), 5);
    let _ = (t1, t2);
}

#[test]
fn young_cycle_passes_over_fillers_in_the_old_generation() {
    let mut heap = heap_with_roots(&[0]);
    let filler = place(&mut heap, &[TAG_ONE_WORD_FILLER]);
    let old = new_mutbox(&mut heap, 0);
    heap.limits.last_free = heap.limits.free;
    let dead = new_blob(&mut heap, 8);
    let young = new_mutbox(&mut heap, skew(old).0);
    let mut collector = Collector::new(heap);
    collector.gc.heap.mem.store(old + 8, skew(young).0);
    collector.record(old + 8, skew(young).0);
    let (reclaimed, _) = experimental_gc_internal(&mut collector.gc, Strategy::Young);
    assert_eq!(reclaimed.0, 20);
    let mem = &collector.gc.heap.mem;
    assert_eq!(mem.load(filler), TAG_ONE_WORD_FILLER);
    assert_eq!(mem.load(old), TAG_MUTBOX);
    assert_eq!(mem.load(old + 8), skew(dead).0);
    assert_eq!(mem.load(dead), TAG_MUTBOX);
    assert_eq!(mem.load(dead + 4), skew(dead).0);
    assert_eq!(mem.load(dead + 8), skew(old).0);
}

#[test]
fn collection_is_due_at_the_threshold() {
    let heap_size: u64 = 0x1_0000_0000;
    let threshold: u64 = heap_size - 0x2000_0000 - heap_size / 32;
    assert_eq!(threshold, 0xD800_0000);
    let mut heap = heap_with_roots(&[0]);
    new_blob(&mut heap, 0);
    let collector = Collector::new(heap);
    assert!(collector.should_do_gc(motoko_rts::types::Bytes(12)));
    assert!(collector.should_do_gc(motoko_rts::types::Bytes(0)));
    assert!(!collector.should_do_gc(motoko_rts::types::Bytes(13)));
    assert!(!collector.should_do_gc(motoko_rts::types::Bytes(threshold)));
}

#[test]
fn scheduled_collection_runs_only_when_due() {
    let mut heap = heap_with_roots(&[0]);
    new_blob(&mut heap, 0);
    let mut collector = Collector::new(heap);
    assert!(!collector.schedule_experimental_gc(0x1_0000_0000));
    assert_eq!(collector.run, 0);
    assert_eq!(collector.gc.heap.limits.free, 0x100C);
    // A reservation whose threshold is the 12 bytes that the heap holds.
    let small: u64 = 0x2108_421C;
    assert_eq!(small - 0x2000_0000 - small / 32, 12);
    assert!(collector.schedule_experimental_gc(small));
    assert_eq!(collector.run, 1);
    assert_eq!(collector.gc.heap.limits.free, 0x1000);
    assert_eq!(collector.reclaimed.0, 12);
}
