use motoko_rts::bitmap::{Bitmap, BITMAP_ITER_END};
use motoko_rts::experimental::{experimental_gc_internal, Collector, Strategy};
use motoko_rts::mark_stack::MarkStack;
use motoko_rts::types::Bytes;
use motoko_rts::heap::{Heap, Limits, Roots};
use motoko_rts::memory::Memory;
use motoko_rts::types::{
    skew, TAG_ARRAY, TAG_BITS64, TAG_BLOB, TAG_CLOSURE, TAG_CONCAT, TAG_MUTBOX, TAG_OBJECT,
    TAG_OBJ_IND, TAG_SOME, TAG_VARIANT,
};

const BASE: u32 = 0x1000;
const ROOT_ARRAY: u32 = 0x100;
const ROOT_BOXES: u32 = 0x200;
const TABLE_LOC: u32 = 0x300;

struct Builder {
    heap: Heap,
}

impl Builder {
    fn with_root_boxes(boxes: &[u32], fields: &[(u32, u32)]) -> Builder {
        let mut mem = Memory::new(0x1000);
        mem.store(ROOT_ARRAY, TAG_ARRAY);
        mem.store(ROOT_ARRAY + 4, skew(ROOT_ARRAY).0);
        mem.store(ROOT_ARRAY + 8, boxes.len() as u32);
        for (i, root_box) in boxes.iter().enumerate() {
            mem.store(ROOT_ARRAY + 12 + 4 * i as u32, skew(*root_box).0);
        }
        for (root_box, value) in fields {
            mem.store(*root_box, TAG_MUTBOX);
            mem.store(*root_box + 4, skew(*root_box).0);
            mem.store(*root_box + 8, *value);
        }
        Builder {
            heap: Heap {
                mem,
                limits: Limits { base: BASE, last_free: BASE, free: BASE },
                roots: Roots {
                    static_roots: skew(ROOT_ARRAY),
                    continuation_table_ptr_loc: TABLE_LOC,
                },
            },
        }
    }

    fn with_roots(roots: &[u32]) -> Builder {
        let boxes: Vec<u32> = (0..roots.len() as u32).map(|i| ROOT_BOXES + 12 * i).collect();
        let fields: Vec<(u32, u32)> =
            boxes.iter().cloned().zip(roots.iter().cloned()).collect();
        Builder::with_root_boxes(&boxes, &fields)
    }

    fn put(&mut self, tag: u32, rest: &[u32]) -> u32 {
        let addr = self.heap.limits.free;
        self.heap.mem.store(addr, tag);
        self.heap.mem.store(addr + 4, skew(addr).0);
        for (i, w) in rest.iter().enumerate() {
            self.heap.mem.store(addr + 8 + 4 * i as u32, *w);
        }
        self.heap.limits.free = addr + 8 + 4 * rest.len() as u32;
        addr
    }

    fn garbage(&mut self, bytes: u32) -> u32 {
        let mut rest = vec![bytes];
        rest.extend(std::iter::repeat(0x5555_5555).take(((bytes + 3) / 4) as usize));
        self.put(TAG_BLOB, &rest)
    }
}

fn words(mem: &Memory, addr: u32, n: u32) -> Vec<u32> {
    (0..n).map(|i| mem.load(addr + 4 * i)).collect()
}

#[test]
fn object_reached_twice_is_counted_once() {
    let mut b = Builder::with_roots(&[skew(0x1000).0, skew(0x1000).0, skew(0x100C).0]);
    let shared = b.put(TAG_MUTBOX, &[7]);
    let first = b.put(TAG_ARRAY, &[2, skew(shared).0, skew(shared).0]);
    b.garbage(400);
    let mut collector = Collector::new(b.heap);
    let (_, live) = experimental_gc_internal(&mut collector.gc, Strategy::Full);
    assert_eq!(collector.gc.marked_space, 12 + 20);
    assert_eq!(live.0, 32);
    assert_eq!(collector.gc.heap.limits.free, 0x1020);
    assert_eq!(
        words(&collector.gc.heap.mem, first, 5),
        vec![TAG_ARRAY, skew(first).0, 2, skew(shared).0, skew(shared).0]
    );
}

#[test]
fn every_kind_of_object_has_its_pointers_followed_and_rewritten() {
    let mut b = Builder::with_roots(&[0]);
    b.garbage(40);
    let leaf = b.put(TAG_BITS64, &[0x1234_5677, 0x9ABC_DEF1]);
    b.garbage(4);
    let object = b.put(TAG_OBJECT, &[2, 0xFFFF_FFFF, skew(leaf).0, 10]);
    b.garbage(0);
    let closure = b.put(TAG_CLOSURE, &[77, 2, skew(object).0, skew(leaf).0]);
    let variant = b.put(TAG_VARIANT, &[5, skew(closure).0]);
    b.garbage(8);
    let concat = b.put(TAG_CONCAT, &[9, skew(leaf).0, skew(variant).0]);
    let some = b.put(TAG_SOME, &[skew(concat).0]);
    let ind = b.put(TAG_OBJ_IND, &[skew(some).0]);
    b.garbage(12);
    let root = b.put(TAG_MUTBOX, &[skew(ind).0]);
    b.heap.mem.store(ROOT_BOXES + 8, skew(root).0);
    let old_free = b.heap.limits.free;
    let mut collector = Collector::new(b.heap);
    let (reclaimed, live) = experimental_gc_internal(&mut collector.gc, Strategy::Full);
    let garbage = (12 + 40) + (12 + 4) + 12 + (12 + 8) + (12 + 12);
    assert_eq!(reclaimed.0, garbage);
    assert_eq!(live.0, old_free - BASE - garbage);
    let mem = &collector.gc.heap.mem;
    let leaf2 = BASE;
    let object2 = leaf2 + 16;
    let closure2 = object2 + 24;
    let variant2 = closure2 + 24;
    let concat2 = variant2 + 16;
    let some2 = concat2 + 20;
    let ind2 = some2 + 12;
    let root2 = ind2 + 12;
    assert_eq!(collector.gc.heap.limits.free, root2 + 12);
    assert_eq!(words(mem, leaf2, 4), vec![TAG_BITS64, skew(leaf2).0, 0x1234_5677, 0x9ABC_DEF1]);
    assert_eq!(
        words(mem, object2, 6),
        vec![TAG_OBJECT, skew(object2).0, 2, 0xFFFF_FFFF, skew(leaf2).0, 10]
    );
    assert_eq!(
        words(mem, closure2, 6),
        vec![TAG_CLOSURE, skew(closure2).0, 77, 2, skew(object2).0, skew(leaf2).0]
    );
    assert_eq!(words(mem, variant2, 4), vec![TAG_VARIANT, skew(variant2).0, 5, skew(closure2).0]);
    assert_eq!(
        words(mem, concat2, 5),
        vec![TAG_CONCAT, skew(concat2).0, 9, skew(leaf2).0, skew(variant2).0]
    );
    assert_eq!(words(mem, some2, 3), vec![TAG_SOME, skew(some2).0, skew(concat2).0]);
    assert_eq!(words(mem, ind2, 3), vec![TAG_OBJ_IND, skew(ind2).0, skew(some2).0]);
    assert_eq!(words(mem, root2, 3), vec![TAG_MUTBOX, skew(root2).0, skew(ind2).0]);
    assert_eq!(mem.load(ROOT_BOXES + 8), skew(root2).0);
}

#[test]
fn object_that_refers_to_itself_keeps_doing_so() {
    let mut b = Builder::with_roots(&[0]);
    b.garbage(100);
    let me = b.heap.limits.free;
    b.put(TAG_ARRAY, &[3, skew(me).0, 8, skew(me).0]);
    b.heap.mem.store(ROOT_BOXES + 8, skew(me).0);
    let mut collector = Collector::new(b.heap);
    experimental_gc_internal(&mut collector.gc, Strategy::Full);
    assert_eq!(
        words(&collector.gc.heap.mem, BASE, 6),
        vec![TAG_ARRAY, skew(BASE).0, 3, skew(BASE).0, 8, skew(BASE).0]
    );
    assert_eq!(collector.gc.heap.mem.load(ROOT_BOXES + 8), skew(BASE).0);
    assert_eq!(collector.gc.heap.limits.free, BASE + 24);
}

#[test]
fn continuation_table_is_a_root() {
    let mut b = Builder::with_roots(&[]);
    b.garbage(60);
    let table = b.put(TAG_ARRAY, &[1, 0]);
    let entry = b.put(TAG_BLOB, &[4, 0xCAFE]);
    b.heap.mem.store(table + 12, skew(entry).0);
    b.heap.mem.store(TABLE_LOC, skew(table).0);
    let mut collector = Collector::new(b.heap);
    let (reclaimed, _) = experimental_gc_internal(&mut collector.gc, Strategy::Young);
    assert_eq!(reclaimed.0, 72);
    let mem = &collector.gc.heap.mem;
    assert_eq!(mem.load(TABLE_LOC), skew(BASE).0);
    assert_eq!(words(mem, BASE, 4), vec![TAG_ARRAY, skew(BASE).0, 1, skew(BASE + 16).0]);
    assert_eq!(words(mem, BASE + 16, 4), vec![TAG_BLOB, skew(BASE + 16).0, 4, 0xCAFE]);
}

#[test]
fn root_box_named_twice_is_threaded_once() {
    let root_box = ROOT_BOXES;
    let mut b = Builder::with_root_boxes(&[root_box, root_box], &[(root_box, 0)]);
    b.garbage(32);
    let target = b.put(TAG_MUTBOX, &[3]);
    b.heap.mem.store(root_box + 8, skew(target).0);
    let mut collector = Collector::new(b.heap);
    experimental_gc_internal(&mut collector.gc, Strategy::Full);
    let mem = &collector.gc.heap.mem;
    assert_eq!(mem.load(root_box + 8), skew(BASE).0);
    assert_eq!(words(mem, BASE, 3), vec![TAG_MUTBOX, skew(BASE).0, 3]);
    assert_eq!(mem.load(ROOT_ARRAY + 12), skew(root_box).0);
    assert_eq!(mem.load(ROOT_ARRAY + 16), skew(root_box).0);
}

#[test]
fn cycles_follow_each_other_young_young_full() {
    let mut b = Builder::with_roots(&[0]);
    let keeper = b.put(TAG_ARRAY, &[2, 0, 0]);
    b.heap.mem.store(ROOT_BOXES + 8, skew(keeper).0);
    b.garbage(200);
    let mut collector = Collector::new(b.heap);

    // First cycle, young: everything is young, the garbage goes.
    collector.experimental_gc();
    assert_eq!(collector.gc.strategy, Strategy::Young);
    assert_eq!(collector.gc.heap.limits.free, BASE + 20);
    assert_eq!(collector.gc.heap.limits.last_free, BASE + 20);
    assert_eq!(collector.reclaimed.0, 212);

    // The mutator allocates two objects and stores one into the keeper.
    let free = collector.gc.heap.limits.free;
    let kept = free;
    for (i, w) in [TAG_MUTBOX, skew(kept).0, 21].iter().enumerate() {
        collector.gc.heap.mem.store(kept + 4 * i as u32, *w);
    }
    let lost = kept + 12;
    for (i, w) in [TAG_BLOB, skew(lost).0, 64].iter().enumerate() {
        collector.gc.heap.mem.store(lost + 4 * i as u32, *w);
    }
    let tail = lost + 12 + 64;
    for (i, w) in [TAG_MUTBOX, skew(tail).0, skew(kept).0].iter().enumerate() {
        collector.gc.heap.mem.store(tail + 4 * i as u32, *w);
    }
    collector.gc.heap.limits.free = tail + 12;
    collector.gc.heap.mem.store(keeper + 16, skew(tail).0);
    collector.record(keeper + 16, skew(tail).0);

    // Second cycle, young: the old keeper stays, the young survivors slide.
    collector.experimental_gc();
    assert_eq!(collector.gc.strategy, Strategy::Young);
    assert_eq!(collector.run, 2);
    let mem = &collector.gc.heap.mem;
    assert_eq!(
        words(mem, keeper, 5),
        vec![TAG_ARRAY, skew(keeper).0, 2, 0, skew(kept + 12).0]
    );
    assert_eq!(words(mem, kept, 3), vec![TAG_MUTBOX, skew(kept).0, 21]);
    assert_eq!(words(mem, kept + 12, 3), vec![TAG_MUTBOX, skew(kept + 12).0, skew(kept).0]);
    assert_eq!(collector.gc.heap.limits.free, kept + 24);
    assert_eq!(collector.reclaimed.0, 212 + 76);
    assert_eq!(collector.max_live.0, 44);

    // The keeper drops its reference; only a full cycle finds that out.
    collector.gc.heap.mem.store(keeper + 16, 0);
    collector.experimental_gc();
    assert_eq!(collector.gc.strategy, Strategy::Full);
    assert_eq!(collector.run, 3);
    assert_eq!(collector.gc.heap.limits.free, BASE + 20);
    assert_eq!(collector.gc.heap.limits.last_free, BASE + 20);
    assert_eq!(collector.reclaimed.0, 212 + 76 + 24);
    assert_eq!(collector.max_live.0, 44);
    assert_eq!(
        words(&collector.gc.heap.mem, keeper, 5),
        vec![TAG_ARRAY, skew(keeper).0, 2, 0, 0]
    );
}

#[test]
fn empty_heap_is_left_alone() {
    let b = Builder::with_roots(&[]);
    let mut collector = Collector::new(b.heap);
    let (reclaimed, live) = experimental_gc_internal(&mut collector.gc, Strategy::Full);
    assert_eq!((reclaimed.0, live.0), (0, 0));
    assert_eq!(collector.gc.heap.limits.free, BASE);
    collector.experimental_gc();
    assert_eq!(collector.gc.heap.limits.last_free, BASE);
}

#[test]
fn survivors_never_move_up_and_keep_their_order() {
    let mut b = Builder::with_roots(&[0, 0, 0]);
    let mut live = Vec::new();
    for i in 0..3u32 {
        b.garbage(16 * (i + 1));
        let addr = b.put(TAG_BLOB, &[4, 0x100 + i]);
        b.heap.mem.store(ROOT_BOXES + 12 * i + 8, skew(addr).0);
        live.push(addr);
    }
    let mut collector = Collector::new(b.heap);
    experimental_gc_internal(&mut collector.gc, Strategy::Full);
    let mem = &collector.gc.heap.mem;
    let mut last = 0;
    for i in 0..3u32 {
        let now = mem.load(ROOT_BOXES + 12 * i + 8).wrapping_add(1);
        assert!(now <= live[i as usize]);
        assert!(now > last);
        assert_eq!(now, BASE + 16 * i);
        assert_eq!(words(mem, now, 4), vec![TAG_BLOB, skew(now).0, 4, 0x100 + i]);
        last = now;
    }
}

#[test]
fn mark_phase_marks_a_cycle_of_objects_once_each() {
    let mut b = Builder::with_roots(&[0]);
    b.garbage(8);
    let x = b.heap.limits.free;
    let y = x + 12 + 16;
    b.put(TAG_MUTBOX, &[skew(y).0]);
    b.garbage(4);
    b.put(TAG_MUTBOX, &[skew(x).0]);
    b.garbage(0);
    b.heap.mem.store(ROOT_BOXES + 8, skew(x).0);
    let limits = b.heap.limits;
    let mut gc = Collector::new(b.heap).gc;
    gc.strategy = Strategy::Full;
    gc.bitmap = Bitmap::alloc_bitmap(Bytes(limits.free - limits.base), limits.base / 4);
    gc.mark_stack = MarkStack::alloc_mark_stack();
    gc.mark_phase();
    assert_eq!(gc.marked_space, 24);
    assert_eq!(gc.mark_stack.pop(), None);
    let mut iter = gc.bitmap.iter_bits();
    assert_eq!(iter.next(&gc.bitmap), x / 4);
    assert_eq!(iter.next(&gc.bitmap), y / 4);
    assert_eq!(iter.next(&gc.bitmap), BITMAP_ITER_END);
    assert_eq!(gc.heap.limits.free, limits.free);
    assert_eq!(gc.heap.mem.load(x + 8), skew(y).0);
}

#[test]
fn mark_phase_of_a_young_cycle_leaves_the_old_generation_unmarked() {
    let mut b = Builder::with_roots(&[0]);
    let old = b.put(TAG_MUTBOX, &[0]);
    b.heap.limits.last_free = b.heap.limits.free;
    let stale = b.put(TAG_BLOB, &[0]);
    let young = b.put(TAG_MUTBOX, &[skew(old).0]);
    b.heap.mem.store(ROOT_BOXES + 8, skew(old).0);
    let limits = b.heap.limits;
    let mut collector = Collector::new(b.heap);
    // Two fields are recorded; one is overwritten with a scalar afterwards.
    collector.gc.heap.mem.store(old + 8, skew(young).0);
    collector.record(old + 8, skew(young).0);
    collector.record(old + 4, skew(stale).0);
    let mut gc = collector.gc;
    gc.strategy = Strategy::Young;
    gc.bitmap = Bitmap::alloc_bitmap(Bytes(limits.free - limits.base), limits.base / 4);
    gc.mark_stack = MarkStack::alloc_mark_stack();
    gc.mark_phase();
    assert_eq!(gc.marked_space, 12);
    let mut iter = gc.bitmap.iter_bits();
    assert_eq!(iter.next(&gc.bitmap), young / 4);
    assert_eq!(iter.next(&gc.bitmap), BITMAP_ITER_END);
    assert_eq!(gc.remembered_set.count(), 2);
}
