//! The generational collector: two generations, a mark phase from the
//! roots, and sliding compaction by pointer threading.

use vstd::prelude::*;
use crate::bitmap::Bitmap;
use crate::collection::Cycle;
use crate::compaction::Compaction;
use crate::heap::{index_of, is_start, lemma_index_of, lemma_tiles_bounds, Heap, HeapModel};
use crate::mark_stack::MarkStack;
use crate::memory::{word_at, word_in};
use crate::reachability::{
    lemma_marked_bytes_bound, lemma_marked_bytes_none, lemma_marked_bytes_set, marked_bytes,
};
use crate::remembered_set::RememberedSet;
use crate::types::{Array, Bytes, SkewedPtr, Tag, TAG_ARRAY, TAG_ARRAY_SLICE_MIN, WORD_SIZE};
use crate::visitor::{
    block_words, fields_end, fields_start, is_block, is_field_of, is_object_tag, is_ptr,
    object_size, pointer_fields, pointer_to_dynamic_heap, points_to_dynamic_heap, slice_start,
    slice_stop, unskewed, value_is_ptr,
};

verus! {

/// Which part of the heap a cycle collects.
#[derive(PartialEq, Eq, Clone, Copy, Debug, Structural)]
pub enum Strategy {
    /// The objects allocated since the last cycle.
    Young,
    /// The whole dynamic heap.
    Full,
}

/// Above this high-water mark every cycle collects the whole heap.
pub const CRITICAL_MEMORY_LIMIT: u32 = 0xF000_0000;

/// Of an array at most this many elements are visited at a time.
pub const SLICE_INCREMENT: u32 = 127;

/// The strategy of the cycle that brings the count of cycles to `run`, with
/// the heap's high-water mark at `hp`: every third cycle collects the
/// whole heap, and so does every cycle with the high-water mark above the
/// critical memory limit; any other collects the young generation.
pub open spec fn strategy_of(run: int, hp: int) -> Strategy {
    if run % 3 == 0 || hp > CRITICAL_MEMORY_LIMIT {
        Strategy::Full
    } else {
        Strategy::Young
    }
}

/// Counts the cycle in `run`, the number of cycles so far, and gives its
/// strategy.
pub fn decide_strategy(run: &mut u32, hp: u32) -> (r: Strategy)
    requires
        *old(run) < u32::MAX,
    ensures
        *final(run) == *old(run) + 1,
        r == strategy_of(*final(run) as int, hp as int),
{
    *run = *run + 1;
    if *run % 3 == 0 {
        return Strategy::Full;
    }
    if hp > CRITICAL_MEMORY_LIMIT {
        Strategy::Full
    } else {
        Strategy::Young
    }
}

/// Number of places that a mark-stack entry still has to visit, and one.
pub open spec fn entry_work(m: Seq<u32>, e: (u32, u32)) -> int {
    let rest = fields_end(m, e.0 as int) - fields_start(word_at(m, e.0 as int)) - slice_start(
        e.1,
    );
    if rest > 0 {
        1 + rest
    } else {
        1
    }
}

/// The work that the entries of a mark stack stand for.
pub open spec fn stack_work(m: Seq<u32>, s: Seq<(u32, u32)>) -> int
    decreases s.len(),
{
    if s.len() == 0 {
        0
    } else {
        stack_work(m, s.drop_last()) + entry_work(m, s.last())
    }
}

proof fn lemma_stack_work_push(m: Seq<u32>, s: Seq<(u32, u32)>, e: (u32, u32))
    ensures
        stack_work(m, s.push(e)) == stack_work(m, s) + entry_work(m, e),
        stack_work(m, s) >= 0,
    decreases s.len(),
{
    assert(s.push(e).drop_last() =~= s);
    if s.len() > 0 {
        lemma_stack_work_push(m, s.drop_last(), s.last());
        assert(s.drop_last().push(s.last()) =~= s);
    }
}

/// What the mark phase has done so far: the heap words whose bit is set, by
/// their index; the mark stack; and the bytes counted as marked.
pub ghost struct Marking {
    pub bits: Set<int>,
    pub stack: Seq<(u32, u32)>,
    pub space: int,
}

/// The marking `s` after the object that the stored pointer `v` refers to
/// was marked. An object below the young generation, on a cycle that
/// collects that generation alone, and an object whose bit is set change
/// nothing. For any other object the bit is set, the object goes on the
/// stack with its tag, and its size is counted.
pub open spec fn after_mark(hm: HeapModel, young: bool, s: Marking, v: u32) -> Marking {
    let p = unskewed(v);
    if (young && p < hm.last_free) || s.bits.contains(p / 4) {
        s
    } else {
        Marking {
            bits: s.bits.insert(p / 4),
            stack: s.stack.push((p as u32, word_at(hm.m, p))),
            space: s.space + 4 * block_words(hm.m, p),
        }
    }
}

/// The marking `s` after the place at `loc` was visited: what it refers to
/// is marked where it holds a pointer into the dynamic heap.
pub open spec fn after_field(hm: HeapModel, young: bool, s: Marking, loc: int) -> Marking {
    if points_to_dynamic_heap(word_at(hm.m, loc), hm.base) {
        after_mark(hm, young, s, word_at(hm.m, loc))
    } else {
        s
    }
}

/// The marking `s` after the places from `first` up to `stop` were visited
/// in ascending order.
pub open spec fn after_fields(
    hm: HeapModel,
    young: bool,
    s: Marking,
    first: int,
    stop: int,
) -> Marking
    decreases stop - first,
{
    if stop - first < 4 {
        s
    } else {
        after_field(hm, young, after_fields(hm, young, s, first, stop - 4), stop - 4)
    }
}

/// The marking `s` after the entry `(obj, tag)` was taken up: where the
/// object is an array with more than `SLICE_INCREMENT` elements from the
/// index that `tag` stands for, the rest goes on the stack as one entry,
/// the array with the index at which it resumes.
pub open spec fn with_rest(hm: HeapModel, s: Marking, obj: u32, tag: Tag) -> Marking {
    if word_at(hm.m, obj as int) == TAG_ARRAY && word_at(hm.m, obj + 8) - slice_start(tag)
        > SLICE_INCREMENT {
        Marking { stack: s.stack.push((obj, (slice_start(tag) + SLICE_INCREMENT) as u32)), ..s }
    } else {
        s
    }
}

/// Whether the recorded field with index `j` now holds a pointer into the
/// young generation.
pub open spec fn holds_young_pointer(hm: HeapModel, recorded: Seq<u32>, j: int) -> bool {
    is_ptr(word_at(hm.m, recorded[j] as int)) && unskewed(word_at(hm.m, recorded[j] as int))
        >= hm.last_free
}

/// The marking `s` after the first `n` recorded fields were visited, on a
/// cycle that collects the young generation: each field that now holds a
/// pointer into that generation has what it refers to marked; any other
/// field changes nothing.
pub open spec fn after_recorded(hm: HeapModel, s: Marking, recorded: Seq<u32>, n: int) -> Marking
    decreases n,
{
    if n <= 0 {
        s
    } else if holds_young_pointer(hm, recorded, n - 1) {
        after_mark(
            hm,
            true,
            after_recorded(hm, s, recorded, n - 1),
            word_at(hm.m, recorded[n - 1] as int),
        )
    } else {
        after_recorded(hm, s, recorded, n - 1)
    }
}

/// The marking `s` after the fields of the first `n` static root boxes
/// were visited.
pub open spec fn after_static_roots(hm: HeapModel, young: bool, s: Marking, n: int) -> Marking
    decreases n,
{
    if n <= 0 {
        s
    } else {
        after_field(hm, young, after_static_roots(hm, young, s, n - 1), hm.root_field(n - 1))
    }
}

/// The marking `s` after the roots were visited: the static root boxes,
/// then the continuation-table word where it holds a pointer, then, on a
/// cycle that collects the young generation alone, the recorded fields.
pub open spec fn after_roots(
    hm: HeapModel,
    young: bool,
    s: Marking,
    recorded: Seq<u32>,
) -> Marking {
    let boxes = after_static_roots(hm, young, s, hm.root_count());
    let table = if is_ptr(word_at(hm.m, hm.cont_loc)) {
        after_mark(hm, young, boxes, word_at(hm.m, hm.cont_loc))
    } else {
        boxes
    };
    if young {
        after_recorded(hm, table, recorded, recorded.len() as int)
    } else {
        table
    }
}

/// The state of one collection cycle.
pub struct ExperimentalGC {
    pub heap: Heap,
    pub remembered_set: RememberedSet,
    pub strategy: Strategy,
    pub marked_space: u32,
    pub bitmap: Bitmap,
    pub mark_stack: MarkStack,
}

impl ExperimentalGC {
    /// Whether the cycle collects the young generation alone.
    pub open spec fn young(&self) -> bool {
        self.strategy == Strategy::Young
    }

    /// First address of the generation that the cycle collects.
    pub open spec fn scope_start(&self) -> int {
        self.heap@.scope_start(self.young())
    }

    /// What the mark phase has done so far.
    pub open spec fn marking(&self) -> Marking {
        Marking {
            bits: Set::new(|idx: int| self.bitmap.is_set(idx)),
            stack: self.mark_stack@,
            space: self.marked_space as int,
        }
    }

    /// Whether the object at `t` is marked.
    pub open spec fn marked(&self, t: int) -> bool {
        t % 4 == 0 && self.bitmap.is_set(t / 4)
    }

    /// The recorded fields are words of the memory, and one that holds a
    /// pointer into the young generation refers to an object.
    pub open spec fn remembered_valid(&self, starts: Seq<int>) -> bool {
        self.heap@.remembered_valid(starts, self.remembered_set@)
    }

    /// The cycle that this state stands at the start of.
    pub open spec fn cycle(&self) -> Cycle {
        Cycle { before: self.heap@, recorded: self.remembered_set@, young: self.young() }
    }

    /// Whether `t` is an object that the cycle may mark.
    closed spec fn markable(&self, starts: Seq<int>, t: int) -> bool {
        &&& is_start(starts, t)
        &&& is_object_tag(word_at(self.heap@.m, t))
        &&& t >= self.scope_start()
        &&& self.heap@.reachable(self.remembered_set@, self.young(), t)
    }

    /// Whether a mark-stack entry names a marked object with its tag, or a
    /// marked array with the index of one of its elements.
    closed spec fn entry_ok(&self, e: (u32, u32)) -> bool {
        &&& self.marked(e.0 as int)
        &&& (e.1 == word_at(self.heap@.m, e.0 as int) || (e.1 >= TAG_ARRAY_SLICE_MIN && word_at(
            self.heap@.m,
            e.0 as int,
        ) == TAG_ARRAY && e.1 <= word_at(self.heap@.m, e.0 as int + 8)))
    }

    /// What holds between the steps of the mark phase.
    #[verifier::opaque]
    closed spec fn mark_inv(&self, starts: Seq<int>) -> bool {
        &&& self.heap@.well_formed_with(starts)
        &&& (self.young() ==> self.remembered_valid(starts))
        &&& self.bitmap.well_formed()
        &&& self.bitmap.base() == self.heap@.base / 4
        &&& self.bitmap.len() == (self.heap@.free - self.heap@.base) / 4
        &&& forall|idx: int| #[trigger] self.bitmap.is_set(idx) ==> self.markable(starts, 4 * idx)
        &&& self.marked_space == marked_bytes(
            self.heap@.m,
            starts,
            self.bitmap,
            starts.len() - 1,
        )
        &&& forall|e: int|
            0 <= e < self.mark_stack@.len() ==> self.entry_ok(#[trigger] self.mark_stack@[e])
    }

    /// Whether the place `loc` of the object at `a` is still to be visited
    /// by an entry of the mark stack.
    closed spec fn pending(&self, a: int, loc: int) -> bool {
        exists|e: int|
            0 <= e < self.mark_stack@.len() && (#[trigger] self.mark_stack@[e]).0 == a && loc >= a
                + 4 * fields_start(word_at(self.heap@.m, a)) + 4 * slice_start(
                self.mark_stack@[e].1,
            )
    }

    /// Whether the place `loc` of the object at `a` is dealt with: what it
    /// refers to in the collected generation is marked, or the place is
    /// still to be visited, on the stack or in the range `cur.1 .. cur.2`
    /// of the object `cur.0`.
    closed spec fn field_done(&self, a: int, loc: int, cur: (int, int, int)) -> bool {
        let v = word_at(self.heap@.m, loc);
        points_to_dynamic_heap(v, self.heap@.base) && unskewed(v) >= self.scope_start() ==> {
            ||| self.marked(unskewed(v))
            ||| self.pending(a, loc)
            ||| (a == cur.0 && cur.1 <= loc < cur.2)
        }
    }

    /// Every place of every marked object is dealt with.
    #[verifier::opaque]
    closed spec fn closed_except(&self, cur: (int, int, int)) -> bool {
        forall|a: int, loc: int|
            #![trigger is_field_of(self.heap@.m, a, loc)]
            self.marked(a) && is_field_of(self.heap@.m, a, loc) ==> self.field_done(a, loc, cur)
    }

    /// Size in bytes of the generation that the cycle collects.
    pub fn generation_size(&self) -> (r: u32)
        requires
            self.heap@.base <= self.heap@.last_free <= self.heap@.free,
        ensures
            r == self.heap@.free - self.scope_start(),
    {
        let base: u32 = match self.strategy {
            Strategy::Young => self.heap.limits.last_free,
            Strategy::Full => self.heap.limits.base,
        };
        self.heap.limits.free - base
    }

    /// Whether less than 95% of the collected generation is marked, so
    /// that compacting it pays.
    pub fn is_compaction_beneficial(&self) -> (r: bool)
        requires
            self.heap@.base <= self.heap@.last_free <= self.heap@.free,
        ensures
            r == compaction_pays(self.marked_space as int, self.heap@.free - self.scope_start()),
    {
        compaction_is_beneficial(self.marked_space, self.generation_size())
    }

    /// Marks the object that the stored pointer `object` refers to, unless
    /// it is marked already or lies outside the collected generation: sets
    /// its bit, puts it on the mark stack and counts its size.
    #[verifier::rlimit(40)]
    fn mark_object(
        &mut self,
        object: u32,
        Ghost(starts): Ghost<Seq<int>>,
        Ghost(cur): Ghost<(int, int, int)>,
    )
        requires
            old(self).mark_inv(starts),
            old(self).closed_except(cur),
            old(self).heap@.valid_target(starts, object),
            unskewed(object) >= old(self).scope_start() ==> old(self).heap@.reachable(
                old(self).remembered_set@,
                old(self).young(),
                unskewed(object),
            ),
        ensures
            final(self).mark_inv(starts),
            final(self).closed_except(cur),
            final(self).heap == old(self).heap,
            final(self).remembered_set == old(self).remembered_set,
            final(self).strategy == old(self).strategy,
            unskewed(object) >= old(self).scope_start() ==> final(self).marked(unskewed(object)),
            forall|t: int| old(self).marked(t) ==> final(self).marked(t),
            old(self).mark_stack@.is_prefix_of(final(self).mark_stack@),
            final(self).marked_space >= old(self).marked_space,
            final(self).marked_space == old(self).marked_space ==> final(self).mark_stack@ == old(
                self,
            ).mark_stack@ && final(self).bitmap == old(self).bitmap,
            final(self).marking() == after_mark(
                old(self).heap@,
                old(self).young(),
                old(self).marking(),
                object,
            ),
            (old(self).young() && unskewed(object) < old(self).heap@.last_free) || old(
                self,
            ).marked(unskewed(object)) ==> *final(self) == *old(self),
    {
        let pointer: u32 = SkewedPtr(object).unskew();
        proof {
            reveal(ExperimentalGC::mark_inv);
            reveal(ExperimentalGC::closed_except);
            let k = index_of(starts, pointer as int);
            lemma_tiles_bounds(self.heap@.m, starts, self.heap@.base, self.heap@.free, k);
            lemma_index_of(self.heap@.m, starts, self.heap@.base, self.heap@.free, k);
        }
        if self.strategy == Strategy::Young && pointer < self.heap.limits.last_free {
            return;
        }
        let obj_idx: u32 = pointer / WORD_SIZE;
        if self.bitmap.get_bit(obj_idx) {
            proof {
                assert(self.marking().bits.contains(pointer as int / 4));
            }
            return;
        }
        proof {
            assert(!self.marking().bits.contains(pointer as int / 4));
        }
        self.bitmap.set_bit(obj_idx);
        let tag: Tag = self.heap.mem.load(pointer);
        self.mark_stack.push(pointer, tag);
        proof {
            let k = index_of(starts, pointer as int);
            let n = starts.len() - 1;
            lemma_marked_bytes_set(
                self.heap@.m,
                starts,
                old(self).bitmap,
                self.bitmap,
                self.heap@.base,
                self.heap@.free,
                k,
                n,
            );
            assert forall|idx: int| self.bitmap.is_set(idx) implies 4 * idx
                >= self.scope_start() by {
                if idx != obj_idx {
                    assert(old(self).markable(starts, 4 * idx));
                }
            }
            lemma_marked_bytes_bound(
                self.heap@.m,
                starts,
                self.bitmap,
                self.heap@.base,
                self.heap@.free,
                self.scope_start(),
                n,
            );
        }
        let obj_size: u32 = object_size(&self.heap.mem, pointer).to_bytes().0;
        self.marked_space += obj_size;
        proof {
            assert(self.marking().bits =~= old(self).marking().bits.insert(pointer as int / 4));
            assert(self.marking() == after_mark(
                old(self).heap@,
                old(self).young(),
                old(self).marking(),
                object,
            ));
        }
        proof {
            assert forall|idx: int| #[trigger] self.bitmap.is_set(idx) implies self.markable(
                starts,
                4 * idx,
            ) by {
                if idx != obj_idx {
                    assert(old(self).markable(starts, 4 * idx));
                }
            }
            assert forall|e: int| 0 <= e < self.mark_stack@.len() implies self.entry_ok(
                #[trigger] self.mark_stack@[e],
            ) by {
                if e < old(self).mark_stack@.len() {
                    assert(old(self).entry_ok(old(self).mark_stack@[e]));
                }
            }
            assert forall|a: int, loc: int|
                #![trigger is_field_of(self.heap@.m, a, loc)]
                self.marked(a) && is_field_of(self.heap@.m, a, loc) implies self.field_done(
                a,
                loc,
                cur,
            ) by {
                if a == pointer {
                    let e = self.mark_stack@.len() - 1;
                    assert(self.mark_stack@[e].0 == a);
                    assert(self.pending(a, loc));
                } else {
                    assert(old(self).marked(a));
                    assert(old(self).field_done(a, loc, cur));
                    if old(self).pending(a, loc) {
                        let e = choose|e: int|
                            0 <= e < old(self).mark_stack@.len() && (#[trigger] old(
                                self,
                            ).mark_stack@[e]).0 == a && loc >= a + 4 * fields_start(
                                word_at(self.heap@.m, a),
                            ) + 4 * slice_start(old(self).mark_stack@[e].1);
                        assert(self.mark_stack@[e] == old(self).mark_stack@[e]);
                        assert(self.pending(a, loc));
                    }
                }
            }
        }
    }

    /// Address of the first place that the mark-stack entry `(obj, tag)`
    /// has to visit.
    pub open spec fn first_place(&self, obj: int, tag: Tag) -> int {
        obj + 4 * fields_start(word_at(self.heap@.m, obj)) + 4 * slice_start(tag)
    }

    /// Visits the places of the object `obj` that the entry `(obj, tag)`
    /// stands for, at most `SLICE_INCREMENT` elements of an array, and marks
    /// what they refer to; the rest of a longer array goes back on the
    /// stack.
    #[verifier::rlimit(40)]
    fn mark_fields(&mut self, obj: u32, obj_tag: Tag, Ghost(starts): Ghost<Seq<int>>)
        requires
            old(self).mark_inv(starts),
            old(self).entry_ok((obj, obj_tag)),
            old(self).closed_except(
                (
                    obj as int,
                    old(self).first_place(obj as int, obj_tag),
                    obj + 4 * fields_end(old(self).heap@.m, obj as int),
                ),
            ),
        ensures
            final(self).mark_inv(starts),
            final(self).closed_except((0, 0, 0)),
            final(self).heap == old(self).heap,
            final(self).remembered_set == old(self).remembered_set,
            final(self).strategy == old(self).strategy,
            forall|t: int| old(self).marked(t) ==> final(self).marked(t),
            final(self).marked_space > old(self).marked_space || (final(self).marked_space == old(
                self,
            ).marked_space && stack_work(final(self).heap@.m, final(self).mark_stack@) < stack_work(
                old(self).heap@.m,
                old(self).mark_stack@,
            ) + entry_work(old(self).heap@.m, (obj, obj_tag))),
            final(self).marking() == after_fields(
                old(self).heap@,
                old(self).young(),
                with_rest(old(self).heap@, old(self).marking(), obj, obj_tag),
                old(self).first_place(obj as int, obj_tag),
                slice_stop(old(self).heap@.m, obj as int, obj_tag, SLICE_INCREMENT as int),
            ),
    {
        let ghost m = self.heap@.m;
        let ghost end = obj + 4 * fields_end(m, obj as int);
        proof {
            reveal(ExperimentalGC::mark_inv);
            reveal(ExperimentalGC::closed_except);
            assert(self.markable(starts, 4 * (obj as int / 4)));
            let k = index_of(starts, obj as int);
            lemma_tiles_bounds(m, starts, self.heap@.base, self.heap@.free, k);
        }
        let (first, stop) = pointer_fields(&self.heap.mem, obj, obj_tag, SLICE_INCREMENT);
        if obj_tag == TAG_ARRAY || obj_tag >= TAG_ARRAY_SLICE_MIN {
            let start: u32 = if obj_tag >= TAG_ARRAY_SLICE_MIN {
                obj_tag
            } else {
                0
            };
            let len: u32 = Array::len(&self.heap.mem, obj);
            if len - start > SLICE_INCREMENT {
                self.mark_stack.push(obj, start + SLICE_INCREMENT);
                proof {
                    lemma_stack_work_push(m, old(self).mark_stack@, (obj, (start + 127) as u32));
                    assert forall|a: int, loc: int|
                        #![trigger is_field_of(m, a, loc)]
                        self.marked(a) && is_field_of(m, a, loc) implies self.field_done(
                        a,
                        loc,
                        (obj as int, first as int, stop as int),
                    ) by {
                        assert(old(self).field_done(a, loc, (obj as int, first as int, end)));
                        if old(self).pending(a, loc) {
                            let e = choose|e: int|
                                0 <= e < old(self).mark_stack@.len() && (#[trigger] old(
                                    self,
                                ).mark_stack@[e]).0 == a && loc >= a + 4 * fields_start(
                                    word_at(m, a),
                                ) + 4 * slice_start(old(self).mark_stack@[e].1);
                            assert(self.mark_stack@[e] == old(self).mark_stack@[e]);
                            assert(self.pending(a, loc));
                        } else if a == obj && stop <= loc {
                            let e = self.mark_stack@.len() - 1;
                            assert(self.mark_stack@[e].0 == a);
                            assert(self.pending(a, loc));
                        }
                    }
                    assert forall|e: int| 0 <= e < self.mark_stack@.len() implies self.entry_ok(
                        #[trigger] self.mark_stack@[e],
                    ) by {
                        if e < old(self).mark_stack@.len() {
                            assert(old(self).entry_ok(old(self).mark_stack@[e]));
                        }
                    }
                }
            }
        }
        proof {
            lemma_stack_work_push(m, old(self).mark_stack@, (obj, obj_tag));
        }
        let ghost stack1 = self.mark_stack@;
        let ghost space0 = self.marked_space;
        let ghost taken = self.marking();
        proof {
            assert(taken.bits =~= old(self).marking().bits);
            assert(taken == with_rest(old(self).heap@, old(self).marking(), obj, obj_tag));
        }
        let base: u32 = self.heap.limits.base;
        let mut c: u32 = first;
        while c < stop
            invariant
                self.marking() == after_fields(
                    self.heap@,
                    self.young(),
                    taken,
                    first as int,
                    c as int,
                ),
                self.mark_inv(starts),
                self.closed_except((obj as int, c as int, stop as int)),
                self.heap == old(self).heap,
                self.remembered_set == old(self).remembered_set,
                self.strategy == old(self).strategy,
                m == self.heap@.m,
                base == self.heap.limits.base,
                forall|t: int| old(self).marked(t) ==> self.marked(t),
                self.marked(obj as int),
                self.marked_space >= space0,
                self.marked_space == space0 ==> self.mark_stack@ == stack1,
                c % 4 == 0,
                stop % 4 == 0,
                first % 4 == 0,
                first <= c,
                c <= stop || c == first,
                first == obj + 4 * fields_start(word_at(m, obj as int)) + 4 * slice_start(obj_tag),
                stop <= obj + 4 * fields_end(m, obj as int),
                stop <= obj + 4 * block_words(m, obj as int),
                is_block(m, obj as int),
                is_start(starts, obj as int),
                is_object_tag(word_at(m, obj as int)),
            decreases stop - c,
        {
            assert(is_field_of(m, obj as int, c as int));
            if pointer_to_dynamic_heap(&self.heap.mem, c, base) {
                let v: u32 = self.heap.mem.load(c);
                proof {
                    self.lemma_field_target(starts, obj as int, c as int);
                }
                self.mark_object(v, Ghost(starts), Ghost((obj as int, c as int, stop as int)));
            }
            proof {
                self.lemma_advance(obj as int, c as int, stop as int);
            }
            c += 4;
        }
        proof {
            self.lemma_range_done(obj as int, c as int, stop as int);
        }
    }

    /// What a place of a marked object refers to in the dynamic heap is an
    /// object, and a reachable one where it lies in the collected
    /// generation.
    proof fn lemma_field_target(&self, starts: Seq<int>, obj: int, loc: int)
        requires
            self.mark_inv(starts),
            self.marked(obj),
            is_field_of(self.heap@.m, obj, loc),
            points_to_dynamic_heap(word_at(self.heap@.m, loc), self.heap@.base),
        ensures
            self.heap@.valid_target(starts, word_at(self.heap@.m, loc)),
            unskewed(word_at(self.heap@.m, loc)) >= self.scope_start() ==> self.heap@.reachable(
                self.remembered_set@,
                self.young(),
                unskewed(word_at(self.heap@.m, loc)),
            ),
    {
        reveal(ExperimentalGC::mark_inv);
        let m = self.heap@.m;
        let v = word_at(m, loc);
        assert(self.markable(starts, 4 * (obj / 4)));
        let k = index_of(starts, obj);
        assert(self.heap@.fields_valid(starts, starts[k]));
        if unskewed(v) >= self.scope_start() {
            assert(self.heap@.has_edge(obj, unskewed(v)));
            self.heap@.lemma_edge_reachable(self.remembered_set@, self.young(), obj, unskewed(v));
        }
    }

    /// Once what the place `c` refers to is marked, the places still to be
    /// visited start behind it.
    proof fn lemma_advance(&self, obj: int, c: int, stop: int)
        requires
            self.closed_except((obj, c, stop)),
            c % 4 == 0,
            points_to_dynamic_heap(word_at(self.heap@.m, c), self.heap@.base) && unskewed(
                word_at(self.heap@.m, c),
            ) >= self.scope_start() ==> self.marked(unskewed(word_at(self.heap@.m, c))),
        ensures
            self.closed_except((obj, c + 4, stop)),
    {
        reveal(ExperimentalGC::closed_except);
        let m = self.heap@.m;
        assert forall|a: int, loc: int|
            #![trigger is_field_of(m, a, loc)]
            self.marked(a) && is_field_of(m, a, loc) implies self.field_done(
            a,
            loc,
            (obj, c + 4, stop),
        ) by {
            assert(self.field_done(a, loc, (obj, c, stop)));
            assert(loc % 4 == 0);
            if a == obj && c <= loc < c + 4 {
                assert(loc == c);
            }
        }
    }

    /// With no place left in the range, every place is dealt with.
    proof fn lemma_range_done(&self, obj: int, c: int, stop: int)
        requires
            self.closed_except((obj, c, stop)),
            c >= stop,
        ensures
            self.closed_except((0, 0, 0)),
    {
        reveal(ExperimentalGC::closed_except);
        let m = self.heap@.m;
        assert forall|a: int, loc: int|
            #![trigger is_field_of(m, a, loc)]
            self.marked(a) && is_field_of(m, a, loc) implies self.field_done(a, loc, (0, 0, 0)) by {
            assert(self.field_done(a, loc, (obj, c, stop)));
        }
    }

    /// Empties the mark stack: visits the places of every object on it, and
    /// of every object that this marks.
    fn mark_all_reachable(&mut self, Ghost(starts): Ghost<Seq<int>>)
        requires
            old(self).mark_inv(starts),
            old(self).closed_except((0, 0, 0)),
        ensures
            final(self).mark_inv(starts),
            final(self).closed_except((0, 0, 0)),
            final(self).mark_stack@.len() == 0,
            final(self).heap == old(self).heap,
            final(self).remembered_set == old(self).remembered_set,
            final(self).strategy == old(self).strategy,
            forall|t: int| old(self).marked(t) ==> final(self).marked(t),
    {
        loop
            invariant
                self.mark_inv(starts),
                self.closed_except((0, 0, 0)),
                self.heap == old(self).heap,
                self.remembered_set == old(self).remembered_set,
                self.strategy == old(self).strategy,
                forall|t: int| old(self).marked(t) ==> self.marked(t),
            ensures
                self.mark_stack@.len() == 0,
            decreases
                    self.heap@.free - self.scope_start() - self.marked_space,
                    stack_work(self.heap@.m, self.mark_stack@),
        {
            let ghost before = *self;
            match self.mark_stack.pop() {
                None => {
                    proof {
                        Self::lemma_same_views(before, *self, starts, (0, 0, 0));
                    }
                    break ;
                },
                Some((obj, tag)) => {
                    let ghost popped = *self;
                    proof {
                        Self::lemma_pop(before, popped, starts);
                        before.lemma_budget(starts);
                    }
                    self.mark_fields(obj, tag, Ghost(starts));
                    proof {
                        self.lemma_budget(starts);
                        lemma_stack_work_push(self.heap@.m, self.mark_stack@, (obj, tag));
                    }
                },
            }
        }
    }

    /// The facts of the mark phase speak of the views alone.
    proof fn lemma_same_views(a: Self, b: Self, starts: Seq<int>, cur: (int, int, int))
        requires
            a.mark_stack@ == b.mark_stack@,
            a.heap == b.heap,
            a.remembered_set == b.remembered_set,
            a.strategy == b.strategy,
            a.bitmap == b.bitmap,
            a.marked_space == b.marked_space,
        ensures
            a.mark_inv(starts) ==> b.mark_inv(starts),
            a.closed_except(cur) ==> b.closed_except(cur),
    {
        reveal(ExperimentalGC::mark_inv);
        reveal(ExperimentalGC::closed_except);
        if a.closed_except(cur) {
            assert forall|x: int, loc: int|
                #![trigger is_field_of(b.heap@.m, x, loc)]
                b.marked(x) && is_field_of(b.heap@.m, x, loc) implies b.field_done(x, loc, cur) by {
                assert(a.field_done(x, loc, cur));
                assert(a.pending(x, loc) == b.pending(x, loc));
            }
        }
    }

    /// Taking the top entry off the mark stack leaves its places as the
    /// ones that are still to be visited.
    #[verifier::rlimit(40)]
    proof fn lemma_pop(before: Self, after: Self, starts: Seq<int>)
        requires
            before.mark_inv(starts),
            before.closed_except((0, 0, 0)),
            before.mark_stack@.len() > 0,
            after.mark_stack@ == before.mark_stack@.drop_last(),
            after.heap == before.heap,
            after.remembered_set == before.remembered_set,
            after.strategy == before.strategy,
            after.bitmap == before.bitmap,
            after.marked_space == before.marked_space,
        ensures
            after.mark_inv(starts),
            after.entry_ok(before.mark_stack@.last()),
            after.closed_except(
                (
                    before.mark_stack@.last().0 as int,
                    after.first_place(
                        before.mark_stack@.last().0 as int,
                        before.mark_stack@.last().1,
                    ),
                    before.mark_stack@.last().0 + 4 * fields_end(
                        after.heap@.m,
                        before.mark_stack@.last().0 as int,
                    ),
                ),
            ),
            stack_work(before.heap@.m, before.mark_stack@) == stack_work(
                after.heap@.m,
                after.mark_stack@,
            ) + entry_work(before.heap@.m, before.mark_stack@.last()),
            stack_work(after.heap@.m, after.mark_stack@) >= 0,
            forall|t: int| before.marked(t) == after.marked(t),
    {
        reveal(ExperimentalGC::mark_inv);
        reveal(ExperimentalGC::closed_except);
        let m = before.heap@.m;
        let (obj, tag) = before.mark_stack@.last();
        let first = after.first_place(obj as int, tag);
        let end = obj + 4 * fields_end(m, obj as int);
        let last = before.mark_stack@.len() - 1;
        lemma_stack_work_push(m, after.mark_stack@, (obj, tag));
        assert(after.mark_stack@.push((obj, tag)) =~= before.mark_stack@);
        assert(before.entry_ok(before.mark_stack@[last]));
        assert forall|e: int| 0 <= e < after.mark_stack@.len() implies after.entry_ok(
            #[trigger] after.mark_stack@[e],
        ) by {
            assert(before.entry_ok(before.mark_stack@[e]));
        }
        assert forall|idx: int| #[trigger] after.bitmap.is_set(idx) implies after.markable(
            starts,
            4 * idx,
        ) by {
            assert(before.markable(starts, 4 * idx));
        }
        assert forall|a: int, loc: int|
            #![trigger is_field_of(m, a, loc)]
            after.marked(a) && is_field_of(m, a, loc) implies after.field_done(
            a,
            loc,
            (obj as int, first, end),
        ) by {
            assert(before.field_done(a, loc, (0, 0, 0)));
            if before.pending(a, loc) {
                let e = choose|e: int|
                    0 <= e < before.mark_stack@.len() && (#[trigger] before.mark_stack@[e]).0 == a
                        && loc >= a + 4 * fields_start(word_at(m, a)) + 4 * slice_start(
                        before.mark_stack@[e].1,
                    );
                if e < last {
                    assert(after.mark_stack@[e] == before.mark_stack@[e]);
                    assert(after.pending(a, loc));
                }
            }
        }
    }

    /// The marked objects fit into the collected generation.
    proof fn lemma_budget(&self, starts: Seq<int>)
        requires
            self.mark_inv(starts),
        ensures
            self.marked_space <= self.heap@.free - self.scope_start(),
    {
        reveal(ExperimentalGC::mark_inv);
        assert forall|idx: int| self.bitmap.is_set(idx) implies 4 * idx >= self.scope_start() by {
            assert(self.markable(starts, 4 * idx));
        }
        lemma_marked_bytes_bound(
            self.heap@.m,
            starts,
            self.bitmap,
            self.heap@.base,
            self.heap@.free,
            self.scope_start(),
            starts.len() - 1,
        );
    }

    /// Whether what the first `n` static root boxes refer to in the
    /// collected generation is marked.
    closed spec fn static_roots_done(&self, n: int) -> bool {
        forall|i: int|
            0 <= i < n && points_to_dynamic_heap(
                word_at(self.heap@.m, #[trigger] self.heap@.root_field(i)),
                self.heap@.base,
            ) && unskewed(word_at(self.heap@.m, self.heap@.root_field(i))) >= self.scope_start()
                ==> self.marked(unskewed(word_at(self.heap@.m, self.heap@.root_field(i))))
    }

    /// Whether what the continuation-table word refers to in the collected
    /// generation is marked.
    closed spec fn continuation_table_done(&self) -> bool {
        let v = word_at(self.heap@.m, self.heap@.cont_loc);
        is_ptr(v) && unskewed(v) >= self.scope_start() ==> self.marked(unskewed(v))
    }

    /// Whether what the first `n` recorded fields refer to in the young
    /// generation is marked.
    closed spec fn remembered_done(&self, n: int) -> bool {
        forall|j: int|
            0 <= j < n && is_ptr(word_at(self.heap@.m, #[trigger] self.remembered_set@[j] as int))
                && unskewed(word_at(self.heap@.m, self.remembered_set@[j] as int))
                >= self.heap@.last_free ==> self.marked(
                unskewed(word_at(self.heap@.m, self.remembered_set@[j] as int)),
            )
    }

    /// Marks can only be added: what was done stays done.
    proof fn lemma_done_stays(a: Self, b: Self, n: int, k: int)
        requires
            a.heap == b.heap,
            a.remembered_set == b.remembered_set,
            a.strategy == b.strategy,
            forall|t: int| a.marked(t) ==> b.marked(t),
        ensures
            a.static_roots_done(n) ==> b.static_roots_done(n),
            a.continuation_table_done() ==> b.continuation_table_done(),
            a.remembered_done(k) ==> b.remembered_done(k),
    {
    }

    /// What the `i`-th static root box refers to in the dynamic heap is an
    /// object, and a reachable one where it lies in the collected
    /// generation.
    proof fn lemma_static_root_target(&self, starts: Seq<int>, i: int)
        requires
            self.mark_inv(starts),
            0 <= i < self.heap@.root_count(),
            points_to_dynamic_heap(
                word_at(self.heap@.m, self.heap@.root_field(i)),
                self.heap@.base,
            ),
        ensures
            self.heap@.valid_target(starts, word_at(self.heap@.m, self.heap@.root_field(i))),
            unskewed(word_at(self.heap@.m, self.heap@.root_field(i))) >= self.scope_start()
                ==> self.heap@.reachable(
                self.remembered_set@,
                self.young(),
                unskewed(word_at(self.heap@.m, self.heap@.root_field(i))),
            ),
    {
        reveal(ExperimentalGC::mark_inv);
        let t = unskewed(word_at(self.heap@.m, self.heap@.root_field(i)));
        assert(word_in(self.heap@.m.len(), self.heap@.root_box(i)));
        if t >= self.scope_start() {
            assert(self.heap@.is_root_target(self.remembered_set@, self.young(), t));
            self.heap@.lemma_root_reachable(self.remembered_set@, self.young(), t);
        }
    }

    /// Marks what the static root box at `mutbox`, the `i`-th one, refers
    /// to in the dynamic heap.
    fn mark_root_mutbox_fields(
        &mut self,
        mutbox: u32,
        Ghost(starts): Ghost<Seq<int>>,
        Ghost(i): Ghost<int>,
    )
        requires
            old(self).mark_inv(starts),
            old(self).closed_except((0, 0, 0)),
            0 <= i < old(self).heap@.root_count(),
            mutbox == old(self).heap@.root_box(i),
            word_in(old(self).heap@.m.len(), mutbox + 8),
            mutbox + 8 < old(self).heap@.base,
        ensures
            final(self).mark_inv(starts),
            final(self).closed_except((0, 0, 0)),
            final(self).heap == old(self).heap,
            final(self).remembered_set == old(self).remembered_set,
            final(self).strategy == old(self).strategy,
            forall|t: int| old(self).marked(t) ==> final(self).marked(t),
            points_to_dynamic_heap(
                word_at(old(self).heap@.m, old(self).heap@.root_field(i)),
                old(self).heap@.base,
            ) && unskewed(word_at(old(self).heap@.m, old(self).heap@.root_field(i))) >= old(
                self,
            ).scope_start() ==> final(self).marked(
                unskewed(word_at(old(self).heap@.m, old(self).heap@.root_field(i))),
            ),
            final(self).marking() == after_field(
                old(self).heap@,
                old(self).young(),
                old(self).marking(),
                old(self).heap@.root_field(i),
            ),
            !points_to_dynamic_heap(
                word_at(old(self).heap@.m, old(self).heap@.root_field(i)),
                old(self).heap@.base,
            ) ==> *final(self) == *old(self),
    {
        let field_addr: u32 = mutbox + 2 * WORD_SIZE;
        if pointer_to_dynamic_heap(&self.heap.mem, field_addr, self.heap.limits.base) {
            let v: u32 = self.heap.mem.load(field_addr);
            proof {
                self.lemma_static_root_target(starts, i);
            }
            self.mark_object(v, Ghost(starts), Ghost((0, 0, 0)));
        }
    }

    /// Between the steps of the mark phase the heap is well formed.
    proof fn lemma_inv_heap(&self, starts: Seq<int>)
        requires
            self.mark_inv(starts),
        ensures
            self.heap@.well_formed_with(starts),
            self.young() ==> self.remembered_valid(starts),
    {
        reveal(ExperimentalGC::mark_inv);
    }

    /// The array of static root boxes and the boxes lie inside the memory.
    proof fn lemma_roots_in_memory(&self, starts: Seq<int>)
        requires
            self.mark_inv(starts),
        ensures
            is_block(self.heap@.m, self.heap@.root_array),
            word_at(self.heap@.m, self.heap@.root_array) == TAG_ARRAY,
            self.heap@.root_array == self.heap.roots.static_roots.spec_unskew(),
            forall|i: int|
                0 <= i < self.heap@.root_count() ==> word_in(
                    self.heap@.m.len(),
                    #[trigger] self.heap@.root_box(i) + 8,
                ) && self.heap@.root_box(i) + 8 < self.heap@.base,
            word_in(self.heap@.m.len(), self.heap@.cont_loc),
            self.heap@.base <= self.heap@.last_free <= self.heap@.free < 0xFFFF_FFF0,
            self.young() ==> self.remembered_valid(starts),
    {
        self.lemma_inv_heap(starts);
        assert forall|i: int| 0 <= i < self.heap@.root_count() implies word_in(
            self.heap@.m.len(),
            #[trigger] self.heap@.root_box(i) + 8,
        ) && self.heap@.root_box(i) + 8 < self.heap@.base by {
            self.heap@.lemma_root_box(starts, i);
        }
    }

    /// Marks what the static root boxes refer to in the dynamic heap.
    #[verifier::rlimit(40)]
    fn mark_static_roots(&mut self, Ghost(starts): Ghost<Seq<int>>)
        requires
            old(self).mark_inv(starts),
            old(self).closed_except((0, 0, 0)),
        ensures
            final(self).mark_inv(starts),
            final(self).closed_except((0, 0, 0)),
            final(self).heap == old(self).heap,
            final(self).remembered_set == old(self).remembered_set,
            final(self).strategy == old(self).strategy,
            forall|t: int| old(self).marked(t) ==> final(self).marked(t),
            final(self).static_roots_done(final(self).heap@.root_count()),
            final(self).marking() == after_static_roots(
                old(self).heap@,
                old(self).young(),
                old(self).marking(),
                old(self).heap@.root_count(),
            ),
    {
        proof {
            self.lemma_roots_in_memory(starts);
        }
        let root_array: u32 = self.heap.roots.static_roots.unskew();
        let len: u32 = Array::len(&self.heap.mem, root_array);
        let mut i: u32 = 0;
        while i < len
            invariant
                self.marking() == after_static_roots(
                    self.heap@,
                    self.young(),
                    old(self).marking(),
                    i as int,
                ),
                self.mark_inv(starts),
                self.closed_except((0, 0, 0)),
                self.heap == old(self).heap,
                self.remembered_set == old(self).remembered_set,
                self.strategy == old(self).strategy,
                forall|t: int| old(self).marked(t) ==> self.marked(t),
                self.static_roots_done(i as int),
                i <= len,
                len == self.heap@.root_count(),
                root_array == self.heap@.root_array,
                is_block(self.heap@.m, root_array as int),
                word_at(self.heap@.m, root_array as int) == TAG_ARRAY,
            decreases len - i,
        {
            proof {
                self.lemma_roots_in_memory(starts);
            }
            let ghost before = *self;
            let mutbox: u32 = Array::get(&self.heap.mem, root_array, i).unskew();
            assert(mutbox == self.heap@.root_box(i as int));
            self.mark_root_mutbox_fields(mutbox, Ghost(starts), Ghost(i as int));
            proof {
                Self::lemma_done_stays(before, *self, i as int, 0);
            }
            i += 1;
        }
    }

    /// What the `j`-th recorded field refers to in the young generation is
    /// an object, and a reachable one.
    proof fn lemma_remembered_target(&self, starts: Seq<int>, j: int)
        requires
            self.mark_inv(starts),
            self.young(),
            0 <= j < self.remembered_set@.len(),
            is_ptr(word_at(self.heap@.m, self.remembered_set@[j] as int)),
            unskewed(word_at(self.heap@.m, self.remembered_set@[j] as int))
                >= self.heap@.last_free,
        ensures
            self.heap@.valid_target(starts, word_at(self.heap@.m, self.remembered_set@[j] as int)),
            self.heap@.reachable(
                self.remembered_set@,
                self.young(),
                unskewed(word_at(self.heap@.m, self.remembered_set@[j] as int)),
            ),
    {
        reveal(ExperimentalGC::mark_inv);
        let t = unskewed(word_at(self.heap@.m, self.remembered_set@[j] as int));
        assert(self.heap@.is_root_target(self.remembered_set@, self.young(), t));
        self.heap@.lemma_root_reachable(self.remembered_set@, self.young(), t);
    }

    /// Marks what the recorded fields now refer to in the young generation.
    /// A field that was overwritten since it was recorded, and holds no
    /// such pointer any more, is passed over.
    #[verifier::rlimit(40)]
    fn mark_additional_young_root_set(&mut self, Ghost(starts): Ghost<Seq<int>>)
        requires
            old(self).mark_inv(starts),
            old(self).closed_except((0, 0, 0)),
            old(self).young(),
        ensures
            final(self).mark_inv(starts),
            final(self).closed_except((0, 0, 0)),
            final(self).heap == old(self).heap,
            final(self).remembered_set == old(self).remembered_set,
            final(self).strategy == old(self).strategy,
            forall|t: int| old(self).marked(t) ==> final(self).marked(t),
            final(self).remembered_done(final(self).remembered_set@.len() as int),
            final(self).marking() == after_recorded(
                old(self).heap@,
                old(self).marking(),
                old(self).remembered_set@,
                old(self).remembered_set@.len() as int,
            ),
            (forall|j: int|
                0 <= j < old(self).remembered_set@.len() ==> !holds_young_pointer(
                    old(self).heap@,
                    old(self).remembered_set@,
                    j,
                )) ==> *final(self) == *old(self),
    {
        let count: usize = self.remembered_set.count();
        let mut j: usize = 0;
        while j < count
            invariant
                self.marking() == after_recorded(
                    self.heap@,
                    old(self).marking(),
                    self.remembered_set@,
                    j as int,
                ),
                (forall|x: int|
                    0 <= x < j ==> !holds_young_pointer(self.heap@, self.remembered_set@, x))
                    ==> *self == *old(self),
                self.mark_inv(starts),
                self.closed_except((0, 0, 0)),
                self.heap == old(self).heap,
                self.remembered_set == old(self).remembered_set,
                self.strategy == old(self).strategy,
                forall|t: int| old(self).marked(t) ==> self.marked(t),
                self.remembered_done(j as int),
                self.young(),
                j <= count,
                count == self.remembered_set@.len(),
            decreases count - j,
        {
            proof {
                self.lemma_roots_in_memory(starts);
                assert(word_in(self.heap@.m.len(), self.remembered_set@[j as int] as int));
            }
            let ghost before = *self;
            let location: u32 = self.remembered_set.get(j);
            let object: u32 = self.heap.mem.load(location);
            if value_is_ptr(object) && SkewedPtr(object).unskew() >= self.heap.limits.last_free {
                proof {
                    self.lemma_remembered_target(starts, j as int);
                }
                self.mark_object(object, Ghost(starts), Ghost((0, 0, 0)));
            }
            proof {
                Self::lemma_done_stays(before, *self, 0, j as int);
                if forall|x: int|
                    0 <= x < j + 1 ==> !holds_young_pointer(self.heap@, self.remembered_set@, x) {
                    assert(!holds_young_pointer(self.heap@, self.remembered_set@, j as int));
                    assert(before == *old(self));
                }
            }
            j += 1;
        }
    }

    /// Marks what the roots refer to in the collected generation: the
    /// static root boxes, the continuation table and, when only the young
    /// generation is collected, the recorded fields.
    fn mark_root_set(&mut self, Ghost(starts): Ghost<Seq<int>>)
        requires
            old(self).mark_inv(starts),
            old(self).closed_except((0, 0, 0)),
        ensures
            final(self).mark_inv(starts),
            final(self).closed_except((0, 0, 0)),
            final(self).heap == old(self).heap,
            final(self).remembered_set == old(self).remembered_set,
            final(self).strategy == old(self).strategy,
            final(self).roots_done(),
            final(self).marking() == after_roots(
                old(self).heap@,
                old(self).young(),
                old(self).marking(),
                old(self).remembered_set@,
            ),
    {
        self.mark_static_roots(Ghost(starts));
        proof {
            self.lemma_roots_in_memory(starts);
        }
        let ghost after_static = *self;
        let loc: u32 = self.heap.roots.continuation_table_ptr_loc;
        let v: u32 = self.heap.mem.load(loc);
        if value_is_ptr(v) {
            proof {
                self.lemma_continuation_table_target(starts);
            }
            self.mark_object(v, Ghost(starts), Ghost((0, 0, 0)));
        }
        let ghost after_table = *self;
        if self.strategy == Strategy::Young {
            self.mark_additional_young_root_set(Ghost(starts));
        }
        proof {
            let n = self.heap@.root_count();
            Self::lemma_done_stays(after_static, after_table, n, 0);
            Self::lemma_done_stays(after_table, *self, n, 0);
        }
    }

    /// Whether what every root refers to in the collected generation is
    /// marked.
    closed spec fn roots_done(&self) -> bool {
        &&& self.static_roots_done(self.heap@.root_count())
        &&& self.continuation_table_done()
        &&& (self.young() ==> self.remembered_done(self.remembered_set@.len() as int))
    }

    /// What the continuation-table word refers to is an object, and a
    /// reachable one where it lies in the collected generation.
    proof fn lemma_continuation_table_target(&self, starts: Seq<int>)
        requires
            self.mark_inv(starts),
            is_ptr(word_at(self.heap@.m, self.heap@.cont_loc)),
        ensures
            self.heap@.valid_target(starts, word_at(self.heap@.m, self.heap@.cont_loc)),
            unskewed(word_at(self.heap@.m, self.heap@.cont_loc)) >= self.scope_start()
                ==> self.heap@.reachable(
                self.remembered_set@,
                self.young(),
                unskewed(word_at(self.heap@.m, self.heap@.cont_loc)),
            ),
    {
        reveal(ExperimentalGC::mark_inv);
        let t = unskewed(word_at(self.heap@.m, self.heap@.cont_loc));
        if t >= self.scope_start() {
            assert(self.heap@.is_root_target(self.remembered_set@, self.young(), t));
            self.heap@.lemma_root_reachable(self.remembered_set@, self.young(), t);
        }
    }

    /// Whether the cycle is ready to mark: the heap is well formed with
    /// `starts` as the list of its blocks, the recorded fields are valid
    /// where they are used, the bitmap covers the dynamic heap and has no
    /// bit set, and the mark stack is empty.
    pub closed spec fn ready_to_mark(&self, starts: Seq<int>) -> bool {
        &&& self.heap@.well_formed_with(starts)
        &&& (self.young() ==> self.remembered_valid(starts))
        &&& self.bitmap.well_formed()
        &&& self.bitmap.base() == self.heap@.base / 4
        &&& self.bitmap.len() == (self.heap@.free - self.heap@.base) / 4
        &&& forall|idx: int| !self.bitmap.is_set(idx)
        &&& self.mark_stack@.len() == 0
    }

    /// Whether the mark phase is over: exactly the objects that are
    /// reachable inside the collected generation are marked, and
    /// `marked_space` is the sum of their sizes.
    pub closed spec fn marking_done(&self, starts: Seq<int>) -> bool {
        &&& self.mark_inv(starts)
        &&& self.mark_stack@.len() == 0
        &&& forall|t: int|
            self.marked(t) <==> self.heap@.reachable(self.remembered_set@, self.young(), t)
    }

    /// Whether the bitmap and the mark stack are as the mark phase needs
    /// them: the bitmap covers the dynamic heap and has no bit set, the
    /// stack is empty.
    pub open spec fn tools_fresh(&self) -> bool {
        &&& self.bitmap.well_formed()
        &&& self.bitmap.base() == self.heap@.base / 4
        &&& self.bitmap.len() == (self.heap@.free - self.heap@.base) / 4
        &&& forall|idx: int| !self.bitmap.is_set(idx)
        &&& self.mark_stack@.len() == 0
    }

    /// The mark phase: marks every object that can be reached from the
    /// roots inside the collected generation, each once. Afterwards
    /// exactly the survivors of the cycle are marked, `marked_space` is the
    /// sum of their sizes, and the mark stack is empty.
    pub fn mark_phase(&mut self)
        requires
            old(self).cycle().valid(),
            old(self).tools_fresh(),
        ensures
            final(self).heap == old(self).heap,
            final(self).remembered_set == old(self).remembered_set,
            final(self).strategy == old(self).strategy,
            final(self).mark_stack@.len() == 0,
            forall|t: int| final(self).marked(t) <==> old(self).cycle().survives(t),
            final(self).marked_space == old(self).cycle().live_bytes(),
    {
        let ghost starts = self.heap@.blocks();
        let ghost cy = self.cycle();
        self.mark_from_roots(Ghost(starts));
        let ghost c = self.lemma_compaction_ready(starts);
        proof {
            cy.lemma_bytes(c, starts.len() - 1);
            self.lemma_marking_over(starts);
        }
    }

    /// When the mark phase is over, the mark stack is empty.
    proof fn lemma_marking_over(&self, starts: Seq<int>)
        requires
            self.marking_done(starts),
        ensures
            self.mark_stack@.len() == 0,
            forall|t: int|
                self.marked(t) <==> self.heap@.reachable(self.remembered_set@, self.young(), t),
    {
    }

    /// The mark phase, on a heap whose blocks are `starts`.
    fn mark_from_roots(&mut self, Ghost(starts): Ghost<Seq<int>>)
        requires
            old(self).ready_to_mark(starts),
        ensures
            final(self).marking_done(starts),
            final(self).heap == old(self).heap,
            final(self).remembered_set == old(self).remembered_set,
            final(self).strategy == old(self).strategy,
    {
        self.marked_space = 0;
        proof {
            reveal(ExperimentalGC::mark_inv);
            reveal(ExperimentalGC::closed_except);
            lemma_marked_bytes_none(self.heap@.m, starts, self.bitmap, starts.len() - 1);
        }
        self.mark_root_set(Ghost(starts));
        let ghost rooted = *self;
        self.mark_all_reachable(Ghost(starts));
        proof {
            Self::lemma_done_stays(rooted, *self, self.heap@.root_count(), 0);
            Self::lemma_done_stays(rooted, *self, 0, self.remembered_set@.len() as int);
            self.lemma_marked_is_reachable(starts);
        }
    }

    /// With every root and every place of every marked object dealt with,
    /// and nothing left on the stack, the marked objects are the reachable
    /// ones.
    proof fn lemma_marked_is_reachable(&self, starts: Seq<int>)
        requires
            self.mark_inv(starts),
            self.closed_except((0, 0, 0)),
            self.mark_stack@.len() == 0,
            self.roots_done(),
        ensures
            forall|t: int|
                self.marked(t) <==> self.heap@.reachable(self.remembered_set@, self.young(), t),
    {
        reveal(ExperimentalGC::mark_inv);
        reveal(ExperimentalGC::closed_except);
        let hm = self.heap@;
        let rs = self.remembered_set@;
        let young = self.young();
        let s = Set::new(|t: int| self.marked(t));
        assert forall|r: int| hm.is_root_target(rs, young, r) && r >= hm.scope_start(
            young,
        ) implies s.contains(r) by {
            assert(self.marked(r));
        }
        assert forall|a: int, b: int|
            s.contains(a) && hm.has_edge(a, b) && b >= hm.scope_start(young) implies s.contains(
            b,
        ) by {
            let loc = choose|loc: int|
                #![trigger word_at(hm.m, loc)]
                is_field_of(hm.m, a, loc) && points_to_dynamic_heap(word_at(hm.m, loc), hm.base)
                    && unskewed(word_at(hm.m, loc)) == b;
            assert(self.field_done(a, loc, (0, 0, 0)));
            assert(!self.pending(a, loc));
        }
        assert forall|t: int|
            self.marked(t) <==> hm.reachable(rs, young, t) by {
            if self.marked(t) {
                assert(self.markable(starts, 4 * (t / 4)));
            }
            if hm.reachable(rs, young, t) {
                hm.lemma_closed_holds_reachable(rs, young, s, t);
            }
        }
    }

    /// The marked objects fit into the collected generation.
    proof fn lemma_marking_budget(&self, starts: Seq<int>)
        requires
            self.marking_done(starts),
        ensures
            self.marked_space <= self.heap@.free - self.scope_start(),
    {
        self.lemma_budget(starts);
    }

    /// After the mark phase the heap is ready to be compacted: the marked
    /// addresses are the reachable objects, and every pointer into the
    /// collected generation that a root, a block of the old generation or
    /// a marked object holds refers to a marked object.
    #[verifier::rlimit(40)]
    proof fn lemma_compaction_ready(&self, starts: Seq<int>) -> (c: Compaction)
        requires
            self.marking_done(starts),
            self.young() ==> self.heap@.remembered_covers(starts, self.remembered_set@),
        ensures
            c == (Compaction {
                h0: self.heap@,
                starts: starts,
                marks: self.bitmap,
                young: self.young(),
            }),
            c.wf(),
            forall|t: int|
                c.is_marked(t) <==> self.heap@.reachable(self.remembered_set@, self.young(), t),
            self.marked_space == marked_bytes(self.heap@.m, starts, self.bitmap, starts.len() - 1),
            forall|a: int, l: int| c.live(a, l) ==> c.is_marked(c.target(l)),
            self.bitmap.well_formed(),
    {
        reveal(ExperimentalGC::mark_inv);
        reveal(Compaction::wf);
        let c = Compaction {
            h0: self.heap@,
            starts: starts,
            marks: self.bitmap,
            young: self.young(),
        };
        let hm = self.heap@;
        let rs = self.remembered_set@;
        let young = self.young();
        assert forall|t: int| #[trigger] c.is_marked(t) implies is_start(starts, t)
            && is_object_tag(word_at(hm.m, t)) && t >= c.lo() by {
            assert(self.markable(starts, 4 * (t / 4)));
        }
        assert forall|a: int, l: int| #[trigger] c.live(a, l) implies c.is_marked(
            c.target(l),
        ) by {
            let t = c.target(l);
            if a == 0 && c.static_slot(l) {
                if l == hm.cont_loc {
                    assert(hm.is_root_target(rs, young, t));
                } else {
                    let i = choose|i: int|
                        0 <= i < hm.root_count() && #[trigger] hm.root_field(i) == l;
                    assert(hm.is_root_target(rs, young, t));
                }
                hm.lemma_root_reachable(rs, young, t);
            } else if c.old_block(a) && is_object_tag(word_at(hm.m, a)) && is_field_of(hm.m, a, l) {
                let j = choose|j: int| 0 <= j < rs.len() && #[trigger] rs[j] == l;
                assert(hm.is_root_target(rs, young, t));
                hm.lemma_root_reachable(rs, young, t);
            } else {
                assert(c.is_marked(a));
                assert(self.marked(a));
                assert(hm.has_edge(a, t));
                hm.lemma_edge_reachable(rs, young, a, t);
            }
            assert(self.marked(t));
        }
        assert forall|t: int|
            c.is_marked(t) <==> self.heap@.reachable(self.remembered_set@, self.young(), t) by {
            assert(c.is_marked(t) == self.marked(t));
        }
        c
    }

    /// One cycle on the heap as it stands: marks what is reachable in the
    /// collected generation and, where less than 95% of that generation is
    /// marked, compacts it and moves the end of the heap down. Where more
    /// is marked, nothing moves and the heap stays as it is.
    #[verifier::rlimit(40)]
    pub fn mark_compact(&mut self)
        requires
            old(self).cycle().valid(),
        ensures
            final(self).heap@ == (HeapModel {
                m: final(self).heap@.m,
                free: final(self).heap@.free,
                ..old(self).heap@
            }),
            final(self).remembered_set == old(self).remembered_set,
            final(self).strategy == old(self).strategy,
            final(self).marked_space == old(self).cycle().live_bytes(),
            final(self).mark_stack@.len() == 0,
            final(self).bitmap.len() == 0,
            old(self).scope_start() <= final(self).heap@.free <= old(self).heap@.free,
            old(self).heap@.base <= old(self).scope_start(),
            compaction_pays(
                old(self).cycle().live_bytes(),
                old(self).heap@.free - old(self).scope_start(),
            ) ==> old(self).cycle().compacted(final(self).heap@.m) && final(self).heap@.free
                == old(self).cycle().new_free(),
            !compaction_pays(
                old(self).cycle().live_bytes(),
                old(self).heap@.free - old(self).scope_start(),
            ) ==> final(self).heap@ == old(self).heap@,
    {
        let ghost starts = self.heap@.blocks();
        let ghost cy = self.cycle();
        let heap_end: u32 = self.heap.limits.free;
        let mem_size: Bytes<u32> = Bytes(heap_end - self.heap.limits.base);
        self.bitmap = Bitmap::alloc_bitmap(mem_size, self.heap.limits.base / WORD_SIZE);
        self.mark_stack = MarkStack::alloc_mark_stack();
        self.mark_from_roots(Ghost(starts));
        let ghost c = self.lemma_compaction_ready(starts);
        proof {
            c.lemma_starts();
            cy.lemma_bytes(c, starts.len() - 1);
            self.lemma_marking_budget(starts);
        }
        let mut free: u32 = heap_end;
        if self.is_compaction_beneficial() {
            proof {
                self.lemma_enter_compaction(c);
            }
            let threaded = self.thread_backward_phase(Ghost(c));
            let (new_free, done) = self.move_phase(Ghost(c), threaded);
            free = new_free;
            proof {
                self.lemma_in_compaction(c, done@);
                cy.lemma_compacted(c, done@, self.heap@.m);
            }
        }
        self.heap.limits.free = free;
        self.mark_stack = MarkStack::alloc_mark_stack();
        self.bitmap = Bitmap::alloc_bitmap(Bytes(0), 0);
    }
}

/// Runs one cycle with the given strategy on the heap of `gc`. Returns the
/// bytes that the cycle reclaimed and the bytes that the heap holds after
/// it. The end of the last collection, `last_free`, is left as it is: it
/// is for the caller to set.
#[verifier::rlimit(40)]
pub fn experimental_gc_internal(gc: &mut ExperimentalGC, strategy: Strategy) -> (r: (
    Bytes<u32>,
    Bytes<u32>,
))
    requires
        (Cycle {
            before: old(gc).heap@,
            recorded: old(gc).remembered_set@,
            young: strategy == Strategy::Young,
        }).valid(),
    ensures
        final(gc).strategy == strategy,
        final(gc).remembered_set == old(gc).remembered_set,
        final(gc).mark_stack@.len() == 0,
        final(gc).bitmap.len() == 0,
        final(gc).heap@ == (HeapModel {
            m: final(gc).heap@.m,
            free: final(gc).heap@.free,
            ..old(gc).heap@
        }),
        ({
            let cycle = Cycle {
                before: old(gc).heap@,
                recorded: old(gc).remembered_set@,
                young: strategy == Strategy::Young,
            };
            let generation = old(gc).heap@.free - cycle.lo();
            &&& final(gc).marked_space == cycle.live_bytes()
            &&& compaction_pays(cycle.live_bytes(), generation) ==> cycle.compacted(
                final(gc).heap@.m,
            ) && final(gc).heap@.free == cycle.new_free()
            &&& !compaction_pays(cycle.live_bytes(), generation) ==> final(gc).heap@ == old(
                gc,
            ).heap@
        }),
        final(gc).heap@.free <= old(gc).heap@.free,
        r.0.0 == old(gc).heap@.free - final(gc).heap@.free,
        r.1.0 == final(gc).heap@.free - final(gc).heap@.base,
{
    gc.strategy = strategy;
    let old_hp: u32 = gc.heap.limits.free;
    gc.mark_compact();
    let reclaimed: u32 = old_hp - gc.heap.limits.free;
    let live: u32 = gc.heap.limits.free - gc.heap.limits.base;
    (Bytes(reclaimed), Bytes(live))
}

/// Whether compacting a generation of `generation` bytes, `marked` of them
/// marked, pays.
pub fn compaction_is_beneficial(marked: u32, generation: u32) -> (r: bool)
    ensures
        r == compaction_pays(marked as int, generation as int),
{
    100 * (marked as u64) < 95 * (generation as u64)
}

/// The heap size from which a collection is due for a reservation of
/// `heap_size` bytes; none where the reservation is smaller than the slack
/// and the room for the bitmap together.
pub fn threshold_for(heap_size: u64) -> (r: Option<Bytes<u64>>)
    ensures
        match r {
            Some(max_live) => max_live.0 == gc_threshold(heap_size as int),
            None => gc_threshold(heap_size as int) < 0,
        },
{
    let max_bitmap_size_bytes: u64 = heap_size / 32;
    if heap_size < SLACK || heap_size - SLACK < max_bitmap_size_bytes {
        None
    } else {
        Some(Bytes(heap_size - SLACK - max_bitmap_size_bytes))
    }
}

/// Room that the collector keeps free for its mark stack and for the
/// allocations of the next message.
pub const SLACK: u64 = 0x2000_0000;

/// The heap size from which a collection is due, for a reservation of
/// `heap_size` bytes: the reservation less the slack and less the room for
/// the largest mark bitmap, a 32nd of the reservation.
pub open spec fn gc_threshold(heap_size: int) -> int {
    heap_size - SLACK - heap_size / 32
}

/// A heap with its collector: the state that lasts from cycle to cycle.
pub struct Collector {
    pub gc: ExperimentalGC,
    /// Number of cycles so far.
    pub run: u32,
    /// The largest size that the heap had after a collection.
    pub max_live: Bytes<u64>,
    /// Bytes reclaimed by all collections.
    pub reclaimed: Bytes<u64>,
}

impl Collector {
    /// A collector for `heap`, on which no collection has run.
    pub fn new(heap: Heap) -> (r: Collector)
        ensures
            r.gc.heap == heap,
            r.gc.remembered_set@ == Seq::<u32>::empty(),
            r.run == 0,
            r.max_live.0 == 0,
            r.reclaimed.0 == 0,
    {
        Collector {
            gc: ExperimentalGC {
                heap,
                remembered_set: RememberedSet::new(),
                strategy: Strategy::Young,
                marked_space: 0,
                bitmap: Bitmap::alloc_bitmap(Bytes(0), 0),
                mark_stack: MarkStack::alloc_mark_stack(),
            },
            run: 0,
            max_live: Bytes(0),
            reclaimed: Bytes(0),
        }
    }

    /// Whether the dynamic heap has grown to `max_live` bytes or more, so
    /// that a collection is due.
    pub fn should_do_gc(&self, max_live: Bytes<u64>) -> (r: bool)
        requires
            self.gc.heap@.base <= self.gc.heap@.free,
        ensures
            r == (self.gc.heap@.free - self.gc.heap@.base >= max_live.0),
    {
        (self.gc.heap.limits.free - self.gc.heap.limits.base) as u64 >= max_live.0
    }

    /// The write barrier's record of a store: remembers the address of the
    /// field where it lies below the end of the last collection and
    /// `value` is a pointer into the dynamic heap.
    pub fn record(&mut self, field_addr: u32, value: u32)
        ensures
            final(self).gc.heap == old(self).gc.heap,
            final(self).run == old(self).run,
            final(self).max_live == old(self).max_live,
            final(self).reclaimed == old(self).reclaimed,
            final(self).gc.remembered_set@ == if field_addr < old(self).gc.heap@.last_free
                && points_to_dynamic_heap(value, old(self).gc.heap@.base) && !old(
                self,
            ).gc.remembered_set@.contains(field_addr) {
                old(self).gc.remembered_set@.push(field_addr)
            } else {
                old(self).gc.remembered_set@
            },
    {
        if field_addr < self.gc.heap.limits.last_free && value_is_ptr(value) && SkewedPtr(
            value,
        ).unskew() >= self.gc.heap.limits.base {
            self.gc.remembered_set.insert(field_addr);
        }
    }

    /// The state after a cycle with the strategy `strategy`, as far as the
    /// cycle decides it: the heap is collected, the end of the last
    /// collection is the new end of the heap, the recorded fields are
    /// forgotten and the counters have the cycle's numbers.
    pub open spec fn collected(before: Collector, strategy: Strategy, after: Collector) -> bool {
        let cycle = Cycle {
            before: before.gc.heap@,
            recorded: before.gc.remembered_set@,
            young: strategy == Strategy::Young,
        };
        let generation = before.gc.heap@.free - cycle.lo();
        let free = if compaction_pays(cycle.live_bytes(), generation) {
            cycle.new_free()
        } else {
            before.gc.heap@.free
        };
        &&& after.gc.heap@ == (HeapModel {
            m: after.gc.heap@.m,
            free: free,
            last_free: free,
            ..before.gc.heap@
        })
        &&& compaction_pays(cycle.live_bytes(), generation) ==> cycle.compacted(after.gc.heap@.m)
        &&& !compaction_pays(cycle.live_bytes(), generation) ==> after.gc.heap@.m
            == before.gc.heap@.m
        &&& after.gc.remembered_set@ == Seq::<u32>::empty()
        &&& after.gc.strategy == strategy
        &&& after.gc.marked_space == cycle.live_bytes()
        &&& after.gc.mark_stack@.len() == 0
        &&& after.gc.bitmap.len() == 0
        &&& after.reclaimed.0 == before.reclaimed.0 + (before.gc.heap@.free - free)
        &&& after.max_live.0 == if before.max_live.0 >= free - before.gc.heap@.base {
            before.max_live.0 as int
        } else {
            free - before.gc.heap@.base
        }
    }

    /// Whether the heap is fit for a cycle, with either strategy, and the
    /// counter of reclaimed bytes has room for what a cycle can reclaim.
    pub open spec fn heap_ready(self) -> bool {
        &&& self.gc.heap@.well_formed()
        &&& self.gc.heap@.remembered_valid(self.gc.heap@.blocks(), self.gc.remembered_set@)
        &&& self.gc.heap@.remembered_covers(self.gc.heap@.blocks(), self.gc.remembered_set@)
        &&& self.reclaimed.0 + self.gc.heap@.free <= u64::MAX
    }

    /// Whether a cycle can run: the heap is fit for one and the count of
    /// cycles has room for one more.
    pub open spec fn ready(self) -> bool {
        self.heap_ready() && self.run < u32::MAX
    }

    /// Runs one cycle, with the strategy that `decide_strategy` gives for
    /// it, and brings the state up to date. The heap is then fit for the
    /// next cycle.
    pub fn experimental_gc(&mut self)
        requires
            old(self).ready(),
        ensures
            final(self).run == old(self).run + 1,
            Self::collected(
                *old(self),
                strategy_of(final(self).run as int, old(self).gc.heap@.free),
                *final(self),
            ),
            final(self).heap_ready(),
    {
        let strategy = decide_strategy(&mut self.run, self.gc.heap.limits.free);
        let ghost cycle = Cycle {
            before: self.gc.heap@,
            recorded: self.gc.remembered_set@,
            young: strategy == Strategy::Young,
        };
        let (reclaimed, live) = experimental_gc_internal(&mut self.gc, strategy);
        proof {
            let generation = cycle.before.free - cycle.lo();
            if compaction_pays(cycle.live_bytes(), generation) {
                cycle.lemma_well_formed_after(self.gc.heap@.m);
                assert((HeapModel {
                    last_free: self.gc.heap@.free,
                    ..self.gc.heap@
                }) == cycle.heap_after(self.gc.heap@.m));
            } else {
                cycle.lemma_well_formed_unmoved();
            }
            let after = HeapModel { last_free: self.gc.heap@.free, ..self.gc.heap@ };
            after.lemma_nothing_to_remember();
        }
        self.reclaimed = Bytes(self.reclaimed.0 + reclaimed.0 as u64);
        if self.max_live.0 < live.0 as u64 {
            self.max_live = Bytes(live.0 as u64);
        }
        self.gc.heap.limits.last_free = self.gc.heap.limits.free;
        self.gc.remembered_set = RememberedSet::new();
    }

    /// Runs a cycle if one is due for a heap reservation of `heap_size`
    /// bytes: if the dynamic heap has grown to `gc_threshold(heap_size)`
    /// bytes or more. Returns whether it did.
    pub fn schedule_experimental_gc(&mut self, heap_size: u64) -> (r: bool)
        requires
            gc_threshold(heap_size as int) >= 0,
            old(self).gc.heap@.base <= old(self).gc.heap@.free,
            old(self).gc.heap@.free - old(self).gc.heap@.base >= gc_threshold(heap_size as int)
                ==> old(self).ready(),
        ensures
            r == (old(self).gc.heap@.free - old(self).gc.heap@.base >= gc_threshold(
                heap_size as int,
            )),
            !r ==> *final(self) == *old(self),
            r ==> final(self).run == old(self).run + 1 && Self::collected(
                *old(self),
                strategy_of(final(self).run as int, old(self).gc.heap@.free),
                *final(self),
            ) && final(self).heap_ready(),
    {
        let max_live: Bytes<u64> = match threshold_for(heap_size) {
            Some(max_live) => max_live,
            None => Bytes(0),
        };
        if self.should_do_gc(max_live) {
            self.experimental_gc();
            true
        } else {
            false
        }
    }
}

/// Whether compacting a generation of `generation` bytes, `marked` of them
/// marked, pays: less than 95% of it is marked.
pub open spec fn compaction_pays(marked: int, generation: int) -> bool {
    100 * marked < 95 * generation
}

} // verus!
