//! A cycle leaves a well-formed heap: the blocks that are kept tile the
//! heap up to its new end, and every pointer refers to one of them.

use vstd::prelude::*;
use crate::collection::Cycle;
use crate::compaction::same_shape;
use crate::heap::{
    index_of, is_start, lemma_index_of, lemma_tiles_ascending, lemma_tiles_bounds, tiles,
    HeapModel,
};
use crate::memory::{word_at, word_in};
use crate::types::{lemma_skew_unskew, spec_skew, TAG_MUTBOX};
use crate::visitor::{
    block_words, is_block, is_field_of, is_object_tag, is_ptr, lemma_fields_inside,
    points_to_dynamic_heap, unskewed,
};

verus! {

impl Cycle {
    /// Whether the block at `a` is still there after compaction: it lies
    /// below the collected generation, or it survives.
    pub open spec fn kept(self, a: int) -> bool {
        a < self.lo() || self.survives(a)
    }

    /// Where the kept block at `a` lies after compaction.
    pub open spec fn place(self, a: int) -> int {
        if a < self.lo() {
            a
        } else {
            self.new_address(a)
        }
    }

    /// The places after compaction of the kept ones among the first `k`
    /// blocks.
    pub open spec fn packed(self, k: int) -> Seq<int>
        decreases k,
    {
        if k <= 0 {
            Seq::empty()
        } else if self.kept(self.blocks()[k - 1]) {
            self.packed(k - 1).push(self.place(self.blocks()[k - 1]))
        } else {
            self.packed(k - 1)
        }
    }

    /// The address behind the kept ones among the first `k` blocks, after
    /// compaction.
    pub open spec fn end_of(self, k: int) -> int {
        if self.blocks()[k] < self.lo() {
            self.blocks()[k]
        } else {
            self.lo() + self.surviving_bytes(k)
        }
    }

    /// The blocks of the heap after compaction, followed by its new end.
    pub open spec fn blocks_after(self) -> Seq<int> {
        self.packed(self.blocks().len() - 1).push(self.new_free())
    }

    /// The heap after compaction, with the memory `m`: it ends at the new
    /// end, and all of it is old generation.
    pub open spec fn heap_after(self, m: Seq<u32>) -> HeapModel {
        HeapModel { m: m, free: self.new_free(), last_free: self.new_free(), ..self.before }
    }

    /// The `k`-th block of the heap before the cycle.
    pub proof fn lemma_kth(self, k: int)
        requires
            self.valid(),
            0 <= k < self.blocks().len() - 1,
        ensures
            is_start(self.blocks(), self.blocks()[k]),
            index_of(self.blocks(), self.blocks()[k]) == k,
            is_block(self.before.m, self.blocks()[k]),
            self.blocks()[k + 1] == self.blocks()[k] + 4 * block_words(
                self.before.m,
                self.blocks()[k],
            ),
            self.before.base <= self.blocks()[k],
            self.blocks()[k + 1] <= self.before.free,
            self.blocks()[k] % 4 == 0,
            self.blocks()[k] >= self.lo() || self.blocks()[k + 1] <= self.lo(),
    {
        let s = self.blocks();
        lemma_index_of(self.before.m, s, self.before.base, self.before.free, k);
        lemma_tiles_bounds(self.before.m, s, self.before.base, self.before.free, k);
        assert(is_block(self.before.m, s[k]));
        if self.young && self.before.last_free != self.before.free {
            let j = index_of(s, self.before.last_free);
            if k < j {
                if k + 1 < j {
                    lemma_tiles_ascending(
                        self.before.m,
                        s,
                        self.before.base,
                        self.before.free,
                        k + 1,
                        j,
                    );
                }
            } else if j < k {
                lemma_tiles_ascending(self.before.m, s, self.before.base, self.before.free, j, k);
            }
        }
    }

    /// A kept block has after compaction, at its place, the shape that it
    /// had before.
    pub proof fn lemma_kept_shape(self, after: Seq<u32>, a: int)
        requires
            self.valid(),
            self.compacted(after),
            is_start(self.blocks(), a),
            self.kept(a),
        ensures
            same_shape(self.before.m, a, after, self.place(a)),
            self.before.base <= self.place(a) <= a,
            self.place(a) % 4 == 0,
            self.place(a) + 4 * block_words(self.before.m, a) <= self.new_free(),
            self.new_free() <= self.before.free,
    {
        self.lemma_block(a);
        self.lemma_blocks();
        let n = block_words(self.before.m, a);
        let b = self.place(a);
        if a < self.lo() {
            let k = index_of(self.blocks(), a);
            self.lemma_kth(k);
            self.lemma_surviving_bytes_bound(self.blocks().len() - 1);
            assert(self.in_block(a, a));
            if n >= 2 {
                assert(self.in_block(a, a + 4));
            }
            if n >= 3 {
                assert(self.in_block(a, a + 8));
            }
            if n >= 4 {
                assert(self.in_block(a, a + 12));
            }
            lemma_fields_inside(self.before.m, a);
        } else {
            self.lemma_survivor(a);
            self.lemma_survivor_moves_down(a);
            assert(self.survivor_word(a, a) == word_at(self.before.m, a));
            assert(self.in_block(a, a));
            assert(self.in_block(a, a + 8));
            assert(word_at(after, a + 8 - a + self.new_address(a)) == self.survivor_word(a, a + 8));
            if n >= 4 {
                assert(self.in_block(a, a + 12));
                assert(word_at(after, a + 12 - a + self.new_address(a)) == self.survivor_word(
                    a,
                    a + 12,
                ));
            }
            lemma_fields_inside(self.before.m, a);
        }
    }

    /// The places of the kept blocks keep their positions as more blocks
    /// are counted.
    pub proof fn lemma_packed_prefix(self, i: int, j: int)
        requires
            0 <= i <= j,
        ensures
            self.packed(i).len() <= self.packed(j).len(),
            forall|x: int| 0 <= x < self.packed(i).len() ==> self.packed(j)[x] == self.packed(i)[x],
        decreases j - i,
    {
        if i < j {
            self.lemma_packed_prefix(i, j - 1);
        }
    }

    /// The place of a kept block is a block of the heap after compaction.
    pub proof fn lemma_place_is_block(self, a: int)
        requires
            self.valid(),
            is_start(self.blocks(), a),
            self.kept(a),
        ensures
            is_start(self.blocks_after(), self.place(a)),
    {
        let s = self.blocks();
        let n = s.len() - 1;
        let k = index_of(s, a);
        self.lemma_packed_prefix(k + 1, n);
        let x = self.packed(k).len() as int;
        assert(self.packed(k + 1)[x] == self.place(a));
        assert(self.blocks_after()[x] == self.place(a));
    }

    /// A block of the heap after compaction is the place of a kept block.
    pub proof fn lemma_origin(self, k: int, x: int) -> (i: int)
        requires
            self.valid(),
            0 <= k < self.blocks().len(),
            0 <= x < self.packed(k).len(),
        ensures
            0 <= i < k,
            self.kept(self.blocks()[i]),
            self.packed(k)[x] == self.place(self.blocks()[i]),
        decreases k,
    {
        if self.kept(self.blocks()[k - 1]) && x == self.packed(k - 1).len() {
            k - 1
        } else {
            self.lemma_origin(k - 1, x)
        }
    }

    /// The kept ones among the first `k` blocks tile the heap after
    /// compaction from its base to `end_of(k)`.
    #[verifier::rlimit(40)]
    pub proof fn lemma_packed_tiles(self, after: Seq<u32>, k: int)
        requires
            self.valid(),
            self.compacted(after),
            0 <= k < self.blocks().len(),
        ensures
            self.packed(k).len() == 0 ==> self.end_of(k) == self.before.base,
            self.packed(k).len() > 0 ==> self.packed(k)[0] == self.before.base,
            forall|x: int|
                0 <= x < self.packed(k).len() ==> #[trigger] is_block(after, self.packed(k)[x])
                    && self.packed(k)[x] + 4 * block_words(after, self.packed(k)[x]) == if x + 1
                    < self.packed(k).len() {
                    self.packed(k)[x + 1]
                } else {
                    self.end_of(k)
                },
        decreases k,
    {
        let s = self.blocks();
        self.lemma_blocks();
        if k == 0 {
            self.lemma_surviving_bytes_bound(0);
            assert(self.packed(0).len() == 0);
            assert(s[0] == self.before.base);
            assert(self.end_of(0) == self.before.base);
        } else {
            self.lemma_packed_tiles(after, k - 1);
            let a = s[k - 1];
            self.lemma_kth(k - 1);
            self.lemma_surviving_bytes_bound(k - 1);
            self.lemma_surviving_bytes_bound(k);
            let q0 = self.packed(k - 1);
            let q = self.packed(k);
            assert(q0.len() == 0 ==> self.end_of(k - 1) == self.before.base);
            assert(q0.len() > 0 ==> q0[0] == self.before.base);
            if self.kept(a) {
                self.lemma_kept_shape(after, a);
                assert(self.place(a) == self.end_of(k - 1));
                assert(self.place(a) + 4 * block_words(after, self.place(a)) == self.end_of(k));
                assert forall|x: int| 0 <= x < q.len() implies #[trigger] is_block(after, q[x])
                    && q[x] + 4 * block_words(after, q[x]) == if x + 1 < q.len() {
                    q[x + 1]
                } else {
                    self.end_of(k)
                } by {
                    if x < q0.len() {
                        assert(q[x] == q0[x]);
                        assert(is_block(after, q0[x]));
                        if x + 1 < q0.len() {
                            assert(q[x + 1] == q0[x + 1]);
                        } else {
                            assert(q[x + 1] == self.place(a));
                        }
                    } else {
                        assert(q[x] == self.place(a));
                        assert(is_block(after, self.place(a)));
                    }
                }
                assert(q.len() > 0);
                assert(q[0] == self.before.base) by {
                    if q0.len() > 0 {
                        assert(q[0] == q0[0]);
                    }
                }
            } else {
                assert(self.end_of(k) == self.end_of(k - 1));
                assert forall|x: int| 0 <= x < q.len() implies #[trigger] is_block(after, q[x])
                    && q[x] + 4 * block_words(after, q[x]) == if x + 1 < q.len() {
                    q[x + 1]
                } else {
                    self.end_of(k)
                } by {
                    assert(is_block(after, q0[x]));
                }
            }
        }
        assert forall|x: int| 0 <= x < self.packed(k).len() implies #[trigger] is_block(
            after,
            self.packed(k)[x],
        ) by {}
        assert forall|x: int| 0 <= x < self.packed(k).len() && x + 1 < self.packed(
            k,
        ).len() implies #[trigger] self.packed(k)[x] + 4 * block_words(after, self.packed(k)[x])
            == self.packed(k)[x + 1] by {
            assert(is_block(after, self.packed(k)[x]));
        }
        assert forall|x: int| 0 <= x < self.packed(k).len() && x + 1 >= self.packed(
            k,
        ).len() implies #[trigger] self.packed(k)[x] + 4 * block_words(after, self.packed(k)[x])
            == self.end_of(k) by {
            assert(is_block(after, self.packed(k)[x]));
        }
    }

    /// The blocks after compaction tile the heap from its base to its new
    /// end.
    pub proof fn lemma_tiles_after(self, after: Seq<u32>)
        requires
            self.valid(),
            self.compacted(after),
        ensures
            tiles(after, self.blocks_after(), self.before.base, self.new_free()),
            self.before.base <= self.new_free() <= self.before.free,
    {
        let s = self.blocks();
        let n = s.len() - 1;
        self.lemma_blocks();
        self.lemma_packed_tiles(after, n);
        self.lemma_surviving_bytes_bound(n);
        let q = self.packed(n);
        let r = self.blocks_after();
        assert(self.end_of(n) == self.new_free());
        assert forall|x: int| 0 <= x < r.len() - 1 implies #[trigger] is_block(after, r[x]) && r[x
            + 1] == r[x] + 4 * block_words(after, r[x]) by {
            assert(r[x] == q[x]);
            assert(is_block(after, q[x]));
            if x + 1 < q.len() {
                assert(r[x + 1] == q[x + 1]);
            }
        }
    }

    /// A pointer that referred to an object before the cycle refers to an
    /// object after it, once it is retargeted.
    pub proof fn lemma_retargeted_valid(self, after: Seq<u32>, v: u32)
        requires
            self.valid(),
            self.compacted(after),
            points_to_dynamic_heap(v, self.before.base) ==> self.before.valid_target(
                self.blocks(),
                v,
            ) && (unskewed(v) >= self.lo() ==> self.survives(unskewed(v))),
        ensures
            points_to_dynamic_heap(self.retargeted(v), self.before.base) ==> self.heap_after(
                after,
            ).valid_target(self.blocks_after(), self.retargeted(v)),
            points_to_dynamic_heap(self.retargeted(v), self.before.base) == points_to_dynamic_heap(
                v,
                self.before.base,
            ),
            is_ptr(self.retargeted(v)) == is_ptr(v),
    {
        self.lemma_blocks();
        if points_to_dynamic_heap(v, self.before.base) {
            let t = unskewed(v);
            self.lemma_block(t);
            assert(self.kept(t));
            self.lemma_kept_shape(after, t);
            self.lemma_place_is_block(t);
            if t >= self.lo() {
                let x = self.new_address(t);
                lemma_skew_unskew(x as u32);
                assert(128 <= x < 0x1_0000_0000 && x % 4 == 0);
                assert(spec_skew(x as u32).0 == x - 1);
                assert((x - 1) % 2 == 1);
                assert(unskewed(self.retargeted(v)) == x);
            }
        }
    }

    /// The pointers that a kept object holds after compaction refer to
    /// objects.
    pub proof fn lemma_fields_valid_after(self, after: Seq<u32>, a: int)
        requires
            self.valid(),
            self.compacted(after),
            is_start(self.blocks(), a),
            self.kept(a),
            is_object_tag(word_at(self.before.m, a)),
        ensures
            self.heap_after(after).fields_valid(self.blocks_after(), self.place(a)),
    {
        let b = self.place(a);
        let ha = self.heap_after(after);
        self.lemma_kept_shape(after, a);
        self.lemma_block(a);
        self.lemma_blocks();
        lemma_fields_inside(self.before.m, a);
        assert forall|loc2: int|
            #![trigger word_at(ha.m, loc2)]
            is_field_of(ha.m, b, loc2) && points_to_dynamic_heap(
                word_at(ha.m, loc2),
                ha.base,
            ) implies ha.valid_target(self.blocks_after(), word_at(ha.m, loc2)) by {
            let loc = loc2 - b + a;
            assert(is_field_of(self.before.m, a, loc));
            assert(self.in_block(a, loc));
            let v = word_at(self.before.m, loc);
            if a < self.lo() {
                assert(word_at(after, loc) == self.retargeted(v));
                if points_to_dynamic_heap(v, self.before.base) {
                    self.lemma_old_target(a, loc);
                }
            } else {
                assert(word_at(after, loc - a + self.new_address(a)) == self.survivor_word(a, loc));
                if points_to_dynamic_heap(v, self.before.base) {
                    self.lemma_survivor_target(a, loc);
                }
            }
            self.lemma_retargeted_valid(after, v);
        }
    }

    /// A root place lies outside the array of root boxes, in the static
    /// region.
    pub proof fn lemma_root_place(self, l: int)
        requires
            self.valid(),
            self.root_place(l),
        ensures
            self.before.outside_root_array(l),
            word_in(self.before.m.len(), l),
            l + 4 <= self.before.base,
    {
        let hm = self.before;
        if l != hm.cont_loc {
            let i = choose|i: int| 0 <= i < hm.root_count() && #[trigger] hm.root_field(i) == l;
            assert(word_in(hm.m.len(), hm.root_box(i)));
        }
    }

    /// What a word of the static region holds after compaction: a pointer
    /// is retargeted, anything else is as before.
    pub proof fn lemma_static_word(self, after: Seq<u32>, y: int)
        requires
            self.valid(),
            self.compacted(after),
            word_in(after.len(), y),
            y < self.before.base,
        ensures
            word_at(after, y) == self.retargeted(word_at(self.before.m, y)) || word_at(after, y)
                == word_at(self.before.m, y),
            !self.root_place(y) ==> word_at(after, y) == word_at(self.before.m, y),
            self.root_place(y) ==> word_at(after, y) == self.retargeted(
                word_at(self.before.m, y),
            ),
            !points_to_dynamic_heap(word_at(self.before.m, y), self.before.base) ==> word_at(
                after,
                y,
            ) == word_at(self.before.m, y),
    {
    }

    /// The roots are valid after compaction.
    #[verifier::rlimit(40)]
    pub proof fn lemma_roots_valid_after(self, after: Seq<u32>)
        requires
            self.valid(),
            self.compacted(after),
        ensures
            self.heap_after(after).roots_valid(self.blocks_after()),
    {
        let hm = self.before;
        let ha = self.heap_after(after);
        let r = hm.root_array;
        self.lemma_blocks();
        self.lemma_static_word(after, r);
        self.lemma_static_word(after, r + 4);
        self.lemma_static_word(after, r + 8);
        assert(!self.root_place(r + 8)) by {
            if self.root_place(r + 8) {
                self.lemma_root_place(r + 8);
            }
        }
        assert(ha.root_count() == hm.root_count());
        assert(block_words(after, r) == block_words(hm.m, r));
        assert forall|i: int| 0 <= i < ha.root_count() implies {
            &&& word_in(ha.m.len(), #[trigger] ha.root_box(i))
            &&& word_at(ha.m, ha.root_box(i)) == TAG_MUTBOX
            &&& ha.root_box(i) + 12 <= ha.base
            &&& ha.outside_root_array(ha.root_field(i))
            &&& ha.root_field(i) != ha.cont_loc
            &&& (points_to_dynamic_heap(word_at(ha.m, ha.root_field(i)), ha.base)
                ==> ha.valid_target(self.blocks_after(), word_at(ha.m, ha.root_field(i))))
        } by {
            let e = r + 12 + 4 * i;
            assert(!self.root_place(e)) by {
                if self.root_place(e) {
                    self.lemma_root_place(e);
                }
            }
            self.lemma_static_word(after, e);
            assert(ha.root_box(i) == hm.root_box(i));
            assert(word_in(hm.m.len(), hm.root_box(i)));
            self.lemma_static_word(after, hm.root_box(i));
            let f = hm.root_field(i);
            assert(self.root_place(f));
            self.lemma_static_word(after, f);
            let v = word_at(hm.m, f);
            if points_to_dynamic_heap(v, hm.base) {
                self.lemma_root_target(f);
            }
            self.lemma_retargeted_valid(after, v);
        }
        let c = hm.cont_loc;
        assert(self.root_place(c));
        self.lemma_static_word(after, c);
        let v = word_at(hm.m, c);
        if points_to_dynamic_heap(v, hm.base) {
            self.lemma_root_target(c);
        }
        self.lemma_retargeted_valid(after, v);
    }

    /// A cycle that compacts leaves a well-formed heap.
    pub proof fn lemma_well_formed_after(self, after: Seq<u32>)
        requires
            self.valid(),
            self.compacted(after),
        ensures
            self.heap_after(after).well_formed_with(self.blocks_after()),
            self.heap_after(after).well_formed(),
    {
        let ha = self.heap_after(after);
        let r = self.blocks_after();
        let n = self.blocks().len() - 1;
        self.lemma_blocks();
        self.lemma_tiles_after(after);
        self.lemma_roots_valid_after(after);
        assert forall|x: int|
            0 <= x < r.len() - 1 && is_object_tag(word_at(ha.m, r[x])) implies #[trigger] ha.fields_valid(
            r,
            r[x],
        ) by {
            let i = self.lemma_origin(n, x);
            let a = self.blocks()[i];
            self.lemma_kth(i);
            assert(r[x] == self.packed(n)[x]);
            self.lemma_kept_shape(after, a);
            self.lemma_fields_valid_after(after, a);
        }
    }

    /// A cycle that does not compact leaves a well-formed heap too: the
    /// blocks are the same, and all of them are old generation now.
    pub proof fn lemma_well_formed_unmoved(self)
        requires
            self.valid(),
        ensures
            (HeapModel { last_free: self.before.free, ..self.before }).well_formed(),
    {
        let h = HeapModel { last_free: self.before.free, ..self.before };
        let s = self.blocks();
        self.lemma_blocks();
        assert forall|k: int|
            0 <= k < s.len() - 1 && is_object_tag(word_at(h.m, s[k])) implies #[trigger] h.fields_valid(
            s,
            s[k],
        ) by {
            assert(self.before.fields_valid(s, s[k]));
        }
        assert forall|i: int| 0 <= i < h.root_count() implies {
            &&& word_in(h.m.len(), #[trigger] h.root_box(i))
            &&& word_at(h.m, h.root_box(i)) == TAG_MUTBOX
            &&& h.root_box(i) + 12 <= h.base
            &&& h.outside_root_array(h.root_field(i))
            &&& h.root_field(i) != h.cont_loc
            &&& (points_to_dynamic_heap(word_at(h.m, h.root_field(i)), h.base) ==> h.valid_target(
                s,
                word_at(h.m, h.root_field(i)),
            ))
        } by {
            assert(word_in(self.before.m.len(), self.before.root_box(i)));
        }
        assert(h.well_formed_with(s));
    }
}

impl HeapModel {
    /// In a well-formed heap that is all old generation, no object refers
    /// to the young generation: with nothing recorded, the recorded fields
    /// are valid and cover the pointers into it.
    pub proof fn lemma_nothing_to_remember(self)
        requires
            self.well_formed(),
            self.last_free == self.free,
        ensures
            self.remembered_valid(self.blocks(), Seq::<u32>::empty()),
            self.remembered_covers(self.blocks(), Seq::<u32>::empty()),
    {
        let s = self.blocks();
        assert forall|a: int, l: int|
            #![trigger is_field_of(self.m, a, l)]
            is_start(s, a) && a < self.last_free && is_object_tag(word_at(self.m, a))
                && is_field_of(self.m, a, l) && points_to_dynamic_heap(
                word_at(self.m, l),
                self.base,
            ) && unskewed(word_at(self.m, l)) >= self.last_free implies exists|j: int|
            0 <= j < Seq::<u32>::empty().len() && #[trigger] Seq::<u32>::empty()[j] == l by {
            let k = index_of(s, a);
            assert(self.fields_valid(s, s[k]));
            let t = unskewed(word_at(self.m, l));
            let j = index_of(s, t);
            lemma_tiles_bounds(self.m, s, self.base, self.free, j);
            assert(is_block(self.m, s[j]));
        }
    }
}

} // verus!
