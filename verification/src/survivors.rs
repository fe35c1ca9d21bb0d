//! What holds of the survivors of a cycle: they are objects of the
//! collected generation, what they refer to there survives with them, and
//! they slide down without overtaking each other.

use vstd::prelude::*;
use crate::collection::Cycle;
use crate::heap::{index_of, is_start, lemma_tiles_ascending, lemma_tiles_bounds};
use crate::memory::{word_at, word_in};
use crate::visitor::{
    block_words, is_block, is_field_of, is_object_tag, is_ptr, points_to_dynamic_heap, unskewed,
};

verus! {

impl Cycle {
    /// The blocks of the heap before the cycle.
    pub open spec fn blocks(self) -> Seq<int> {
        self.before.blocks()
    }

    /// The heap before a cycle that can run is well formed with its blocks.
    pub proof fn lemma_blocks(self)
        requires
            self.valid(),
        ensures
            self.before.well_formed_with(self.blocks()),
            self.before.base <= self.lo() <= self.before.free,
            self.lo() % 4 == 0,
    {
        let s = self.blocks();
        let n = s.len() - 1;
        if self.before.last_free != self.before.free {
            let k = index_of(s, self.before.last_free);
            lemma_tiles_bounds(self.before.m, s, self.before.base, self.before.free, k);
        } else if n > 0 {
            lemma_tiles_bounds(self.before.m, s, self.before.base, self.before.free, n - 1);
            assert(is_block(self.before.m, s[n - 1]));
        }
    }

    /// A block of the heap before the cycle lies in the heap, and only one
    /// position of the list of blocks has its address.
    pub proof fn lemma_block(self, a: int)
        requires
            self.valid(),
            is_start(self.blocks(), a),
        ensures
            0 <= index_of(self.blocks(), a) < self.blocks().len() - 1,
            self.blocks()[index_of(self.blocks(), a)] == a,
            is_block(self.before.m, a),
            self.before.base <= a,
            a + 4 * block_words(self.before.m, a) <= self.before.free,
            a % 4 == 0,
            is_object_tag(word_at(self.before.m, a)) ==> self.before.fields_valid(self.blocks(), a),
    {
        let s = self.blocks();
        let k = index_of(s, a);
        lemma_tiles_bounds(self.before.m, s, self.before.base, self.before.free, k);
        assert(is_block(self.before.m, s[k]));
        if is_object_tag(word_at(self.before.m, a)) {
            assert(self.before.fields_valid(s, s[k]));
        }
    }

    /// What a root refers to in the collected generation is an object.
    pub proof fn lemma_root_target_is_object(self, t: int)
        requires
            self.valid(),
            self.before.is_root_target(self.recorded, self.young, t),
        ensures
            is_start(self.blocks(), t),
            is_object_tag(word_at(self.before.m, t)),
    {
        let hm = self.before;
        let s = self.blocks();
        if exists|i: int|
            0 <= i < hm.root_count() && points_to_dynamic_heap(
                word_at(hm.m, #[trigger] hm.root_field(i)),
                hm.base,
            ) && unskewed(word_at(hm.m, hm.root_field(i))) == t {
            let i = choose|i: int|
                0 <= i < hm.root_count() && points_to_dynamic_heap(
                    word_at(hm.m, #[trigger] hm.root_field(i)),
                    hm.base,
                ) && unskewed(word_at(hm.m, hm.root_field(i))) == t;
            assert(word_in(hm.m.len(), hm.root_box(i)));
        } else if is_ptr(word_at(hm.m, hm.cont_loc)) && unskewed(word_at(hm.m, hm.cont_loc)) == t {
        } else {
            let j = choose|j: int|
                0 <= j < self.recorded.len() && is_ptr(
                    word_at(hm.m, #[trigger] self.recorded[j] as int),
                ) && unskewed(word_at(hm.m, self.recorded[j] as int)) >= hm.last_free && unskewed(
                    word_at(hm.m, self.recorded[j] as int),
                ) == t;
            assert(word_in(hm.m.len(), self.recorded[j] as int));
        }
    }

    /// Every object on a path from a root is an object of the heap.
    pub proof fn lemma_path_objects(self, p: Seq<int>, i: int)
        requires
            self.valid(),
            self.before.is_path(self.recorded, self.young, p),
            0 <= i < p.len(),
        ensures
            is_start(self.blocks(), p[i]),
            is_object_tag(word_at(self.before.m, p[i])),
            p[i] >= self.lo(),
        decreases i,
    {
        if i == 0 {
            self.lemma_root_target_is_object(p[0]);
        } else {
            self.lemma_path_objects(p, i - 1);
            self.lemma_block(p[i - 1]);
            assert(self.before.has_edge(p[i - 1], p[i]));
        }
    }

    /// A survivor is an object of the collected generation.
    pub proof fn lemma_survivor(self, a: int)
        requires
            self.valid(),
            self.survives(a),
        ensures
            is_start(self.blocks(), a),
            is_object_tag(word_at(self.before.m, a)),
            self.lo() <= a,
            is_block(self.before.m, a),
            a + 4 * block_words(self.before.m, a) <= self.before.free,
            a % 4 == 0,
            3 <= block_words(self.before.m, a),
    {
        let p = choose|p: Seq<int>|
            self.before.is_path(self.recorded, self.young, p) && #[trigger] p.last() == a;
        self.lemma_path_objects(p, p.len() - 1);
        self.lemma_block(a);
    }

    /// The survivors among the first `k` blocks take no more room than
    /// lies between the start of the collected generation and the `k`-th
    /// block.
    pub proof fn lemma_surviving_bytes_bound(self, k: int)
        requires
            self.valid(),
            0 <= k < self.blocks().len(),
        ensures
            0 <= self.surviving_bytes(k),
            self.surviving_bytes(k) % 4 == 0,
            self.blocks()[k] <= self.lo() ==> self.surviving_bytes(k) == 0,
            self.blocks()[k] >= self.lo() ==> self.surviving_bytes(k) <= self.blocks()[k]
                - self.lo(),
        decreases k,
    {
        let s = self.blocks();
        if k > 0 {
            self.lemma_surviving_bytes_bound(k - 1);
            lemma_tiles_bounds(self.before.m, s, self.before.base, self.before.free, k - 1);
            assert(is_block(self.before.m, s[k - 1]));
            if self.survives(s[k - 1]) {
                self.lemma_survivor(s[k - 1]);
            }
        }
    }

    /// The surviving bytes grow with the number of blocks that are
    /// counted.
    pub proof fn lemma_surviving_bytes_mono(self, i: int, j: int)
        requires
            self.valid(),
            0 <= i <= j < self.blocks().len(),
        ensures
            self.surviving_bytes(i) <= self.surviving_bytes(j),
        decreases j - i,
    {
        if i < j {
            self.lemma_surviving_bytes_mono(i, j - 1);
            assert(is_block(self.before.m, self.blocks()[j - 1]));
        }
    }

    /// No survivor moves up: its new address lies in the collected
    /// generation, at or below its old address.
    pub proof fn lemma_survivor_moves_down(self, a: int)
        requires
            self.valid(),
            self.survives(a),
        ensures
            self.lo() <= self.new_address(a) <= a,
            self.new_address(a) % 4 == 0,
            self.new_address(a) + 4 * block_words(self.before.m, a) <= self.new_free(),
            self.new_free() <= self.before.free,
    {
        self.lemma_survivor(a);
        self.lemma_blocks();
        let s = self.blocks();
        let k = index_of(s, a);
        self.lemma_surviving_bytes_bound(k);
        self.lemma_surviving_bytes_mono(k + 1, s.len() - 1);
        self.lemma_surviving_bytes_bound(s.len() - 1);
    }

    /// The survivors keep their order, and do not overlap at their new
    /// addresses.
    pub proof fn lemma_survivors_keep_order(self, a: int, b: int)
        requires
            self.valid(),
            self.survives(a),
            self.survives(b),
            a < b,
        ensures
            self.new_address(a) + 4 * block_words(self.before.m, a) <= self.new_address(b),
    {
        self.lemma_survivor(a);
        self.lemma_survivor(b);
        let s = self.blocks();
        let i = index_of(s, a);
        let j = index_of(s, b);
        if j <= i {
            if j < i {
                lemma_tiles_ascending(self.before.m, s, self.before.base, self.before.free, j, i);
            }
        }
        self.lemma_surviving_bytes_mono(i + 1, j);
    }

    /// What a survivor refers to in the collected generation survives.
    pub proof fn lemma_survivor_target(self, a: int, l: int)
        requires
            self.valid(),
            self.survives(a),
            is_field_of(self.before.m, a, l),
            points_to_dynamic_heap(word_at(self.before.m, l), self.before.base),
        ensures
            self.before.valid_target(self.blocks(), word_at(self.before.m, l)),
            unskewed(word_at(self.before.m, l)) >= self.lo() ==> self.survives(
                unskewed(word_at(self.before.m, l)),
            ),
    {
        self.lemma_survivor(a);
        self.lemma_block(a);
        let t = unskewed(word_at(self.before.m, l));
        if t >= self.lo() {
            assert(self.before.has_edge(a, t));
            self.before.lemma_edge_reachable(self.recorded, self.young, a, t);
        }
    }

    /// What a root refers to in the collected generation survives.
    pub proof fn lemma_root_target(self, l: int)
        requires
            self.valid(),
            self.root_place(l),
            points_to_dynamic_heap(word_at(self.before.m, l), self.before.base),
        ensures
            self.before.valid_target(self.blocks(), word_at(self.before.m, l)),
            unskewed(word_at(self.before.m, l)) >= self.lo() ==> self.survives(
                unskewed(word_at(self.before.m, l)),
            ),
    {
        let hm = self.before;
        let t = unskewed(word_at(hm.m, l));
        if l != hm.cont_loc {
            let i = choose|i: int| 0 <= i < hm.root_count() && #[trigger] hm.root_field(i) == l;
            assert(word_in(hm.m.len(), hm.root_box(i)));
        }
        assert(hm.is_root_target(self.recorded, self.young, t));
        if t >= self.lo() {
            hm.lemma_root_reachable(self.recorded, self.young, t);
        }
    }

    /// What an object of the old generation refers to in the young
    /// generation survives a cycle on the young generation: the write
    /// barrier recorded the field.
    pub proof fn lemma_old_target(self, a: int, l: int)
        requires
            self.valid(),
            self.young,
            is_start(self.blocks(), a),
            a < self.before.last_free,
            is_object_tag(word_at(self.before.m, a)),
            is_field_of(self.before.m, a, l),
            points_to_dynamic_heap(word_at(self.before.m, l), self.before.base),
        ensures
            self.before.valid_target(self.blocks(), word_at(self.before.m, l)),
            unskewed(word_at(self.before.m, l)) >= self.lo() ==> self.survives(
                unskewed(word_at(self.before.m, l)),
            ),
    {
        let hm = self.before;
        let t = unskewed(word_at(hm.m, l));
        self.lemma_block(a);
        if t >= self.lo() {
            let j = choose|j: int| 0 <= j < self.recorded.len() && #[trigger] self.recorded[j] == l;
            assert(hm.is_root_target(self.recorded, self.young, t));
            hm.lemma_root_reachable(self.recorded, self.young, t);
        }
    }
}

} // verus!
