//! What a collection cycle does to a heap, stated over the heap before the
//! cycle alone: which objects survive, where they go, and what every word
//! holds afterwards.

use vstd::prelude::*;
use crate::compaction::{Compaction, Progress};
use crate::heap::{index_of, is_start, HeapModel};
use crate::reachability::marked_bytes;
use crate::memory::{word_at, word_in};
use crate::types::spec_skew;
use crate::visitor::{
    block_words, is_field_of, is_object_tag, is_ptr, points_to_dynamic_heap, unskewed,
};

verus! {

impl HeapModel {
    /// The blocks of a well-formed heap, in ascending order, followed by
    /// the end of the heap.
    pub open spec fn blocks(self) -> Seq<int> {
        choose|starts: Seq<int>| self.well_formed_with(starts)
    }

    /// Whether every field of an object of the old generation that holds a
    /// pointer into the young generation is among the recorded fields.
    pub open spec fn remembered_covers(self, starts: Seq<int>, recorded: Seq<u32>) -> bool {
        forall|a: int, l: int|
            #![trigger is_field_of(self.m, a, l)]
            is_start(starts, a) && a < self.last_free && is_object_tag(word_at(self.m, a))
                && is_field_of(self.m, a, l) && points_to_dynamic_heap(
                word_at(self.m, l),
                self.base,
            ) && unskewed(word_at(self.m, l)) >= self.last_free ==> exists|j: int|
                0 <= j < recorded.len() && #[trigger] recorded[j] == l
    }

    /// Whether every recorded field is a word of the memory, and one that
    /// holds a pointer into the young generation refers to an object.
    pub open spec fn remembered_valid(self, starts: Seq<int>, recorded: Seq<u32>) -> bool {
        forall|j: int|
            0 <= j < recorded.len() ==> {
                let v = word_at(self.m, #[trigger] recorded[j] as int);
                &&& word_in(self.m.len(), recorded[j] as int)
                &&& (is_ptr(v) && unskewed(v) >= self.last_free ==> self.valid_target(starts, v))
            }
    }
}

/// One collection cycle: the heap it starts from, the fields that the
/// write barrier recorded, and whether it collects the young generation
/// alone.
pub ghost struct Cycle {
    pub before: HeapModel,
    pub recorded: Seq<u32>,
    pub young: bool,
}

impl Cycle {
    /// First address of the generation that the cycle collects.
    pub open spec fn lo(self) -> int {
        self.before.scope_start(self.young)
    }

    /// Whether the cycle can run: the heap is well formed and, for a cycle
    /// on the young generation, the recorded fields are valid and cover
    /// the pointers from the old generation into the young one.
    pub open spec fn valid(self) -> bool {
        &&& self.before.well_formed()
        &&& self.young ==> self.before.remembered_valid(self.before.blocks(), self.recorded)
            && self.before.remembered_covers(self.before.blocks(), self.recorded)
    }

    /// Whether the object at `a` survives: it is reachable from the roots
    /// inside the collected generation.
    pub open spec fn survives(self, a: int) -> bool {
        self.before.reachable(self.recorded, self.young, a)
    }

    /// Bytes taken by the survivors among the first `k` blocks.
    pub open spec fn surviving_bytes(self, k: int) -> int
        decreases k,
    {
        if k <= 0 {
            0
        } else {
            self.surviving_bytes(k - 1) + if self.survives(self.before.blocks()[k - 1]) {
                4 * block_words(self.before.m, self.before.blocks()[k - 1])
            } else {
                0
            }
        }
    }

    /// Bytes taken by all survivors.
    pub open spec fn live_bytes(self) -> int {
        self.surviving_bytes(self.before.blocks().len() - 1)
    }

    /// Where the survivor at `a` lies after compaction: the survivors are
    /// packed from the start of the collected generation, in their order.
    pub open spec fn new_address(self, a: int) -> int {
        self.lo() + self.surviving_bytes(index_of(self.before.blocks(), a))
    }

    /// The end of the heap after compaction.
    pub open spec fn new_free(self) -> int {
        self.lo() + self.live_bytes()
    }

    /// What a place that held `v` holds after compaction: a pointer into
    /// the collected generation refers to the new address of its object,
    /// anything else is as before.
    pub open spec fn retargeted(self, v: u32) -> u32 {
        if points_to_dynamic_heap(v, self.before.base) && unskewed(v) >= self.lo() {
            spec_skew(self.new_address(unskewed(v)) as u32).0
        } else {
            v
        }
    }

    /// Whether `l` is the address of a word of the block at `a`.
    pub open spec fn in_block(self, a: int, l: int) -> bool {
        l % 4 == 0 && a <= l < a + 4 * block_words(self.before.m, a)
    }

    /// Whether `l` is a place in the static region that holds a root: the
    /// field of a static root box, or the continuation-table word.
    pub open spec fn root_place(self, l: int) -> bool {
        l == self.before.cont_loc || exists|i: int|
            0 <= i < self.before.root_count() && #[trigger] self.before.root_field(i) == l
    }

    /// What the word `l` of the survivor at `a` holds at the survivor's
    /// new address: its places are retargeted, its forwarding slot holds
    /// the new address where the object moved, the rest is as before.
    pub open spec fn survivor_word(self, a: int, l: int) -> u32 {
        if is_field_of(self.before.m, a, l) {
            self.retargeted(word_at(self.before.m, l))
        } else if l == a + 4 && self.new_address(a) != a {
            spec_skew(self.new_address(a) as u32).0
        } else {
            word_at(self.before.m, l)
        }
    }

    /// Whether `after` is the memory after the cycle compacted the heap.
    /// Every survivor lies at its new address with its words as
    /// `survivor_word` says. The old generation, where it is not
    /// collected, and the roots stay in place with their pointers
    /// retargeted. No other word of the static region, and no word behind
    /// the old end of the heap, has changed.
    pub open spec fn compacted(self, after: Seq<u32>) -> bool {
        &&& after.len() == self.before.m.len()
        &&& forall|a: int, l: int|
            #![trigger self.survivor_word(a, l)]
            self.survives(a) && self.in_block(a, l) ==> word_at(
                after,
                l - a + self.new_address(a),
            ) == self.survivor_word(a, l)
        &&& forall|a: int, l: int|
            #![trigger self.in_block(a, l)]
            self.young && is_start(self.before.blocks(), a) && a < self.before.last_free
                && self.in_block(a, l) ==> word_at(after, l) == if is_object_tag(
                word_at(self.before.m, a),
            ) && is_field_of(self.before.m, a, l) {
                self.retargeted(word_at(self.before.m, l))
            } else {
                word_at(self.before.m, l)
            }
        &&& forall|y: int|
            #![trigger word_at(after, y)]
            word_in(after.len(), y) && y < self.before.base ==> word_at(after, y)
                == if self.root_place(y) {
                self.retargeted(word_at(self.before.m, y))
            } else {
                word_at(self.before.m, y)
            }
        &&& forall|y: int|
            #![trigger word_at(after, y)]
            word_in(after.len(), y) && y >= self.before.free ==> word_at(after, y) == word_at(
                self.before.m,
                y,
            )
    }

    /// The survivors, counted as marked objects: the bytes are the same.
    pub proof fn lemma_bytes(self, c: Compaction, k: int)
        requires
            c.wf(),
            c.h0 == self.before,
            c.starts == self.before.blocks(),
            c.young == self.young,
            forall|t: int| c.is_marked(t) <==> self.survives(t),
            0 <= k < c.starts.len(),
        ensures
            self.surviving_bytes(k) == marked_bytes(c.h0.m, c.starts, c.marks, k),
        decreases k,
    {
        if k > 0 {
            self.lemma_bytes(c, k - 1);
            c.lemma_below(k - 1, k);
            assert(c.is_marked(c.starts[k - 1]) == self.survives(c.starts[k - 1]));
        }
    }

    /// The new address of a survivor, as the passes of a compaction count
    /// it.
    pub proof fn lemma_new_address(self, c: Compaction, a: int)
        requires
            c.wf(),
            c.h0 == self.before,
            c.starts == self.before.blocks(),
            c.young == self.young,
            forall|t: int| c.is_marked(t) <==> self.survives(t),
            self.survives(a),
        ensures
            self.new_address(a) == c.new_addr(a),
            self.lo() <= self.new_address(a) <= a,
    {
        c.lemma_marked_block(a);
        self.lemma_bytes(c, index_of(c.starts, a));
    }

    /// Once every pass of a compaction is over, the memory is the
    /// compacted one.
    #[verifier::rlimit(40)]
    pub proof fn lemma_compacted(self, c: Compaction, pr: Progress, m: Seq<u32>)
        requires
            c.wf(),
            c.inv(pr, m),
            pr == c.finish(pr),
            forall|y: int| c.static_slot(y) ==> pr.statics.contains(y),
            c.h0 == self.before,
            c.starts == self.before.blocks(),
            c.young == self.young,
            forall|t: int| c.is_marked(t) <==> self.survives(t),
        ensures
            self.compacted(m),
            self.live_bytes() == marked_bytes(c.h0.m, c.starts, c.marks, c.starts.len() - 1),
    {
        c.lemma_starts();
        self.lemma_bytes(c, c.starts.len() - 1);
        assert forall|a: int, l: int|
            #![trigger self.survivor_word(a, l)]
            self.survives(a) && self.in_block(a, l) implies word_at(
            m,
            l - a + self.new_address(a),
        ) == self.survivor_word(a, l) by {
            assert(c.is_marked(a));
            assert(c.word_of(a, l));
            c.lemma_finished(pr, m, a, l);
            self.lemma_new_address(c, a);
            if is_field_of(self.before.m, a, l) {
                self.lemma_retargeted(c, a, l);
            }
        }
        assert forall|a: int, l: int|
            #![trigger self.in_block(a, l)]
            self.young && is_start(self.before.blocks(), a) && a < self.before.last_free
                && self.in_block(a, l) implies word_at(m, l) == if is_object_tag(
            word_at(self.before.m, a),
        ) && is_field_of(self.before.m, a, l) {
            self.retargeted(word_at(self.before.m, l))
        } else {
            word_at(self.before.m, l)
        } by {
            c.lemma_blocks_apart_from_base(a);
            assert(c.old_block(a));
            assert(c.word_of(a, l));
            c.lemma_finished(pr, m, a, l);
            if is_object_tag(word_at(self.before.m, a)) && is_field_of(self.before.m, a, l) {
                self.lemma_retargeted(c, a, l);
            }
        }
        assert forall|y: int|
            #![trigger word_at(m, y)]
            word_in(m.len(), y) && y < self.before.base implies word_at(m, y)
            == if self.root_place(y) {
            self.retargeted(word_at(self.before.m, y))
        } else {
            word_at(self.before.m, y)
        } by {
            assert(self.root_place(y) == c.static_slot(y));
            if c.static_slot(y) {
                assert(c.word_of(0, y));
                c.lemma_finished(pr, m, 0, y);
                self.lemma_retargeted(c, 0, y);
            } else {
                c.lemma_finished_outside(pr, m, y);
            }
        }
        assert forall|y: int|
            #![trigger word_at(m, y)]
            word_in(m.len(), y) && y >= self.before.free implies word_at(m, y) == word_at(
            self.before.m,
            y,
        ) by {
            if c.static_slot(y) {
                assert(c.word_of(0, y));
                c.lemma_extent(pr, 0, y);
            }
            c.lemma_finished_outside(pr, m, y);
        }
        c.lemma_inv_len(pr, m);
    }

    /// What a place of a holder holds after compaction, as the passes of a
    /// compaction count it.
    pub proof fn lemma_retargeted(self, c: Compaction, a: int, l: int)
        requires
            c.wf(),
            c.h0 == self.before,
            c.starts == self.before.blocks(),
            c.young == self.young,
            forall|t: int| c.is_marked(t) <==> self.survives(t),
            c.holder(a, l),
        ensures
            self.retargeted(word_at(self.before.m, l)) == c.retargeted(word_at(self.before.m, l)),
    {
        let v = word_at(self.before.m, l);
        if points_to_dynamic_heap(v, self.before.base) && unskewed(v) >= self.lo() {
            assert(c.live(a, l));
            c.lemma_live_word(a, l);
            self.lemma_new_address(c, unskewed(v));
        }
    }
}

} // verus!
