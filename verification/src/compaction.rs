//! The state of a sliding compaction between its steps, and what each
//! step does to it.
//!
//! A *slot* is a place of a holder (a root, an object of the old
//! generation, a marked object) that, when compaction begins, holds a
//! pointer to an object that may move. Each slot is visited once; from then
//! on it is on the list of the object it refers to, until that object is
//! unthreaded and the slot holds the object's new address.

use vstd::prelude::*;
use crate::bitmap::Bitmap;
use crate::heap::{
    index_of, is_start, lemma_index_of, lemma_tiles_ascending, lemma_tiles_bounds, tiles,
    HeapModel,
};
use crate::memory::{with_copy, with_word, word_at, word_in};
use crate::reachability::{lemma_marked_bytes_bound, marked_bytes};
use crate::threading::{
    chain_link, is_chain, lemma_thread_extends_chain, lemma_unthreaded, threaded, unthreaded,
};
use crate::types::{lemma_skew_unskew, spec_skew};
use crate::visitor::{
    block_words, fields_end, is_block, is_block_tag, is_field_of, is_object_tag, is_ptr,
    lemma_fields_inside, points_to_dynamic_heap, unskewed,
};

verus! {

/// What a compaction starts from: the heap after the mark phase.
pub ghost struct Compaction {
    /// The heap when compaction begins.
    pub h0: HeapModel,
    /// The blocks of that heap.
    pub starts: Seq<int>,
    /// The mark bits.
    pub marks: Bitmap,
    /// Whether the young generation alone is collected.
    pub young: bool,
}

/// How far a compaction has come.
pub ghost struct Progress {
    /// Marked objects below this address had their backward pointers
    /// threaded; of the object at it, the places below `back_cur`.
    pub back: int,
    pub back_cur: int,
    /// The static places that were threaded.
    pub statics: Set<int>,
    /// Blocks of the old generation below this address had their pointers
    /// threaded; of the block at it, the places below `old_cur`.
    pub old: int,
    pub old_cur: int,
    /// Marked objects below this address had their forward pointers
    /// threaded; of the object at it, the places below `fwd_cur`.
    pub fwd: int,
    pub fwd_cur: int,
    /// Marked objects below this address are unthreaded.
    pub ut: int,
    /// Marked objects below this address are at their new address.
    pub mv: int,
    /// For each marked object that is not unthreaded, the slots on its
    /// list, as pairs of holder and place, the one threaded last at the end.
    pub chains: Map<int, Seq<(int, int)>>,
}

impl Compaction {
    /// First address of the collected generation.
    pub open spec fn lo(self) -> int {
        self.h0.scope_start(self.young)
    }

    /// Whether the object at `t` is marked.
    pub open spec fn is_marked(self, t: int) -> bool {
        t % 4 == 0 && self.marks.is_set(t / 4)
    }

    /// The address to which the marked object at `a` slides: the start of
    /// the collected generation plus the sizes of the marked objects below
    /// `a`.
    pub open spec fn new_addr(self, a: int) -> int {
        self.lo() + marked_bytes(self.h0.m, self.starts, self.marks, index_of(self.starts, a))
    }

    /// Whether `l` is a place in the static region that may hold a root.
    pub open spec fn static_slot(self, l: int) -> bool {
        l == self.h0.cont_loc || exists|i: int|
            0 <= i < self.h0.root_count() && #[trigger] self.h0.root_field(i) == l
    }

    /// Whether `a` is a block of the old generation, which stays in place.
    pub open spec fn old_block(self, a: int) -> bool {
        self.young && self.h0.base <= a < self.h0.last_free && is_start(self.starts, a)
    }

    /// Whether `l` is the address of a word of the block at `a`.
    pub open spec fn in_block(self, a: int, l: int) -> bool {
        l % 4 == 0 && a <= l < a + 4 * block_words(self.h0.m, a)
    }

    /// Whether `l` is a word that the collector keeps track of, as part of
    /// `a`: a static place (`a` is 0), a word of the array of root boxes, of
    /// a block of the old generation, or of a marked object.
    pub open spec fn word_of(self, a: int, l: int) -> bool {
        ||| a == 0 && self.static_slot(l)
        ||| a == self.h0.root_array && self.in_block(a, l)
        ||| self.old_block(a) && self.in_block(a, l)
        ||| self.is_marked(a) && self.in_block(a, l)
    }

    /// Whether `l` is a place of the holder `a` that may hold a pointer.
    pub open spec fn holder(self, a: int, l: int) -> bool {
        ||| a == 0 && self.static_slot(l)
        ||| self.old_block(a) && is_object_tag(word_at(self.h0.m, a)) && is_field_of(
            self.h0.m,
            a,
            l,
        )
        ||| self.is_marked(a) && is_field_of(self.h0.m, a, l)
    }

    /// The address that the place `l` refers to when compaction begins.
    pub open spec fn target(self, l: int) -> int {
        unskewed(word_at(self.h0.m, l))
    }

    /// Whether the place `l` of the holder `a` is a slot: it holds a
    /// pointer to an object of the collected generation.
    pub open spec fn live(self, a: int, l: int) -> bool {
        &&& self.holder(a, l)
        &&& points_to_dynamic_heap(word_at(self.h0.m, l), self.h0.base)
        &&& self.target(l) >= self.lo()
    }

    /// What the mark phase leaves: a well-formed heap in which the marked
    /// addresses are objects of the collected generation, and every slot
    /// refers to a marked object.
    #[verifier::opaque]
    pub open spec fn wf(self) -> bool {
        &&& self.h0.well_formed_with(self.starts)
        &&& self.marks.base() == self.h0.base / 4
        &&& self.marks.len() == (self.h0.free - self.h0.base) / 4
        &&& forall|t: int|
            #[trigger] self.is_marked(t) ==> is_start(self.starts, t) && is_object_tag(
                word_at(self.h0.m, t),
            ) && t >= self.lo()
        &&& forall|a: int, l: int| #[trigger] self.live(a, l) ==> self.is_marked(self.target(l))
    }

    /// Where the word `l` of `a` is now: words of objects that were moved
    /// are at the object's new address.
    pub open spec fn cur(self, pr: Progress, a: int, l: int) -> int {
        if self.is_marked(a) && a < pr.mv {
            l - a + self.new_addr(a)
        } else {
            l
        }
    }

    /// Whether the slot `l` of `a` was visited by a threading pass.
    pub open spec fn visited(self, pr: Progress, a: int, l: int) -> bool {
        if a == 0 {
            pr.statics.contains(l)
        } else if self.old_block(a) {
            a < pr.old || (a == pr.old && l < pr.old_cur)
        } else if self.target(l) <= a {
            a < pr.back || (a == pr.back && l < pr.back_cur)
        } else {
            a < pr.fwd || (a == pr.fwd && l < pr.fwd_cur)
        }
    }

    /// The current addresses of the slots on the list of the object `t`.
    pub open spec fn chain_locs(self, pr: Progress, t: int) -> Seq<int> {
        Seq::new(pr.chains[t].len(), |i: int| self.cur(pr, pr.chains[t][i].0, pr.chains[t][i].1))
    }

    /// Whether the word `l` of `a` holds what it should at this point.
    pub open spec fn word_ok(self, pr: Progress, m: Seq<u32>, a: int, l: int) -> bool {
        let w = word_at(m, self.cur(pr, a, l));
        let t = self.target(l);
        if self.live(a, l) {
            if !self.visited(pr, a, l) {
                w == word_at(self.h0.m, l)
            } else if t < pr.ut {
                w == spec_skew(self.new_addr(t) as u32).0
            } else {
                pr.chains[t].contains((a, l))
            }
        } else if l == a && self.is_marked(a) && a >= pr.ut {
            true
        } else if l == a + 4 && self.is_marked(a) && a < pr.mv && self.new_addr(a) != a {
            w == spec_skew(self.new_addr(a) as u32).0
        } else {
            w == word_at(self.h0.m, l)
        }
    }

    /// Whether the list of the marked object `t`, which is not unthreaded,
    /// is in the memory as `pr` has it, and holds visited slots that refer
    /// to `t`.
    pub open spec fn chain_ok(self, pr: Progress, m: Seq<u32>, t: int) -> bool {
        &&& pr.chains.dom().contains(t)
        &&& is_chain(m, t, self.chain_locs(pr, t), word_at(self.h0.m, t))
        &&& forall|i: int|
            0 <= i < pr.chains[t].len() ==> {
                let e = #[trigger] pr.chains[t][i];
                self.live(e.0, e.1) && self.target(e.1) == t && self.visited(pr, e.0, e.1)
            }
    }

    /// What holds of the memory `m` between the steps of a compaction.
    #[verifier::opaque]
    pub open spec fn inv(self, pr: Progress, m: Seq<u32>) -> bool {
        &&& m.len() == self.h0.m.len()
        &&& self.lo() <= pr.mv <= pr.ut
        &&& forall|a: int, l: int| #[trigger] self.word_of(a, l) ==> self.word_ok(pr, m, a, l)
        &&& forall|t: int| #[trigger] self.is_marked(t) && t >= pr.ut ==> self.chain_ok(pr, m, t)
        &&& forall|y: int|
            #[trigger] self.outside(y) && word_in(m.len(), y) ==> word_at(m, y) == word_at(
                self.h0.m,
                y,
            )
    }

    /// Whether the word at `y` lies where a compaction writes nothing: in
    /// the static region and no slot, or behind the end of the heap.
    pub open spec fn outside(self, y: int) -> bool {
        (0 <= y < self.h0.base && !self.live(0, y)) || y >= self.h0.free
    }

    /// A slot, and any word of the collected generation, is no word where
    /// a compaction writes nothing.
    pub proof fn lemma_not_outside(self, pr: Progress, a: int, l: int)
        requires
            self.wf(),
            self.lo() <= pr.mv,
            self.live(a, l),
        ensures
            !self.outside(self.cur(pr, a, l)),
    {
        self.lemma_live_word(a, l);
        self.lemma_extent(pr, a, l);
        self.lemma_starts();
    }

    /// A marked object is a block of the collected generation, and its new
    /// address lies in the collected generation, at or below the old one.
    pub proof fn lemma_marked_block(self, a: int)
        requires
            self.wf(),
            self.is_marked(a),
        ensures
            is_start(self.starts, a),
            is_block(self.h0.m, a),
            is_object_tag(word_at(self.h0.m, a)),
            3 <= block_words(self.h0.m, a),
            self.h0.base <= self.lo() <= self.new_addr(a) <= a,
            a + 4 * block_words(self.h0.m, a) <= self.h0.free,
            self.new_addr(a) % 4 == 0,
            self.lo() % 4 == 0,
            self.h0.free < 0xFFFF_FFF0,
    {
        reveal(Compaction::wf);
        let k = index_of(self.starts, a);
        lemma_tiles_bounds(self.h0.m, self.starts, self.h0.base, self.h0.free, k);
        assert(is_block(self.h0.m, self.starts[k]));
        assert forall|idx: int| self.marks.is_set(idx) implies 4 * idx >= self.lo() by {
            assert(self.is_marked(4 * idx));
        }
        lemma_marked_bytes_bound(
            self.h0.m,
            self.starts,
            self.marks,
            self.h0.base,
            self.h0.free,
            self.lo(),
            k,
        );
        lemma_marked_bytes_aligned(self.h0.m, self.starts, self.marks, k);
        self.lemma_lo_aligned();
    }

    /// The collected generation starts at a word.
    pub proof fn lemma_lo_aligned(self)
        requires
            self.wf(),
        ensures
            self.lo() % 4 == 0,
            self.h0.free % 4 == 0,
            self.h0.last_free % 4 == 0,
    {
        reveal(Compaction::wf);
        let n = self.starts.len() - 1;
        if n > 0 {
            lemma_tiles_bounds(self.h0.m, self.starts, self.h0.base, self.h0.free, n - 1);
            assert(is_block(self.h0.m, self.starts[n - 1]));
        }
        if self.h0.last_free != self.h0.free {
            let k = index_of(self.starts, self.h0.last_free);
            lemma_tiles_bounds(self.h0.m, self.starts, self.h0.base, self.h0.free, k);
        }
    }

    /// Two blocks of the heap do not overlap.
    pub proof fn lemma_blocks_apart(self, a: int, b: int)
        requires
            self.wf(),
            is_start(self.starts, a),
            is_start(self.starts, b),
            a < b,
        ensures
            a + 4 * block_words(self.h0.m, a) <= b,
            self.h0.base <= a,
            b + 4 * block_words(self.h0.m, b) <= self.h0.free,
            1 <= block_words(self.h0.m, a),
            1 <= block_words(self.h0.m, b),
    {
        reveal(Compaction::wf);
        let i = index_of(self.starts, a);
        let j = index_of(self.starts, b);
        if j <= i {
            if j < i {
                lemma_tiles_ascending(self.h0.m, self.starts, self.h0.base, self.h0.free, j, i);
            }
        } else {
            lemma_tiles_ascending(self.h0.m, self.starts, self.h0.base, self.h0.free, i, j);
        }
        lemma_tiles_bounds(self.h0.m, self.starts, self.h0.base, self.h0.free, i);
        lemma_tiles_bounds(self.h0.m, self.starts, self.h0.base, self.h0.free, j);
        assert(is_block(self.h0.m, self.starts[i]));
        assert(is_block(self.h0.m, self.starts[j]));
    }

    /// Marked objects keep their order and do not overlap at their new
    /// addresses.
    pub proof fn lemma_new_addr_mono(self, a: int, b: int)
        requires
            self.wf(),
            self.is_marked(a),
            self.is_marked(b),
            a < b,
        ensures
            self.new_addr(a) + 4 * block_words(self.h0.m, a) <= self.new_addr(b),
    {
        reveal(Compaction::wf);
        let i = index_of(self.starts, a);
        let j = index_of(self.starts, b);
        self.lemma_blocks_apart(a, b);
        if j <= i {
            if j < i {
                lemma_tiles_ascending(self.h0.m, self.starts, self.h0.base, self.h0.free, j, i);
            }
        }
        lemma_marked_bytes_mono(
            self.h0.m,
            self.starts,
            self.marks,
            self.h0.base,
            self.h0.free,
            i + 1,
            j,
        );
    }

    /// A slot is a word of its holder, behind the holder's two header
    /// words, and what it refers to is a marked object.
    pub proof fn lemma_live_word(self, a: int, l: int)
        requires
            self.wf(),
            self.live(a, l),
        ensures
            self.word_of(a, l),
            self.is_marked(self.target(l)),
            a != 0 ==> a + 8 <= l && is_block(self.h0.m, a) && self.in_block(a, l),
            l % 4 == 0,
    {
        reveal(Compaction::wf);
        if a == 0 && self.static_slot(l) {
            if l != self.h0.cont_loc {
                let i = choose|i: int|
                    0 <= i < self.h0.root_count() && #[trigger] self.h0.root_field(i) == l;
                assert(word_in(self.h0.m.len(), self.h0.root_box(i)));
            }
        } else {
            if self.is_marked(a) {
                self.lemma_marked_block(a);
            } else {
                let k = index_of(self.starts, a);
                assert(is_block(self.h0.m, self.starts[k]));
            }
            lemma_fields_inside(self.h0.m, a);
        }
    }

    /// Where a tracked word lies now: static words below the heap, words
    /// of old blocks in place, words of moved objects inside the object at
    /// its new address, which ends at or below `pr.mv`, and the others in
    /// place at or above `pr.mv`.
    pub proof fn lemma_extent(self, pr: Progress, a: int, l: int)
        requires
            self.wf(),
            self.word_of(a, l),
            self.lo() <= pr.mv,
        ensures
            self.cur(pr, a, l) % 4 == 0,
            word_in(self.h0.m.len(), self.cur(pr, a, l)),
            self.cur(pr, a, l) + 4 <= self.h0.free,
            !self.is_marked(a) && !self.old_block(a) ==> self.cur(pr, a, l) == l && l + 4
                <= self.h0.base,
            self.old_block(a) ==> self.cur(pr, a, l) == l && self.h0.base <= a <= l && l + 4 <= a
                + 4 * block_words(self.h0.m, a) <= self.h0.last_free == self.lo(),
            self.is_marked(a) ==> self.lo() <= self.new_addr(a) <= a && a <= l && l + 4 <= a + 4
                * block_words(self.h0.m, a) && !self.old_block(a),
            self.is_marked(a) && a < pr.mv ==> self.cur(pr, a, l) - self.new_addr(a) == l - a,
            self.is_marked(a) && a >= pr.mv ==> self.cur(pr, a, l) == l,
    {
        reveal(Compaction::wf);
        self.lemma_lo_aligned();
        if self.is_marked(a) {
            self.lemma_marked_block(a);
        } else if self.old_block(a) {
            let k = index_of(self.starts, a);
            lemma_tiles_bounds(self.h0.m, self.starts, self.h0.base, self.h0.free, k);
            assert(is_block(self.h0.m, self.starts[k]));
            if self.h0.last_free != self.h0.free {
                self.lemma_blocks_apart(a, self.h0.last_free);
            }
        } else if a == self.h0.root_array && self.in_block(a, l) {
        } else {
            if l != self.h0.cont_loc {
                let i = choose|i: int|
                    0 <= i < self.h0.root_count() && #[trigger] self.h0.root_field(i) == l;
                assert(word_in(self.h0.m.len(), self.h0.root_box(i)));
            }
        }
    }

    /// Two different tracked words lie at different addresses.
    pub proof fn lemma_cur_distinct(self, pr: Progress, a: int, l: int, b: int, k: int)
        requires
            self.wf(),
            self.word_of(a, l),
            self.word_of(b, k),
            self.lo() <= pr.mv,
            a != b || l != k,
        ensures
            self.cur(pr, a, l) != self.cur(pr, b, k),
    {
        reveal(Compaction::wf);
        self.lemma_extent(pr, a, l);
        self.lemma_extent(pr, b, k);
        let ka = self.is_marked(a) || self.old_block(a);
        let kb = self.is_marked(b) || self.old_block(b);
        if ka && kb && a != b {
            if self.is_marked(a) && self.is_marked(b) {
                self.lemma_marked_block(a);
                self.lemma_marked_block(b);
                if a < b {
                    self.lemma_new_addr_mono(a, b);
                    self.lemma_blocks_apart(a, b);
                } else {
                    self.lemma_new_addr_mono(b, a);
                    self.lemma_blocks_apart(b, a);
                }
            } else if self.old_block(a) && self.old_block(b) {
                if a < b {
                    self.lemma_blocks_apart(a, b);
                } else {
                    self.lemma_blocks_apart(b, a);
                }
            }
        } else if !ka && !kb {
            self.lemma_static_apart(a, l, b, k);
        }
    }

    /// A static place lies outside the array of root boxes.
    pub proof fn lemma_static_apart(self, a: int, l: int, b: int, k: int)
        requires
            self.wf(),
            self.word_of(a, l),
            self.word_of(b, k),
            !self.is_marked(a) && !self.old_block(a),
            !self.is_marked(b) && !self.old_block(b),
            a != b || l != k,
        ensures
            l != k,
    {
        reveal(Compaction::wf);
        if a != b {
            if a == 0 && self.static_slot(l) && self.in_block(b, k) {
                self.lemma_static_outside(l);
            }
            if b == 0 && self.static_slot(k) && self.in_block(a, l) {
                self.lemma_static_outside(k);
            }
        }
    }

    /// A static place lies outside the array of root boxes.
    pub proof fn lemma_static_outside(self, l: int)
        requires
            self.wf(),
            self.static_slot(l),
        ensures
            self.h0.outside_root_array(l),
    {
        reveal(Compaction::wf);
        if l != self.h0.cont_loc {
            let i = choose|i: int|
                0 <= i < self.h0.root_count() && #[trigger] self.h0.root_field(i) == l;
            assert(word_in(self.h0.m.len(), self.h0.root_box(i)));
        }
    }

    /// The tag word of a marked object is a tracked word of its own, and no
    /// slot.
    pub proof fn lemma_tag_word(self, pr: Progress, t: int)
        requires
            self.wf(),
            self.is_marked(t),
            self.lo() <= pr.mv <= t,
        ensures
            self.word_of(t, t),
            !self.live(t, t),
            self.cur(pr, t, t) == t,
            word_in(self.h0.m.len(), t),
            t <= u32::MAX,
    {
        reveal(Compaction::wf);
        self.lemma_marked_block(t);
    }

    /// A slot and the tag word of a marked object that was not moved lie at
    /// different addresses.
    pub proof fn lemma_slot_not_tag(self, pr: Progress, a: int, l: int, t: int)
        requires
            self.wf(),
            self.live(a, l),
            self.is_marked(t),
            self.lo() <= pr.mv <= t,
        ensures
            self.cur(pr, a, l) != t,
    {
        reveal(Compaction::wf);
        self.lemma_live_word(a, l);
        self.lemma_tag_word(pr, t);
        self.lemma_cur_distinct(pr, a, l, t, t);
    }

    /// Threading a slot that was not visited, onto an object that is not
    /// unthreaded, is a step of the compaction: the slot is then visited
    /// and on the object's list.
    #[verifier::rlimit(40)]
    pub proof fn lemma_thread_step(self, pr: Progress, pr2: Progress, m: Seq<u32>, a: int, l: int)
        requires
            self.wf(),
            self.inv(pr, m),
            self.live(a, l),
            !self.visited(pr, a, l),
            self.visited(pr2, a, l),
            forall|b: int, k: int|
                #[trigger] self.live(b, k) && (b != a || k != l) ==> self.visited(pr2, b, k)
                    == self.visited(pr, b, k),
            pr2.ut == pr.ut,
            pr2.mv == pr.mv,
            self.target(l) >= pr.ut,
            pr2.chains == pr.chains.insert(
                self.target(l),
                pr.chains[self.target(l)].push((a, l)),
            ),
        ensures
            self.inv(pr2, threaded(m, self.cur(pr, a, l), self.target(l))),
    {
        reveal(Compaction::wf);
        reveal(Compaction::inv);
        let f = self.cur(pr, a, l);
        let t = self.target(l);
        let m2 = threaded(m, f, t);
        self.lemma_live_word(a, l);
        self.lemma_extent(pr, a, l);
        self.lemma_tag_word(pr, t);
        self.lemma_slot_not_tag(pr, a, l, t);
        assert(self.chain_ok(pr, m, t));
        assert forall|b: int, k: int| #[trigger] self.word_of(b, k) implies self.word_ok(
            pr2,
            m2,
            b,
            k,
        ) by {
            assert(self.word_ok(pr, m, b, k));
            self.lemma_extent(pr, b, k);
            if b == a && k == l {
                let ch = pr2.chains[t];
                assert(ch[ch.len() - 1] == (a, l));
            } else if b == t && k == t {
            } else {
                self.lemma_cur_distinct(pr, a, l, b, k);
                self.lemma_cur_distinct(pr, t, t, b, k);
                lemma_threaded_words(m, f, t, self.cur(pr, b, k));
                if self.live(b, k) && self.visited(pr, b, k) && self.target(k) >= pr.ut {
                    let t2 = self.target(k);
                    let i = choose|i: int|
                        0 <= i < pr.chains[t2].len() && pr.chains[t2][i] == (b, k);
                    if t2 == t {
                        assert(pr2.chains[t][i] == (b, k));
                    } else {
                        assert(pr2.chains[t2][i] == (b, k));
                    }
                }
            }
        }
        assert forall|y: int| #[trigger] self.outside(y) && word_in(m2.len(), y) implies word_at(
            m2,
            y,
        ) == word_at(self.h0.m, y) by {
            self.lemma_not_outside(pr, a, l);
            self.lemma_marked_block(t);
            lemma_threaded_words(m, f, t, y);
        }
        assert forall|t2: int| #[trigger] self.is_marked(t2) && t2 >= pr2.ut implies self.chain_ok(
            pr2,
            m2,
            t2,
        ) by {
            assert(self.chain_ok(pr, m, t2));
            self.lemma_tag_word(pr, t2);
            let locs = self.chain_locs(pr, t2);
            assert forall|i: int| 0 <= i < locs.len() implies #[trigger] locs[i] != f && locs[i]
                != t by {
                let e = pr.chains[t2][i];
                assert(self.live(e.0, e.1) && self.visited(pr, e.0, e.1));
                self.lemma_live_word(e.0, e.1);
                self.lemma_cur_distinct(pr, a, l, e.0, e.1);
                self.lemma_slot_not_tag(pr, e.0, e.1, t);
            }
            if t2 == t {
                lemma_thread_extends_chain(m, t, locs, word_at(self.h0.m, t), f);
                assert(self.chain_locs(pr2, t) =~= locs.push(f));
                assert forall|i: int| 0 <= i < pr2.chains[t].len() implies {
                    let e = #[trigger] pr2.chains[t][i];
                    self.live(e.0, e.1) && self.target(e.1) == t && self.visited(pr2, e.0, e.1)
                } by {
                    if i < pr.chains[t].len() {
                        let e = pr.chains[t][i];
                        assert(self.live(e.0, e.1) && self.visited(pr, e.0, e.1));
                    }
                }
            } else {
                assert(self.chain_locs(pr2, t2) =~= locs);
                self.lemma_slot_not_tag(pr, a, l, t2);
                lemma_threaded_words(m, f, t, t2);
                assert forall|i: int| 0 <= i < locs.len() implies word_at(m2, #[trigger] locs[i])
                    == word_at(m, locs[i]) by {
                    lemma_threaded_words(m, f, t, locs[i]);
                }
                lemma_chain_frame(m, m2, t2, locs, word_at(self.h0.m, t2));
                assert forall|i: int| 0 <= i < pr2.chains[t2].len() implies {
                    let e = #[trigger] pr2.chains[t2][i];
                    self.live(e.0, e.1) && self.target(e.1) == t2 && self.visited(pr2, e.0, e.1)
                } by {
                    let e = pr.chains[t2][i];
                    assert(self.live(e.0, e.1) && self.visited(pr, e.0, e.1));
                }
            }
        }
    }

    /// A progress that agrees with `pr` on which slots are visited, which
    /// marked objects are unthreaded and moved, and on the lists, stands
    /// for the same state.
    pub proof fn lemma_same_state(self, pr: Progress, pr2: Progress, m: Seq<u32>)
        requires
            self.wf(),
            self.inv(pr, m),
            forall|b: int, k: int|
                #[trigger] self.live(b, k) ==> self.visited(pr2, b, k) == self.visited(pr, b, k),
            forall|t: int|
                #[trigger] self.is_marked(t) ==> (t < pr2.ut) == (t < pr.ut) && (t < pr2.mv) == (t
                    < pr.mv),
            self.lo() <= pr2.mv <= pr2.ut,
            pr2.chains == pr.chains,
        ensures
            self.inv(pr2, m),
    {
        reveal(Compaction::wf);
        reveal(Compaction::inv);
        assert forall|b: int, k: int| #[trigger] self.word_of(b, k) implies self.word_ok(
            pr2,
            m,
            b,
            k,
        ) by {
            assert(self.word_ok(pr, m, b, k));
            if self.live(b, k) {
                self.lemma_live_word(b, k);
                assert(self.is_marked(self.target(k)));
            }
        }
        assert forall|t: int| #[trigger] self.is_marked(t) && t >= pr2.ut implies self.chain_ok(
            pr2,
            m,
            t,
        ) by {
            assert(self.chain_ok(pr, m, t));
            assert forall|i: int| 0 <= i < pr.chains[t].len() implies self.cur(
                pr2,
                pr.chains[t][i].0,
                pr.chains[t][i].1,
            ) == self.cur(pr, pr.chains[t][i].0, pr.chains[t][i].1) by {}
            assert(self.chain_locs(pr2, t) =~= self.chain_locs(pr, t));
            assert forall|i: int| 0 <= i < pr2.chains[t].len() implies {
                let e = #[trigger] pr2.chains[t][i];
                self.live(e.0, e.1) && self.target(e.1) == t && self.visited(pr2, e.0, e.1)
            } by {
                let e = pr.chains[t][i];
                assert(self.live(e.0, e.1) && self.visited(pr, e.0, e.1));
            }
        }
    }

    /// The list of a marked object that is not unthreaded is in the
    /// memory.
    pub proof fn lemma_chain(self, pr: Progress, m: Seq<u32>, t: int)
        requires
            self.wf(),
            self.inv(pr, m),
            self.is_marked(t),
            t >= pr.ut,
        ensures
            is_chain(m, t, self.chain_locs(pr, t), word_at(self.h0.m, t)),
            m.len() == self.h0.m.len(),
    {
        reveal(Compaction::wf);
        reveal(Compaction::inv);
        assert(self.chain_ok(pr, m, t));
    }

    /// Unthreading the lowest marked object that is not unthreaded, once
    /// every slot that refers to it was visited, is a step of the
    /// compaction: those slots then hold the object's new address.
    #[verifier::rlimit(40)]
    pub proof fn lemma_unthread_step(self, pr: Progress, pr2: Progress, m: Seq<u32>, p: int)
        requires
            self.wf(),
            self.inv(pr, m),
            self.is_marked(p),
            pr.ut == p,
            forall|b: int, k: int|
                #[trigger] self.live(b, k) && self.target(k) == p ==> self.visited(pr, b, k),
            pr2 == (Progress { ut: p + 4, ..pr }),
        ensures
            self.inv(
                pr2,
                unthreaded(
                    m,
                    p,
                    self.chain_locs(pr, p),
                    word_at(self.h0.m, p),
                    spec_skew(self.new_addr(p) as u32).0,
                ),
            ),
    {
        reveal(Compaction::wf);
        reveal(Compaction::inv);
        let locs = self.chain_locs(pr, p);
        let tag = word_at(self.h0.m, p);
        let value = spec_skew(self.new_addr(p) as u32).0;
        let m2 = unthreaded(m, p, locs, tag, value);
        self.lemma_tag_word(pr, p);
        self.lemma_marked_block(p);
        assert(self.chain_ok(pr, m, p));
        lemma_unthreaded(m, p, locs, tag, value, p);
        assert forall|b: int, k: int| #[trigger] self.word_of(b, k) implies self.word_ok(
            pr2,
            m2,
            b,
            k,
        ) by {
            assert(self.word_ok(pr, m, b, k));
            self.lemma_extent(pr, b, k);
            let y = self.cur(pr, b, k);
            lemma_unthreaded(m, p, locs, tag, value, y);
            if b == p && k == p {
            } else {
                self.lemma_cur_distinct(pr, p, p, b, k);
                if self.live(b, k) {
                    self.lemma_live_word(b, k);
                    let t = self.target(k);
                    if t != p {
                        self.lemma_marked_block(t);
                        if t > p {
                            self.lemma_blocks_apart(p, t);
                        }
                    }
                    if self.visited(pr, b, k) && t == p {
                        let i = choose|i: int|
                            0 <= i < pr.chains[p].len() && pr.chains[p][i] == (b, k);
                        assert(locs[i] == y);
                    } else {
                        assert forall|i: int| 0 <= i < locs.len() implies locs[i] != y by {
                            let e = pr.chains[p][i];
                            assert(self.live(e.0, e.1) && self.target(e.1) == p && self.visited(
                                pr,
                                e.0,
                                e.1,
                            ));
                            self.lemma_live_word(e.0, e.1);
                            self.lemma_cur_distinct(pr, e.0, e.1, b, k);
                        }
                    }
                } else {
                    assert forall|i: int| 0 <= i < locs.len() implies locs[i] != y by {
                        let e = pr.chains[p][i];
                        assert(self.live(e.0, e.1));
                        self.lemma_live_word(e.0, e.1);
                        self.lemma_cur_distinct(pr, e.0, e.1, b, k);
                    }
                    if self.is_marked(b) && b > p {
                        self.lemma_blocks_apart(p, b);
                    }
                }
            }
        }
        assert forall|y: int| #[trigger] self.outside(y) && word_in(m2.len(), y) implies word_at(
            m2,
            y,
        ) == word_at(self.h0.m, y) by {
            lemma_unthreaded(m, p, locs, tag, value, y);
            assert forall|i: int| 0 <= i < locs.len() implies locs[i] != y by {
                let e = pr.chains[p][i];
                assert(self.live(e.0, e.1));
                self.lemma_not_outside(pr, e.0, e.1);
            }
        }
        assert forall|t: int| #[trigger] self.is_marked(t) && t >= pr2.ut implies self.chain_ok(
            pr2,
            m2,
            t,
        ) by {
            assert(self.chain_ok(pr, m, t));
            self.lemma_tag_word(pr, t);
            let lt = self.chain_locs(pr, t);
            assert(self.chain_locs(pr2, t) =~= lt);
            lemma_unthreaded(m, p, locs, tag, value, t);
            assert forall|j: int| 0 <= j < locs.len() implies locs[j] != t by {
                let e = pr.chains[p][j];
                assert(self.live(e.0, e.1));
                self.lemma_slot_not_tag(pr, e.0, e.1, t);
            }
            assert forall|i: int| 0 <= i < lt.len() implies word_at(m2, #[trigger] lt[i])
                == word_at(m, lt[i]) by {
                let e = pr.chains[t][i];
                assert(self.live(e.0, e.1) && self.target(e.1) == t);
                self.lemma_live_word(e.0, e.1);
                self.lemma_extent(pr, e.0, e.1);
                self.lemma_slot_not_tag(pr, e.0, e.1, p);
                lemma_unthreaded(m, p, locs, tag, value, lt[i]);
                assert forall|j: int| 0 <= j < locs.len() implies locs[j] != lt[i] by {
                    let e2 = pr.chains[p][j];
                    assert(self.live(e2.0, e2.1) && self.target(e2.1) == p);
                    self.lemma_live_word(e2.0, e2.1);
                    self.lemma_cur_distinct(pr, e2.0, e2.1, e.0, e.1);
                }
            }
            lemma_chain_frame(m, m2, t, lt, word_at(self.h0.m, t));
            assert forall|i: int| 0 <= i < pr2.chains[t].len() implies {
                let e = #[trigger] pr2.chains[t][i];
                self.live(e.0, e.1) && self.target(e.1) == t && self.visited(pr2, e.0, e.1)
            } by {
                let e = pr.chains[t][i];
                assert(self.live(e.0, e.1) && self.visited(pr, e.0, e.1));
            }
        }
    }

    /// Moving the lowest marked object that is not moved, once it is
    /// unthreaded and before its forward pointers are threaded, is a step
    /// of the compaction.
    #[verifier::rlimit(40)]
    pub proof fn lemma_move_step(self, pr: Progress, pr2: Progress, m: Seq<u32>, p: int)
        requires
            self.wf(),
            self.inv(pr, m),
            self.is_marked(p),
            pr.mv == p,
            pr.ut == p + 4,
            pr.fwd < p || (pr.fwd == p && pr.fwd_cur <= p),
            pr2 == (Progress { mv: p + 4, ..pr }),
        ensures
            self.inv(pr2, slid(m, self.new_addr(p), p, block_words(self.h0.m, p))),
    {
        reveal(Compaction::wf);
        reveal(Compaction::inv);
        let new = self.new_addr(p);
        let n = block_words(self.h0.m, p);
        let m2 = slid(m, new, p, n);
        self.lemma_marked_block(p);
        assert forall|b: int, k: int| #[trigger] self.word_of(b, k) implies self.word_ok(
            pr2,
            m2,
            b,
            k,
        ) by {
            assert(self.word_ok(pr, m, b, k));
            self.lemma_extent(pr, b, k);
            self.lemma_extent(pr2, b, k);
            let y = self.cur(pr2, b, k);
            lemma_slid_words(m, new, p, n, y);
            if self.live(b, k) {
                self.lemma_live_word(b, k);
                let t = self.target(k);
                self.lemma_marked_block(t);
                if t > p {
                    self.lemma_blocks_apart(p, t);
                }
            }
            if b != p {
                self.lemma_outside_destination(pr, p, b, k);
            }
        }
        assert forall|y: int| #[trigger] self.outside(y) && word_in(m2.len(), y) implies word_at(
            m2,
            y,
        ) == word_at(self.h0.m, y) by {
            lemma_slid_words(m, new, p, n, y);
        }
        assert forall|t: int| #[trigger] self.is_marked(t) && t >= pr2.ut implies self.chain_ok(
            pr2,
            m2,
            t,
        ) by {
            assert(self.chain_ok(pr, m, t));
            self.lemma_tag_word(pr, t);
            self.lemma_blocks_apart(p, t);
            let lt = self.chain_locs(pr, t);
            assert forall|i: int| 0 <= i < pr.chains[t].len() implies self.cur(
                pr2,
                pr.chains[t][i].0,
                pr.chains[t][i].1,
            ) == #[trigger] lt[i] && word_at(m2, lt[i]) == word_at(m, lt[i]) by {
                let e = pr.chains[t][i];
                assert(self.live(e.0, e.1) && self.target(e.1) == t && self.visited(pr, e.0, e.1));
                self.lemma_live_word(e.0, e.1);
                self.lemma_extent(pr, e.0, e.1);
                self.lemma_outside_destination(pr, p, e.0, e.1);
                lemma_slid_words(m, new, p, n, lt[i]);
            }
            assert(self.chain_locs(pr2, t) =~= lt);
            lemma_slid_words(m, new, p, n, t);
            lemma_chain_frame(m, m2, t, lt, word_at(self.h0.m, t));
            assert forall|i: int| 0 <= i < pr2.chains[t].len() implies {
                let e = #[trigger] pr2.chains[t][i];
                self.live(e.0, e.1) && self.target(e.1) == t && self.visited(pr2, e.0, e.1)
            } by {
                let e = pr.chains[t][i];
                assert(self.live(e.0, e.1) && self.visited(pr, e.0, e.1));
            }
        }
    }

    /// The tracked words of everything but the object `p`, the lowest
    /// marked one that is not moved, lie outside the room that `p` slides
    /// into.
    pub proof fn lemma_outside_destination(self, pr: Progress, p: int, b: int, k: int)
        requires
            self.wf(),
            self.is_marked(p),
            pr.mv == p,
            self.word_of(b, k),
            b != p,
        ensures
            self.cur(pr, b, k) < self.new_addr(p) || self.cur(pr, b, k) >= p + 4 * block_words(
                self.h0.m,
                p,
            ),
            self.cur(pr, b, k) == self.cur(Progress { mv: p + 4, ..pr }, b, k),
    {
        reveal(Compaction::wf);
        self.lemma_marked_block(p);
        self.lemma_extent(pr, b, k);
        if self.is_marked(b) {
            self.lemma_marked_block(b);
            if b < p {
                self.lemma_new_addr_mono(b, p);
            } else {
                self.lemma_blocks_apart(p, b);
            }
        }
    }

    /// The progress of a compaction that has not begun.
    pub open spec fn start(self) -> Progress {
        Progress {
            back: self.lo(),
            back_cur: 0,
            statics: Set::empty(),
            old: self.h0.base,
            old_cur: 0,
            fwd: self.lo(),
            fwd_cur: 0,
            ut: self.lo(),
            mv: self.lo(),
            chains: Map::new(|t: int| true, |t: int| Seq::<(int, int)>::empty()),
        }
    }

    /// When compaction begins, no slot is visited and every list is empty.
    pub proof fn lemma_start(self)
        requires
            self.wf(),
        ensures
            self.inv(self.start(), self.h0.m),
    {
        reveal(Compaction::wf);
        reveal(Compaction::inv);
        let pr = self.start();
        let m = self.h0.m;
        assert forall|a: int, l: int| #[trigger] self.word_of(a, l) implies self.word_ok(
            pr,
            m,
            a,
            l,
        ) by {
            self.lemma_extent(pr, a, l);
            if self.live(a, l) {
                self.lemma_live_word(a, l);
            }
        }
        assert forall|t: int| #[trigger] self.is_marked(t) && t >= pr.ut implies self.chain_ok(
            pr,
            m,
            t,
        ) by {
            self.lemma_marked_block(t);
            assert(self.chain_locs(pr, t) =~= Seq::<int>::empty());
        }
    }

    /// Visiting a place of a holder is a step of the compaction. A slot
    /// that becomes visited is threaded onto the object it refers to, which
    /// is not unthreaded; any other place stays as it is.
    pub proof fn lemma_visit(self, pr: Progress, pr2: Progress, m: Seq<u32>, a: int, l: int)
        requires
            self.wf(),
            self.inv(pr, m),
            forall|b: int, k: int|
                #[trigger] self.live(b, k) && (b != a || k != l) ==> self.visited(pr2, b, k)
                    == self.visited(pr, b, k),
            self.live(a, l) && self.visited(pr, a, l) ==> self.visited(pr2, a, l),
            pr2.ut == pr.ut,
            pr2.mv == pr.mv,
            self.live(a, l) && !self.visited(pr, a, l) && self.visited(pr2, a, l) ==> self.target(l)
                >= pr.ut && pr2.chains == pr.chains.insert(
                self.target(l),
                pr.chains[self.target(l)].push((a, l)),
            ),
            !(self.live(a, l) && !self.visited(pr, a, l) && self.visited(pr2, a, l))
                ==> pr2.chains == pr.chains,
        ensures
            self.inv(
                pr2,
                if self.live(a, l) && !self.visited(pr, a, l) && self.visited(pr2, a, l) {
                    threaded(m, self.cur(pr, a, l), self.target(l))
                } else {
                    m
                },
            ),
    {
        reveal(Compaction::wf);
        if self.live(a, l) && !self.visited(pr, a, l) && self.visited(pr2, a, l) {
            self.lemma_thread_step(pr, pr2, m, a, l);
        } else {
            reveal(Compaction::inv);
            self.lemma_same_state(pr, pr2, m);
        }
    }

    /// What the state says of one tracked word.
    pub proof fn lemma_inv_word(self, pr: Progress, m: Seq<u32>, a: int, l: int)
        requires
            self.inv(pr, m),
            self.word_of(a, l),
        ensures
            self.word_ok(pr, m, a, l),
            m.len() == self.h0.m.len(),
            self.lo() <= pr.mv <= pr.ut,
    {
        reveal(Compaction::inv);
    }

    /// What the state says of the list of one marked object.
    pub proof fn lemma_inv_chain(self, pr: Progress, m: Seq<u32>, t: int)
        requires
            self.inv(pr, m),
            self.is_marked(t),
            t >= pr.ut,
        ensures
            self.chain_ok(pr, m, t),
    {
        reveal(Compaction::inv);
    }

    /// A slot that is on a list holds no pointer into the dynamic heap:
    /// it holds a tag or the address of another slot.
    pub proof fn lemma_listed_word(self, pr: Progress, m: Seq<u32>, a: int, l: int)
        requires
            self.wf(),
            self.inv(pr, m),
            self.live(a, l),
            self.visited(pr, a, l),
            self.target(l) >= pr.ut,
        ensures
            !points_to_dynamic_heap(word_at(m, self.cur(pr, a, l)), self.h0.base),
    {
        let t = self.target(l);
        self.lemma_live_word(a, l);
        self.lemma_inv_word(pr, m, a, l);
        self.lemma_marked_block(t);
        self.lemma_starts();
        self.lemma_inv_chain(pr, m, t);
        assert(pr.chains[t].contains((a, l)));
        let i = choose|i: int| 0 <= i < pr.chains[t].len() && pr.chains[t][i] == (a, l);
        let locs = self.chain_locs(pr, t);
        assert(locs[i] == self.cur(pr, a, l));
        lemma_chain_word(m, t, locs, word_at(self.h0.m, t), i);
    }

    /// What a tracked word holds now.
    pub proof fn lemma_word(self, pr: Progress, m: Seq<u32>, a: int, l: int)
        requires
            self.wf(),
            self.inv(pr, m),
            self.word_of(a, l),
        ensures
            self.word_ok(pr, m, a, l),
            m.len() == self.h0.m.len(),
            word_in(m.len(), self.cur(pr, a, l)),
            self.cur(pr, a, l) + 4 <= self.h0.free < 0xFFFF_FFF0,
            self.lo() <= pr.mv <= pr.ut,
            self.live(a, l) && self.visited(pr, a, l) && self.target(l) >= pr.ut
                ==> !points_to_dynamic_heap(word_at(m, self.cur(pr, a, l)), self.h0.base),
    {
        reveal(Compaction::wf);
        self.lemma_inv_word(pr, m, a, l);
        self.lemma_extent(pr, a, l);
        if self.live(a, l) && self.visited(pr, a, l) && self.target(l) >= pr.ut {
            self.lemma_listed_word(pr, m, a, l);
        }
    }

    /// A holder whose tag word is in place has the shape it had when
    /// compaction began: the same tag, size and places.
    pub proof fn lemma_shape(self, pr: Progress, m: Seq<u32>, a: int)
        requires
            self.wf(),
            self.inv(pr, m),
            self.old_block(a) || self.is_marked(a),
            word_at(m, self.cur(pr, a, a)) == word_at(self.h0.m, a),
        ensures
            is_block(self.h0.m, a),
            same_shape(self.h0.m, a, m, self.cur(pr, a, a)),
            self.cur(pr, a, a) % 4 == 0,
            self.lo() <= pr.mv <= pr.ut,
            self.is_marked(a) ==> self.lo() <= self.new_addr(a) <= a,
    {
        reveal(Compaction::wf);
        if self.is_marked(a) {
            self.lemma_marked_block(a);
        } else {
            let k = index_of(self.starts, a);
            assert(is_block(self.h0.m, self.starts[k]));
        }
        let n = block_words(self.h0.m, a);
        self.lemma_word(pr, m, a, a);
        if n >= 2 {
            self.lemma_word(pr, m, a, a + 4);
        }
        if n >= 3 {
            self.lemma_word(pr, m, a, a + 8);
        }
        if n >= 4 {
            self.lemma_word(pr, m, a, a + 12);
        }
        self.lemma_extent(pr, a, a);
    }

    /// The progress after the slot `l` of `a` was put on the list of the
    /// object it refers to.
    pub open spec fn pushed(self, pr: Progress, a: int, l: int) -> Progress {
        Progress {
            chains: pr.chains.insert(self.target(l), pr.chains[self.target(l)].push((a, l))),
            ..pr
        }
    }

    /// A place of an object of the heap is a tracked word; where it holds
    /// a pointer into the dynamic heap when compaction begins, the pointer
    /// refers to an object in the memory.
    pub proof fn lemma_field(self, a: int, l: int)
        requires
            self.wf(),
            (self.old_block(a) && is_object_tag(word_at(self.h0.m, a))) || self.is_marked(a),
            is_field_of(self.h0.m, a, l),
        ensures
            self.word_of(a, l),
            self.holder(a, l),
            l != a,
            l != a + 4,
            l % 4 == 0,
            points_to_dynamic_heap(word_at(self.h0.m, l), self.h0.base) ==> word_in(
                self.h0.m.len(),
                self.target(l),
            ) && self.h0.base <= self.target(l) < self.h0.free,
    {
        reveal(Compaction::wf);
        let k = index_of(self.starts, a);
        if self.is_marked(a) {
            self.lemma_marked_block(a);
        }
        assert(is_block(self.h0.m, self.starts[k]));
        lemma_fields_inside(self.h0.m, a);
        assert(self.h0.fields_valid(self.starts, self.starts[k]));
        if points_to_dynamic_heap(word_at(self.h0.m, l), self.h0.base) {
            let t = self.target(l);
            let j = index_of(self.starts, t);
            lemma_tiles_bounds(self.h0.m, self.starts, self.h0.base, self.h0.free, j);
            assert(is_block(self.h0.m, self.starts[j]));
        }
    }

    /// While the first pass runs, the tag word of a marked object whose
    /// backward pointers are not threaded yet is in place.
    pub proof fn lemma_tag_in_place(self, pr: Progress, m: Seq<u32>, o: int)
        requires
            self.wf(),
            self.inv(pr, m),
            self.is_marked(o),
            pr.ut <= o,
            pr.statics == Set::<int>::empty(),
            pr.old <= self.h0.base && pr.old_cur <= self.h0.base,
            pr.fwd <= self.lo() && pr.fwd_cur <= self.lo(),
            pr.back < o || (pr.back == o && pr.back_cur <= o),
        ensures
            word_at(m, o) == word_at(self.h0.m, o),
            pr.chains[o].len() == 0,
            m.len() == self.h0.m.len(),
    {
        reveal(Compaction::wf);
        reveal(Compaction::inv);
        assert(self.chain_ok(pr, m, o));
        if pr.chains[o].len() > 0 {
            let e = pr.chains[o][0];
            assert(self.live(e.0, e.1) && self.target(e.1) == o && self.visited(pr, e.0, e.1));
            self.lemma_live_word(e.0, e.1);
            self.lemma_extent(pr, e.0, e.1);
            if self.is_marked(e.0) {
                self.lemma_marked_block(e.0);
            }
        }
        assert(self.chain_locs(pr, o).len() == 0);
    }

    /// While the first pass runs on the object `o`, moving the cursor over
    /// words of `o` that are no places of it changes nothing.
    pub proof fn lemma_back_cursor(self, pr: Progress, pr2: Progress, m: Seq<u32>, o: int)
        requires
            self.wf(),
            self.inv(pr, m),
            self.is_marked(o),
            pr.back == o,
            pr2 == (Progress { back_cur: pr2.back_cur, ..pr }),
            forall|l: int|
                is_field_of(self.h0.m, o, l) ==> (l < pr.back_cur) == (l < pr2.back_cur),
        ensures
            self.inv(pr2, m),
    {
        reveal(Compaction::wf);
        reveal(Compaction::inv);
        self.lemma_same_state(pr, pr2, m);
    }

    /// Visiting the place `l` of the object `o` in the first pass: a slot
    /// that refers to `o` or below is threaded, anything else stays.
    pub proof fn lemma_back_visit(self, pr: Progress, pr2: Progress, m: Seq<u32>, o: int, l: int)
        requires
            self.wf(),
            self.inv(pr, m),
            self.is_marked(o),
            is_field_of(self.h0.m, o, l),
            pr == (Progress { back: o, back_cur: l, chains: pr.chains, ..self.start() }),
            pr2 == if self.live(o, l) && self.target(l) <= o {
                self.pushed(Progress { back_cur: l + 4, ..pr }, o, l)
            } else {
                Progress { back_cur: l + 4, ..pr }
            },
        ensures
            word_at(m, l) == word_at(self.h0.m, l),
            word_in(m.len(), l),
            points_to_dynamic_heap(word_at(self.h0.m, l), self.h0.base) ==> word_in(
                m.len(),
                self.target(l),
            ),
            self.inv(
                pr2,
                if self.live(o, l) && self.target(l) <= o {
                    threaded(m, l, self.target(l))
                } else {
                    m
                },
            ),
    {
        reveal(Compaction::wf);
        self.lemma_field(o, l);
        self.lemma_word(pr, m, o, l);
        self.lemma_marked_block(o);
        assert forall|b: int, k: int|
            #[trigger] self.live(b, k) && (b != o || k != l) implies self.visited(pr2, b, k)
            == self.visited(pr, b, k) by {
            self.lemma_live_word(b, k);
        }
        self.lemma_visit(pr, pr2, m, o, l);
    }

    /// The first pass may go on from the object it has finished to any
    /// address up to the next marked object.
    pub proof fn lemma_back_jump(self, pr: Progress, pr2: Progress, m: Seq<u32>)
        requires
            self.wf(),
            self.inv(pr, m),
            pr2 == (Progress { back: pr2.back, back_cur: 0, ..pr }),
            forall|t: int|
                #[trigger] self.is_marked(t) ==> (t < pr2.back) == (t < pr.back || (t == pr.back
                    && pr.back_cur >= t + 4 * block_words(self.h0.m, t))),
            pr.back_cur <= pr.back + 8 || pr.back_cur >= pr.back + 4 * block_words(
                self.h0.m,
                pr.back,
            ),
        ensures
            self.inv(pr2, m),
    {
        reveal(Compaction::wf);
        reveal(Compaction::inv);
        assert forall|b: int, k: int| #[trigger] self.live(b, k) implies self.visited(pr2, b, k)
            == self.visited(pr, b, k) by {
            self.lemma_live_word(b, k);
            if b != 0 && !self.old_block(b) {
                assert(self.is_marked(b));
                self.lemma_marked_block(b);
            }
        }
        self.lemma_same_state(pr, pr2, m);
    }

    /// The words of the array of root boxes stay as they are, and the
    /// boxes that the array names are in the static region.
    pub proof fn lemma_root_array(self, pr: Progress, m: Seq<u32>, i: int)
        requires
            self.wf(),
            self.inv(pr, m),
            0 <= i < self.h0.root_count() || i == -1,
        ensures
            m.len() == self.h0.m.len(),
            is_block(self.h0.m, self.h0.root_array),
            self.h0.root_array + 12 + 4 * self.h0.root_count() <= self.h0.base,
            word_in(m.len(), self.h0.root_array + 12 + 4 * i),
            word_at(m, self.h0.root_array + 12 + 4 * i) == word_at(
                self.h0.m,
                self.h0.root_array + 12 + 4 * i,
            ),
            0 <= i ==> self.static_slot(self.h0.root_field(i)) && self.h0.root_box(i) + 12
                <= self.h0.base && 0 <= self.h0.root_box(i) && self.h0.root_field(i)
                != self.h0.cont_loc,
    {
        reveal(Compaction::wf);
        let l = self.h0.root_array + 12 + 4 * i;
        assert(self.word_of(self.h0.root_array, l));
        self.lemma_word(pr, m, self.h0.root_array, l);
        if self.live(self.h0.root_array, l) {
            self.lemma_static_outside(l);
        }
        if 0 <= i {
            assert(word_in(self.h0.m.len(), self.h0.root_box(i)));
        }
    }

    /// Visiting a static place after the first pass: a slot that was not
    /// visited is threaded; one that was, holds no pointer any more.
    #[verifier::rlimit(40)]
    pub proof fn lemma_static_visit(self, pr: Progress, pr2: Progress, m: Seq<u32>, l: int)
        requires
            self.wf(),
            self.inv(pr, m),
            self.static_slot(l),
            pr.ut == self.lo(),
            pr2 == if self.live(0, l) && !pr.statics.contains(l) {
                self.pushed(Progress { statics: pr.statics.insert(l), ..pr }, 0, l)
            } else {
                Progress { statics: pr.statics.insert(l), ..pr }
            },
        ensures
            word_in(m.len(), l),
            l + 4 <= self.h0.base,
            !pr.statics.contains(l) ==> word_at(m, l) == word_at(self.h0.m, l),
            !self.live(0, l) ==> word_at(m, l) == word_at(self.h0.m, l),
            pr.statics.contains(l) && self.live(0, l) ==> !points_to_dynamic_heap(
                word_at(m, l),
                self.h0.base,
            ),
            points_to_dynamic_heap(word_at(self.h0.m, l), self.h0.base) ==> word_in(
                m.len(),
                self.target(l),
            ),
            l == self.h0.cont_loc && is_ptr(word_at(self.h0.m, l))
                ==> points_to_dynamic_heap(word_at(self.h0.m, l), self.h0.base),
            self.inv(
                pr2,
                if self.live(0, l) && !pr.statics.contains(l) {
                    threaded(m, l, self.target(l))
                } else {
                    m
                },
            ),
    {
        reveal(Compaction::wf);
        assert(self.word_of(0, l));
        self.lemma_word(pr, m, 0, l);
        self.lemma_extent(pr, 0, l);
        if points_to_dynamic_heap(word_at(self.h0.m, l), self.h0.base) {
            if l != self.h0.cont_loc {
                let i = choose|i: int|
                    0 <= i < self.h0.root_count() && #[trigger] self.h0.root_field(i) == l;
                assert(word_in(self.h0.m.len(), self.h0.root_box(i)));
            }
            let t = self.target(l);
            let j = index_of(self.starts, t);
            lemma_tiles_bounds(self.h0.m, self.starts, self.h0.base, self.h0.free, j);
            assert(is_block(self.h0.m, self.starts[j]));
        }
        if self.live(0, l) {
            self.lemma_live_word(0, l);
            self.lemma_marked_block(self.target(l));
        }
        assert forall|b: int, k: int|
            #[trigger] self.live(b, k) && (b != 0 || k != l) implies self.visited(pr2, b, k)
            == self.visited(pr, b, k) by {
            self.lemma_live_word(b, k);
        }
        self.lemma_visit(pr, pr2, m, 0, l);
    }

    /// Whether the place `l` is visited when the forward pointers of `a`
    /// are threaded: of a block of the old generation before anything is
    /// unthreaded, or of a marked object that was just moved.
    pub open spec fn forward_pass_at(self, pr: Progress, a: int, l: int) -> bool {
        &&& pr.back == self.h0.free
        &&& is_field_of(self.h0.m, a, l)
        &&& if self.old_block(a) {
            &&& is_object_tag(word_at(self.h0.m, a))
            &&& pr.old == a
            &&& pr.old_cur == l
            &&& pr.ut == self.lo()
        } else {
            &&& self.is_marked(a)
            &&& pr.fwd == a
            &&& pr.fwd_cur == l
            &&& pr.ut == a + 4
            &&& pr.mv == a + 4
        }
    }

    /// The progress with the cursor of the forward pass on `a` at `l`.
    pub open spec fn forward_cursor(self, pr: Progress, a: int, l: int) -> Progress {
        if self.old_block(a) {
            Progress { old_cur: l, ..pr }
        } else {
            Progress { fwd_cur: l, ..pr }
        }
    }

    /// What the place `l` of `a` holds when a forward pass comes to it. A
    /// slot that refers to `a` or below holds the new address of what it
    /// refers to, which is not above the new address of `a`; any other
    /// place holds what it held when compaction began.
    pub proof fn lemma_forward_read(self, pr: Progress, m: Seq<u32>, a: int, l: int)
        requires
            self.wf(),
            self.inv(pr, m),
            self.forward_pass_at(pr, a, l),
        ensures
            self.word_of(a, l),
            self.word_of(a, a),
            word_in(m.len(), self.cur(pr, a, l)),
            self.live(a, l) && self.target(l) <= a ==> points_to_dynamic_heap(
                word_at(m, self.cur(pr, a, l)),
                self.h0.base,
            ) && unskewed(word_at(m, self.cur(pr, a, l))) <= self.cur(pr, a, a),
            !(self.live(a, l) && self.target(l) <= a) ==> word_at(m, self.cur(pr, a, l))
                == word_at(self.h0.m, l),
            points_to_dynamic_heap(word_at(self.h0.m, l), self.h0.base) ==> word_in(
                m.len(),
                self.target(l),
            ),
            points_to_dynamic_heap(word_at(self.h0.m, l), self.h0.base) && !self.live(a, l)
                ==> self.target(l) < self.lo() <= self.cur(pr, a, a) || self.old_block(a),
            self.cur(pr, a, a) <= a,
            self.cur(pr, a, l) == self.cur(pr, a, a) + (l - a),
            m.len() == self.h0.m.len(),
            self.live(a, l) && self.target(l) > a ==> !self.visited(pr, a, l) && self.target(l)
                >= pr.ut,
    {
        reveal(Compaction::wf);
        self.lemma_field(a, l);
        self.lemma_holder_block(a);
        self.lemma_inv_word(pr, m, a, l);
        self.lemma_extent(pr, a, l);
        self.lemma_extent(pr, a, a);
        if self.live(a, l) {
            let t = self.target(l);
            self.lemma_live_word(a, l);
            self.lemma_marked_block(t);
            if t <= a {
                if t < a {
                    self.lemma_new_addr_mono(t, a);
                }
                let x = self.new_addr(t);
                let w = spec_skew(x as u32).0;
                lemma_skew_unskew(x as u32);
                assert(self.is_marked(a));
                self.lemma_marked_block(a);
                assert(self.visited(pr, a, l));
                assert(128 <= x < 0x1_0000_0000 && x % 4 == 0);
                assert(w == x - 1);
                assert(w % 2 == 1);
                assert(unskewed(w) == x);
                assert(word_at(m, self.cur(pr, a, l)) == w);
            } else {
                self.lemma_blocks_apart(a, t);
            }
        }
    }

    /// A block of the old generation and a marked object are blocks, and
    /// their first word is a tracked word.
    pub proof fn lemma_holder_block(self, a: int)
        requires
            self.wf(),
            self.old_block(a) || self.is_marked(a),
        ensures
            is_block(self.h0.m, a),
            self.word_of(a, a),
            is_start(self.starts, a),
    {
        reveal(Compaction::wf);
        if self.is_marked(a) {
            self.lemma_marked_block(a);
        } else {
            let k = index_of(self.starts, a);
            assert(is_block(self.h0.m, self.starts[k]));
        }
    }

    /// Visiting the place `l` of `a` in a forward pass: a slot that refers
    /// to an object above `a` is threaded, anything else stays.
    pub proof fn lemma_forward_visit(self, pr: Progress, pr2: Progress, m: Seq<u32>, a: int, l: int)
        requires
            self.wf(),
            self.inv(pr, m),
            self.forward_pass_at(pr, a, l),
            pr2 == if self.live(a, l) && self.target(l) > a {
                self.pushed(self.forward_cursor(pr, a, l + 4), a, l)
            } else {
                self.forward_cursor(pr, a, l + 4)
            },
        ensures
            self.inv(
                pr2,
                if self.live(a, l) && self.target(l) > a {
                    threaded(m, self.cur(pr, a, l), self.target(l))
                } else {
                    m
                },
            ),
    {
        reveal(Compaction::wf);
        self.lemma_forward_read(pr, m, a, l);
        assert forall|b: int, k: int|
            #[trigger] self.live(b, k) && (b != a || k != l) implies self.visited(pr2, b, k)
            == self.visited(pr, b, k) by {
            self.lemma_live_word(b, k);
        }
        self.lemma_visit(pr, pr2, m, a, l);
    }

    /// In a forward pass on `a`, moving the cursor over words of `a` that
    /// are no places of it changes nothing.
    pub proof fn lemma_forward_cursor(self, pr: Progress, pr2: Progress, m: Seq<u32>, a: int)
        requires
            self.wf(),
            self.inv(pr, m),
            self.old_block(a) || self.is_marked(a),
            self.old_block(a) ==> pr.old == a,
            !self.old_block(a) ==> pr.fwd == a,
            pr2 == if self.old_block(a) {
                Progress { old_cur: pr2.old_cur, ..pr }
            } else {
                Progress { fwd_cur: pr2.fwd_cur, ..pr }
            },
            forall|l: int|
                is_field_of(self.h0.m, a, l) ==> if self.old_block(a) {
                    (l < pr.old_cur) == (l < pr2.old_cur)
                } else {
                    (l < pr.fwd_cur) == (l < pr2.fwd_cur)
                },
        ensures
            self.inv(pr2, m),
    {
        reveal(Compaction::wf);
        reveal(Compaction::inv);
        assert forall|b: int, k: int| #[trigger] self.live(b, k) implies self.visited(pr2, b, k)
            == self.visited(pr, b, k) by {
            self.lemma_live_word(b, k);
        }
        self.lemma_same_state(pr, pr2, m);
    }

    /// The tag word of a block of the old generation, or of a marked
    /// object that is unthreaded, is in place.
    pub proof fn lemma_tag_intact(self, pr: Progress, m: Seq<u32>, a: int)
        requires
            self.wf(),
            self.inv(pr, m),
            self.old_block(a) || (self.is_marked(a) && a < pr.ut),
        ensures
            word_in(m.len(), self.cur(pr, a, a)),
            word_at(m, self.cur(pr, a, a)) == word_at(self.h0.m, a),
            is_block_tag(word_at(self.h0.m, a)),
    {
        reveal(Compaction::wf);
        if self.is_marked(a) {
            self.lemma_marked_block(a);
        } else {
            let k = index_of(self.starts, a);
            assert(is_block(self.h0.m, self.starts[k]));
        }
        assert(self.word_of(a, a));
        self.lemma_word(pr, m, a, a);
    }

    /// The pass over the old generation may go on from the block it has
    /// finished to the next block.
    pub proof fn lemma_old_jump(self, pr: Progress, pr2: Progress, m: Seq<u32>)
        requires
            self.wf(),
            self.inv(pr, m),
            self.old_block(pr.old),
            pr2 == (Progress {
                old: pr.old + 4 * block_words(self.h0.m, pr.old),
                old_cur: 0,
                ..pr
            }),
            pr.old_cur >= pr.old + 4 * block_words(self.h0.m, pr.old) || !is_object_tag(
                word_at(self.h0.m, pr.old),
            ),
        ensures
            self.inv(pr2, m),
    {
        reveal(Compaction::wf);
        reveal(Compaction::inv);
        assert forall|b: int, k: int| #[trigger] self.live(b, k) implies self.visited(pr2, b, k)
            == self.visited(pr, b, k) by {
            self.lemma_live_word(b, k);
            if self.old_block(b) {
                if b < pr.old {
                    self.lemma_blocks_apart(b, pr.old);
                }
                if b > pr.old {
                    self.lemma_blocks_apart(pr.old, b);
                }
            }
        }
        self.lemma_same_state(pr, pr2, m);
    }

    /// The last pass may go on from the object it has finished, or from
    /// the start, to any address up to the next marked object.
    pub proof fn lemma_forward_jump(self, pr: Progress, pr2: Progress, m: Seq<u32>)
        requires
            self.wf(),
            self.inv(pr, m),
            pr2 == (Progress { ut: pr2.ut, mv: pr2.ut, fwd: pr2.ut, fwd_cur: 0, ..pr }),
            self.lo() <= pr2.ut,
            forall|t: int|
                #[trigger] self.is_marked(t) ==> (t < pr2.ut) == (t < pr.ut) && (t < pr2.ut) == (t
                    < pr.mv) && (t < pr2.ut) == (t < pr.fwd || (t == pr.fwd && pr.fwd_cur >= t + 4
                    * block_words(self.h0.m, t))),
            pr.fwd_cur <= pr.fwd + 8 || pr.fwd_cur >= pr.fwd + 4 * block_words(
                self.h0.m,
                pr.fwd,
            ),
        ensures
            self.inv(pr2, m),
    {
        reveal(Compaction::wf);
        reveal(Compaction::inv);
        assert forall|b: int, k: int| #[trigger] self.live(b, k) implies self.visited(pr2, b, k)
            == self.visited(pr, b, k) by {
            self.lemma_live_word(b, k);
            if b != 0 && !self.old_block(b) {
                assert(self.is_marked(b));
                self.lemma_marked_block(b);
            }
        }
        self.lemma_same_state(pr, pr2, m);
    }

    /// When the last pass comes to the marked object `p`, every slot that
    /// refers to `p` was visited: those of the roots and of the old
    /// generation, those of `p` and of the objects above it in the first
    /// pass, and those of the objects below it after they were moved.
    pub proof fn lemma_all_visited(self, pr: Progress, p: int)
        requires
            self.wf(),
            self.is_marked(p),
            pr.back == self.h0.free,
            forall|l: int| self.static_slot(l) ==> pr.statics.contains(l),
            self.young ==> pr.old == self.h0.last_free,
            pr.fwd == p,
        ensures
            forall|b: int, k: int|
                #[trigger] self.live(b, k) && self.target(k) == p ==> self.visited(pr, b, k),
    {
        reveal(Compaction::wf);
        assert forall|b: int, k: int|
            #[trigger] self.live(b, k) && self.target(k) == p implies self.visited(pr, b, k) by {
            self.lemma_live_word(b, k);
            if b != 0 && !self.old_block(b) {
                self.lemma_marked_block(b);
            }
        }
    }

    /// The `k`-th block, where it lies below the young generation, is a
    /// block of the old generation, and the next block starts where it
    /// ends, at or below the end of the old generation.
    pub proof fn lemma_old_block(self, k: int)
        requires
            self.wf(),
            self.young,
            0 <= k < self.starts.len(),
            self.starts[k] < self.h0.last_free,
        ensures
            k < self.starts.len() - 1,
            self.old_block(self.starts[k]),
            is_block(self.h0.m, self.starts[k]),
            self.starts[k + 1] == self.starts[k] + 4 * block_words(self.h0.m, self.starts[k]),
            self.starts[k + 1] <= self.h0.last_free,
            self.h0.last_free < 0xFFFF_FFF0,
            !self.is_marked(self.starts[k]),
            self.starts[0] == self.h0.base,
    {
        reveal(Compaction::wf);
        let n = self.starts.len() - 1;
        assert(k < n);
        lemma_tiles_bounds(self.h0.m, self.starts, self.h0.base, self.h0.free, k);
        lemma_index_of(self.h0.m, self.starts, self.h0.base, self.h0.free, k);
        assert(is_block(self.h0.m, self.starts[k]));
        if self.h0.last_free != self.h0.free {
            self.lemma_blocks_apart(self.starts[k], self.h0.last_free);
        }
        if self.is_marked(self.starts[k]) {
            self.lemma_marked_block(self.starts[k]);
        }
    }

    /// The progress of a compaction that is over, but for the lists and
    /// the static places: every pass has come to the end of the heap.
    pub open spec fn finish(self, pr: Progress) -> Progress {
        Progress {
            back: self.h0.free,
            back_cur: 0,
            statics: pr.statics,
            old: if self.young {
                self.h0.last_free
            } else {
                self.h0.base
            },
            old_cur: 0,
            fwd: self.h0.free,
            fwd_cur: 0,
            ut: self.h0.free,
            mv: self.h0.free,
            chains: pr.chains,
        }
    }

    /// The position in the list of blocks of the address `x`, which is
    /// that of a block or the end of the heap.
    pub open spec fn block_index(self, x: int) -> int {
        if x == self.h0.free {
            self.starts.len() - 1
        } else {
            index_of(self.starts, x)
        }
    }

    /// The address of a marked object, and the end of the heap, have a
    /// position in the list of blocks.
    pub proof fn lemma_block_index(self, x: int)
        requires
            self.wf(),
            self.is_marked(x) || x == self.h0.free,
        ensures
            0 <= self.block_index(x) < self.starts.len(),
            self.starts[self.block_index(x)] == x,
    {
        reveal(Compaction::wf);
        if x != self.h0.free {
            self.lemma_marked_block(x);
        } else if self.is_marked(x) {
            self.lemma_marked_block(x);
        }
    }

    /// The position of a marked object is the one that its new address is
    /// counted from.
    pub proof fn lemma_same_index(self, k: int)
        requires
            self.wf(),
            0 <= k < self.starts.len(),
            self.is_marked(self.starts[k]),
        ensures
            k < self.starts.len() - 1,
            index_of(self.starts, self.starts[k]) == k,
            self.new_addr(self.starts[k]) == self.lo() + marked_bytes(
                self.h0.m,
                self.starts,
                self.marks,
                k,
            ),
            marked_bytes(self.h0.m, self.starts, self.marks, k + 1) == marked_bytes(
                self.h0.m,
                self.starts,
                self.marks,
                k,
            ) + 4 * block_words(self.h0.m, self.starts[k]),
    {
        reveal(Compaction::wf);
        self.lemma_marked_block(self.starts[k]);
        let j = index_of(self.starts, self.starts[k]);
        if j < k {
            lemma_tiles_ascending(self.h0.m, self.starts, self.h0.base, self.h0.free, j, k);
        }
        if k < j {
            lemma_tiles_ascending(self.h0.m, self.starts, self.h0.base, self.h0.free, k, j);
        }
    }

    /// Positions in the list of blocks are in the order of the addresses.
    pub proof fn lemma_below(self, i: int, j: int)
        requires
            self.wf(),
            0 <= i < self.starts.len(),
            0 <= j < self.starts.len(),
        ensures
            i < j <==> self.starts[i] < self.starts[j],
            i < j ==> self.starts[i] + 4 <= self.starts[j] && self.starts[i] % 4 == 0
                && self.h0.base <= self.starts[i],
    {
        reveal(Compaction::wf);
        if i < j {
            lemma_tiles_ascending(self.h0.m, self.starts, self.h0.base, self.h0.free, i, j);
            lemma_tiles_bounds(self.h0.m, self.starts, self.h0.base, self.h0.free, i);
            assert(is_block(self.h0.m, self.starts[i]));
        }
        if j < i {
            lemma_tiles_ascending(self.h0.m, self.starts, self.h0.base, self.h0.free, j, i);
        }
    }

    /// Only the last position in the list of blocks has the end of the
    /// heap.
    pub proof fn lemma_last_index(self, k: int)
        requires
            self.wf(),
            0 <= k < self.starts.len(),
            self.starts[k] == self.h0.free,
        ensures
            k == self.starts.len() - 1,
    {
        reveal(Compaction::wf);
        self.lemma_below(k, self.starts.len() - 1);
    }

    /// The last pass begins at the lowest marked object, or at the end of
    /// the heap when nothing is marked; no marked byte lies below it.
    pub proof fn lemma_first_object(
        self,
        pr: Progress,
        pr2: Progress,
        m: Seq<u32>,
        first: int,
    ) -> (k: int)
        requires
            self.wf(),
            self.inv(pr, m),
            pr.ut == self.lo() && pr.mv == self.lo() && pr.fwd == self.lo() && pr.fwd_cur == 0,
            self.is_marked(first) || first == self.h0.free,
            forall|t: int| #[trigger] self.is_marked(t) ==> t >= first,
            pr2 == (Progress { ut: first, mv: first, fwd: first, fwd_cur: 0, ..pr }),
        ensures
            self.inv(pr2, m),
            0 <= k < self.starts.len(),
            self.starts[k] == first,
            marked_bytes(self.h0.m, self.starts, self.marks, k) == 0,
    {
        reveal(Compaction::wf);
        let k = self.block_index(first);
        self.lemma_block_index(first);
        self.lemma_lo_aligned();
        assert(self.lo() <= first) by {
            if first != self.h0.free {
                self.lemma_marked_block(first);
            }
        }
        assert forall|q: int| 0 <= q < k implies !self.marks.is_set(
            #[trigger] self.starts[q] / 4,
        ) by {
            self.lemma_below(q, k);
            if self.marks.is_set(self.starts[q] / 4) {
                assert(self.is_marked(self.starts[q]));
            }
        }
        lemma_marked_bytes_gap(self.h0.m, self.starts, self.marks, 0, k);
        assert forall|t: int| #[trigger] self.is_marked(t) implies (t < pr2.ut) == (t < pr.ut) && (
        t < pr2.ut) == (t < pr.mv) && (t < pr2.ut) == (t < pr.fwd || (t == pr.fwd && pr.fwd_cur
            >= t + 4 * block_words(self.h0.m, t))) by {
            self.lemma_marked_block(t);
        }
        self.lemma_forward_jump(pr, pr2, m);
        k
    }

    /// The last pass goes on from the object `p`, the `k`-th block, which
    /// it has finished, to the next marked object, or to the end of the
    /// heap; the marked bytes below that are those below `p` and `p`.
    pub proof fn lemma_next_object(
        self,
        pr: Progress,
        pr2: Progress,
        m: Seq<u32>,
        p: int,
        next: int,
        k: int,
    ) -> (k2: int)
        requires
            self.wf(),
            self.inv(pr, m),
            self.is_marked(p),
            0 <= k < self.starts.len(),
            self.starts[k] == p,
            pr.ut == p + 4 && pr.mv == p + 4 && pr.fwd == p && pr.fwd_cur == p + 4 * block_words(
                self.h0.m,
                p,
            ),
            self.is_marked(next) || next == self.h0.free,
            p < next,
            forall|t: int| #[trigger] self.is_marked(t) ==> t <= p || t >= next,
            pr2 == (Progress { ut: next, mv: next, fwd: next, fwd_cur: 0, ..pr }),
        ensures
            self.inv(pr2, m),
            0 <= k2 < self.starts.len(),
            self.starts[k2] == next,
            marked_bytes(self.h0.m, self.starts, self.marks, k2) == marked_bytes(
                self.h0.m,
                self.starts,
                self.marks,
                k,
            ) + 4 * block_words(self.h0.m, p),
    {
        reveal(Compaction::wf);
        let k2 = self.block_index(next);
        self.lemma_block_index(next);
        self.lemma_marked_block(p);
        self.lemma_same_index(k);
        if next != self.h0.free {
            self.lemma_marked_block(next);
            self.lemma_blocks_apart(p, next);
        }
        self.lemma_below(k, k2);
        assert forall|q: int| k + 1 <= q < k2 implies !self.marks.is_set(
            #[trigger] self.starts[q] / 4,
        ) by {
            self.lemma_below(k, q);
            self.lemma_below(q, k2);
            if self.marks.is_set(self.starts[q] / 4) {
                assert(self.is_marked(self.starts[q]));
            }
        }
        lemma_marked_bytes_gap(self.h0.m, self.starts, self.marks, k + 1, k2);
        assert forall|t: int| #[trigger] self.is_marked(t) implies (t < pr2.ut) == (t < pr.ut) && (
        t < pr2.ut) == (t < pr.mv) && (t < pr2.ut) == (t < pr.fwd || (t == pr.fwd && pr.fwd_cur
            >= t + 4 * block_words(self.h0.m, t))) by {
            self.lemma_marked_block(t);
            if t > p {
                self.lemma_blocks_apart(p, t);
            }
        }
        self.lemma_forward_jump(pr, pr2, m);
        k2
    }

    /// The list of blocks begins at the heap's base, and the anchors of the
    /// heap are in order.
    pub proof fn lemma_starts(self)
        requires
            self.wf(),
        ensures
            self.starts.len() >= 1,
            self.starts[0] == self.h0.base,
            128 <= self.h0.base <= self.h0.last_free <= self.h0.free < 0xFFFF_FFF0,
            self.h0.free <= 4 * self.h0.m.len(),
            self.marks.base() == self.h0.base / 4,
            self.marks.len() == (self.h0.free - self.h0.base) / 4,
            self.marks.base() + self.marks.len() < 0x4000_0000,
            self.lo() % 4 == 0,
            self.h0.base <= self.lo() <= self.h0.free,
    {
        reveal(Compaction::wf);
        self.lemma_lo_aligned();
    }

    /// What a place that held `v` holds once every pass is over.
    pub open spec fn retargeted(self, v: u32) -> u32 {
        if points_to_dynamic_heap(v, self.h0.base) && unskewed(v) >= self.lo() {
            spec_skew(self.new_addr(unskewed(v)) as u32).0
        } else {
            v
        }
    }

    /// Once every pass has come to the end of the heap, every slot holds
    /// the new address of the object it refers to, every marked object
    /// lies at its new address, and every other tracked word is as it was.
    pub proof fn lemma_finished(self, pr: Progress, m: Seq<u32>, a: int, l: int)
        requires
            self.wf(),
            self.inv(pr, m),
            pr == self.finish(pr),
            forall|y: int| self.static_slot(y) ==> pr.statics.contains(y),
            self.word_of(a, l),
        ensures
            m.len() == self.h0.m.len(),
            self.is_marked(a) ==> word_at(m, l - a + self.new_addr(a)) == if is_field_of(
                self.h0.m,
                a,
                l,
            ) {
                self.retargeted(word_at(self.h0.m, l))
            } else if l == a + 4 && self.new_addr(a) != a {
                spec_skew(self.new_addr(a) as u32).0
            } else {
                word_at(self.h0.m, l)
            },
            self.old_block(a) ==> word_at(m, l) == if is_object_tag(word_at(self.h0.m, a))
                && is_field_of(self.h0.m, a, l) {
                self.retargeted(word_at(self.h0.m, l))
            } else {
                word_at(self.h0.m, l)
            },
            a == 0 && self.static_slot(l) ==> word_at(m, l) == self.retargeted(
                word_at(self.h0.m, l),
            ),
    {
        reveal(Compaction::wf);
        self.lemma_inv_word(pr, m, a, l);
        self.lemma_extent(pr, a, l);
        self.lemma_starts();
        if self.live(a, l) {
            self.lemma_live_word(a, l);
            self.lemma_marked_block(self.target(l));
        }
        if self.is_marked(a) {
            self.lemma_marked_block(a);
        }
        if a == 0 && self.static_slot(l) && l == self.h0.cont_loc {
            assert(points_to_dynamic_heap(word_at(self.h0.m, l), self.h0.base)
                == is_ptr(word_at(self.h0.m, l)));
        }
    }

    /// Once every pass is over, the words where a compaction writes
    /// nothing are as they were.
    pub proof fn lemma_finished_outside(self, pr: Progress, m: Seq<u32>, y: int)
        requires
            self.wf(),
            self.inv(pr, m),
            word_in(m.len(), y),
            y < self.h0.base || y >= self.h0.free,
            !self.static_slot(y),
        ensures
            word_at(m, y) == word_at(self.h0.m, y),
    {
        reveal(Compaction::inv);
        reveal(Compaction::wf);
        if self.is_marked(0) {
            self.lemma_marked_block(0);
        }
        assert(self.outside(y));
    }

    /// A block of the heap lies at or above the heap's base.
    pub proof fn lemma_blocks_apart_from_base(self, a: int)
        requires
            self.wf(),
            is_start(self.starts, a),
        ensures
            self.h0.base <= a,
            is_block(self.h0.m, a),
    {
        reveal(Compaction::wf);
        let k = index_of(self.starts, a);
        lemma_tiles_bounds(self.h0.m, self.starts, self.h0.base, self.h0.free, k);
        assert(is_block(self.h0.m, self.starts[k]));
    }

    /// The memory keeps its length.
    pub proof fn lemma_inv_len(self, pr: Progress, m: Seq<u32>)
        requires
            self.inv(pr, m),
        ensures
            m.len() == self.h0.m.len(),
    {
        reveal(Compaction::inv);
    }
}

/// The marked bytes below a block are a whole number of words.
pub proof fn lemma_marked_bytes_aligned(m: Seq<u32>, starts: Seq<int>, marks: Bitmap, k: int)
    ensures
        marked_bytes(m, starts, marks, k) % 4 == 0,
    decreases k,
{
    if k > 0 {
        lemma_marked_bytes_aligned(m, starts, marks, k - 1);
    }
}

/// Blocks that are not marked add nothing to the marked bytes.
pub proof fn lemma_marked_bytes_gap(m: Seq<u32>, starts: Seq<int>, marks: Bitmap, i: int, j: int)
    requires
        0 <= i <= j,
        forall|k: int| i <= k < j ==> !marks.is_set(#[trigger] starts[k] / 4),
    ensures
        marked_bytes(m, starts, marks, j) == marked_bytes(m, starts, marks, i),
    decreases j - i,
{
    if i < j {
        lemma_marked_bytes_gap(m, starts, marks, i, j - 1);
        assert(!marks.is_set(starts[j - 1] / 4));
    }
}

/// The marked bytes grow with the number of blocks that are counted.
pub proof fn lemma_marked_bytes_mono(
    m: Seq<u32>,
    starts: Seq<int>,
    marks: Bitmap,
    base: int,
    free: int,
    i: int,
    j: int,
)
    requires
        tiles(m, starts, base, free),
        0 <= i <= j < starts.len(),
    ensures
        marked_bytes(m, starts, marks, i) <= marked_bytes(m, starts, marks, j),
    decreases j - i,
{
    if i < j {
        lemma_marked_bytes_mono(m, starts, marks, base, free, i, j - 1);
        assert(is_block(m, starts[j - 1]));
    }
}

/// What the words of a memory hold after a field was threaded.
pub proof fn lemma_threaded_words(m: Seq<u32>, f: int, t: int, y: int)
    requires
        word_in(m.len(), f),
        word_in(m.len(), t),
        word_in(m.len(), y),
        f != t,
    ensures
        threaded(m, f, t).len() == m.len(),
        word_at(threaded(m, f, t), y) == if y == t {
            f as u32
        } else if y == f {
            word_at(m, t)
        } else {
            word_at(m, y)
        },
{
    assert(f / 4 != t / 4);
    if y != t {
        assert(y / 4 != t / 4);
    }
    if y != f {
        assert(y / 4 != f / 4);
    }
}

/// A field on a list holds the list's tag or an even word.
pub proof fn lemma_chain_word(m: Seq<u32>, obj: int, locs: Seq<int>, tag: u32, i: int)
    requires
        is_chain(m, obj, locs, tag),
        0 <= i < locs.len(),
    ensures
        word_at(m, locs[i]) == tag || word_at(m, locs[i]) % 2 == 0,
{
    assert(chain_link(m, locs, tag, i));
    if i > 0 {
        assert(word_in(m.len(), locs[i - 1]));
    }
}

/// A list stays a list when its words stay.
pub proof fn lemma_chain_frame(m: Seq<u32>, m2: Seq<u32>, obj: int, locs: Seq<int>, tag: u32)
    requires
        is_chain(m, obj, locs, tag),
        m2.len() == m.len(),
        word_at(m2, obj) == word_at(m, obj),
        forall|i: int|
            0 <= i < locs.len() ==> word_at(m2, #[trigger] locs[i]) == word_at(m, locs[i]),
    ensures
        is_chain(m2, obj, locs, tag),
{
    assert forall|i: int| 0 <= i < locs.len() implies #[trigger] chain_link(m2, locs, tag, i) by {
        assert(chain_link(m, locs, tag, i));
    }
}

/// The memory `m` after the block of `n` words at `from` slid down to `to`
/// and got its new address, skewed, into its forwarding slot; unchanged
/// where the block stays.
pub open spec fn slid(m: Seq<u32>, to: int, from: int, n: int) -> Seq<u32> {
    if to != from {
        with_word(with_copy(m, to, from, n), to + 4, spec_skew(to as u32).0)
    } else {
        m
    }
}

/// What the words of a memory hold after a block slid down.
pub proof fn lemma_slid_words(m: Seq<u32>, to: int, from: int, n: int, y: int)
    requires
        word_in(m.len(), y),
        0 <= to <= from,
        to % 4 == 0,
        from % 4 == 0,
        2 <= n,
        from / 4 + n <= m.len(),
    ensures
        slid(m, to, from, n).len() == m.len(),
        word_at(slid(m, to, from, n), y) == if to != from && y == to + 4 {
            spec_skew(to as u32).0
        } else if to != from && to <= y < to + 4 * n {
            word_at(m, y - to + from)
        } else {
            word_at(m, y)
        },
{
    if to != from {
        if y != to + 4 {
            assert(y / 4 != (to + 4) / 4);
        }
    }
}

/// Whether the block at `b` in `m2` has the tag, the size and the places
/// of the block at `a` in `m`.
pub open spec fn same_shape(m: Seq<u32>, a: int, m2: Seq<u32>, b: int) -> bool {
    &&& word_at(m2, b) == word_at(m, a)
    &&& block_words(m2, b) == block_words(m, a)
    &&& fields_end(m2, b) == fields_end(m, a)
    &&& is_block(m2, b)
}

} // verus!
