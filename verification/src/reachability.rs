//! Which objects a collection has to keep: those that can be reached from
//! the roots through pointers, inside the generation that is collected.

use vstd::prelude::*;
use crate::bitmap::Bitmap;
use crate::heap::{lemma_tiles_ascending, lemma_tiles_bounds, tiles, HeapModel};
use crate::memory::word_at;
use crate::visitor::{block_words, is_block, is_field_of, is_ptr, points_to_dynamic_heap, unskewed};

verus! {

impl HeapModel {
    /// First address of the generation that is collected: the young
    /// generation alone, or the whole dynamic heap.
    pub open spec fn scope_start(self, young: bool) -> int {
        if young {
            self.last_free
        } else {
            self.base
        }
    }

    /// Whether the object at `a` holds a pointer to the address `t`.
    pub open spec fn has_edge(self, a: int, t: int) -> bool {
        exists|loc: int|
            #![trigger word_at(self.m, loc)]
            is_field_of(self.m, a, loc) && points_to_dynamic_heap(word_at(self.m, loc), self.base)
                && unskewed(word_at(self.m, loc)) == t
    }

    /// Whether a root refers to the address `t`: a static root box, the
    /// continuation-table word, or, when only the young generation is
    /// collected, a recorded field that now holds a pointer into it.
    pub open spec fn is_root_target(self, rs: Seq<u32>, young: bool, t: int) -> bool {
        ||| exists|i: int|
            0 <= i < self.root_count() && points_to_dynamic_heap(
                word_at(self.m, #[trigger] self.root_field(i)),
                self.base,
            ) && unskewed(word_at(self.m, self.root_field(i))) == t
        ||| is_ptr(word_at(self.m, self.cont_loc)) && unskewed(word_at(self.m, self.cont_loc)) == t
        ||| young && exists|j: int|
            0 <= j < rs.len() && is_ptr(word_at(self.m, #[trigger] rs[j] as int)) && unskewed(
                word_at(self.m, rs[j] as int),
            ) >= self.last_free && unskewed(word_at(self.m, rs[j] as int)) == t
    }

    /// Whether `p` leads from a root through pointers, from object to
    /// object, without leaving the generation that is collected.
    pub open spec fn is_path(self, rs: Seq<u32>, young: bool, p: Seq<int>) -> bool {
        &&& p.len() > 0
        &&& self.is_root_target(rs, young, p[0])
        &&& forall|i: int| 0 <= i < p.len() ==> #[trigger] p[i] >= self.scope_start(young)
        &&& forall|i: int| 0 < i < p.len() ==> self.has_edge(p[i - 1], #[trigger] p[i])
    }

    /// Whether the object at `t` is reachable from the roots inside the
    /// generation that is collected.
    pub open spec fn reachable(self, rs: Seq<u32>, young: bool, t: int) -> bool {
        exists|p: Seq<int>| self.is_path(rs, young, p) && #[trigger] p.last() == t
    }

    /// What a root refers to inside the collected generation is reachable.
    pub proof fn lemma_root_reachable(self, rs: Seq<u32>, young: bool, t: int)
        requires
            self.is_root_target(rs, young, t),
            t >= self.scope_start(young),
        ensures
            self.reachable(rs, young, t),
    {
        let p = seq![t];
        assert(self.is_path(rs, young, p));
        assert(p.last() == t);
    }

    /// What a reachable object refers to inside the collected generation is
    /// reachable.
    pub proof fn lemma_edge_reachable(self, rs: Seq<u32>, young: bool, a: int, t: int)
        requires
            self.reachable(rs, young, a),
            self.has_edge(a, t),
            t >= self.scope_start(young),
        ensures
            self.reachable(rs, young, t),
    {
        let p = choose|p: Seq<int>| self.is_path(rs, young, p) && #[trigger] p.last() == a;
        let q = p.push(t);
        assert forall|i: int| 0 < i < q.len() implies self.has_edge(q[i - 1], #[trigger] q[i]) by {
            if i < p.len() {
                assert(q[i] == p[i]);
                assert(q[i - 1] == p[i - 1]);
            }
        }
        assert(q[0] == p[0]);
        assert(self.is_path(rs, young, q));
        assert(q.last() == t);
    }

    /// A set that holds every root target of the collected generation and,
    /// with an object, everything the object refers to there, holds every
    /// reachable object.
    pub proof fn lemma_closed_holds_reachable(
        self,
        rs: Seq<u32>,
        young: bool,
        s: Set<int>,
        t: int,
    )
        requires
            forall|r: int|
                self.is_root_target(rs, young, r) && r >= self.scope_start(young) ==> s.contains(r),
            forall|a: int, b: int|
                s.contains(a) && self.has_edge(a, b) && b >= self.scope_start(young)
                    ==> s.contains(b),
            self.reachable(rs, young, t),
        ensures
            s.contains(t),
    {
        let p = choose|p: Seq<int>| self.is_path(rs, young, p) && #[trigger] p.last() == t;
        self.lemma_path_inside(rs, young, s, p, p.len() - 1);
    }

    proof fn lemma_path_inside(self, rs: Seq<u32>, young: bool, s: Set<int>, p: Seq<int>, i: int)
        requires
            forall|r: int|
                self.is_root_target(rs, young, r) && r >= self.scope_start(young) ==> s.contains(r),
            forall|a: int, b: int|
                s.contains(a) && self.has_edge(a, b) && b >= self.scope_start(young)
                    ==> s.contains(b),
            self.is_path(rs, young, p),
            0 <= i < p.len(),
        ensures
            s.contains(p[i]),
        decreases i,
    {
        if i > 0 {
            self.lemma_path_inside(rs, young, s, p, i - 1);
            assert(self.has_edge(p[i - 1], p[i]));
        }
        assert(p[i] >= self.scope_start(young));
    }
}

/// Bytes taken by the marked ones among the first `k` blocks of `starts`.
pub open spec fn marked_bytes(m: Seq<u32>, starts: Seq<int>, bitmap: Bitmap, k: int) -> int
    decreases k,
{
    if k <= 0 {
        0
    } else {
        marked_bytes(m, starts, bitmap, k - 1) + if bitmap.is_set(starts[k - 1] / 4) {
            4 * block_words(m, starts[k - 1])
        } else {
            0
        }
    }
}

/// The marked blocks among the first `k` take no more room than lies
/// between `lo`, below which nothing is marked, and the `k`-th block.
pub proof fn lemma_marked_bytes_bound(
    m: Seq<u32>,
    starts: Seq<int>,
    bitmap: Bitmap,
    base: int,
    free: int,
    lo: int,
    k: int,
)
    requires
        tiles(m, starts, base, free),
        0 <= k < starts.len(),
        base <= lo,
        forall|idx: int| bitmap.is_set(idx) ==> 4 * idx >= lo,
    ensures
        0 <= marked_bytes(m, starts, bitmap, k),
        starts[k] <= lo ==> marked_bytes(m, starts, bitmap, k) == 0,
        starts[k] >= lo ==> marked_bytes(m, starts, bitmap, k) <= starts[k] - lo,
    decreases k,
{
    if k > 0 {
        lemma_marked_bytes_bound(m, starts, bitmap, base, free, lo, k - 1);
        lemma_tiles_bounds(m, starts, base, free, k - 1);
        assert(is_block(m, starts[k - 1]));
        if bitmap.is_set(starts[k - 1] / 4) {
            assert(4 * (starts[k - 1] / 4) >= lo);
        }
    }
}

/// With no bit set, no byte is marked.
pub proof fn lemma_marked_bytes_none(m: Seq<u32>, starts: Seq<int>, bitmap: Bitmap, k: int)
    requires
        forall|idx: int| !bitmap.is_set(idx),
    ensures
        marked_bytes(m, starts, bitmap, k) == 0,
    decreases k,
{
    if k > 0 {
        lemma_marked_bytes_none(m, starts, bitmap, k - 1);
    }
}

/// Setting the bit of one more block adds the size of that block.
pub proof fn lemma_marked_bytes_set(
    m: Seq<u32>,
    starts: Seq<int>,
    before: Bitmap,
    after: Bitmap,
    base: int,
    free: int,
    j: int,
    k: int,
)
    requires
        tiles(m, starts, base, free),
        0 <= j < starts.len() - 1,
        0 <= k < starts.len(),
        !before.is_set(starts[j] / 4),
        forall|idx: int| after.is_set(idx) == (idx == starts[j] / 4 || before.is_set(idx)),
    ensures
        marked_bytes(m, starts, after, k) == marked_bytes(m, starts, before, k) + if j < k {
            4 * block_words(m, starts[j])
        } else {
            0
        },
    decreases k,
{
    if k > 0 {
        lemma_marked_bytes_set(m, starts, before, after, base, free, j, k - 1);
        lemma_tiles_bounds(m, starts, base, free, k - 1);
        lemma_tiles_bounds(m, starts, base, free, j);
        if k - 1 < j {
            lemma_tiles_ascending(m, starts, base, free, k - 1, j);
        }
        if j < k - 1 {
            lemma_tiles_ascending(m, starts, base, free, j, k - 1);
        }
    }
}

} // verus!
