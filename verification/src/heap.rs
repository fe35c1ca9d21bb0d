//! The heap as the collector sees it: limits, roots, and what it means for
//! the words of the memory to form a well-formed heap.

use vstd::prelude::*;
use crate::memory::{word_at, word_in, Memory};
use crate::types::{SkewedPtr, TAG_ARRAY, TAG_MUTBOX};
use crate::visitor::{
    block_words, is_block, is_field_of, is_object_tag, is_ptr, points_to_dynamic_heap, unskewed,
};

verus! {

/// The anchors of the dynamic heap, as byte addresses. The old generation
/// is `[base, last_free)`, the young generation `[last_free, free)`.
#[derive(Clone, Copy)]
pub struct Limits {
    pub base: u32,
    pub last_free: u32,
    pub free: u32,
}

/// Where the roots are found in the static region.
#[derive(Clone, Copy)]
pub struct Roots {
    /// The static array of pointers to the static root boxes.
    pub static_roots: SkewedPtr,
    /// Address of the word that holds the continuation table, or no pointer.
    pub continuation_table_ptr_loc: u32,
}

/// A memory with the heap that lives in it.
pub struct Heap {
    pub mem: Memory,
    pub limits: Limits,
    pub roots: Roots,
}

/// The mathematical model of a heap: its words and its anchors.
pub ghost struct HeapModel {
    pub m: Seq<u32>,
    pub base: int,
    pub last_free: int,
    pub free: int,
    pub root_array: int,
    pub cont_loc: int,
}

impl View for Heap {
    type V = HeapModel;

    open spec fn view(&self) -> HeapModel {
        HeapModel {
            m: self.mem@,
            base: self.limits.base as int,
            last_free: self.limits.last_free as int,
            free: self.limits.free as int,
            root_array: self.roots.static_roots.spec_unskew() as int,
            cont_loc: self.roots.continuation_table_ptr_loc as int,
        }
    }
}

/// Whether `starts` lists, in ascending order, the addresses of the blocks
/// that fill `[lo, hi)` without a gap, followed by `hi` itself.
pub open spec fn tiles(m: Seq<u32>, starts: Seq<int>, lo: int, hi: int) -> bool {
    &&& starts.len() >= 1
    &&& starts[0] == lo
    &&& starts[starts.len() - 1] == hi
    &&& forall|k: int|
        0 <= k < starts.len() - 1 ==> #[trigger] is_block(m, starts[k]) && starts[k + 1]
            == starts[k] + 4 * block_words(m, starts[k])
}

/// Whether `t` is the address of one of the blocks that `starts` lists.
pub open spec fn is_start(starts: Seq<int>, t: int) -> bool {
    exists|k: int| 0 <= k < starts.len() - 1 && #[trigger] starts[k] == t
}

/// The position in `starts` of the block at address `t`.
pub open spec fn index_of(starts: Seq<int>, t: int) -> int {
    choose|k: int| 0 <= k < starts.len() - 1 && #[trigger] starts[k] == t
}

impl HeapModel {
    /// Whether the stored word `v` refers to an object of the heap.
    pub open spec fn valid_target(self, starts: Seq<int>, v: u32) -> bool {
        is_start(starts, unskewed(v)) && is_object_tag(word_at(self.m, unskewed(v)))
    }

    /// Whether every pointer into the dynamic heap that the object at
    /// `addr` holds refers to an object.
    pub open spec fn fields_valid(self, starts: Seq<int>, addr: int) -> bool {
        forall|loc: int|
            #![trigger word_at(self.m, loc)]
            is_field_of(self.m, addr, loc) && points_to_dynamic_heap(
                word_at(self.m, loc),
                self.base,
            ) ==> self.valid_target(starts, word_at(self.m, loc))
    }

    /// Number of static root boxes.
    pub open spec fn root_count(self) -> int {
        word_at(self.m, self.root_array + 8) as int
    }

    /// Address of the `i`-th static root box.
    pub open spec fn root_box(self, i: int) -> int {
        unskewed(word_at(self.m, self.root_array + 12 + 4 * i))
    }

    /// Address of the one field of the `i`-th static root box.
    pub open spec fn root_field(self, i: int) -> int {
        self.root_box(i) + 8
    }

    /// Whether the word at `l` lies outside the array of root boxes.
    pub open spec fn outside_root_array(self, l: int) -> bool {
        l < self.root_array || l >= self.root_array + 4 * block_words(self.m, self.root_array)
    }

    /// The static region holds the array of root boxes, the boxes and the
    /// continuation-table word, the last two outside the array, and what
    /// they refer to in the dynamic heap are objects.
    pub open spec fn roots_valid(self, starts: Seq<int>) -> bool {
        &&& is_block(self.m, self.root_array)
        &&& word_at(self.m, self.root_array) == TAG_ARRAY
        &&& self.root_array + 4 * block_words(self.m, self.root_array) <= self.base
        &&& forall|i: int|
            0 <= i < self.root_count() ==> {
                &&& word_in(self.m.len(), #[trigger] self.root_box(i))
                &&& word_at(self.m, self.root_box(i)) == TAG_MUTBOX
                &&& self.root_box(i) + 12 <= self.base
                &&& self.outside_root_array(self.root_field(i))
                &&& self.root_field(i) != self.cont_loc
                &&& (points_to_dynamic_heap(word_at(self.m, self.root_field(i)), self.base)
                    ==> self.valid_target(starts, word_at(self.m, self.root_field(i))))
            }
        &&& word_in(self.m.len(), self.cont_loc)
        &&& self.cont_loc + 4 <= self.base
        &&& self.outside_root_array(self.cont_loc)
        &&& (is_ptr(word_at(self.m, self.cont_loc)) ==> unskewed(word_at(self.m, self.cont_loc))
            >= self.base && self.valid_target(starts, word_at(self.m, self.cont_loc)))
    }

    /// The heap is well formed, with `starts` as the list of its blocks: the
    /// anchors are in order, blocks fill the dynamic heap, the old
    /// generation ends at a block boundary, and every pointer held by an
    /// object or a root refers to an object.
    pub open spec fn well_formed_with(self, starts: Seq<int>) -> bool {
        &&& 128 <= self.base <= self.last_free <= self.free
        &&& self.base % 128 == 0
        &&& self.free <= 4 * self.m.len()
        &&& self.free < 0xFFFF_FFF0
        &&& tiles(self.m, starts, self.base, self.free)
        &&& (self.last_free == self.free || is_start(starts, self.last_free))
        &&& forall|k: int|
            0 <= k < starts.len() - 1 && is_object_tag(word_at(self.m, starts[k]))
                ==> #[trigger] self.fields_valid(starts, starts[k])
        &&& self.roots_valid(starts)
    }

    /// The heap is well formed.
    pub open spec fn well_formed(self) -> bool {
        exists|starts: Seq<int>| self.well_formed_with(starts)
    }

    /// A static root box of a well-formed heap lies in the memory, below
    /// the dynamic heap.
    pub proof fn lemma_root_box(self, starts: Seq<int>, i: int)
        requires
            self.well_formed_with(starts),
            0 <= i < self.root_count(),
        ensures
            word_in(self.m.len(), self.root_box(i)),
            word_in(self.m.len(), self.root_box(i) + 8),
            self.root_box(i) + 12 <= self.base,
            0 <= self.root_box(i),
    {
        assert(word_in(self.m.len(), self.root_box(i)));
    }
}

/// The blocks of a tiling lie in ascending order, one word apart at least.
pub proof fn lemma_tiles_ascending(m: Seq<u32>, starts: Seq<int>, lo: int, hi: int, i: int, j: int)
    requires
        tiles(m, starts, lo, hi),
        0 <= i < j < starts.len(),
    ensures
        starts[i] + 4 * block_words(m, starts[i]) <= starts[j],
        starts[i] < starts[j],
    decreases j - i,
{
    if i + 1 < j {
        lemma_tiles_ascending(m, starts, lo, hi, i, j - 1);
        assert(is_block(m, starts[j - 1]));
    }
    assert(is_block(m, starts[i]));
}

/// A block of the tiling lies between its ends.
pub proof fn lemma_tiles_bounds(m: Seq<u32>, starts: Seq<int>, lo: int, hi: int, k: int)
    requires
        tiles(m, starts, lo, hi),
        0 <= k < starts.len() - 1,
    ensures
        lo <= starts[k],
        starts[k] + 4 * block_words(m, starts[k]) <= hi,
        starts[k] % 4 == 0,
{
    if 0 < k {
        lemma_tiles_ascending(m, starts, lo, hi, 0, k);
    }
    lemma_tiles_ascending(m, starts, lo, hi, k, starts.len() - 1);
    assert(is_block(m, starts[k]));
}

/// The position of a block in the tiling is determined by its address.
pub proof fn lemma_index_of(m: Seq<u32>, starts: Seq<int>, lo: int, hi: int, k: int)
    requires
        tiles(m, starts, lo, hi),
        0 <= k < starts.len() - 1,
    ensures
        is_start(starts, starts[k]),
        index_of(starts, starts[k]) == k,
{
    let j = index_of(starts, starts[k]);
    if j < k {
        lemma_tiles_ascending(m, starts, lo, hi, j, k);
    }
    if k < j {
        lemma_tiles_ascending(m, starts, lo, hi, k, j);
    }
}

/// Two tilings of the same range agree up to the shorter one's end.
pub proof fn lemma_tiles_agree(
    m: Seq<u32>,
    s1: Seq<int>,
    s2: Seq<int>,
    lo: int,
    hi1: int,
    hi2: int,
    k: int,
)
    requires
        tiles(m, s1, lo, hi1),
        tiles(m, s2, lo, hi2),
        0 <= k < s1.len(),
        0 <= k < s2.len(),
    ensures
        s1[k] == s2[k],
    decreases k,
{
    if k > 0 {
        lemma_tiles_agree(m, s1, s2, lo, hi1, hi2, k - 1);
        assert(is_block(m, s1[k - 1]));
        assert(is_block(m, s2[k - 1]));
    }
}

/// A range has at most one tiling.
pub proof fn lemma_tiles_unique(m: Seq<u32>, s1: Seq<int>, s2: Seq<int>, lo: int, hi: int)
    requires
        tiles(m, s1, lo, hi),
        tiles(m, s2, lo, hi),
    ensures
        s1 == s2,
{
    let n1 = s1.len() as int;
    let n2 = s2.len() as int;
    if n1 < n2 {
        lemma_tiles_agree(m, s1, s2, lo, hi, hi, n1 - 1);
        lemma_tiles_ascending(m, s2, lo, hi, n1 - 1, n2 - 1);
    }
    if n2 < n1 {
        lemma_tiles_agree(m, s1, s2, lo, hi, hi, n2 - 1);
        lemma_tiles_ascending(m, s1, lo, hi, n2 - 1, n1 - 1);
    }
    assert forall|k: int| 0 <= k < n1 implies s1[k] == s2[k] by {
        lemma_tiles_agree(m, s1, s2, lo, hi, hi, k);
    }
    assert(s1 =~= s2);
}

} // verus!
