//! A check of the heap before a cycle: whether it is well formed, and
//! whether the recorded fields are valid and cover the pointers from the
//! old generation into the young one.

use vstd::prelude::*;
use crate::bitmap::Bitmap;
use crate::experimental::{strategy_of, Collector};
use crate::heap::{
    index_of, is_start, lemma_index_of, lemma_tiles_agree, lemma_tiles_ascending,
    lemma_tiles_bounds, lemma_tiles_unique, tiles, Heap, HeapModel,
};
use crate::memory::{word_at, word_in, Memory};
use crate::remembered_set::RememberedSet;
use crate::types::{
    Array, Bytes, SkewedPtr, Tag, TAG_ARRAY, TAG_BIGINT, TAG_BITS32, TAG_BITS64, TAG_BLOB,
    TAG_CLOSURE, TAG_CONCAT, TAG_FREE_SPACE, TAG_MUTBOX, TAG_OBJECT, TAG_OBJ_IND,
    TAG_ONE_WORD_FILLER, TAG_SOME, TAG_VARIANT, WORD_SIZE,
};
use crate::visitor::{
    block_words, fields_start, is_block, is_field_of, is_object_tag, is_ptr, lemma_fields_inside,
    object_size, pointer_fields, pointer_to_dynamic_heap, points_to_dynamic_heap, unskewed,
    value_is_ptr,
};

verus! {

/// Whether `tag` is the tag of an object that the mutator can refer to.
pub fn tag_is_object(tag: Tag) -> (r: bool)
    ensures
        r == is_object_tag(tag),
{
    tag == TAG_OBJECT || tag == TAG_OBJ_IND || tag == TAG_ARRAY || tag == TAG_BITS64 || tag
        == TAG_MUTBOX || tag == TAG_CLOSURE || tag == TAG_SOME || tag == TAG_VARIANT || tag
        == TAG_BLOB || tag == TAG_BITS32 || tag == TAG_BIGINT || tag == TAG_CONCAT
}

/// The size in words of the block at `addr`, if a whole block with a known
/// tag lies there and ends at or below `end`.
#[verifier::rlimit(40)]
pub fn checked_block_size(mem: &Memory, addr: u32, end: u32) -> (r: Option<u32>)
    requires
        addr % 4 == 0,
        addr < end,
        end <= 4 * mem@.len(),
    ensures
        match r {
            Some(n) => is_block(mem@, addr as int) && n == block_words(mem@, addr as int) && addr
                + 4 * n <= end,
            None => !(is_block(mem@, addr as int) && addr + 4 * block_words(mem@, addr as int)
                <= end),
        },
{
    let tag: Tag = mem.load(addr);
    if !(tag_is_object(tag) || tag == TAG_ONE_WORD_FILLER || tag == TAG_FREE_SPACE) {
        return None;
    }
    let header: u64 = if tag == TAG_OBJECT || tag == TAG_CLOSURE || tag == TAG_BITS64 || tag
        == TAG_VARIANT {
        4
    } else if tag == TAG_BIGINT {
        6
    } else if tag == TAG_CONCAT {
        5
    } else if tag == TAG_ONE_WORD_FILLER {
        1
    } else if tag == TAG_FREE_SPACE {
        2
    } else {
        3
    };
    if addr as u64 + 4 * header > end as u64 {
        return None;
    }
    let size: u64 = if tag == TAG_OBJECT || tag == TAG_ARRAY {
        header + mem.load(addr + 2 * WORD_SIZE) as u64
    } else if tag == TAG_CLOSURE || tag == TAG_BIGINT {
        header + mem.load(addr + 3 * WORD_SIZE) as u64
    } else if tag == TAG_BLOB {
        header + (mem.load(addr + 2 * WORD_SIZE) as u64 + 3) / 4
    } else if tag == TAG_FREE_SPACE {
        mem.load(addr + WORD_SIZE) as u64
    } else {
        header
    };
    if size < header || addr as u64 + 4 * size > end as u64 {
        return None;
    }
    Some(size as u32)
}

impl Heap {
    /// Whether the anchors of the heap are in order and inside the memory.
    pub open spec fn anchors_ok(&self) -> bool {
        &&& 128 <= self@.base <= self@.last_free <= self@.free
        &&& self@.base % 128 == 0
        &&& self@.free <= 4 * self@.m.len()
        &&& self@.free < 0xFFFF_FFF0
    }

    /// Checks the anchors of the heap.
    pub fn check_anchors(&self) -> (r: bool)
        ensures
            r == self.anchors_ok(),
    {
        let limits = self.limits;
        let words: usize = (limits.free / WORD_SIZE) as usize;
        let inside: bool = words < self.mem.len() || (words == self.mem.len() && limits.free
            % WORD_SIZE == 0);
        128 <= limits.base && limits.base <= limits.last_free && limits.last_free <= limits.free
            && limits.base % 128 == 0 && inside && limits.free < 0xFFFF_FFF0
    }

    /// Walks the dynamic heap block by block. Where blocks fill it without
    /// a gap, gives the bitmap of the words at which a block begins.
    #[verifier::rlimit(40)]
    fn check_blocks(&self) -> (r: Option<(Bitmap, Ghost<Seq<int>>)>)
        requires
            self.anchors_ok(),
        ensures
            match r {
                Some((bits, starts)) => {
                    &&& tiles(self@.m, starts@, self@.base, self@.free)
                    &&& bits.well_formed()
                    &&& bits.base() == self@.base / 4
                    &&& bits.len() == (self@.free - self@.base) / 4
                    &&& forall|idx: int| bits.is_set(idx) <==> is_start(starts@, 4 * idx)
                },
                None => forall|starts: Seq<int>| !tiles(self@.m, starts, self@.base, self@.free),
            },
    {
        let base: u32 = self.limits.base;
        let free: u32 = self.limits.free;
        let mut bits = Bitmap::alloc_bitmap(Bytes(free - base), base / WORD_SIZE);
        let ghost mut starts: Seq<int> = seq![base as int];
        let mut p: u32 = base;
        while p < free
            invariant
                self.anchors_ok(),
                base == self@.base,
                free == self@.free,
                base <= p <= free,
                p % 4 == 0,
                tiles(self@.m, starts, base as int, p as int),
                bits.well_formed(),
                bits.base() == base / 4,
                bits.len() == (free - base) / 4,
                forall|idx: int| bits.is_set(idx) <==> is_start(starts, 4 * idx),
            decreases free - p,
        {
            match checked_block_size(&self.mem, p, free) {
                None => {
                    proof {
                        assert forall|s: Seq<int>| !tiles(self@.m, s, base as int, free as int) by {
                            if tiles(self@.m, s, base as int, free as int) {
                                lemma_walk_is_prefix(
                                    self@.m,
                                    starts,
                                    s,
                                    base as int,
                                    p as int,
                                    free as int,
                                );
                                let k = starts.len() - 1;
                                assert(is_block(self@.m, s[k]));
                                lemma_tiles_bounds(self@.m, s, base as int, free as int, k);
                            }
                        }
                    }
                    return None;
                },
                Some(n) => {
                    let ghost before = bits;
                    let ghost old_starts = starts;
                    bits.set_bit(p / WORD_SIZE);
                    proof {
                        starts = starts.push(p + 4 * n);
                        lemma_walk_step(self@.m, old_starts, base as int, p as int);
                        assert forall|idx: int| bits.is_set(idx) <==> is_start(starts, 4 * idx) by {
                            lemma_walk_start(self@.m, old_starts, base as int, p as int, 4 * idx);
                        }
                    }
                    p = p + 4 * n;
                },
            }
        }
        Some((bits, Ghost(starts)))
    }
}

impl Heap {
    /// Whether `bits` has the bit of a word set where `starts` has a block
    /// at the word, and `starts` lists the blocks of the heap.
    pub open spec fn blocks_known(&self, bits: &Bitmap, starts: Seq<int>) -> bool {
        &&& self.anchors_ok()
        &&& tiles(self@.m, starts, self@.base, self@.free)
        &&& bits.well_formed()
        &&& bits.base() == self@.base / 4
        &&& bits.len() == (self@.free - self@.base) / 4
        &&& forall|idx: int| bits.is_set(idx) <==> is_start(starts, 4 * idx)
    }

    /// Whether the address `t` is that of a block.
    fn is_block_start(&self, bits: &Bitmap, t: u32, Ghost(starts): Ghost<Seq<int>>) -> (r: bool)
        requires
            self.blocks_known(bits, starts),
        ensures
            r == is_start(starts, t as int),
            r ==> word_in(self@.m.len(), t as int) && self@.base <= t < self@.free,
    {
        proof {
            if is_start(starts, t as int) {
                let k = index_of(starts, t as int);
                lemma_tiles_bounds(self@.m, starts, self@.base, self@.free, k);
                assert(is_block(self@.m, starts[k]));
            }
            let n = starts.len() - 1;
            if n > 0 {
                lemma_tiles_bounds(self@.m, starts, self@.base, self@.free, n - 1);
                assert(is_block(self@.m, starts[n - 1]));
            }
            assert(self@.free % 4 == 0);
        }
        if t % WORD_SIZE != 0 || t < self.limits.base || t >= self.limits.free {
            return false;
        }
        assert(4 * (t as int / 4) == t);
        bits.get_bit(t / WORD_SIZE)
    }

    /// Whether the stored word `v` refers to an object of the heap.
    fn target_is_object(&self, bits: &Bitmap, v: u32, Ghost(starts): Ghost<Seq<int>>) -> (r: bool)
        requires
            self.blocks_known(bits, starts),
        ensures
            r == self@.valid_target(starts, v),
    {
        let t: u32 = SkewedPtr(v).unskew();
        self.is_block_start(bits, t, Ghost(starts)) && tag_is_object(self.mem.load(t))
    }

    /// Whether every pointer into the dynamic heap that the object at
    /// `obj` holds refers to an object.
    fn check_fields_of(&self, bits: &Bitmap, obj: u32, Ghost(starts): Ghost<Seq<int>>) -> (r: bool)
        requires
            self.blocks_known(bits, starts),
            is_block(self@.m, obj as int),
            is_object_tag(word_at(self@.m, obj as int)),
        ensures
            r == self@.fields_valid(starts, obj as int),
    {
        let tag: Tag = self.mem.load(obj);
        let (first, stop) = pointer_fields(&self.mem, obj, tag, 0xFFFF_FFFF);
        let mut f: u32 = first;
        proof {
            lemma_fields_inside(self@.m, obj as int);
        }
        while f < stop
            invariant
                self.blocks_known(bits, starts),
                is_block(self@.m, obj as int),
                first == obj + 4 * fields_start(word_at(self@.m, obj as int)),
                stop <= obj + 4 * block_words(self@.m, obj as int),
                forall|loc: int| is_field_of(self@.m, obj as int, loc) ==> first <= loc < stop,
                forall|loc: int|
                    first <= loc < stop && loc % 4 == 0 ==> is_field_of(self@.m, obj as int, loc),
                first <= f,
                f % 4 == 0,
                stop % 4 == 0,
                forall|loc: int|
                    #![trigger word_at(self@.m, loc)]
                    is_field_of(self@.m, obj as int, loc) && loc < f && points_to_dynamic_heap(
                        word_at(self@.m, loc),
                        self@.base,
                    ) ==> self@.valid_target(starts, word_at(self@.m, loc)),
            decreases stop - f,
        {
            if pointer_to_dynamic_heap(&self.mem, f, self.limits.base) {
                let v: u32 = self.mem.load(f);
                if !self.target_is_object(bits, v, Ghost(starts)) {
                    assert(is_field_of(self@.m, obj as int, f as int));
                    return false;
                }
            }
            f += 4;
        }
        true
    }

    /// Whether every pointer into the dynamic heap that an object holds
    /// refers to an object.
    fn check_objects(&self, bits: &Bitmap, Ghost(starts): Ghost<Seq<int>>) -> (r: bool)
        requires
            self.blocks_known(bits, starts),
        ensures
            r == forall|k: int|
                0 <= k < starts.len() - 1 && is_object_tag(word_at(self@.m, starts[k]))
                    ==> #[trigger] self@.fields_valid(starts, starts[k]),
    {
        let free: u32 = self.limits.free;
        let mut p: u32 = self.limits.base;
        let ghost mut k: int = 0;
        while p < free
            invariant
                self.blocks_known(bits, starts),
                free == self@.free,
                0 <= k < starts.len(),
                starts[k] == p,
                forall|j: int|
                    0 <= j < k && is_object_tag(word_at(self@.m, starts[j]))
                        ==> #[trigger] self@.fields_valid(starts, starts[j]),
            decreases free - p,
        {
            proof {
                if k == starts.len() - 1 {
                    assert(starts[k] == free);
                }
                assert(is_block(self@.m, starts[k]));
                lemma_tiles_bounds(self@.m, starts, self@.base, self@.free, k);
            }
            let tag: Tag = self.mem.load(p);
            if tag_is_object(tag) {
                if !self.check_fields_of(bits, p, Ghost(starts)) {
                    return false;
                }
            }
            let size: u32 = object_size(&self.mem, p).0;
            p = p + 4 * size;
            proof {
                k = k + 1;
            }
        }
        proof {
            lemma_tiles_end(self@.m, starts, self@.base, self@.free, k);
        }
        true
    }

    /// Whether the static region holds the roots as a well-formed heap has
    /// them.
    #[verifier::rlimit(40)]
    fn check_roots(&self, bits: &Bitmap, Ghost(starts): Ghost<Seq<int>>) -> (r: bool)
        requires
            self.blocks_known(bits, starts),
        ensures
            r == self@.roots_valid(starts),
    {
        let base: u32 = self.limits.base;
        let root_array: u32 = self.roots.static_roots.unskew();
        if root_array % WORD_SIZE != 0 || root_array >= base {
            return false;
        }
        let size: u32 = match checked_block_size(&self.mem, root_array, base) {
            None => {
                return false;
            },
            Some(n) => n,
        };
        if self.mem.load(root_array) != TAG_ARRAY {
            return false;
        }
        let table: u32 = self.roots.continuation_table_ptr_loc;
        let array_end: u32 = root_array + 4 * size;
        if table % WORD_SIZE != 0 || table >= base || (root_array <= table && table < array_end) {
            return false;
        }
        let in_table: u32 = self.mem.load(table);
        if value_is_ptr(in_table) {
            if SkewedPtr(in_table).unskew() < base || !self.target_is_object(
                bits,
                in_table,
                Ghost(starts),
            ) {
                return false;
            }
        }
        let len: u32 = Array::len(&self.mem, root_array);
        let mut i: u32 = 0;
        while i < len
            invariant
                self.blocks_known(bits, starts),
                base == self@.base,
                root_array == self@.root_array,
                table == self@.cont_loc,
                is_block(self@.m, root_array as int),
                word_at(self@.m, root_array as int) == TAG_ARRAY,
                size == block_words(self@.m, root_array as int),
                array_end == root_array + 4 * size,
                array_end <= base,
                len == self@.root_count(),
                i <= len,
                forall|j: int|
                    0 <= j < i ==> {
                        &&& word_in(self@.m.len(), #[trigger] self@.root_box(j))
                        &&& word_at(self@.m, self@.root_box(j)) == TAG_MUTBOX
                        &&& self@.root_box(j) + 12 <= self@.base
                        &&& self@.outside_root_array(self@.root_field(j))
                        &&& self@.root_field(j) != self@.cont_loc
                        &&& (points_to_dynamic_heap(
                            word_at(self@.m, self@.root_field(j)),
                            self@.base,
                        ) ==> self@.valid_target(starts, word_at(self@.m, self@.root_field(j))))
                    },
            decreases len - i,
        {
            let root_box: u32 = Array::get(&self.mem, root_array, i).unskew();
            assert(root_box == self@.root_box(i as int));
            if root_box % WORD_SIZE != 0 || root_box >= base || base - root_box < 12 {
                return false;
            }
            if self.mem.load(root_box) != TAG_MUTBOX {
                return false;
            }
            let field: u32 = root_box + 2 * WORD_SIZE;
            if (root_array <= field && field < array_end) || field == table {
                return false;
            }
            if pointer_to_dynamic_heap(&self.mem, field, base) {
                if !self.target_is_object(bits, self.mem.load(field), Ghost(starts)) {
                    return false;
                }
            }
            i += 1;
        }
        true
    }

    /// Whether every recorded field is a word of the memory and refers to
    /// an object where it holds a pointer into the young generation.
    fn check_remembered_valid(
        &self,
        remembered_set: &RememberedSet,
        bits: &Bitmap,
        Ghost(starts): Ghost<Seq<int>>,
    ) -> (r: bool)
        requires
            self.blocks_known(bits, starts),
        ensures
            r == self@.remembered_valid(starts, remembered_set@),
    {
        let count: usize = remembered_set.count();
        let mut j: usize = 0;
        while j < count
            invariant
                self.blocks_known(bits, starts),
                count == remembered_set@.len(),
                j <= count,
                forall|x: int|
                    0 <= x < j ==> {
                        let v = word_at(self@.m, #[trigger] remembered_set@[x] as int);
                        &&& word_in(self@.m.len(), remembered_set@[x] as int)
                        &&& (is_ptr(v) && unskewed(v) >= self@.last_free ==> self@.valid_target(
                            starts,
                            v,
                        ))
                    },
            decreases count - j,
        {
            let location: u32 = remembered_set.get(j);
            if !self.mem.contains(location) {
                return false;
            }
            let v: u32 = self.mem.load(location);
            if value_is_ptr(v) && SkewedPtr(v).unskew() >= self.limits.last_free {
                if !self.target_is_object(bits, v, Ghost(starts)) {
                    return false;
                }
            }
            j += 1;
        }
        true
    }

    /// Whether every field of the object at `obj`, which lies in the old
    /// generation, that holds a pointer into the young generation is
    /// recorded.
    #[verifier::rlimit(40)]
    fn check_covered(&self, remembered_set: &RememberedSet, obj: u32) -> (r: bool)
        requires
            self.anchors_ok(),
            is_block(self@.m, obj as int),
            is_object_tag(word_at(self@.m, obj as int)),
        ensures
            r == forall|l: int|
                #![trigger is_field_of(self@.m, obj as int, l)]
                is_field_of(self@.m, obj as int, l) && points_to_dynamic_heap(
                    word_at(self@.m, l),
                    self@.base,
                ) && unskewed(word_at(self@.m, l)) >= self@.last_free ==> exists|j: int|
                    0 <= j < remembered_set@.len() && #[trigger] remembered_set@[j] == l,
    {
        let tag: Tag = self.mem.load(obj);
        let (first, stop) = pointer_fields(&self.mem, obj, tag, 0xFFFF_FFFF);
        let mut f: u32 = first;
        proof {
            lemma_fields_inside(self@.m, obj as int);
        }
        while f < stop
            invariant
                self.anchors_ok(),
                is_block(self@.m, obj as int),
                first == obj + 4 * fields_start(word_at(self@.m, obj as int)),
                stop <= obj + 4 * block_words(self@.m, obj as int),
                forall|loc: int| is_field_of(self@.m, obj as int, loc) ==> first <= loc < stop,
                forall|loc: int|
                    first <= loc < stop && loc % 4 == 0 ==> is_field_of(self@.m, obj as int, loc),
                first <= f,
                f % 4 == 0,
                stop % 4 == 0,
                forall|l: int|
                    #![trigger is_field_of(self@.m, obj as int, l)]
                    is_field_of(self@.m, obj as int, l) && l < f && points_to_dynamic_heap(
                        word_at(self@.m, l),
                        self@.base,
                    ) && unskewed(word_at(self@.m, l)) >= self@.last_free ==> exists|j: int|
                        0 <= j < remembered_set@.len() && #[trigger] remembered_set@[j] == l,
            decreases stop - f,
        {
            if pointer_to_dynamic_heap(&self.mem, f, self.limits.base) {
                let v: u32 = self.mem.load(f);
                if SkewedPtr(v).unskew() >= self.limits.last_free {
                    if !remembered_set.contains(f) {
                        assert(is_field_of(self@.m, obj as int, f as int));
                        assert(!(exists|j: int|
                            0 <= j < remembered_set@.len() && #[trigger] remembered_set@[j] == f));
                        return false;
                    }
                    proof {
                        let j = choose|j: int|
                            0 <= j < remembered_set@.len() && remembered_set@[j] == f;
                        assert(remembered_set@[j] == f as int);
                    }
                }
            }
            f += 4;
        }
        true
    }

    /// Whether the recorded fields cover the pointers from the old
    /// generation into the young one.
    #[verifier::rlimit(40)]
    fn check_remembered_covers(
        &self,
        remembered_set: &RememberedSet,
        bits: &Bitmap,
        Ghost(starts): Ghost<Seq<int>>,
    ) -> (r: bool)
        requires
            self.blocks_known(bits, starts),
        ensures
            r == self@.remembered_covers(starts, remembered_set@),
    {
        let last_free: u32 = self.limits.last_free;
        let mut p: u32 = self.limits.base;
        let ghost mut k: int = 0;
        proof {
            assert forall|a: int| is_start(starts, a) implies a >= self@.base by {
                lemma_tiles_bounds(self@.m, starts, self@.base, self@.free, index_of(starts, a));
            }
        }
        while p < last_free
            invariant
                self.blocks_known(bits, starts),
                last_free == self@.last_free,
                0 <= k < starts.len(),
                starts[k] == p,
                forall|a: int, l: int|
                    #![trigger is_field_of(self@.m, a, l)]
                    is_start(starts, a) && a < p && is_object_tag(word_at(self@.m, a))
                        && is_field_of(self@.m, a, l) && points_to_dynamic_heap(
                        word_at(self@.m, l),
                        self@.base,
                    ) && unskewed(word_at(self@.m, l)) >= self@.last_free ==> exists|j: int|
                        0 <= j < remembered_set@.len() && #[trigger] remembered_set@[j] == l,
            decreases self@.free - p,
        {
            proof {
                if k == starts.len() - 1 {
                    assert(starts[k] == self@.free);
                }
                assert(is_block(self@.m, starts[k]));
                lemma_tiles_bounds(self@.m, starts, self@.base, self@.free, k);
                lemma_index_of(self@.m, starts, self@.base, self@.free, k);
            }
            let tag: Tag = self.mem.load(p);
            if tag_is_object(tag) {
                if !self.check_covered(remembered_set, p) {
                    return false;
                }
            }
            let size: u32 = object_size(&self.mem, p).0;
            proof {
                assert forall|a: int, l: int|
                    #![trigger is_field_of(self@.m, a, l)]
                    is_start(starts, a) && a < p + 4 * size && is_object_tag(word_at(self@.m, a))
                        && is_field_of(self@.m, a, l) && points_to_dynamic_heap(
                        word_at(self@.m, l),
                        self@.base,
                    ) && unskewed(word_at(self@.m, l)) >= self@.last_free implies exists|j: int|
                    0 <= j < remembered_set@.len() && #[trigger] remembered_set@[j] == l by {
                    let i = index_of(starts, a);
                    if i > k {
                        lemma_tiles_ascending(self@.m, starts, self@.base, self@.free, k, i);
                    }
                    if i < k {
                        lemma_tiles_ascending(self@.m, starts, self@.base, self@.free, i, k);
                    }
                }
                k = k + 1;
            }
            p = p + 4 * size;
        }
        proof {
            assert forall|a: int, l: int|
                #![trigger is_field_of(self@.m, a, l)]
                is_start(starts, a) && a < self@.last_free && is_object_tag(word_at(self@.m, a))
                    && is_field_of(self@.m, a, l) && points_to_dynamic_heap(
                    word_at(self@.m, l),
                    self@.base,
                ) && unskewed(word_at(self@.m, l)) >= self@.last_free implies exists|j: int|
                0 <= j < remembered_set@.len() && #[trigger] remembered_set@[j] == l by {}
        }
        true
    }
}

impl HeapModel {
    /// A well-formed heap has one list of blocks: every tiling of the
    /// dynamic heap is it.
    pub proof fn lemma_only_blocks(self, starts: Seq<int>)
        requires
            self.well_formed(),
            tiles(self.m, starts, self.base, self.free),
        ensures
            self.blocks() == starts,
            self.well_formed_with(starts),
    {
        lemma_tiles_unique(self.m, self.blocks(), starts, self.base, self.free);
    }
}

impl Collector {
    /// Whether a cycle can run on the collector's heap: checks all that
    /// `ready` asks for.
    #[verifier::rlimit(40)]
    pub fn is_ready(&self) -> (r: bool)
        ensures
            r == self.ready(),
    {
        let heap = &self.gc.heap;
        if !heap.check_anchors() {
            return false;
        }
        match heap.check_blocks() {
            None => false,
            Some((bits, starts)) => {
                proof {
                    if heap@.well_formed() {
                        heap@.lemma_only_blocks(starts@);
                    }
                }
                let limits = heap.limits;
                if limits.last_free != limits.free && !heap.is_block_start(
                    &bits,
                    limits.last_free,
                    starts,
                ) {
                    return false;
                }
                if !heap.check_objects(&bits, starts) {
                    return false;
                }
                if !heap.check_roots(&bits, starts) {
                    return false;
                }
                proof {
                    assert(heap@.well_formed_with(starts@));
                    heap@.lemma_only_blocks(starts@);
                }
                if !heap.check_remembered_valid(&self.gc.remembered_set, &bits, starts) {
                    return false;
                }
                if !heap.check_remembered_covers(&self.gc.remembered_set, &bits, starts) {
                    return false;
                }
                self.reclaimed.0 <= u64::MAX - limits.free as u64 && self.run < u32::MAX
            },
        }
    }

    /// Runs one cycle if the heap is fit for one, and says whether it did.
    /// A heap that is not fit is left as it is.
    pub fn checked_experimental_gc(&mut self) -> (r: bool)
        ensures
            r == old(self).ready(),
            !r ==> *final(self) == *old(self),
            r ==> final(self).run == old(self).run + 1 && Self::collected(
                *old(self),
                strategy_of(final(self).run as int, old(self).gc.heap@.free),
                *final(self),
            ) && final(self).heap_ready(),
    {
        if self.is_ready() {
            self.experimental_gc();
            true
        } else {
            false
        }
    }
}

/// A tiling ends where its range ends: the position that holds the end is
/// the last one.
pub proof fn lemma_tiles_end(m: Seq<u32>, starts: Seq<int>, lo: int, hi: int, k: int)
    requires
        tiles(m, starts, lo, hi),
        0 <= k < starts.len(),
        starts[k] >= hi,
    ensures
        k == starts.len() - 1,
{
    if k < starts.len() - 1 {
        lemma_tiles_ascending(m, starts, lo, hi, k, starts.len() - 1);
    }
}

/// A walk over blocks from `lo`, which has come to `p`, agrees with every
/// tiling of a range that reaches beyond `p`: the tiling has a block at
/// `p`.
pub proof fn lemma_walk_is_prefix(
    m: Seq<u32>,
    walk: Seq<int>,
    s: Seq<int>,
    lo: int,
    p: int,
    hi: int,
)
    requires
        tiles(m, walk, lo, p),
        tiles(m, s, lo, hi),
        p < hi,
    ensures
        walk.len() - 1 < s.len() - 1,
        s[walk.len() - 1] == p,
{
    let k = walk.len() - 1;
    if s.len() - 1 < k {
        let j = s.len() - 1;
        lemma_tiles_agree(m, walk, s, lo, p, hi, j);
        lemma_tiles_ascending(m, walk, lo, p, j, k);
    } else {
        lemma_tiles_agree(m, walk, s, lo, p, hi, k);
    }
}

/// A walk over blocks goes on by one block.
pub proof fn lemma_walk_step(m: Seq<u32>, walk: Seq<int>, lo: int, p: int)
    requires
        tiles(m, walk, lo, p),
        is_block(m, p),
    ensures
        tiles(m, walk.push(p + 4 * block_words(m, p)), lo, p + 4 * block_words(m, p)),
{
    let w2 = walk.push(p + 4 * block_words(m, p));
    assert forall|k: int| 0 <= k < w2.len() - 1 implies #[trigger] is_block(m, w2[k]) && w2[k + 1]
        == w2[k] + 4 * block_words(m, w2[k]) by {
        if k < walk.len() - 1 {
            assert(is_block(m, walk[k]));
            assert(w2[k] == walk[k]);
            assert(w2[k + 1] == walk[k + 1]);
        } else {
            assert(w2[k] == p);
        }
    }
}

/// The blocks of a walk that has gone on by one block are those it had
/// and the one at `p`.
pub proof fn lemma_walk_start(m: Seq<u32>, walk: Seq<int>, lo: int, p: int, t: int)
    requires
        tiles(m, walk, lo, p),
        is_block(m, p),
    ensures
        is_start(walk.push(p + 4 * block_words(m, p)), t) <==> (is_start(walk, t) || t == p),
{
    let w2 = walk.push(p + 4 * block_words(m, p));
    let n = walk.len() - 1;
    if is_start(walk, t) {
        let k = index_of(walk, t);
        assert(w2[k] == t);
    }
    if t == p {
        assert(w2[n] == p);
    }
    if is_start(w2, t) {
        let k = index_of(w2, t);
        if k < n {
            assert(walk[k] == t);
        }
    }
}

} // verus!
