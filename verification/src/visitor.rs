//! The heap walker: the size of an object and the places in it that may
//! hold pointers, both read off its tag.

use vstd::prelude::*;
use crate::memory::{word_at, word_in, Memory};
use crate::types::{
    size_of, Array, BigInt, Blob, Bytes, Closure, Concat, MutBox, ObjInd, Object, SkewedPtr,
    SomeBox, Tag, Variant, Words, TAG_ARRAY, TAG_ARRAY_SLICE_MIN, TAG_BIGINT,
    TAG_BITS32, TAG_BITS64, TAG_BLOB, TAG_CLOSURE, TAG_CONCAT, TAG_FREE_SPACE, TAG_MUTBOX,
    TAG_OBJECT, TAG_OBJ_IND, TAG_ONE_WORD_FILLER, TAG_SOME, TAG_VARIANT, WORD_SIZE,
};

verus! {

/// Whether a stored word is a skewed pointer and not an unboxed scalar.
pub open spec fn is_ptr(v: u32) -> bool {
    v % 2 == 1 && v != 1
}

/// The address that the stored word `v` stands for.
pub open spec fn unskewed(v: u32) -> int {
    if v == u32::MAX {
        0
    } else {
        v + 1
    }
}

/// Whether the stored word `v` is a pointer into the dynamic heap, which
/// starts at `heap_base`.
pub open spec fn points_to_dynamic_heap(v: u32, heap_base: int) -> bool {
    is_ptr(v) && unskewed(v) >= heap_base
}

/// Whether `tag` is the tag of an object that the mutator can refer to.
pub open spec fn is_object_tag(tag: Tag) -> bool {
    tag == TAG_OBJECT || tag == TAG_OBJ_IND || tag == TAG_ARRAY || tag == TAG_BITS64 || tag
        == TAG_MUTBOX || tag == TAG_CLOSURE || tag == TAG_SOME || tag == TAG_VARIANT || tag
        == TAG_BLOB || tag == TAG_BITS32 || tag == TAG_BIGINT || tag == TAG_CONCAT
}

/// Whether `tag` is the tag of anything that can stand in the heap: an
/// object, a one-word filler or a block of free space.
pub open spec fn is_block_tag(tag: Tag) -> bool {
    is_object_tag(tag) || tag == TAG_ONE_WORD_FILLER || tag == TAG_FREE_SPACE
}

/// Number of words in front of the variable part of a block with this tag.
pub open spec fn header_words(tag: Tag) -> int {
    if tag == TAG_OBJECT || tag == TAG_CLOSURE || tag == TAG_BITS64 || tag == TAG_VARIANT {
        4
    } else if tag == TAG_BIGINT {
        6
    } else if tag == TAG_CONCAT {
        5
    } else if tag == TAG_ONE_WORD_FILLER {
        1
    } else if tag == TAG_FREE_SPACE {
        2
    } else {
        3
    }
}

/// Size in words of the block whose tag word is at `addr`.
pub open spec fn block_words(m: Seq<u32>, addr: int) -> int {
    let tag = word_at(m, addr);
    if tag == TAG_OBJECT || tag == TAG_ARRAY {
        header_words(tag) + word_at(m, addr + 8)
    } else if tag == TAG_CLOSURE || tag == TAG_BIGINT {
        header_words(tag) + word_at(m, addr + 12)
    } else if tag == TAG_BLOB {
        header_words(tag) + (word_at(m, addr + 8) + 3) / 4
    } else if tag == TAG_FREE_SPACE {
        word_at(m, addr + 4) as int
    } else {
        header_words(tag)
    }
}

/// Whether a whole block with a known tag lies at `addr`: its header and
/// its body are inside the memory and end below 4 GiB.
pub open spec fn is_block(m: Seq<u32>, addr: int) -> bool {
    &&& word_in(m.len(), addr)
    &&& is_block_tag(word_at(m, addr))
    &&& addr / 4 + header_words(word_at(m, addr)) <= m.len()
    &&& header_words(word_at(m, addr)) <= block_words(m, addr)
    &&& addr / 4 + block_words(m, addr) <= m.len()
    &&& addr + 4 * block_words(m, addr) <= u32::MAX
}

/// Word offset of the first place in an object with this tag that may hold
/// a pointer.
pub open spec fn fields_start(tag: Tag) -> int {
    if tag == TAG_OBJECT || tag == TAG_CLOSURE {
        4
    } else if tag == TAG_ARRAY || tag == TAG_VARIANT || tag == TAG_CONCAT {
        3
    } else {
        2
    }
}

/// Word offset just behind the last place in the object at `addr` that may
/// hold a pointer.
pub open spec fn fields_end(m: Seq<u32>, addr: int) -> int {
    let tag = word_at(m, addr);
    if tag == TAG_OBJECT || tag == TAG_CLOSURE || tag == TAG_ARRAY {
        block_words(m, addr)
    } else if tag == TAG_CONCAT {
        5
    } else if tag == TAG_VARIANT {
        4
    } else if tag == TAG_OBJ_IND || tag == TAG_MUTBOX || tag == TAG_SOME {
        3
    } else {
        2
    }
}

/// Whether `loc` is the address of a place in the object at `addr` that may
/// hold a pointer.
pub open spec fn is_field_of(m: Seq<u32>, addr: int, loc: int) -> bool {
    &&& loc % 4 == 0
    &&& addr + 4 * fields_start(word_at(m, addr)) <= loc
    &&& loc < addr + 4 * fields_end(m, addr)
}

/// The places that may hold pointers lie behind the two header words and
/// inside the block.
pub proof fn lemma_fields_inside(m: Seq<u32>, addr: int)
    requires
        is_block(m, addr),
    ensures
        2 <= fields_start(word_at(m, addr)),
        fields_start(word_at(m, addr)) <= fields_end(m, addr) || fields_end(m, addr) == 2,
        fields_end(m, addr) <= block_words(m, addr) || fields_end(m, addr) == 2,
        1 <= block_words(m, addr),
{
}

impl Array {
    /// Address of the first element of the array at `array`.
    pub fn payload_addr(array: u32) -> (r: u32)
        requires
            array + 12 <= u32::MAX,
        ensures
            r == array + 12,
    {
        array + size_of::<Array>().to_bytes().0
    }

    /// Number of elements of the array at `array`.
    pub fn len(mem: &Memory, array: u32) -> (r: u32)
        requires
            word_in(mem@.len(), array + 8),
            array + 8 <= u32::MAX,
        ensures
            r == word_at(mem@, array + 8),
    {
        mem.load(array + 2 * WORD_SIZE)
    }

    /// The element with index `idx` of the array at `array`.
    pub fn get(mem: &Memory, array: u32, idx: u32) -> (r: SkewedPtr)
        requires
            word_in(mem@.len(), array + 12 + 4 * idx),
            array + 12 + 4 * idx <= u32::MAX,
        ensures
            r.0 == word_at(mem@, array + 12 + 4 * idx),
    {
        SkewedPtr(mem.load(Array::payload_addr(array) + idx * WORD_SIZE))
    }
}

impl Object {
    /// Address of the first field of the object at `object`.
    pub fn payload_addr(object: u32) -> (r: u32)
        requires
            object + 16 <= u32::MAX,
        ensures
            r == object + 16,
    {
        object + size_of::<Object>().to_bytes().0
    }
}

impl Closure {
    /// Address of the first captured value of the closure at `closure`.
    pub fn payload_addr(closure: u32) -> (r: u32)
        requires
            closure + 16 <= u32::MAX,
        ensures
            r == closure + 16,
    {
        closure + size_of::<Closure>().to_bytes().0
    }
}

/// Whether a stored word is a skewed pointer and not an unboxed scalar.
pub fn value_is_ptr(v: u32) -> (r: bool)
    ensures
        r == is_ptr(v),
{
    assert((v & 1 != 0) == (v % 2 == 1)) by (bit_vector);
    v & 1 != 0 && v != 1
}

/// Whether the word at `field_addr` is a pointer into the dynamic heap.
pub fn pointer_to_dynamic_heap(mem: &Memory, field_addr: u32, heap_base: u32) -> (r: bool)
    requires
        word_in(mem@.len(), field_addr as int),
    ensures
        r == points_to_dynamic_heap(word_at(mem@, field_addr as int), heap_base as int),
{
    let v: u32 = mem.load(field_addr);
    value_is_ptr(v) && v.wrapping_add(1) >= heap_base
}

/// Size of the block at `addr`.
pub fn object_size(mem: &Memory, addr: u32) -> (r: Words<u32>)
    requires
        is_block(mem@, addr as int),
    ensures
        r.0 == block_words(mem@, addr as int),
{
    let tag: Tag = mem.load(addr);
    if tag == TAG_OBJECT {
        Words(size_of::<Object>().0 + mem.load(addr + 2 * WORD_SIZE))
    } else if tag == TAG_ARRAY {
        Words(size_of::<Array>().0 + Array::len(mem, addr))
    } else if tag == TAG_CLOSURE {
        Words(size_of::<Closure>().0 + mem.load(addr + 3 * WORD_SIZE))
    } else if tag == TAG_BIGINT {
        Words(size_of::<BigInt>().0 + mem.load(addr + 3 * WORD_SIZE))
    } else if tag == TAG_BLOB {
        Words(size_of::<Blob>().0 + Bytes(mem.load(addr + 2 * WORD_SIZE)).to_words().0)
    } else if tag == TAG_FREE_SPACE {
        Words(mem.load(addr + WORD_SIZE))
    } else if tag == TAG_BITS64 {
        Words(4)
    } else if tag == TAG_VARIANT {
        size_of::<Variant>()
    } else if tag == TAG_CONCAT {
        size_of::<Concat>()
    } else if tag == TAG_ONE_WORD_FILLER {
        Words(1)
    } else if tag == TAG_OBJ_IND {
        size_of::<ObjInd>()
    } else if tag == TAG_MUTBOX {
        size_of::<MutBox>()
    } else if tag == TAG_SOME {
        size_of::<SomeBox>()
    } else {
        Words(3)
    }
}

/// The places in the object at `obj` that may hold pointers, as the
/// addresses of the first one and of the word behind the last one. `tag` is
/// the object's tag, or for an array the index from which its elements are
/// wanted; of an array at most `limit` elements are given.
pub fn pointer_fields(mem: &Memory, obj: u32, tag: Tag, limit: u32) -> (r: (u32, u32))
    requires
        is_block(mem@, obj as int),
        is_object_tag(word_at(mem@, obj as int)),
        tag == word_at(mem@, obj as int) || (tag >= TAG_ARRAY_SLICE_MIN && word_at(
            mem@,
            obj as int,
        ) == TAG_ARRAY && tag <= word_at(mem@, obj as int + 8)),
    ensures
        r.0 % 4 == 0,
        r.1 % 4 == 0,
        r.0 == obj + 4 * fields_start(word_at(mem@, obj as int)) + 4 * slice_start(tag),
        r.1 == slice_stop(mem@, obj as int, tag, limit as int),
        r.0 <= r.1 || r.1 == obj + 8,
        r.1 <= obj + 4 * block_words(mem@, obj as int),
{
    if tag == TAG_OBJECT {
        let end: u32 = obj + object_size(mem, obj).0 * WORD_SIZE;
        (Object::payload_addr(obj), end)
    } else if tag == TAG_CLOSURE {
        let end: u32 = obj + object_size(mem, obj).0 * WORD_SIZE;
        (Closure::payload_addr(obj), end)
    } else if tag == TAG_ARRAY || tag >= TAG_ARRAY_SLICE_MIN {
        let start: u32 = if tag >= TAG_ARRAY_SLICE_MIN { tag } else { 0 };
        let len: u32 = Array::len(mem, obj);
        let first: u32 = Array::payload_addr(obj) + start * WORD_SIZE;
        if len - start > limit {
            (first, first + limit * WORD_SIZE)
        } else {
            (first, Array::payload_addr(obj) + len * WORD_SIZE)
        }
    } else if tag == TAG_CONCAT {
        (obj + 3 * WORD_SIZE, obj + 5 * WORD_SIZE)
    } else if tag == TAG_VARIANT {
        (obj + 3 * WORD_SIZE, obj + 4 * WORD_SIZE)
    } else if tag == TAG_OBJ_IND || tag == TAG_MUTBOX || tag == TAG_SOME {
        (obj + 2 * WORD_SIZE, obj + 3 * WORD_SIZE)
    } else {
        (obj + 2 * WORD_SIZE, obj + 2 * WORD_SIZE)
    }
}

/// Index of the first array element that a mark-stack tag asks for.
pub open spec fn slice_start(tag: Tag) -> int {
    if tag >= TAG_ARRAY_SLICE_MIN {
        tag as int
    } else {
        0
    }
}

/// Address behind the last place that `pointer_fields` gives for the
/// object at `addr`.
pub open spec fn slice_stop(m: Seq<u32>, addr: int, tag: Tag, limit: int) -> int {
    if word_at(m, addr) == TAG_ARRAY && word_at(m, addr + 8) - slice_start(tag) > limit {
        addr + 12 + 4 * slice_start(tag) + 4 * limit
    } else {
        addr + 4 * fields_end(m, addr)
    }
}

} // verus!
