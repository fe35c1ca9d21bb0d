//! Units, skewed pointers, tags and object layouts of the managed heap.

use vstd::prelude::*;

verus! {

/// Bytes per heap word.
pub const WORD_SIZE: u32 = 4;

/// The unit "words": `Words(123u32)` means 123 words.
#[derive(PartialEq, Eq, Clone, Copy, PartialOrd, Ord)]
pub struct Words<A>(pub A);

/// The unit "bytes": `Bytes(123u32)` means 123 bytes.
#[derive(PartialEq, Eq, Clone, Copy, PartialOrd, Ord)]
pub struct Bytes<A>(pub A);

impl Words<u32> {
    /// The same amount in bytes.
    pub fn to_bytes(self) -> (r: Bytes<u32>)
        requires
            self.0 * WORD_SIZE <= u32::MAX,
        ensures
            r.0 == self.0 * WORD_SIZE,
    {
        Bytes(self.0 * WORD_SIZE)
    }
}

impl Bytes<u32> {
    /// The number of whole words that hold this many bytes (rounds up).
    pub fn to_words(self) -> (r: Words<u32>)
        ensures
            r.0 == (self.0 + WORD_SIZE - 1) / (WORD_SIZE as int),
            r.0 * WORD_SIZE >= self.0,
            r.0 * WORD_SIZE < self.0 + WORD_SIZE,
    {
        if self.0 % WORD_SIZE == 0 {
            Words(self.0 / WORD_SIZE)
        } else {
            Words(self.0 / WORD_SIZE + 1)
        }
    }
}

impl From<Bytes<u32>> for Words<u32> {
    /// The number of whole words that hold `bytes` bytes.
    fn from(bytes: Bytes<u32>) -> (r: Words<u32>) {
        bytes.to_words()
    }
}

impl vstd::std_specs::convert::FromSpecImpl<Bytes<u32>> for Words<u32> {
    open spec fn obeys_from_spec() -> bool {
        true
    }

    open spec fn from_spec(bytes: Bytes<u32>) -> Words<u32> {
        Words(((bytes.0 + WORD_SIZE - 1) / (WORD_SIZE as int)) as u32)
    }
}

/// A pointer in its stored form: the address minus one.
#[derive(Clone, Copy)]
pub struct SkewedPtr(pub u32);

impl SkewedPtr {
    /// The address that this stored word stands for.
    pub open spec fn spec_unskew(self) -> u32 {
        if self.0 == u32::MAX { 0u32 } else { (self.0 + 1) as u32 }
    }

    /// The address that this stored word stands for.
    #[verifier::when_used_as_spec(spec_unskew)]
    pub fn unskew(self) -> (r: u32)
        ensures
            r == self.spec_unskew(),
    {
        self.0.wrapping_add(1)
    }
}

/// The stored form of an address.
pub open spec fn spec_skew(ptr: u32) -> SkewedPtr {
    SkewedPtr(if ptr == 0 { u32::MAX } else { (ptr - 1) as u32 })
}

/// The stored form of an address.
#[verifier::when_used_as_spec(spec_skew)]
pub fn skew(ptr: u32) -> (r: SkewedPtr)
    ensures
        r == spec_skew(ptr),
{
    SkewedPtr(ptr.wrapping_sub(1))
}

/// Skewing and unskewing undo each other, on every word.
pub proof fn lemma_skew_unskew(w: u32)
    ensures
        spec_skew(w).spec_unskew() == w,
        spec_skew(SkewedPtr(w).spec_unskew()).0 == w,
{
}

/// The first word of every object.
pub type Tag = u32;

pub const TAG_OBJECT: Tag = 1;
pub const TAG_OBJ_IND: Tag = 3;
pub const TAG_ARRAY: Tag = 5;
pub const TAG_BITS64: Tag = 7;
pub const TAG_MUTBOX: Tag = 9;
pub const TAG_CLOSURE: Tag = 11;
pub const TAG_SOME: Tag = 13;
pub const TAG_VARIANT: Tag = 15;
pub const TAG_BLOB: Tag = 17;
pub const TAG_FWD_PTR: Tag = 19;
pub const TAG_BITS32: Tag = 21;
pub const TAG_BIGINT: Tag = 23;
pub const TAG_CONCAT: Tag = 25;
pub const TAG_NULL: Tag = 27;
pub const TAG_ONE_WORD_FILLER: Tag = 29;
pub const TAG_FREE_SPACE: Tag = 31;

/// Values from here on are no tags: on the mark stack they stand for the
/// index at which the marking of an array resumes.
pub const TAG_ARRAY_SLICE_MIN: Tag = 32;

/// The words shared by every object: its tag and its forwarding slot.
pub struct Obj {
    pub tag: Tag,
    pub forward: SkewedPtr,
}

/// Header of an array; `len` one-word elements follow.
pub struct Array {
    pub header: Obj,
    pub len: u32,
}

/// Header of an object with named fields; `size` one-word fields follow.
pub struct Object {
    pub header: Obj,
    pub size: u32,
    pub hash_ptr: u32,
}

/// An indirection: one field that refers to another object.
pub struct ObjInd {
    pub header: Obj,
    pub field: SkewedPtr,
}

/// Header of a closure; `size` captured one-word values follow.
pub struct Closure {
    pub header: Obj,
    pub funid: u32,
    pub size: u32,
}

/// Header of a blob; `len` bytes follow, padded to whole words.
pub struct Blob {
    pub header: Obj,
    pub len: Bytes<u32>,
}

/// A forwarding pointer left in place of an evacuated object.
pub struct FwdPtr {
    pub header: Obj,
    pub fwd: SkewedPtr,
}

/// Header of a big integer; `alloc` one-word digits follow.
pub struct BigInt {
    pub header: Obj,
    pub size: u32,
    pub alloc: u32,
    pub sign: u32,
    pub data_ptr: u32,
}

/// A mutable box: one field.
pub struct MutBox {
    pub header: Obj,
    pub field: SkewedPtr,
}

/// An option that holds a value.
pub struct SomeBox {
    pub header: Obj,
    pub field: SkewedPtr,
}

/// A variant: the tag of the alternative and its one field.
pub struct Variant {
    pub header: Obj,
    pub tag: u32,
    pub field: SkewedPtr,
}

/// The concatenation of two texts, of `n_bytes` bytes together.
pub struct Concat {
    pub header: Obj,
    pub n_bytes: u32,
    pub text1: SkewedPtr,
    pub text2: SkewedPtr,
}

/// A type that lays out the fixed words at the start of a kind of object
/// in the heap.
pub trait Layout {
    /// Number of bytes that the fixed words take in the heap.
    spec fn bytes() -> nat;

    /// Number of bytes that the fixed words take in the heap.
    fn size_bytes() -> (r: Bytes<u32>)
        ensures
            r.0 == Self::bytes(),
    ;
}

impl Layout for Obj {
    open spec fn bytes() -> nat {
        8
    }

    fn size_bytes() -> (r: Bytes<u32>) {
        Bytes(8)
    }
}

impl Layout for Array {
    open spec fn bytes() -> nat {
        12
    }

    fn size_bytes() -> (r: Bytes<u32>) {
        Bytes(12)
    }
}

impl Layout for Object {
    open spec fn bytes() -> nat {
        16
    }

    fn size_bytes() -> (r: Bytes<u32>) {
        Bytes(16)
    }
}

impl Layout for ObjInd {
    open spec fn bytes() -> nat {
        12
    }

    fn size_bytes() -> (r: Bytes<u32>) {
        Bytes(12)
    }
}

impl Layout for Closure {
    open spec fn bytes() -> nat {
        16
    }

    fn size_bytes() -> (r: Bytes<u32>) {
        Bytes(16)
    }
}

impl Layout for Blob {
    open spec fn bytes() -> nat {
        12
    }

    fn size_bytes() -> (r: Bytes<u32>) {
        Bytes(12)
    }
}

impl Layout for FwdPtr {
    open spec fn bytes() -> nat {
        12
    }

    fn size_bytes() -> (r: Bytes<u32>) {
        Bytes(12)
    }
}

impl Layout for BigInt {
    open spec fn bytes() -> nat {
        24
    }

    fn size_bytes() -> (r: Bytes<u32>) {
        Bytes(24)
    }
}

impl Layout for MutBox {
    open spec fn bytes() -> nat {
        12
    }

    fn size_bytes() -> (r: Bytes<u32>) {
        Bytes(12)
    }
}

impl Layout for SomeBox {
    open spec fn bytes() -> nat {
        12
    }

    fn size_bytes() -> (r: Bytes<u32>) {
        Bytes(12)
    }
}

impl Layout for Variant {
    open spec fn bytes() -> nat {
        16
    }

    fn size_bytes() -> (r: Bytes<u32>) {
        Bytes(16)
    }
}

impl Layout for Concat {
    open spec fn bytes() -> nat {
        20
    }

    fn size_bytes() -> (r: Bytes<u32>) {
        Bytes(20)
    }
}

/// The size of a `T` in whole words.
pub fn size_of<T: Layout>() -> (r: Words<u32>)
    ensures
        r.0 == (T::bytes() + WORD_SIZE - 1) / (WORD_SIZE as int),
{
    T::size_bytes().to_words()
}

} // verus!
