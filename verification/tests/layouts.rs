use motoko_rts::memory::Memory;
use motoko_rts::types::{
    size_of, Array, BigInt, Blob, Bytes, Closure, Concat, FwdPtr, Layout, MutBox, Obj, ObjInd,
    Object, SomeBox, Variant, Words, TAG_ARRAY, TAG_BIGINT, TAG_BLOB, TAG_CLOSURE, TAG_CONCAT,
    TAG_MUTBOX, TAG_OBJECT, TAG_OBJ_IND, TAG_SOME, TAG_VARIANT,
};
use motoko_rts::visitor::object_size;

#[test]
fn headers_have_the_sizes_that_the_walker_counts() {
    assert_eq!(size_of::<Obj>().0, 2);
    let cases: Vec<(u32, u32)> = vec![
        (TAG_OBJECT, size_of::<Object>().0),
        (TAG_OBJ_IND, size_of::<ObjInd>().0),
        (TAG_ARRAY, size_of::<Array>().0),
        (TAG_MUTBOX, size_of::<MutBox>().0),
        (TAG_CLOSURE, size_of::<Closure>().0),
        (TAG_SOME, size_of::<SomeBox>().0),
        (TAG_VARIANT, size_of::<Variant>().0),
        (TAG_BLOB, size_of::<Blob>().0),
        (TAG_BIGINT, size_of::<BigInt>().0),
        (TAG_CONCAT, size_of::<Concat>().0),
    ];
    for (tag, header) in cases {
        // An object with nothing behind its header.
        let mem = Memory::from_words(vec![tag, 0, 0, 0, 0, 0]);
        assert_eq!(object_size(&mem, 0).0, header, "tag {}", tag);
    }
    assert_eq!(size_of::<FwdPtr>().0, 3);
}

fn host_words<T>() -> u32 {
    ((std::mem::size_of::<T>() + 3) / 4) as u32
}

#[test]
fn stated_sizes_are_those_of_the_types() {
    assert_eq!(size_of::<Obj>().0, host_words::<Obj>());
    assert_eq!(size_of::<Array>().0, host_words::<Array>());
    assert_eq!(size_of::<Object>().0, host_words::<Object>());
    assert_eq!(size_of::<ObjInd>().0, host_words::<ObjInd>());
    assert_eq!(size_of::<Closure>().0, host_words::<Closure>());
    assert_eq!(size_of::<Blob>().0, host_words::<Blob>());
    assert_eq!(size_of::<FwdPtr>().0, host_words::<FwdPtr>());
    assert_eq!(size_of::<BigInt>().0, host_words::<BigInt>());
    assert_eq!(size_of::<MutBox>().0, host_words::<MutBox>());
    assert_eq!(size_of::<SomeBox>().0, host_words::<SomeBox>());
    assert_eq!(size_of::<Variant>().0, host_words::<Variant>());
    assert_eq!(size_of::<Concat>().0, host_words::<Concat>());
    assert_eq!(MutBox::size_bytes().0, 12);
    assert_eq!(Concat::size_bytes().0, 20);
}

#[test]
fn bytes_convert_into_whole_words() {
    assert_eq!(Words::from(Bytes(0u32)).0, 0);
    assert_eq!(Words::from(Bytes(5u32)).0, 2);
    assert_eq!(Words::from(Bytes(8u32)).0, 2);
    assert_eq!(Words::from(Bytes(u32::MAX)).0, 0x4000_0000);
    assert_eq!(Bytes(u32::MAX).to_words().0, 0x4000_0000);
    assert_eq!(Bytes(u32::MAX - 3).to_words().0, 0x3FFF_FFFF);
}
