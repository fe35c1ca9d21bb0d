use motoko_rts::types::{skew, Bytes, SkewedPtr, Words};

#[test]
fn words_to_bytes_multiplies_by_word_size() {
    assert_eq!(Words(6u32).to_bytes().0, 24);
    assert_eq!(Words(0u32).to_bytes().0, 0);
}

#[test]
fn bytes_to_words_rounds_up() {
    assert_eq!(Bytes(0u32).to_words().0, 0);
    assert_eq!(Bytes(1u32).to_words().0, 1);
    assert_eq!(Bytes(4u32).to_words().0, 1);
    assert_eq!(Bytes(5u32).to_words().0, 2);
    assert_eq!(Bytes(24u32).to_words().0, 6);
}

#[test]
fn skew_subtracts_one_and_unskew_adds_it_back() {
    assert_eq!(skew(0x1000).0, 0x0FFF);
    assert_eq!(SkewedPtr(0x0FFF).unskew(), 0x1000);
    assert_eq!(skew(0).0, u32::MAX);
    assert_eq!(SkewedPtr(u32::MAX).unskew(), 0);
}
