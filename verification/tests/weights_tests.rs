use stembed::weights::{
    decode_words_u16, decode_words_u32, encode_words_u16_le, encode_words_u32_le, Endianness, WeightsDType,
};

#[test]
fn decode_words_u32_both_orders() {
    let buf = [1u8, 0, 0, 0, 0, 0, 0, 1, 0x78, 0x56, 0x34, 0x12];
    assert_eq!(decode_words_u32(&buf, &Endianness::Little), vec![1, 0x0100_0000, 0x1234_5678]);
    assert_eq!(decode_words_u32(&buf, &Endianness::Big), vec![0x0100_0000, 1, 0x7856_3412]);
    assert_eq!(decode_words_u32(&[], &Endianness::Little), Vec::<u32>::new());
}

#[test]
fn decode_words_u16_both_orders() {
    let buf = [0x34u8, 0x12, 0xff, 0x00];
    assert_eq!(decode_words_u16(&buf, &Endianness::Little), vec![0x1234, 0x00ff]);
    assert_eq!(decode_words_u16(&buf, &Endianness::Big), vec![0x3412, 0xff00]);
}

#[test]
fn words_are_float_bit_patterns() {
    let bytes = 1.5f32.to_le_bytes();
    let words = decode_words_u32(&bytes, &Endianness::Little);
    assert_eq!(f32::from_bits(words[0]), 1.5f32);
    let bytes = (-2.25f32).to_be_bytes();
    let words = decode_words_u32(&bytes, &Endianness::Big);
    assert_eq!(f32::from_bits(words[0]), -2.25f32);
}

#[test]
fn encode_words_roundtrip() {
    let words = vec![0u32, 1, 0xdead_beef, u32::MAX];
    let bytes = encode_words_u32_le(&words);
    assert_eq!(bytes.len(), 16);
    assert_eq!(&bytes[8..12], &[0xef, 0xbe, 0xad, 0xde]);
    assert_eq!(decode_words_u32(&bytes, &Endianness::Little), words);
    let half = vec![0u16, 0xabcd, u16::MAX];
    let bytes = encode_words_u16_le(&half);
    assert_eq!(bytes, vec![0, 0, 0xcd, 0xab, 0xff, 0xff]);
    assert_eq!(decode_words_u16(&bytes, &Endianness::Little), half);
}

#[test]
fn dtype_sizes_and_codes() {
    assert_eq!(WeightsDType::F32.bytes_per_weight(), 4);
    assert_eq!(WeightsDType::F16.bytes_per_weight(), 2);
    assert_eq!(WeightsDType::F32.code(), 0);
    assert_eq!(WeightsDType::F16.code(), 1);
}
