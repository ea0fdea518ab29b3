use stable_storage::{decode_header, encode_header, memory_bytes, pages_to_grow, u64_from_be, u64_to_be, PAGE_SIZE};

#[test]
fn header_layout_is_big_endian() {
    let h = encode_header(0x0102030405060708, 16);
    assert_eq!(h, vec![1, 2, 3, 4, 5, 6, 7, 8, 0, 0, 0, 0, 0, 0, 0, 16]);
    assert_eq!(h, [0x0102030405060708u64.to_be_bytes(), 16u64.to_be_bytes()].concat());
}

#[test]
fn header_round_trip() {
    for &(o, l) in [(16u64, 0u64), (16, 1234), (u64::MAX, 7), (1 << 40, u64::MAX)].iter() {
        assert_eq!(decode_header(&encode_header(o, l)), (o, l));
    }
}

#[test]
fn decode_reads_the_first_sixteen_bytes() {
    let mut h = encode_header(40, 24);
    h.extend_from_slice(&[9, 9, 9]);
    assert_eq!(decode_header(&h), (40, 24));
}

#[test]
fn be_integer_codec() {
    assert_eq!(u64_to_be(258), vec![0, 0, 0, 0, 0, 0, 1, 2]);
    let b = vec![7, 0, 0, 0, 0, 0, 0, 1, 0];
    assert_eq!(u64_from_be(&b, 0), 0x0700000000000001);
    assert_eq!(u64_from_be(&b, 1), 256);
}

#[test]
fn page_conversion_truncates() {
    assert_eq!(PAGE_SIZE, 65536);
    assert_eq!(pages_to_grow(65536 * 3), 3);
    assert_eq!(pages_to_grow(65535), 0);
    assert_eq!(pages_to_grow(65536 * 2 + 1), 2);
    assert_eq!(memory_bytes(0), 0);
    assert_eq!(memory_bytes(5), 5 * 65536);
}
