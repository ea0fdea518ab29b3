use vstd::prelude::*;

verus! {

/// A value that can be turned into bytes and read back from them.
pub trait Storable: Sized {
    fn to_bytes(&self) -> Vec<u8>;

    fn from_bytes(bytes: Vec<u8>) -> Self;
}

/// The low byte of `v >> shift`.
pub open spec fn byte_of(v: u64, shift: u64) -> u8 {
    ((v >> shift) & 0xff) as u8
}

proof fn lemma_low_byte(x: u64)
    ensures
        x & 0xff < 256,
{
    assert(x & 0xff < 256) by (bit_vector);
}

/// The eight bytes of `v`, most significant first.
pub open spec fn be_bytes(v: u64) -> Seq<u8> {
    seq![
        byte_of(v, 56),
        byte_of(v, 48),
        byte_of(v, 40),
        byte_of(v, 32),
        byte_of(v, 24),
        byte_of(v, 16),
        byte_of(v, 8),
        byte_of(v, 0),
    ]
}

/// The integer whose big-endian bytes are `b[at..at + 8]`.
pub open spec fn be_value(b: Seq<u8>, at: int) -> u64 {
    (b[at] as u64) << 56u64 | (b[at + 1] as u64) << 48u64 | (b[at + 2] as u64) << 40u64 | (b[at
        + 3] as u64) << 32u64 | (b[at + 4] as u64) << 24u64 | (b[at + 5] as u64) << 16u64 | (b[at
        + 6] as u64) << 8u64 | (b[at + 7] as u64)
}

/// Reading back the bytes of `v` gives `v`.
pub proof fn lemma_be_round_trip(v: u64)
    ensures
        be_value(be_bytes(v), 0) == v,
{
    let b = be_bytes(v);
    lemma_low_byte(v >> 56u64);
    lemma_low_byte(v >> 48u64);
    lemma_low_byte(v >> 40u64);
    lemma_low_byte(v >> 32u64);
    lemma_low_byte(v >> 24u64);
    lemma_low_byte(v >> 16u64);
    lemma_low_byte(v >> 8u64);
    lemma_low_byte(v >> 0u64);
    assert(b[0] as u64 == (v >> 56u64) & 0xff);
    assert(b[1] as u64 == (v >> 48u64) & 0xff);
    assert(b[2] as u64 == (v >> 40u64) & 0xff);
    assert(b[3] as u64 == (v >> 32u64) & 0xff);
    assert(b[4] as u64 == (v >> 24u64) & 0xff);
    assert(b[5] as u64 == (v >> 16u64) & 0xff);
    assert(b[6] as u64 == (v >> 8u64) & 0xff);
    assert(b[7] as u64 == (v >> 0u64) & 0xff);
    assert(((v >> 56u64) & 0xff) << 56u64 | ((v >> 48u64) & 0xff) << 48u64 | ((v >> 40u64) & 0xff)
        << 40u64 | ((v >> 32u64) & 0xff) << 32u64 | ((v >> 24u64) & 0xff) << 24u64 | ((v >> 16u64)
        & 0xff) << 16u64 | ((v >> 8u64) & 0xff) << 8u64 | ((v >> 0u64) & 0xff) == v) by (bit_vector);
}

/// The big-endian bytes of `v`.
pub fn u64_to_be(v: u64) -> (r: Vec<u8>)
    ensures
        r@ == be_bytes(v),
{
    let r = vec![
        ((v >> 56u64) & 0xff) as u8,
        ((v >> 48u64) & 0xff) as u8,
        ((v >> 40u64) & 0xff) as u8,
        ((v >> 32u64) & 0xff) as u8,
        ((v >> 24u64) & 0xff) as u8,
        ((v >> 16u64) & 0xff) as u8,
        ((v >> 8u64) & 0xff) as u8,
        (v & 0xff) as u8,
    ];
    assert(v >> 0u64 == v) by (bit_vector);
    assert(r@ =~= be_bytes(v));
    r
}

/// The integer whose big-endian bytes are `b[at..at + 8]`.
pub fn u64_from_be(b: &Vec<u8>, at: usize) -> (r: u64)
    requires
        at + 8 <= b@.len(),
    ensures
        r == be_value(b@, at as int),
{
    let n = b.len();
    assert(at + 8 <= n);
    (b[at] as u64) << 56u64 | (b[at + 1] as u64) << 48u64 | (b[at + 2] as u64) << 40u64 | (b[at
        + 3] as u64) << 32u64 | (b[at + 4] as u64) << 24u64 | (b[at + 5] as u64) << 16u64 | (b[at
        + 6] as u64) << 8u64 | (b[at + 7] as u64)
}

/// The root header: `offset` and then `length`, each as eight big-endian bytes.
pub open spec fn header_bytes(offset: u64, length: u64) -> Seq<u8> {
    be_bytes(offset) + be_bytes(length)
}

/// The sixteen header bytes that locate a root object of `length` bytes
/// stored at `offset`.
pub fn encode_header(offset: u64, length: u64) -> (r: Vec<u8>)
    ensures
        r@ == header_bytes(offset, length),
{
    let mut r = u64_to_be(offset);
    let mut tail = u64_to_be(length);
    r.append(&mut tail);
    r
}

/// The root object's `(offset, length)` that a header of at least sixteen
/// bytes records.
pub fn decode_header(bytes: &Vec<u8>) -> (r: (u64, u64))
    requires
        bytes@.len() >= 16,
    ensures
        r == (be_value(bytes@, 0), be_value(bytes@, 8)),
{
    (u64_from_be(bytes, 0), u64_from_be(bytes, 8))
}

/// Decoding an encoded header gives back the offset and the length.
pub proof fn lemma_header_round_trip(offset: u64, length: u64)
    ensures
        be_value(header_bytes(offset, length), 0) == offset,
        be_value(header_bytes(offset, length), 8) == length,
{
    let h = header_bytes(offset, length);
    lemma_be_round_trip(offset);
    lemma_be_round_trip(length);
    assert(h.subrange(0, 8) =~= be_bytes(offset));
    assert(h.subrange(8, 16) =~= be_bytes(length));
    assert(be_value(h, 0) == be_value(be_bytes(offset), 0));
    assert(be_value(h, 8) == be_value(be_bytes(length), 0));
}

} // verus!
