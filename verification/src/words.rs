//! 64-bit words: big-endian byte order and rotations.

use vstd::prelude::*;

verus! {

/// The word whose big-endian bytes are the first eight of `b`.
pub open spec fn be_u64(b: Seq<u8>) -> u64 {
    ((b[0] as u64) << 56u64) | ((b[1] as u64) << 48u64) | ((b[2] as u64) << 40u64) | ((
    b[3] as u64) << 32u64) | ((b[4] as u64) << 24u64) | ((b[5] as u64) << 16u64) | ((
    b[6] as u64) << 8u64) | (b[7] as u64)
}

/// The eight big-endian bytes of `x`.
pub open spec fn u64_be(x: u64) -> Seq<u8> {
    seq![
        (x >> 56u64) as u8,
        (x >> 48u64) as u8,
        (x >> 40u64) as u8,
        (x >> 32u64) as u8,
        (x >> 24u64) as u8,
        (x >> 16u64) as u8,
        (x >> 8u64) as u8,
        x as u8,
    ]
}

/// Byte-wise exclusive or of two byte strings of the length of `a`.
pub open spec fn xor_bytes(a: Seq<u8>, b: Seq<u8>) -> Seq<u8> {
    Seq::new(a.len(), |j: int| a[j] ^ b[j])
}

/// `n` zero bytes.
pub open spec fn zeros(n: nat) -> Seq<u8> {
    Seq::new(n, |j: int| 0u8)
}

/// Rotation of `x` to the right by `n` bits, `0 < n < 64`.
pub open spec fn rotr(x: u64, n: u64) -> u64 {
    (x >> n) | (x << (64 - n) as u64)
}

/// Rotation of `x` to the left by `n` bits, `0 < n < 64`.
pub open spec fn rotl(x: u64, n: u64) -> u64 {
    (x << n) | (x >> (64 - n) as u64)
}

/// Reading back the bytes of a word gives the bytes.
pub proof fn lemma_u64_be_of_be_u64(b: Seq<u8>)
    requires
        b.len() == 8,
    ensures
        u64_be(be_u64(b)) == b,
{
    let (b0, b1, b2, b3, b4, b5, b6, b7) = (b[0], b[1], b[2], b[3], b[4], b[5], b[6], b[7]);
    let w = be_u64(b);
    assert(w == ((b0 as u64) << 56u64) | ((b1 as u64) << 48u64) | ((b2 as u64) << 40u64) | ((
    b3 as u64) << 32u64) | ((b4 as u64) << 24u64) | ((b5 as u64) << 16u64) | ((b6 as u64)
        << 8u64) | (b7 as u64));
    assert((w >> 56u64) as u8 == b0 && (w >> 48u64) as u8 == b1 && (w >> 40u64) as u8 == b2 && (w
        >> 32u64) as u8 == b3 && (w >> 24u64) as u8 == b4 && (w >> 16u64) as u8 == b5 && (w
        >> 8u64) as u8 == b6 && w as u8 == b7) by (bit_vector)
        requires
            w == ((b0 as u64) << 56u64) | ((b1 as u64) << 48u64) | ((b2 as u64) << 40u64) | ((
            b3 as u64) << 32u64) | ((b4 as u64) << 24u64) | ((b5 as u64) << 16u64) | ((
            b6 as u64) << 8u64) | (b7 as u64),
    ;
    assert(u64_be(w) =~= b);
}

/// Reading a word from its bytes gives the word.
pub proof fn lemma_be_u64_of_u64_be(x: u64)
    ensures
        be_u64(u64_be(x)) == x,
{
    let b = u64_be(x);
    let (b0, b1, b2, b3, b4, b5, b6, b7) = (b[0], b[1], b[2], b[3], b[4], b[5], b[6], b[7]);
    assert(((b0 as u64) << 56u64) | ((b1 as u64) << 48u64) | ((b2 as u64) << 40u64) | ((
    b3 as u64) << 32u64) | ((b4 as u64) << 24u64) | ((b5 as u64) << 16u64) | ((b6 as u64)
        << 8u64) | (b7 as u64) == x) by (bit_vector)
        requires
            b0 == (x >> 56u64) as u8,
            b1 == (x >> 48u64) as u8,
            b2 == (x >> 40u64) as u8,
            b3 == (x >> 32u64) as u8,
            b4 == (x >> 24u64) as u8,
            b5 == (x >> 16u64) as u8,
            b6 == (x >> 8u64) as u8,
            b7 == x as u8,
    ;
}

/// The bytes of `x ^ y` are the byte-wise exclusive or of the bytes of `x` and of `y`.
pub proof fn lemma_u64_be_xor(x: u64, y: u64)
    ensures
        u64_be(x ^ y) == xor_bytes(u64_be(x), u64_be(y)),
{
    assert forall|k: u64| k < 64 implies #[trigger] ((x ^ y) >> k) as u8 == ((x >> k) as u8) ^ ((
    y >> k) as u8) by {
        assert(((x ^ y) >> k) as u8 == ((x >> k) as u8) ^ ((y >> k) as u8)) by (bit_vector);
    }
    assert((x ^ y) as u8 == (x as u8) ^ (y as u8)) by (bit_vector);
    assert(u64_be(x ^ y) =~= xor_bytes(u64_be(x), u64_be(y)));
}

/// The word of eight zero bytes is zero.
pub proof fn lemma_be_u64_zeros()
    ensures
        be_u64(zeros(8)) == 0,
{
    assert(((0u8 as u64) << 56u64) | ((0u8 as u64) << 48u64) | ((0u8 as u64) << 40u64) | ((
    0u8 as u64) << 32u64) | ((0u8 as u64) << 24u64) | ((0u8 as u64) << 16u64) | ((0u8 as u64)
        << 8u64) | (0u8 as u64) == 0) by (bit_vector);
}

/// Byte `j` of `x` is `x` shifted right by `8 * (7 - j)` bits.
pub proof fn lemma_u64_be_index(x: u64)
    ensures
        forall|j: int| 0 <= j < 8 ==> #[trigger] u64_be(x)[j] == (x >> (8 * (7 - j)) as u64) as u8,
{
    let b = u64_be(x);
    assert(b[0] == (x >> 56u64) as u8);
    assert(b[1] == (x >> 48u64) as u8);
    assert(b[2] == (x >> 40u64) as u8);
    assert(b[3] == (x >> 32u64) as u8);
    assert(b[4] == (x >> 24u64) as u8);
    assert(b[5] == (x >> 16u64) as u8);
    assert(b[6] == (x >> 8u64) as u8);
    assert(b[7] == x as u8);
    assert(x >> 0u64 == x) by (bit_vector);
}

/// Reads the big-endian word at `data[i..i + 8]`.
pub fn load_be_u64(data: &[u8], i: usize) -> (r: u64)
    requires
        i + 8 <= data@.len(),
    ensures
        r == be_u64(data@.subrange(i as int, i + 8)),
{
    ((data[i] as u64) << 56u64) | ((data[i + 1] as u64) << 48u64) | ((data[i + 2] as u64) << 40u64)
        | ((data[i + 3] as u64) << 32u64) | ((data[i + 4] as u64) << 24u64) | ((data[i + 5] as u64)
        << 16u64) | ((data[i + 6] as u64) << 8u64) | (data[i + 7] as u64)
}

/// The big-endian bytes of `x`.
pub fn store_be_u64(x: u64) -> (r: [u8; 8])
    ensures
        r@ == u64_be(x),
{
    let r = [
        (x >> 56u64) as u8,
        (x >> 48u64) as u8,
        (x >> 40u64) as u8,
        (x >> 32u64) as u8,
        (x >> 24u64) as u8,
        (x >> 16u64) as u8,
        (x >> 8u64) as u8,
        x as u8,
    ];
    assert(r@ =~= u64_be(x));
    r
}

/// Rotation to the right by `n` bits.
pub fn rotate_right(x: u64, n: u64) -> (r: u64)
    requires
        0 < n < 64,
    ensures
        r == rotr(x, n),
{
    (x >> n) | (x << (64 - n))
}

/// Rotation to the left by `n` bits.
pub fn rotate_left(x: u64, n: u64) -> (r: u64)
    requires
        0 < n < 64,
    ensures
        r == rotl(x, n),
{
    (x << n) | (x >> (64 - n))
}

/// The word whose little-endian bytes are the first sixteen of `b`.
pub open spec fn le_u128(b: Seq<u8>) -> u128 {
    (b[0] as u128) | ((b[1] as u128) << 8u128) | ((b[2] as u128) << 16u128) | ((b[3] as u128) << 24u128) | ((b[4] as u128) << 32u128) | ((b[5] as u128) << 40u128) | ((b[6] as u128) << 48u128) | ((b[7] as u128) << 56u128) | ((b[8] as u128) << 64u128) | ((b[9] as u128) << 72u128) | ((b[10] as u128) << 80u128) | ((b[11] as u128) << 88u128) | ((b[12] as u128) << 96u128) | ((b[13] as u128) << 104u128) | ((b[14] as u128) << 112u128) | ((b[15] as u128) << 120u128)
}

/// The sixteen little-endian bytes of `x`.
pub open spec fn u128_le(x: u128) -> Seq<u8> {
    seq![
        x as u8,
        (x >> 8u128) as u8,
        (x >> 16u128) as u8,
        (x >> 24u128) as u8,
        (x >> 32u128) as u8,
        (x >> 40u128) as u8,
        (x >> 48u128) as u8,
        (x >> 56u128) as u8,
        (x >> 64u128) as u8,
        (x >> 72u128) as u8,
        (x >> 80u128) as u8,
        (x >> 88u128) as u8,
        (x >> 96u128) as u8,
        (x >> 104u128) as u8,
        (x >> 112u128) as u8,
        (x >> 120u128) as u8,
    ]
}

/// Reading back the bytes of a 128-bit word gives the bytes.
pub proof fn lemma_u128_le_of_le_u128(b: Seq<u8>)
    requires
        b.len() == 16,
    ensures
        u128_le(le_u128(b)) == b,
{
    let (b0, b1, b2, b3, b4, b5, b6, b7, b8, b9, b10, b11, b12, b13, b14, b15) = (b[0], b[1], b[2], b[3], b[4], b[5], b[6], b[7], b[8], b[9], b[10], b[11], b[12], b[13], b[14], b[15]);
    let w = le_u128(b);
    assert(w == (b0 as u128) | ((b1 as u128) << 8u128) | ((b2 as u128) << 16u128) | ((b3 as u128) << 24u128) | ((b4 as u128) << 32u128) | ((b5 as u128) << 40u128) | ((b6 as u128) << 48u128) | ((b7 as u128) << 56u128) | ((b8 as u128) << 64u128) | ((b9 as u128) << 72u128) | ((b10 as u128) << 80u128) | ((b11 as u128) << 88u128) | ((b12 as u128) << 96u128) | ((b13 as u128) << 104u128) | ((b14 as u128) << 112u128) | ((b15 as u128) << 120u128));
    assert(w as u8 == b0 && (w >> 8u128) as u8 == b1 && (w >> 16u128) as u8 == b2 && (w >> 24u128) as u8 == b3 && (w >> 32u128) as u8 == b4 && (w >> 40u128) as u8 == b5 && (w >> 48u128) as u8 == b6 && (w >> 56u128) as u8 == b7 && (w >> 64u128) as u8 == b8 && (w >> 72u128) as u8 == b9 && (w >> 80u128) as u8 == b10 && (w >> 88u128) as u8 == b11 && (w >> 96u128) as u8 == b12 && (w >> 104u128) as u8 == b13 && (w >> 112u128) as u8 == b14 && (w >> 120u128) as u8 == b15) by (bit_vector)
        requires
            w == (b0 as u128) | ((b1 as u128) << 8u128) | ((b2 as u128) << 16u128) | ((b3 as u128) << 24u128) | ((b4 as u128) << 32u128) | ((b5 as u128) << 40u128) | ((b6 as u128) << 48u128) | ((b7 as u128) << 56u128) | ((b8 as u128) << 64u128) | ((b9 as u128) << 72u128) | ((b10 as u128) << 80u128) | ((b11 as u128) << 88u128) | ((b12 as u128) << 96u128) | ((b13 as u128) << 104u128) | ((b14 as u128) << 112u128) | ((b15 as u128) << 120u128),
    ;
    assert(u128_le(w) =~= b);
}

/// Reads the little-endian 128-bit word at `data[i..i + 16]`.
pub fn load_le_u128(data: &[u8], i: usize) -> (r: u128)
    requires
        i + 16 <= data@.len(),
    ensures
        r == le_u128(data@.subrange(i as int, i + 16)),
{
    (data[i] as u128) | ((data[i + 1] as u128) << 8u128) | ((data[i + 2] as u128) << 16u128) | ((data[i + 3] as u128) << 24u128) | ((data[i + 4] as u128) << 32u128) | ((data[i + 5] as u128) << 40u128) | ((data[i + 6] as u128) << 48u128) | ((data[i + 7] as u128) << 56u128) | ((data[i + 8] as u128) << 64u128) | ((data[i + 9] as u128) << 72u128) | ((data[i + 10] as u128) << 80u128) | ((data[i + 11] as u128) << 88u128) | ((data[i + 12] as u128) << 96u128) | ((data[i + 13] as u128) << 104u128) | ((data[i + 14] as u128) << 112u128) | ((data[i + 15] as u128) << 120u128)
}

/// The little-endian bytes of `x`.
pub fn store_le_u128(x: u128) -> (r: [u8; 16])
    ensures
        r@ == u128_le(x),
{
    let r = [
        x as u8,
        (x >> 8u128) as u8,
        (x >> 16u128) as u8,
        (x >> 24u128) as u8,
        (x >> 32u128) as u8,
        (x >> 40u128) as u8,
        (x >> 48u128) as u8,
        (x >> 56u128) as u8,
        (x >> 64u128) as u8,
        (x >> 72u128) as u8,
        (x >> 80u128) as u8,
        (x >> 88u128) as u8,
        (x >> 96u128) as u8,
        (x >> 104u128) as u8,
        (x >> 112u128) as u8,
        (x >> 120u128) as u8,
    ];
    assert(r@ =~= u128_le(x));
    r
}

} // verus!
