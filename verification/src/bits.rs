//! Word, half-word and byte plumbing shared by the cipher and the search.
//!
//! Everything here is little-endian: byte 0 of a word is its least
//! significant byte, half 0 its low sixteen bits.
use vstd::prelude::*;

verus! {

/// `x` rotated right by `n` bit positions; only `n` modulo 32 matters.
pub open spec fn rotr32(x: u32, n: u32) -> u32 {
    if n % 32 == 0 {
        x
    } else {
        (x >> (n % 32)) | (x << ((32 - n % 32) as u32))
    }
}

/// `x` rotated left by `n` bit positions; only `n` modulo 32 matters.
pub open spec fn rotl32(x: u32, n: u32) -> u32 {
    if n % 32 == 0 {
        x
    } else {
        (x << (n % 32)) | (x >> ((32 - n % 32) as u32))
    }
}

/// The two bytes of `x` exchanged.
pub open spec fn swap16(x: u16) -> u16 {
    (x >> 8) | ((x & 0xff) << 8)
}

/// Byte `k` (0 is least significant) of `w`.
pub open spec fn byte_of(w: u32, k: int) -> u8 {
    ((w >> ((8 * k) as u32)) & 0xff) as u8
}

/// Half-word `h` (0 is the low half) of `w`.
pub open spec fn half_of(w: u32, h: int) -> u16 {
    ((w >> ((16 * h) as u32)) & 0xffff) as u16
}

/// The word whose bytes, least significant first, are `b0..b3`.
pub open spec fn word_from(b0: u8, b1: u8, b2: u8, b3: u8) -> u32 {
    (b0 as u32) | ((b1 as u32) << 8) | ((b2 as u32) << 16) | ((b3 as u32) << 24)
}

/// The half-word whose bytes, least significant first, are `b0`, `b1`.
pub open spec fn half_from(b0: u8, b1: u8) -> u16 {
    (b0 as u16) | ((b1 as u16) << 8)
}

/// The little-endian word stored at offset `at` of `bytes`.
pub open spec fn word_at(bytes: Seq<u8>, at: int) -> u32 {
    word_from(bytes[at], bytes[at + 1], bytes[at + 2], bytes[at + 3])
}

/// The little-endian half-word stored at offset `at` of `bytes`.
pub open spec fn half_at(bytes: Seq<u8>, at: int) -> u16 {
    half_from(bytes[at], bytes[at + 1])
}

/// Whether bit `i` of `x` is set.
pub open spec fn bit_set(x: u32, i: u32) -> bool {
    (x >> i) & 1 == 1
}

/// Bit `i` of a right rotation is bit `i + n` (modulo 32) of the operand.
pub proof fn lemma_rotr32_bits(x: u32, n: u32, i: u32)
    by (bit_vector)
    requires
        i < 32,
    ensures
        bit_set(rotr32(x, n), i) == bit_set(x, ((i + n % 32) % 32) as u32),
{
}

/// Rotating left undoes rotating right by the same amount.
pub proof fn lemma_rotl32_inverts_rotr32(x: u32, n: u32)
    by (bit_vector)
    ensures
        rotl32(rotr32(x, n), n) == x,
        rotr32(rotl32(x, n), n) == x,
{
}

/// A word is the little-endian assembly of its own four bytes, and the
/// bytes of an assembled word are the bytes it was assembled from.
pub proof fn lemma_word_bytes(w: u32, b0: u8, b1: u8, b2: u8, b3: u8)
    by (bit_vector)
    ensures
        word_from(byte_of(w, 0), byte_of(w, 1), byte_of(w, 2), byte_of(w, 3)) == w,
        byte_of(word_from(b0, b1, b2, b3), 0) == b0,
        byte_of(word_from(b0, b1, b2, b3), 1) == b1,
        byte_of(word_from(b0, b1, b2, b3), 2) == b2,
        byte_of(word_from(b0, b1, b2, b3), 3) == b3,
{
}

/// Rotates `x` right by `n` bit positions: every bit moves `n` places
/// down, and those that fall off the bottom come back in at the top.
pub fn rotate_right(x: u32, n: u32) -> (r: u32)
    ensures
        r == rotr32(x, n),
        forall|i: u32| i < 32 ==> #[trigger] bit_set(r, i) == bit_set(x, ((i + n % 32) % 32) as u32),
{
    proof {
        assert forall|i: u32| i < 32 implies #[trigger] bit_set(rotr32(x, n), i) == bit_set(
            x,
            ((i + n % 32) % 32) as u32,
        ) by {
            lemma_rotr32_bits(x, n, i);
        }
    }
    let k: u32 = n % 32;
    if k == 0 {
        x
    } else {
        (x >> k) | (x << (32 - k))
    }
}

/// Rotates `x` left by `n` bit positions; rotating the result right by
/// as many gives `x` back.
pub fn rotate_left(x: u32, n: u32) -> (r: u32)
    ensures
        r == rotl32(x, n),
        rotr32(r, n) == x,
{
    proof {
        lemma_rotl32_inverts_rotr32(x, n);
    }
    let k: u32 = n % 32;
    if k == 0 {
        x
    } else {
        (x << k) | (x >> (32 - k))
    }
}

/// Exchanges the two bytes of `x`.
pub fn swap_bytes(x: u16) -> (r: u16)
    ensures
        r == swap16(x),
{
    (x >> 8) | ((x & 0xff) << 8)
}

/// Splits `w` into its four bytes, least significant first.
pub fn to_le_bytes(w: u32) -> (r: [u8; 4])
    ensures
        r[0] == byte_of(w, 0),
        r[1] == byte_of(w, 1),
        r[2] == byte_of(w, 2),
        r[3] == byte_of(w, 3),
{
    [
        ((w >> 0) & 0xff) as u8,
        ((w >> 8) & 0xff) as u8,
        ((w >> 16) & 0xff) as u8,
        ((w >> 24) & 0xff) as u8,
    ]
}

/// Assembles a word from four bytes, least significant first.
pub fn from_le_bytes(b: [u8; 4]) -> (r: u32)
    ensures
        r == word_from(b[0], b[1], b[2], b[3]),
{
    (b[0] as u32) | ((b[1] as u32) << 8) | ((b[2] as u32) << 16) | ((b[3] as u32) << 24)
}

/// The low (`h == 0`) or high (`h == 1`) sixteen bits of `w`.
pub fn half(w: u32, h: usize) -> (r: u16)
    requires
        h < 2,
    ensures
        r == half_of(w, h as int),
{
    if h == 0 {
        ((w >> 0) & 0xffff) as u16
    } else {
        ((w >> 16) & 0xffff) as u16
    }
}

} // verus!
