//! Key derivation: from the bytes of ciphertext XOR known plaintext to the
//! 32-bit key, or to the verdict that no key fits.
//!
//! The device XORs every block with the keystream word of its address and
//! with one fixed key word.  Taking the keystream off therefore leaves the
//! key's four bytes repeating with period four; anything else is not an
//! occurrence of the plaintext.
use vstd::prelude::*;
use crate::bits::{to_le_bytes, from_le_bytes};
use crate::crypto::encrypt;

verus! {

/// The keystream byte that covers address `a`: the byte of the block's
/// keystream word that sits at `a`.
pub open spec fn cipher_byte(selectors: [Option<u8>; 3], a: int) -> u8 {
    crate::bits::byte_of(crate::crypto::encrypt_spec((a - a % 4) as u32, selectors), a % 4)
}

/// The key byte that position `i` of `keystream` asks for, once the cipher's
/// own keystream is taken off.  `keystream[0]` sits at address `addr`.
pub open spec fn key_byte(addr: u32, selectors: [Option<u8>; 3], keystream: Seq<u8>, i: int) -> u8 {
    keystream[i] ^ cipher_byte(selectors, addr + i)
}

/// Position `i` asks for the same key byte as the position four before it.
pub open spec fn key_agrees(addr: u32, selectors: [Option<u8>; 3], keystream: Seq<u8>, i: int) -> bool {
    key_byte(addr, selectors, keystream, i) == key_byte(addr, selectors, keystream, i - 4)
}

/// The first `n` positions agree on the key: each asks for the same byte
/// as the position four before it.
pub open spec fn key_consistent_upto(
    addr: u32,
    selectors: [Option<u8>; 3],
    keystream: Seq<u8>,
    n: int,
) -> bool {
    forall|i: int| 4 <= i < n ==> #[trigger] key_agrees(addr, selectors, keystream, i)
}

/// All positions agree on the key.
pub open spec fn key_consistent(addr: u32, selectors: [Option<u8>; 3], keystream: Seq<u8>) -> bool {
    key_consistent_upto(addr, selectors, keystream, keystream.len() as int)
}

/// Which of the first four positions falls on an address with remainder
/// `slot`, when position 0 falls on remainder `offset`.
pub open spec fn slot_position(offset: int, slot: int) -> int {
    (slot + 4 - offset) % 4
}

/// Byte `slot` of the key: what the one position among the first four
/// that falls on an address with that remainder asks for.
pub open spec fn key_slot(addr: u32, selectors: [Option<u8>; 3], keystream: Seq<u8>, slot: int) -> u8 {
    key_byte(addr, selectors, keystream, slot_position(addr as int % 4, slot))
}

/// The key that the first four positions ask for.
pub open spec fn key_word(addr: u32, selectors: [Option<u8>; 3], keystream: Seq<u8>) -> u32 {
    crate::bits::word_from(
        key_slot(addr, selectors, keystream, 0),
        key_slot(addr, selectors, keystream, 1),
        key_slot(addr, selectors, keystream, 2),
        key_slot(addr, selectors, keystream, 3),
    )
}

/// Where the positions agree, each asks for the same byte as the position
/// among the first four with the same remainder.
pub proof fn lemma_key_period(
    addr: u32,
    selectors: [Option<u8>; 3],
    keystream: Seq<u8>,
    n: int,
    i: int,
)
    requires
        key_consistent_upto(addr, selectors, keystream, n),
        0 <= i < n,
    ensures
        key_byte(addr, selectors, keystream, i) == key_byte(addr, selectors, keystream, i % 4),
    decreases i,
{
    if i >= 4 {
        lemma_key_period(addr, selectors, keystream, n, i - 4);
        assert(key_agrees(addr, selectors, keystream, i));
        assert((i - 4) % 4 == i % 4);
    }
}

/// The position among the first four that falls on the same remainder as
/// position `i` is `i` modulo four.
proof fn lemma_slot_position(offset: int, i: int)
    requires
        0 <= offset < 4,
        0 <= i,
    ensures
        slot_position(offset, (offset + i) % 4) == i % 4,
        0 <= slot_position(offset, (offset + i) % 4) < 4,
{
}

/// Derives the key from `keystream`, the bytes of ciphertext XOR known
/// plaintext found at `addr`, under the given selectors.  Returns the key
/// if the bytes agree on one across every four-byte period, `None` if any
/// two disagree.
pub fn calculate_key(addr: u32, selectors: [Option<u8>; 3], keystream: &[u8]) -> (r: Option<u32>)
    requires
        crate::crypto::selectors_ok(selectors),
        keystream@.len() >= 4,
        addr + keystream@.len() <= 0x1_0000_0000,
    ensures
        r == if key_consistent(addr, selectors, keystream@) {
            Some(key_word(addr, selectors, keystream@))
        } else {
            None
        },
{
    let offset: usize = (addr % 4) as usize;
    let len: usize = keystream.len();
    let mut block: u32 = addr - addr % 4;
    let mut word: [u8; 4] = to_le_bytes(encrypt(block, selectors));
    let mut key: [u8; 4] = [0u8, 0u8, 0u8, 0u8];
    let mut slot: usize = offset;
    let mut i: usize = 0;
    while i < len
        invariant
            crate::crypto::selectors_ok(selectors),
            len == keystream@.len(),
            len >= 4,
            addr + len <= 0x1_0000_0000,
            offset == addr % 4,
            i <= len,
            slot < 4,
            i < len ==> slot == (addr + i) % 4,
            i < len ==> block == addr + i - slot,
            i < len ==> word@[slot as int] == cipher_byte(selectors, addr + i),
            i < len ==> forall|k: int|
                0 <= k < 4 ==> #[trigger] word@[k] == crate::bits::byte_of(
                    crate::crypto::encrypt_spec(block, selectors),
                    k,
                ),
            key_consistent_upto(addr, selectors, keystream@, i as int),
            forall|s: int|
                0 <= s < 4 && slot_position(offset as int, s) < i ==> #[trigger] key@[s] == key_slot(
                    addr,
                    selectors,
                    keystream@,
                    s,
                ),
        decreases len - i,
    {
        let k: u8 = word[slot] ^ keystream[i];
        proof {
            let c = cipher_byte(selectors, addr + i);
            let s = keystream@[i as int];
            assert(c ^ s == s ^ c) by (bit_vector);
            assert(k == key_byte(addr, selectors, keystream@, i as int));
            lemma_slot_position(offset as int, i as int);
            assert(slot == (offset + i) % 4);
        }
        if i >= 4 {
            proof {
                lemma_key_period(addr, selectors, keystream@, i as int, i - 4);
                assert((i - 4) % 4 == i % 4);
                assert(key@[slot as int] == key_byte(addr, selectors, keystream@, i - 4));
            }
            if key[slot] != k {
                proof {
                    assert(!key_agrees(addr, selectors, keystream@, i as int));
                }
                return None;
            }
            proof {
                assert(key_agrees(addr, selectors, keystream@, i as int));
            }
        }
        key[slot] = k;
        i += 1;
        if slot == 3 {
            slot = 0;
            if i < len {
                block = block + 4;
                word = to_le_bytes(encrypt(block, selectors));
            }
        } else {
            slot = slot + 1;
        }
    }
    Some(from_le_bytes(key))
}

} // verus!
