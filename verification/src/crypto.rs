//! The cipher model: three address-mixing stages and their combination.
//!
//! A selector tuple has one slot per stage.  `None` switches the stage off,
//! `Some(p)` runs it with parameter `p`.  The keystream word for a block is
//! a function of the block's address and the selector tuple alone; the
//! device XORs it, together with a fixed 32-bit key, onto every block.
use vstd::prelude::*;
use crate::bits::{rotr32, swap16, rotate_right, swap_bytes};

verus! {

/// Bit `b` of `x`, as 0 or 1.
pub open spec fn bit_of(x: u32, b: u32) -> u32 {
    (x >> b) & 1
}

/// A 4-bit field copied into each of the four nibbles of a half-word.
pub open spec fn spread16(f: u32) -> u32 {
    f | (f << 4) | (f << 8) | (f << 12)
}

/// A 4-bit field copied into each of the eight nibbles of a word.
pub open spec fn spread32(f: u32) -> u32 {
    spread16(f) | (spread16(f) << 16)
}

/// The two halves of `addr`, each byte-swapped if its parameter bit is set,
/// folded together by exclusive-or.
pub open spec fn stage1_fold(addr: u32, param: u8) -> u32 {
    let lo = (addr & 0xffff) as u16;
    let hi = ((addr >> 16) & 0xffff) as u16;
    let lo = if bit_of(param as u32, 0) != 0 { swap16(lo) } else { lo };
    let hi = if bit_of(param as u32, 1) != 0 { swap16(hi) } else { hi };
    (lo ^ hi) as u32
}

/// Output of the first stage.
pub open spec fn stage1_spec(addr: u32, param: u8) -> u16 {
    let a = stage1_fold(addr, param);
    let f = (a >> 5) & 0xf;
    ((rotr32(a, 7) ^ (0x6371 & spread16(f))) & 0xffff) as u16
}

/// Bits 1, 5, 9 and 13 of `a`, packed with bit 1 on top.
pub open spec fn stage2_field(a: u32) -> u32 {
    (bit_of(a, 1) << 3) | (bit_of(a, 5) << 2) | (bit_of(a, 9) << 1) | bit_of(a, 13)
}

/// Output of the second stage.
pub open spec fn stage2_spec(addr: u32, param: u8) -> u16 {
    let a = (addr >> (param as u32)) & 0x1FFFF;
    ((rotr32(a, 10) ^ (0x3659 & spread16(stage2_field(a)))) & 0xffff) as u16
}

/// Output of the third stage.
pub open spec fn stage3_spec(addr: u32, param: u8) -> u32 {
    let a = rotr32(addr, (8 * param) as u32);
    let f = (a >> 2) & 0xf;
    rotr32(a, 15) ^ (0xE519A4F1 & spread32(f))
}

/// First stage in the high half, second stage in the low half, both run
/// with the same parameter.
pub open spec fn stage12_spec(addr: u32, param: u8) -> u32 {
    ((stage1_spec(addr, param) as u32) << 16) | (stage2_spec(addr, param) as u32)
}

/// What the first stage adds to a keystream word.
pub open spec fn stage1_term(addr: u32, sel: Option<u8>) -> u32 {
    match sel {
        Some(p) => (stage1_spec(addr, p) as u32) << 16,
        None => 0,
    }
}

/// What the second stage adds to a keystream word.
pub open spec fn stage2_term(addr: u32, sel: Option<u8>) -> u32 {
    match sel {
        Some(p) => stage2_spec(addr, p) as u32,
        None => 0,
    }
}

/// What the third stage adds to a keystream word.
pub open spec fn stage3_term(addr: u32, sel: Option<u8>) -> u32 {
    match sel {
        Some(p) => stage3_spec(addr, p),
        None => 0,
    }
}

/// The keystream word for the block at `addr`.
pub open spec fn encrypt_spec(addr: u32, selectors: [Option<u8>; 3]) -> u32 {
    stage1_term(addr, selectors[0]) ^ stage2_term(addr, selectors[1]) ^ stage3_term(
        addr,
        selectors[2],
    )
}

/// The second stage shifts by its parameter, so that must stay below the
/// word size.  The other two stages take any parameter.
pub open spec fn selectors_ok(selectors: [Option<u8>; 3]) -> bool {
    selectors[1] matches Some(p) ==> p < 32
}

/// Every enabled slot fits the three bits the settings word gives it.
pub open spec fn selectors_packable(selectors: [Option<u8>; 3]) -> bool {
    forall|i: int| 0 <= i < 3 ==> (#[trigger] selectors[i] matches Some(p) ==> p < 8)
}

/// What slot `i` adds to the settings word: a flag bit when the stage is
/// off, its parameter at bit `5 + 3 * i` when it is on.
pub open spec fn slot_bits(sel: Option<u8>, i: u32) -> u32 {
    match sel {
        None => 1u32 << i,
        Some(p) => (p as u32) << ((5 + 3 * i) as u32),
    }
}

/// The settings word: a fixed marker in the top byte over the three slots.
pub open spec fn settings_word_spec(selectors: [Option<u8>; 3]) -> u32 {
    0x5500_0000u32 | slot_bits(selectors[0], 0) | slot_bits(selectors[1], 1) | slot_bits(
        selectors[2],
        2,
    )
}

/// Reads slot `i` back out of a settings word.
pub open spec fn decode_slot(word: u32, i: u32) -> Option<u8> {
    if bit_of(word, i) != 0 {
        None
    } else {
        Some(((word >> ((5 + 3 * i) as u32)) & 7) as u8)
    }
}

/// Reads the selector tuple back out of a settings word.
pub open spec fn decode_settings_word(word: u32) -> Seq<Option<u8>> {
    seq![decode_slot(word, 0), decode_slot(word, 1), decode_slot(word, 2)]
}

/// Multiplying a 4-bit field by 0x1111 (or 0x1111_1111) copies it into
/// every nibble.
proof fn lemma_spread(f: u32)
    by (bit_vector)
    requires
        f <= 0xf,
    ensures
        f * 0x1111 == spread16(f),
        f * 0x1111_1111 == spread32(f),
        f * 0x1111_1111 <= 0xffff_ffff,
{
}

/// XOR-ing a block with its keystream word twice gives the block back:
/// the same operation encrypts and decrypts.
pub proof fn lemma_encrypt_self_inverse(block: u32, addr: u32, selectors: [Option<u8>; 3])
    ensures
        (block ^ encrypt_spec(addr, selectors)) ^ encrypt_spec(addr, selectors) == block,
{
    let e = encrypt_spec(addr, selectors);
    assert((block ^ e) ^ e == block) by (bit_vector);
}

/// Decoding the settings word of a selector tuple gives the tuple back,
/// for every tuple whose parameters fit their three bits.
pub proof fn lemma_settings_word_round_trip(selectors: [Option<u8>; 3])
    requires
        selectors_packable(selectors),
    ensures
        decode_settings_word(settings_word_spec(selectors)) == selectors@,
{
    let a = slot_bits(selectors[0], 0);
    let b = slot_bits(selectors[1], 1);
    let c = slot_bits(selectors[2], 2);
    let w = settings_word_spec(selectors);
    lemma_slot_bits(selectors[0], selectors[1], selectors[2]);
    assert(decode_settings_word(w) =~= selectors@);
}

/// Each slot can be read back out of the settings word.
proof fn lemma_slot_bits(s0: Option<u8>, s1: Option<u8>, s2: Option<u8>)
    requires
        s0 matches Some(p) ==> p < 8,
        s1 matches Some(p) ==> p < 8,
        s2 matches Some(p) ==> p < 8,
    ensures
        ({
            let w = 0x5500_0000u32 | slot_bits(s0, 0) | slot_bits(s1, 1) | slot_bits(s2, 2);
            &&& decode_slot(w, 0) == s0
            &&& decode_slot(w, 1) == s1
            &&& decode_slot(w, 2) == s2
        }),
{
    let f0: u32 = if s0 is None { 1 } else { 0 };
    let f1: u32 = if s1 is None { 1 } else { 0 };
    let f2: u32 = if s2 is None { 1 } else { 0 };
    let v0: u32 = match s0 { Some(p) => p as u32, None => 0 };
    let v1: u32 = match s1 { Some(p) => p as u32, None => 0 };
    let v2: u32 = match s2 { Some(p) => p as u32, None => 0 };
    let a = slot_bits(s0, 0);
    let b = slot_bits(s1, 1);
    let c = slot_bits(s2, 2);
    assert(a == (f0 << 0) | (v0 << 5) && b == (f1 << 1) | (v1 << 8) && c == (f2 << 2) | (v2 << 11))
        by {
        assert((1u32 << 0) == (1u32 << 0) | (0u32 << 5) && (1u32 << 1) == (1u32 << 1) | (0u32 << 8)
            && (1u32 << 2) == (1u32 << 2) | (0u32 << 11)) by (bit_vector);
        assert(forall|p: u32| (p << 5) == (0u32 << 0) | (#[trigger] (p << 5))) by (bit_vector);
        assert(forall|p: u32| (p << 8) == (0u32 << 1) | (#[trigger] (p << 8))) by (bit_vector);
        assert(forall|p: u32| (p << 11) == (0u32 << 2) | (#[trigger] (p << 11))) by (bit_vector);
    }
    let w = 0x5500_0000u32 | a | b | c;
    assert({
        &&& bit_of(w, 0) == f0
        &&& bit_of(w, 1) == f1
        &&& bit_of(w, 2) == f2
        &&& (w >> 5) & 7 == v0
        &&& (w >> 8) & 7 == v1
        &&& (w >> 11) & 7 == v2
    }) by (bit_vector)
        requires
            w == 0x5500_0000u32 | a | b | c,
            a == (f0 << 0) | (v0 << 5),
            b == (f1 << 1) | (v1 << 8),
            c == (f2 << 2) | (v2 << 11),
            f0 <= 1,
            f1 <= 1,
            f2 <= 1,
            v0 < 8,
            v1 < 8,
            v2 < 8,
    ;
}

/// Bit `b` of `x`, as 0 or 1.
pub fn bit(x: u32, b: u32) -> (r: u32)
    requires
        b < 32,
    ensures
        r == bit_of(x, b),
        r <= 1,
{
    assert((x >> b) & 1 <= 1) by (bit_vector);
    (x >> b) & 1
}

/// First stage: fold the address halves, then mix in a nibble field.
pub fn stage1(addr: u32, param: u8) -> (r: u16)
    ensures
        r == stage1_spec(addr, param),
{
    let lo: u16 = (addr & 0xffff) as u16;
    let hi: u16 = ((addr >> 16) & 0xffff) as u16;
    let lo: u16 = if bit(param as u32, 0) != 0 { swap_bytes(lo) } else { lo };
    let hi: u16 = if bit(param as u32, 1) != 0 { swap_bytes(hi) } else { hi };
    let a: u32 = (lo ^ hi) as u32;
    let f: u32 = (a >> 5) & 0xf;
    proof {
        assert(f <= 0xf) by (bit_vector)
            requires
                f == (a >> 5) & 0xf,
        ;
        lemma_spread(f);
    }
    let x: u32 = f * 0x1111;
    ((rotate_right(a, 7) ^ (0x6371 & x)) & 0xffff) as u16
}

/// The top `k` of the four bits that `stage2_field` gathers.
pub open spec fn gathered(a: u32, k: nat) -> u32
    decreases k,
{
    if k == 0 {
        0
    } else {
        (gathered(a, (k - 1) as nat) << 1) | bit_of(a, (1 + 4 * (k - 1)) as u32)
    }
}

/// Gathering four bits one by one packs them as `stage2_field` says.
proof fn lemma_gathered(a: u32)
    ensures
        gathered(a, 4) == stage2_field(a),
        stage2_field(a) <= 0xf,
{
    reveal_with_fuel(gathered, 5);
    let b1 = bit_of(a, 1);
    let b5 = bit_of(a, 5);
    let b9 = bit_of(a, 9);
    let b13 = bit_of(a, 13);
    assert(gathered(a, 4) == (((((((0u32 << 1) | b1) << 1) | b5) << 1) | b9) << 1) | b13);
    assert((((((((0u32 << 1) | b1) << 1) | b5) << 1) | b9) << 1) | b13 == (b1 << 3) | (b5 << 2) | (b9
        << 1) | b13 && (b1 << 3) | (b5 << 2) | (b9 << 1) | b13 <= 0xf) by (bit_vector)
        requires
            b1 == (a >> 1) & 1,
            b5 == (a >> 5) & 1,
            b9 == (a >> 9) & 1,
            b13 == (a >> 13) & 1,
    ;
}

/// Second stage: shift and mask the address, then mix in four gathered bits.
pub fn stage2(addr: u32, param: u8) -> (r: u16)
    requires
        param < 32,
    ensures
        r == stage2_spec(addr, param),
{
    let a: u32 = (addr >> (param as u32)) & 0x1FFFF;
    let mut f: u32 = 0;
    let mut b: u32 = 0;
    while b < 4
        invariant
            b <= 4,
            f == gathered(a, b as nat),
        decreases 4 - b,
    {
        f = (f << 1) | bit(a, 1 + b * 4);
        b += 1;
    }
    proof {
        lemma_gathered(a);
        lemma_spread(f);
    }
    let x: u32 = f * 0x1111;
    ((rotate_right(a, 10) ^ (0x3659 & x)) & 0xffff) as u16
}

/// Third stage: rotate the address by whole bytes, then mix in a nibble field.
pub fn stage3(addr: u32, param: u8) -> (r: u32)
    ensures
        r == stage3_spec(addr, param),
{
    let a: u32 = rotate_right(addr, 8 * (param as u32));
    let f: u32 = (a >> 2) & 0xf;
    proof {
        assert(f <= 0xf) by (bit_vector)
            requires
                f == (a >> 2) & 0xf,
        ;
        lemma_spread(f);
    }
    let x: u32 = f * 0x1111_1111;
    rotate_right(a, 15) ^ (0xE519A4F1 & x)
}

/// Stages one and two side by side, as the streaming search feeds them.
pub fn stage12(addr: u32, param: u8) -> (r: u32)
    requires
        param < 32,
    ensures
        r == stage12_spec(addr, param),
{
    ((stage1(addr, param) as u32) << 16) | (stage2(addr, param) as u32)
}

/// The keystream word for the block at `addr`.  XOR it onto the block to
/// encrypt or to decrypt.
pub fn encrypt(addr: u32, selectors: [Option<u8>; 3]) -> (out: u32)
    requires
        selectors_ok(selectors),
    ensures
        out == encrypt_spec(addr, selectors),
{
    let mut out: u32 = 0;
    out ^= match selectors[0] {
        Some(sel) => (stage1(addr, sel) as u32) << 16,
        None => 0,
    };
    out ^= match selectors[1] {
        Some(sel) => stage2(addr, sel) as u32,
        None => 0,
    };
    out ^= match selectors[2] {
        Some(sel) => stage3(addr, sel),
        None => 0,
    };
    proof {
        let t1 = stage1_term(addr, selectors[0]);
        let t2 = stage2_term(addr, selectors[1]);
        let t3 = stage3_term(addr, selectors[2]);
        assert(((0u32 ^ t1) ^ t2) ^ t3 == t1 ^ t2 ^ t3) by (bit_vector);
    }
    out
}

/// An endless, restartable run of keystream words for consecutive blocks.
/// Copy it to keep a restart point.
#[derive(Clone, Copy, Debug)]
pub struct Keystream {
    selectors: [Option<u8>; 3],
    addr: u32,
}

impl Keystream {
    #[verifier::type_invariant]
    spec fn wf(self) -> bool {
        selectors_ok(self.selectors)
    }

    /// The selector tuple the words are made with.
    pub closed spec fn selectors(self) -> [Option<u8>; 3] {
        self.selectors
    }

    /// The address of the block whose word comes next.
    pub closed spec fn addr(self) -> u32 {
        self.addr
    }

    /// The `i`-th word still to come.  Addresses wrap at the top of the
    /// 32-bit space.
    pub open spec fn word(self, i: nat) -> u32 {
        encrypt_spec(((self.addr() + 4 * i) % 0x1_0000_0000) as u32, self.selectors())
    }

    /// Hands out the next keystream word and moves on by one block.
    pub fn next(&mut self) -> (r: Option<u32>)
        ensures
            r == Some(old(self).word(0)),
            final(self).selectors() == old(self).selectors(),
            final(self).addr() == ((old(self).addr() + 4) % 0x1_0000_0000) as u32,
    {
        proof {
            use_type_invariant(&*self);
        }
        let word: u32 = encrypt(self.addr, self.selectors);
        self.addr = self.addr.wrapping_add(4);
        Some(word)
    }
}

/// The keystream for the blocks at `addr`, `addr + 4`, `addr + 8`, ...
pub fn keystream(selectors: [Option<u8>; 3], addr: u32) -> (ks: Keystream)
    requires
        selectors_ok(selectors),
    ensures
        ks.selectors() == selectors,
        ks.addr() == addr,
{
    Keystream { selectors, addr }
}

/// After `n` calls of `next`, the following words are those that were
/// `n` places further on before.
pub proof fn lemma_keystream_shift(before: Keystream, after: Keystream, n: nat, i: nat)
    requires
        after.selectors() == before.selectors(),
        after.addr() == ((before.addr() + 4 * n) % 0x1_0000_0000) as u32,
    ensures
        after.word(i) == before.word(n + i),
{
    let a = before.addr() as int;
    assert(((a + 4 * n) % 0x1_0000_0000 + 4 * i) % 0x1_0000_0000 == (a + 4 * (n + i))
        % 0x1_0000_0000) by (nonlinear_arith)
        requires
            a >= 0,
    ;
}

/// Packs a selector tuple into the settings word that the key-programming
/// tools expect.
pub fn format_settings_word(selectors: [Option<u8>; 3]) -> (out: u32)
    ensures
        out == settings_word_spec(selectors),
{
    let mut out: u32 = 0b0101_0101u32 << 24;
    assert(0b0101_0101u32 << 24 == 0x5500_0000u32) by (bit_vector);
    let mut i: usize = 0;
    while i < 3
        invariant
            i <= 3,
            out == if i == 0 {
                0x5500_0000u32
            } else if i == 1 {
                0x5500_0000u32 | slot_bits(selectors[0], 0)
            } else if i == 2 {
                0x5500_0000u32 | slot_bits(selectors[0], 0) | slot_bits(selectors[1], 1)
            } else {
                settings_word_spec(selectors)
            },
        decreases 3 - i,
    {
        out |= match selectors[i] {
            None => 1u32 << (i as u32),
            Some(selector) => (selector as u32) << ((5 + i * 3) as u32),
        };
        i += 1;
    }
    out
}

} // verus!
