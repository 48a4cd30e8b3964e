//! The streaming strategy: one pass over the image, block by block.
use vstd::prelude::*;
use crate::bits::{from_le_bytes, half, to_le_bytes};
use crate::crypto::{format_settings_word, stage12, stage3};
use crate::key::calculate_key;
use crate::matching::{Match, SearchError};
use crate::utils::{ByteSource, PeekRead, RollingXor};

verus! {

/// Block `k` of `bytes` as a little-endian word; zero before the first
/// block and past the last whole one.
pub open spec fn block_word(bytes: Seq<u8>, k: int) -> u32 {
    if 0 <= k && 4 * k + 4 <= bytes.len() {
        crate::bits::word_at(bytes, 4 * k)
    } else {
        0
    }
}

/// What stages one and two, run side by side with parameter `j`, give for
/// block `k` of an image at `base`; zero before the first block.
pub open spec fn block_stage12(base: u32, k: int, j: int) -> u32 {
    if 0 <= k {
        crate::crypto::stage12_spec((base + 4 * k) as u32, j as u8)
    } else {
        0
    }
}

/// What stage three with parameter `j` gives for block `k` of an image at
/// `base`; zero before the first block.
pub open spec fn block_stage3(base: u32, k: int, j: int) -> u32 {
    if 0 <= k {
        crate::crypto::stage3_spec((base + 4 * k) as u32, j as u8)
    } else {
        0
    }
}

/// The slots of a rolling buffer whose last three inputs were `c`, `b`, `a`
/// (newest last).
pub open spec fn window(a: u32, b: u32, c: u32) -> Seq<u32> {
    seq![a, b ^ a, c ^ b]
}

/// The slots of a rolling buffer, empty before, that was fed `first` and
/// then `second`.
pub open spec fn primed(first: u32, second: u32) -> Seq<u32> {
    seq![second, second ^ first, first]
}

/// A stage output for block `k`, or zero where the stage is off.
pub open spec fn stage12_term(base: u32, k: int, sel: Option<u8>) -> u32 {
    match sel {
        Some(p) => block_stage12(base, k, p as int),
        None => 0,
    }
}

/// A stage output for block `k`, or zero where the stage is off.
pub open spec fn stage3_term(base: u32, k: int, sel: Option<u8>) -> u32 {
    match sel {
        Some(p) => block_stage3(base, k, p as int),
        None => 0,
    }
}

/// The difference between blocks `k - 1` and `k` of the image, with the
/// differences of the chosen stage outputs taken off: what the cheap
/// comparison looks at.
pub open spec fn filter_word(image: Seq<u8>, base: u32, k: int, s3: Option<u8>, s12: Option<u8>) -> u32 {
    ((block_word(image, k - 1) ^ block_word(image, k)) ^ (stage3_term(base, k - 1, s3) ^ stage3_term(
        base,
        k,
        s3,
    ))) ^ (stage12_term(base, k - 1, s12) ^ stage12_term(base, k, s12))
}

/// The half-word at offset `x` of the plaintext XOR the half-word four
/// bytes before it.
pub open spec fn diff_half(pattern: Seq<u8>, x: int) -> u16 {
    crate::bits::half_at(pattern, x) ^ crate::bits::half_at(pattern, x - 4)
}

/// Entry `q` of the comparison table: the half-word to find first, the
/// half-word that must precede it in the stream, and the offset of the
/// latter in the plaintext.
pub open spec fn matcher(pattern: Seq<u8>, q: int) -> (u16, u16, u8) {
    (diff_half(pattern, 6 + q % 2), diff_half(pattern, 4 + q % 2), (4 + q % 2) as u8)
}

/// Where an occurrence starts that entry `q` of the comparison table
/// finds at block `c`.  A block finds the four starts from seven to four
/// bytes before its own.
pub open spec fn window_offset(c: int, q: int) -> int {
    if q < 2 {
        4 * c - 6 - q
    } else {
        4 * c - 2 - q
    }
}

/// The selector tuple of a candidate.  The cheap comparison fixed `first`
/// for the stage that covers the half-word it looked at, stage two for
/// the low half and stage one for the high half; `second` is for the
/// other of the two.
pub open spec fn candidate_selectors(
    q: int,
    s3: Option<u8>,
    first: Option<u8>,
    second: Option<u8>,
) -> [Option<u8>; 3] {
    if q < 2 {
        [second, first, s3]
    } else {
        [first, second, s3]
    }
}

/// What the full check of one candidate adds to the results.
pub open spec fn candidate_piece(
    image: Seq<u8>,
    base: u32,
    pattern: Seq<u8>,
    c: int,
    s3: Option<u8>,
    first: Option<u8>,
    q: int,
) -> spec_fn(int) -> Seq<Match> {
    |i: int|
        crate::matching::found_at(
            image,
            base,
            pattern,
            candidate_selectors(q, s3, first, crate::matching::nth_selector(i)),
            window_offset(c, q),
        )
}

/// What one preliminary hit adds once every choice for the remaining
/// stage has been checked.
pub open spec fn verified_seq(
    image: Seq<u8>,
    base: u32,
    pattern: Seq<u8>,
    c: int,
    s3: Option<u8>,
    first: Option<u8>,
    q: int,
) -> Seq<Match> {
    crate::matching::concat_upto(candidate_piece(image, base, pattern, c, s3, first, q), 5)
}

/// `verified_seq` as a function of the table entry.
pub open spec fn entry_piece(
    image: Seq<u8>,
    base: u32,
    pattern: Seq<u8>,
    c: int,
    s3: Option<u8>,
    first: Option<u8>,
) -> spec_fn(int) -> Seq<Match> {
    |q: int| verified_seq(image, base, pattern, c, s3, first, q)
}

/// What one pair of choices, for stage three and for the stage under the
/// half-word compared, adds at block `c`.
pub open spec fn pair_seq(
    image: Seq<u8>,
    base: u32,
    pattern: Seq<u8>,
    c: int,
    s3: Option<u8>,
    first: Option<u8>,
) -> Seq<Match> {
    crate::matching::concat_upto(entry_piece(image, base, pattern, c, s3, first), 4)
}

/// `pair_seq` as a function of the index of the second choice.
pub open spec fn pair_piece(
    image: Seq<u8>,
    base: u32,
    pattern: Seq<u8>,
    c: int,
    s3: Option<u8>,
) -> spec_fn(int) -> Seq<Match> {
    |i: int| pair_seq(image, base, pattern, c, s3, crate::matching::nth_selector(i))
}

/// What one choice for stage three adds at block `c`.
pub open spec fn stage3_seq(image: Seq<u8>, base: u32, pattern: Seq<u8>, c: int, s3: Option<u8>) -> Seq<
    Match,
> {
    crate::matching::concat_upto(pair_piece(image, base, pattern, c, s3), 5)
}

/// `stage3_seq` as a function of the index of the choice.
pub open spec fn stage3_piece(image: Seq<u8>, base: u32, pattern: Seq<u8>, c: int) -> spec_fn(int) -> Seq<
    Match,
> {
    |i: int| stage3_seq(image, base, pattern, c, crate::matching::nth_selector(i))
}

/// The records that the scan of block `c` adds, in the order it adds them.
#[verifier::opaque]
pub open spec fn block_seq(image: Seq<u8>, base: u32, pattern: Seq<u8>, c: int) -> Seq<Match> {
    crate::matching::concat_upto(stage3_piece(image, base, pattern, c), 5)
}

/// `block_seq` as a function of the block's distance from block `from`.
pub open spec fn block_piece(image: Seq<u8>, base: u32, pattern: Seq<u8>, from: int) -> spec_fn(
    int,
) -> Seq<Match> {
    |i: int| block_seq(image, base, pattern, from + i)
}

/// The records that the scan of blocks `from..to` adds, in order.
#[verifier::opaque]
pub open spec fn stream_seq(image: Seq<u8>, base: u32, pattern: Seq<u8>, from: int, to: int) -> Seq<
    Match,
> {
    crate::matching::concat_upto(block_piece(image, base, pattern, from), to - from)
}

/// Small facts about XOR and zero that the buffers' bookkeeping needs.
proof fn lemma_xor_algebra(a: u32, b: u32)
    by (bit_vector)
    ensures
        a ^ (0u32 ^ 0u32) == a,
        (a ^ b) ^ b == a,
        0u32 ^ 0u32 == 0u32,
        0u32 ^ a == a,
        a ^ b == b ^ a,
        ((0u16 as u32) << 16) == 0u32,
        ((0u16 as u32) << 16) | (0u16 as u32) == 0u32,
{
}

/// The bit-level core of `lemma_filter_word_halves`: in the low half of a
/// word the first stage leaves no trace, in the high half the second.
proof fn lemma_filter_halves(
    d: u32,
    a3: u32,
    b3: u32,
    p1a: u16,
    p2a: u16,
    p1b: u16,
    p2b: u16,
    q1a: u16,
    q2a: u16,
    q1b: u16,
    q2b: u16,
)
    by (bit_vector)
    ensures
        crate::bits::half_of(
            (d ^ (a3 ^ b3)) ^ ((((p1a as u32) << 16) | (p2a as u32)) ^ (((p1b as u32) << 16) | (
            p2b as u32))),
            0,
        ) == crate::bits::half_of(
            d ^ (((((q1a as u32) << 16) ^ (p2a as u32)) ^ a3) ^ ((((q1b as u32) << 16) ^ (
            p2b as u32)) ^ b3)),
            0,
        ),
        crate::bits::half_of(
            (d ^ (a3 ^ b3)) ^ ((((p1a as u32) << 16) | (p2a as u32)) ^ (((p1b as u32) << 16) | (
            p2b as u32))),
            1,
        ) == crate::bits::half_of(
            d ^ (((((p1a as u32) << 16) ^ (q2a as u32)) ^ a3) ^ ((((p1b as u32) << 16) ^ (
            q2b as u32)) ^ b3)),
            1,
        ),
{
}

/// The bit-level core of `lemma_occurrence_shows_difference`: where two
/// bytes of one half-word each agree on the key with the byte four before,
/// the half-word of the differences is the difference of the plaintext.
proof fn lemma_half_difference(
    xw: u32,
    xw2: u32,
    ew: u32,
    ew2: u32,
    pa0: u8,
    pa1: u8,
    pb0: u8,
    pb1: u8,
)
    by (bit_vector)
    ensures
        ((crate::bits::byte_of(xw, 0) ^ pa0) ^ crate::bits::byte_of(ew, 0) == (crate::bits::byte_of(
            xw2,
            0,
        ) ^ pb0) ^ crate::bits::byte_of(ew2, 0) && (crate::bits::byte_of(xw, 1) ^ pa1)
            ^ crate::bits::byte_of(ew, 1) == (crate::bits::byte_of(xw2, 1) ^ pb1)
            ^ crate::bits::byte_of(ew2, 1)) ==> crate::bits::half_of((xw2 ^ xw) ^ (ew2 ^ ew), 0)
            == crate::bits::half_from(pa0, pa1) ^ crate::bits::half_from(pb0, pb1),
        ((crate::bits::byte_of(xw, 2) ^ pa0) ^ crate::bits::byte_of(ew, 2) == (crate::bits::byte_of(
            xw2,
            2,
        ) ^ pb0) ^ crate::bits::byte_of(ew2, 2) && (crate::bits::byte_of(xw, 3) ^ pa1)
            ^ crate::bits::byte_of(ew, 3) == (crate::bits::byte_of(xw2, 3) ^ pb1)
            ^ crate::bits::byte_of(ew2, 3)) ==> crate::bits::half_of((xw2 ^ xw) ^ (ew2 ^ ew), 1)
            == crate::bits::half_from(pa0, pa1) ^ crate::bits::half_from(pb0, pb1),
{
}

/// The keystream word for block `k` of an image at `base`.
pub open spec fn block_keystream(base: u32, k: int, selectors: [Option<u8>; 3]) -> u32 {
    crate::crypto::encrypt_spec((base + 4 * k) as u32, selectors)
}

/// The byte at offset `pos` of the image is a byte of the block it lies in.
proof fn lemma_block_byte(image: Seq<u8>, pos: int)
    requires
        0 <= pos,
        4 * (pos / 4) + 4 <= image.len(),
    ensures
        image[pos] == crate::bits::byte_of(block_word(image, pos / 4), pos % 4),
{
    let k = pos / 4;
    crate::bits::lemma_word_bytes(0, image[4 * k], image[4 * k + 1], image[4 * k + 2], image[4 * k + 3]);
}

/// Where the plaintext occurs, the difference of two neighbouring blocks
/// shows the difference of the plaintext with itself four bytes on, once
/// the keystream difference is taken off: the key cancels.  Stated for
/// the half-word that holds offsets `x` and `x + 1` of the plaintext.
pub proof fn lemma_occurrence_shows_difference(
    image: Seq<u8>,
    base: u32,
    pattern: Seq<u8>,
    selectors: [Option<u8>; 3],
    at: int,
    x: int,
)
    requires
        base % 4 == 0,
        crate::matching::occurs(image, base, pattern, selectors, at),
        4 <= x,
        x + 2 <= pattern.len(),
        (at + x) % 2 == 0,
        4 * ((at + x) / 4) + 4 <= image.len(),
    ensures
        ({
            let k = (at + x) / 4;
            let h = ((at + x) % 4) / 2;
            crate::bits::half_of(
                (block_word(image, k - 1) ^ block_word(image, k)) ^ (block_keystream(
                    base,
                    k - 1,
                    selectors,
                ) ^ block_keystream(base, k, selectors)),
                h,
            ) == diff_half(pattern, x)
        }),
{
    let addr = (base + at) as u32;
    let ks = crate::matching::residue(image, pattern, at);
    let pos = at + x;
    let k = pos / 4;
    let h = (pos % 4) / 2;
    let xw = block_word(image, k);
    let xw2 = block_word(image, k - 1);
    let ew = block_keystream(base, k, selectors);
    let ew2 = block_keystream(base, k - 1, selectors);
    assert(crate::key::key_agrees(addr, selectors, ks, x));
    assert(crate::key::key_agrees(addr, selectors, ks, x + 1));
    assert(pos % 4 == 0 || pos % 4 == 2);
    assert((pos + 1) / 4 == k && (pos - 4) / 4 == k - 1 && (pos - 3) / 4 == k - 1);
    assert((pos + 1) % 4 == pos % 4 + 1 && (pos - 4) % 4 == pos % 4 && (pos - 3) % 4 == pos % 4 + 1);
    lemma_block_byte(image, pos);
    lemma_block_byte(image, pos + 1);
    lemma_block_byte(image, pos - 4);
    lemma_block_byte(image, pos - 3);
    assert forall|j: int| pos - 4 <= j <= pos + 1 implies #[trigger] crate::key::cipher_byte(
        selectors,
        base + j,
    ) == crate::bits::byte_of(block_keystream(base, j / 4, selectors), j % 4) by {
        assert((base + j) % 4 == j % 4);
        assert((base + j) - (base + j) % 4 == base + 4 * (j / 4));
    }
    assert(crate::key::cipher_byte(selectors, addr + x) == crate::bits::byte_of(ew, pos % 4));
    assert(crate::key::cipher_byte(selectors, addr + (x + 1)) == crate::bits::byte_of(
        ew,
        pos % 4 + 1,
    ));
    assert(crate::key::cipher_byte(selectors, addr + (x - 4)) == crate::bits::byte_of(
        ew2,
        pos % 4,
    ));
    assert(crate::key::cipher_byte(selectors, addr + (x + 1 - 4)) == crate::bits::byte_of(
        ew2,
        pos % 4 + 1,
    ));
    lemma_half_difference(xw, xw2, ew, ew2, pattern[x], pattern[x + 1], pattern[x - 4], pattern[x - 3]);
}

/// The half-word that the cheap comparison looks at is the half-word of
/// the block difference with the keystream difference taken off, for any
/// selector tuple that agrees with the comparison on stage three and on
/// the stage that covers that half: stage two for the low half, stage one
/// for the high half.
pub proof fn lemma_filter_word_halves(
    image: Seq<u8>,
    base: u32,
    k: int,
    selectors: [Option<u8>; 3],
)
    requires
        1 <= k,
        base + 4 * k <= u32::MAX,
    ensures
        crate::bits::half_of(filter_word(image, base, k, selectors[2], selectors[1]), 0)
            == crate::bits::half_of(
            (block_word(image, k - 1) ^ block_word(image, k)) ^ (block_keystream(
                base,
                k - 1,
                selectors,
            ) ^ block_keystream(base, k, selectors)),
            0,
        ),
        crate::bits::half_of(filter_word(image, base, k, selectors[2], selectors[0]), 1)
            == crate::bits::half_of(
            (block_word(image, k - 1) ^ block_word(image, k)) ^ (block_keystream(
                base,
                k - 1,
                selectors,
            ) ^ block_keystream(base, k, selectors)),
            1,
        ),
{
    let d = block_word(image, k - 1) ^ block_word(image, k);
    let aa = (base + 4 * (k - 1)) as u32;
    let ab = (base + 4 * k) as u32;
    let a3 = stage3_term(base, k - 1, selectors[2]);
    let b3 = stage3_term(base, k, selectors[2]);
    assert(a3 == crate::crypto::stage3_term(aa, selectors[2]));
    assert(b3 == crate::crypto::stage3_term(ab, selectors[2]));
    // Stage outputs under the tuple's own parameters, zero where a stage is off.
    let q1a: u16 = match selectors[0] { Some(p) => crate::crypto::stage1_spec(aa, p), None => 0u16 };
    let q1b: u16 = match selectors[0] { Some(p) => crate::crypto::stage1_spec(ab, p), None => 0u16 };
    let q2a: u16 = match selectors[1] { Some(p) => crate::crypto::stage2_spec(aa, p), None => 0u16 };
    let q2b: u16 = match selectors[1] { Some(p) => crate::crypto::stage2_spec(ab, p), None => 0u16 };
    // The other stage of the pair, run with the parameter of the stage compared.
    let r1a: u16 = match selectors[1] { Some(p) => crate::crypto::stage1_spec(aa, p), None => 0u16 };
    let r1b: u16 = match selectors[1] { Some(p) => crate::crypto::stage1_spec(ab, p), None => 0u16 };
    let r2a: u16 = match selectors[0] { Some(p) => crate::crypto::stage2_spec(aa, p), None => 0u16 };
    let r2b: u16 = match selectors[0] { Some(p) => crate::crypto::stage2_spec(ab, p), None => 0u16 };
    lemma_xor_algebra(0, 0);
    assert(block_keystream(base, k - 1, selectors) == ((((q1a as u32) << 16) ^ (q2a as u32)) ^ a3));
    assert(block_keystream(base, k, selectors) == ((((q1b as u32) << 16) ^ (q2b as u32)) ^ b3));
    assert(stage12_term(base, k - 1, selectors[1]) == ((r1a as u32) << 16) | (q2a as u32));
    assert(stage12_term(base, k, selectors[1]) == ((r1b as u32) << 16) | (q2b as u32));
    assert(stage12_term(base, k - 1, selectors[0]) == ((q1a as u32) << 16) | (r2a as u32));
    assert(stage12_term(base, k, selectors[0]) == ((q1b as u32) << 16) | (r2b as u32));
    lemma_filter_halves(d, a3, b3, r1a, q2a, r1b, q2b, q1a, q2a, q1b, q2b);
    lemma_filter_halves(d, a3, b3, q1a, r2a, q1b, r2b, q1a, q2a, q1b, q2b);
}

/// Why, if at all, no scan can start on an image of `len` bytes at `base`:
/// the error that reading its first two blocks runs into.
pub open spec fn priming_refusal(base: u32, len: int) -> Option<SearchError> {
    if base % 4 != 0 {
        Some(SearchError::MisalignedBase)
    } else if len == 0 {
        Some(SearchError::ImageTooShort)
    } else if len < 4 {
        Some(SearchError::IncompleteBlock)
    } else if base + 4 > u32::MAX {
        Some(SearchError::AddressOverflow)
    } else if len == 4 {
        Some(SearchError::ImageTooShort)
    } else if len < 8 {
        Some(SearchError::IncompleteBlock)
    } else if base + 8 > u32::MAX {
        Some(SearchError::AddressOverflow)
    } else {
        None
    }
}

/// Keeps rolling buffers of the input and of the stage keystreams while
/// the image is read block by block.
pub struct Bk7231RollingXor<R: ByteSource> {
    stream: PeekRead<R>,
    base: u32,
    addr: u32,
    input: RollingXor<u32>,
    s12out: [RollingXor<u32>; 4],
    s3out: [RollingXor<u32>; 4],
    consumed: Ghost<Seq<u8>>,
}

impl<R: ByteSource> Bk7231RollingXor<R> {
    /// The address of the image's first byte.
    pub closed spec fn base(&self) -> u32 {
        self.base
    }

    /// The bytes read so far.
    pub closed spec fn consumed(&self) -> Seq<u8> {
        self.consumed@
    }

    /// The bytes still to be read.
    pub closed spec fn pending(&self) -> Seq<u8> {
        self.stream.pending()
    }

    /// How many bytes ahead of the current position are held in memory.
    pub closed spec fn held(&self) -> nat {
        self.stream.held()
    }

    /// The address of the block to be read next.
    pub closed spec fn addr(&self) -> u32 {
        self.addr
    }

    /// The three slots of the rolling buffer over the image's blocks.
    pub closed spec fn input(&self) -> Seq<u32> {
        self.input.0@
    }

    /// The three slots of the rolling buffer over the outputs of stages
    /// one and two with parameter `p`.
    pub closed spec fn stage12_buffer(&self, p: int) -> Seq<u32> {
        self.s12out@[p].0@
    }

    /// The three slots of the rolling buffer over the outputs of stage
    /// three with parameter `p`.
    pub closed spec fn stage3_buffer(&self, p: int) -> Seq<u32> {
        self.s3out@[p].0@
    }

    /// The whole image: what was read, then what is still to come.
    #[verifier::opaque]
    pub open spec fn image(&self) -> Seq<u8> {
        self.consumed() + self.pending()
    }

    /// The state of a scan under way: the first two blocks, at least, have
    /// been read, and the buffers hold what the blocks read so far put
    /// into them.
    pub open spec fn wf(&self) -> bool {
        self.filled() && self.consumed().len() >= 8
    }

    /// The buffers hold what the blocks read so far put into them.  This
    /// holds from before the first block on; see `lemma_buffers`.
    #[verifier::opaque]
    pub closed spec fn filled(&self) -> bool {
        let n = self.consumed@.len() as int / 4;
        &&& self.base % 4 == 0
        &&& self.consumed@.len() % 4 == 0
        &&& self.addr == self.base + self.consumed@.len()
        &&& self.input.0@ == window(
            block_word(self.consumed@, n - 1),
            block_word(self.consumed@, n - 2),
            block_word(self.consumed@, n - 3),
        )
        &&& forall|j: int|
            0 <= j < 4 ==> (#[trigger] self.s12out@[j]).0@ == window(
                block_stage12(self.base, n - 1, j),
                block_stage12(self.base, n - 2, j),
                block_stage12(self.base, n - 3, j),
            )
        &&& forall|j: int|
            0 <= j < 4 ==> (#[trigger] self.s3out@[j]).0@ == window(
                block_stage3(self.base, n - 1, j),
                block_stage3(self.base, n - 2, j),
                block_stage3(self.base, n - 3, j),
            )
    }

    /// Starts a scan of `image`, whose first byte sits at `base_addr`, and
    /// fills the buffers with the image's first two blocks.  Refuses a base
    /// address that is not a multiple of four, and an image whose first
    /// two blocks are not there, not whole, or not inside the address
    /// space.
    pub fn new(image: PeekRead<R>, base_addr: u32) -> (r: Result<Self, SearchError>)
        ensures
            match r {
                Ok(this) => {
                    &&& priming_refusal(base_addr, image.pending().len() as int) is None
                    &&& this.wf()
                    &&& this.base() == base_addr
                    &&& this.consumed() == image.pending().take(8)
                    &&& this.pending() == image.pending().skip(8)
                    &&& this.image() == image.pending()
                    &&& this.held() <= image.held()
                    &&& this.addr() == base_addr + 8
                    &&& this.input() == primed(
                        crate::bits::word_at(image.pending(), 0),
                        crate::bits::word_at(image.pending(), 4),
                    )
                    &&& forall|p: int|
                        0 <= p < 4 ==> #[trigger] this.stage12_buffer(p) == primed(
                            crate::crypto::stage12_spec(base_addr, p as u8),
                            crate::crypto::stage12_spec((base_addr + 4) as u32, p as u8),
                        )
                    &&& forall|p: int|
                        0 <= p < 4 ==> #[trigger] this.stage3_buffer(p) == primed(
                            crate::crypto::stage3_spec(base_addr, p as u8),
                            crate::crypto::stage3_spec((base_addr + 4) as u32, p as u8),
                        )
                },
                Err(e) => priming_refusal(base_addr, image.pending().len() as int) == Some(e),
            },
    {
        if base_addr % 4 != 0 {
            return Err(SearchError::MisalignedBase);
        }
        let zero = RollingXor([0u32, 0u32, 0u32]);
        let mut this = Bk7231RollingXor {
            stream: image,
            base: base_addr,
            addr: base_addr,
            input: zero,
            s12out: [zero, zero, zero, zero],
            s3out: [zero, zero, zero, zero],
            consumed: Ghost(Seq::empty()),
        };
        proof {
            reveal(Bk7231RollingXor::filled);
            reveal(Bk7231RollingXor::image);
            lemma_xor_algebra(0, 0);
            assert(zero.0@ =~= window(0, 0, 0));
            assert(this.image() =~= image.pending());
        }
        // fill buffers
        match this.update() {
            Err(e) => {
                return Err(e);
            },
            Ok(None) => {
                return Err(SearchError::ImageTooShort);
            },
            Ok(Some(_)) => {},
        }
        match this.update() {
            Err(e) => {
                return Err(e);
            },
            Ok(None) => {
                return Err(SearchError::ImageTooShort);
            },
            Ok(Some(_)) => {},
        }
        proof {
            let all = image.pending();
            assert(this.consumed@ =~= all.take(8));
            assert(this.stream.pending() =~= all.skip(8));
            this.lemma_buffers();
            let x0 = crate::bits::word_at(all, 0);
            let x1 = crate::bits::word_at(all, 4);
            assert(block_word(this.consumed@, 0) == x0 && block_word(this.consumed@, 1) == x1);
            lemma_xor_algebra(x0, x1);
            assert(this.input() =~= primed(x0, x1));
            assert forall|p: int| 0 <= p < 4 implies #[trigger] this.stage12_buffer(p) == primed(
                crate::crypto::stage12_spec(base_addr, p as u8),
                crate::crypto::stage12_spec((base_addr + 4) as u32, p as u8),
            ) by {
                lemma_xor_algebra(
                    crate::crypto::stage12_spec(base_addr, p as u8),
                    crate::crypto::stage12_spec((base_addr + 4) as u32, p as u8),
                );
                assert(this.stage12_buffer(p) =~= primed(
                    crate::crypto::stage12_spec(base_addr, p as u8),
                    crate::crypto::stage12_spec((base_addr + 4) as u32, p as u8),
                ));
            }
            assert forall|p: int| 0 <= p < 4 implies #[trigger] this.stage3_buffer(p) == primed(
                crate::crypto::stage3_spec(base_addr, p as u8),
                crate::crypto::stage3_spec((base_addr + 4) as u32, p as u8),
            ) by {
                lemma_xor_algebra(
                    crate::crypto::stage3_spec(base_addr, p as u8),
                    crate::crypto::stage3_spec((base_addr + 4) as u32, p as u8),
                );
                assert(this.stage3_buffer(p) =~= primed(
                    crate::crypto::stage3_spec(base_addr, p as u8),
                    crate::crypto::stage3_spec((base_addr + 4) as u32, p as u8),
                ));
            }
        }
        Ok(this)
    }

    /// Reads the next block and feeds it, and the stage outputs for its
    /// address, into the buffers.  Returns the block's address, or `None`
    /// at the end of the image.  After an error the buffers are not to be
    /// used any more.
    pub fn update(&mut self) -> (r: Result<Option<u32>, SearchError>)
        requires
            old(self).filled(),
        ensures
            r is Ok && old(self).wf() ==> final(self).wf(),
            final(self).base() == old(self).base(),
            final(self).held() <= old(self).held(),
            match r {
                Ok(None) => {
                    &&& old(self).pending().len() == 0
                    &&& final(self).filled()
                    &&& final(self).consumed() == old(self).consumed()
                    &&& final(self).pending() == old(self).pending()
                    &&& final(self).image() == old(self).image()
                    &&& final(self).consumed() == old(self).image()
                    &&& final(self).pending() == Seq::<u8>::empty()
                },
                Ok(Some(addr)) => {
                    &&& old(self).pending().len() >= 4
                    &&& addr == old(self).base() + old(self).consumed().len()
                    &&& addr + 4 <= u32::MAX
                    &&& final(self).filled()
                    &&& final(self).consumed() == old(self).consumed() + old(self).pending().take(4)
                    &&& final(self).pending() == old(self).pending().skip(4)
                    &&& final(self).image() == old(self).image()
                },
                Err(SearchError::IncompleteBlock) => 0 < old(self).pending().len() < 4,
                Err(SearchError::AddressOverflow) => {
                    &&& old(self).pending().len() >= 4
                    &&& old(self).base() + old(self).consumed().len() + 4 > u32::MAX
                },
                Err(_) => false,
            },
    {
        proof {
            reveal(Bk7231RollingXor::filled);
            reveal(Bk7231RollingXor::image);
        }
        let mut block: [u8; 4] = [0u8, 0u8, 0u8, 0u8];
        let got: usize = self.stream.read(&mut block);
        if got == 0 {
            proof {
                assert(self.stream.pending() =~= old(self).stream.pending());
                assert(self.stream.pending() =~= Seq::<u8>::empty());
                assert(self.image() =~= self.consumed@);
            }
            return Ok(None);
        }
        if got != 4 {
            return Err(SearchError::IncompleteBlock);
        }
        let addr: u32 = self.addr;
        if addr > u32::MAX - 4 {
            return Err(SearchError::AddressOverflow);
        }
        let word: u32 = from_le_bytes(block);
        let ghost before = old(self).consumed@;
        let ghost after = before + old(self).stream.pending().take(4);
        let ghost n = before.len() as int / 4;
        proof {
            assert(block@ =~= old(self).stream.pending().take(4));
            assert(word == block_word(after, n));
            assert forall|k: int| k < n implies block_word(after, k) == block_word(before, k) by {}
            self.consumed@ = after;
        }
        self.input.update(word);
        proof {
            assert(self.input.0@ =~= window(
                block_word(after, n),
                block_word(after, n - 1),
                block_word(after, n - 2),
            ));
        }
        let ghost fed = *self;
        let mut selector: usize = 0;
        while selector < 4
            invariant
                selector <= 4,
                addr == self.base + 4 * n,
                n >= 0,
                self.stream == fed.stream,
                fed.stream.held() <= old(self).stream.held(),
                self.base == old(self).base,
                self.addr == old(self).addr,
                self.input == fed.input,
                self.consumed == fed.consumed,
                old(self).filled(),
                n == old(self).consumed@.len() as int / 4,
                forall|j: int|
                    0 <= j < selector ==> (#[trigger] self.s12out@[j]).0@ == window(
                        block_stage12(self.base, n, j),
                        block_stage12(self.base, n - 1, j),
                        block_stage12(self.base, n - 2, j),
                    ),
                forall|j: int|
                    0 <= j < selector ==> (#[trigger] self.s3out@[j]).0@ == window(
                        block_stage3(self.base, n, j),
                        block_stage3(self.base, n - 1, j),
                        block_stage3(self.base, n - 2, j),
                    ),
                forall|j: int| selector <= j < 4 ==> #[trigger] self.s12out@[j] == old(self).s12out@[j],
                forall|j: int| selector <= j < 4 ==> #[trigger] self.s3out@[j] == old(self).s3out@[j],
            decreases 4 - selector,
        {
            proof {
                reveal(Bk7231RollingXor::filled);
            }
            let ghost s12_before = self.s12out@[selector as int];
            let ghost s3_before = self.s3out@[selector as int];
            self.s12out[selector].update(stage12(addr, selector as u8));
            self.s3out[selector].update(stage3(addr, selector as u8));
            proof {
                assert(s12_before == old(self).s12out@[selector as int]);
                assert(s3_before == old(self).s3out@[selector as int]);
                assert(self.s12out@[selector as int].0@ =~= window(
                    block_stage12(self.base, n, selector as int),
                    block_stage12(self.base, n - 1, selector as int),
                    block_stage12(self.base, n - 2, selector as int),
                ));
                assert(self.s3out@[selector as int].0@ =~= window(
                    block_stage3(self.base, n, selector as int),
                    block_stage3(self.base, n - 1, selector as int),
                    block_stage3(self.base, n - 2, selector as int),
                ));
            }
            selector += 1;
        }
        self.addr = addr + 4;
        proof {
            assert(after.len() as int / 4 == n + 1);
            assert(self.image() =~= old(self).image());
        }
        Ok(Some(addr))
    }

    /// Base address and position are whole blocks, inside the address space.
    pub proof fn lemma_aligned(&self)
        requires
            self.wf(),
        ensures
            self.base() % 4 == 0,
            self.consumed().len() % 4 == 0,
            self.base() + self.consumed().len() <= u32::MAX,
    {
        reveal(Bk7231RollingXor::filled);
    }

    /// What the state of a scan holds, in terms of the blocks read so far:
    /// the address that follows them, and in each buffer the newest input
    /// and its two newest differences.  Before the first block, inputs
    /// count as zero.
    pub proof fn lemma_buffers(&self)
        requires
            self.filled(),
        ensures
            self.addr() == self.base() + self.consumed().len(),
            ({
                let n = self.consumed().len() as int / 4;
                &&& self.input() == window(
                    block_word(self.consumed(), n - 1),
                    block_word(self.consumed(), n - 2),
                    block_word(self.consumed(), n - 3),
                )
                &&& forall|p: int|
                    0 <= p < 4 ==> #[trigger] self.stage12_buffer(p) == window(
                        block_stage12(self.base(), n - 1, p),
                        block_stage12(self.base(), n - 2, p),
                        block_stage12(self.base(), n - 3, p),
                    )
                &&& forall|p: int|
                    0 <= p < 4 ==> #[trigger] self.stage3_buffer(p) == window(
                        block_stage3(self.base(), n - 1, p),
                        block_stage3(self.base(), n - 2, p),
                        block_stage3(self.base(), n - 3, p),
                    )
            }),
    {
        reveal(Bk7231RollingXor::filled);
    }

    /// The address kept is that of the block to be read next.
    proof fn lemma_addr(&self)
        requires
            self.wf(),
        ensures
            self.addr == self.base + self.consumed@.len(),
            self.consumed@.len() >= 8,
    {
        reveal(Bk7231RollingXor::filled);
    }

    /// The image is as long as what was read and what is to come together.
    pub proof fn lemma_image_len(&self)
        ensures
            self.image().len() == self.consumed().len() + self.pending().len(),
    {
        reveal(Bk7231RollingXor::image);
    }

    /// What the buffers hold, in terms of the image.
    proof fn lemma_slots(&self)
        requires
            self.wf(),
            self.consumed@.len() >= 4,
        ensures
            ({
                let c = self.consumed@.len() as int / 4 - 1;
                let image = self.image();
                &&& self.input.0@[0] == block_word(image, c)
                &&& self.input.0@[1] == block_word(image, c - 1) ^ block_word(image, c)
                &&& self.input.0@[2] == block_word(image, c - 2) ^ block_word(image, c - 1)
                &&& forall|j: int|
                    0 <= j < 4 ==> (#[trigger] self.s3out@[j]).0@[1] == stage3_term(
                        self.base,
                        c - 1,
                        Some(j as u8),
                    ) ^ stage3_term(self.base, c, Some(j as u8))
                &&& forall|j: int|
                    0 <= j < 4 ==> (#[trigger] self.s3out@[j]).0@[2] == stage3_term(
                        self.base,
                        c - 2,
                        Some(j as u8),
                    ) ^ stage3_term(self.base, c - 1, Some(j as u8))
                &&& forall|j: int|
                    0 <= j < 4 ==> (#[trigger] self.s12out@[j]).0@[1] == stage12_term(
                        self.base,
                        c - 1,
                        Some(j as u8),
                    ) ^ stage12_term(self.base, c, Some(j as u8))
                &&& forall|j: int|
                    0 <= j < 4 ==> (#[trigger] self.s12out@[j]).0@[2] == stage12_term(
                        self.base,
                        c - 2,
                        Some(j as u8),
                    ) ^ stage12_term(self.base, c - 1, Some(j as u8))
            }),
    {
        reveal(Bk7231RollingXor::filled);
        reveal(Bk7231RollingXor::image);
        let c = self.consumed@.len() as int / 4 - 1;
        let image = self.image();
        assert forall|k: int| k <= c implies block_word(image, k) == block_word(self.consumed@, k) by {}
    }

    /// Collects the `len` bytes of the image that start `12 - skip` bytes
    /// before the current position: the first ones from the buffers, the
    /// rest by looking ahead in the stream.  `None` if the image ends
    /// before that many bytes.
    fn occurrence_bytes(&mut self, skip: usize, len: usize) -> (r: Option<Vec<u8>>)
        requires
            old(self).wf(),
            1 <= skip <= 4,
            old(self).consumed().len() >= 8,
            skip == 4 || old(self).consumed().len() >= 12,
        ensures
            final(self).wf(),
            final(self).base() == old(self).base(),
            final(self).consumed() == old(self).consumed(),
            final(self).pending() == old(self).pending(),
            final(self).image() == old(self).image(),
            final(self).held() <= old(self).held() || final(self).held() <= len,
            ({
                let start = old(self).consumed().len() - 12 + skip;
                match r {
                    Some(v) => start + len <= old(self).image().len() && v@ == old(
                        self,
                    ).image().subrange(start, start + len),
                    None => start + len > old(self).image().len(),
                }
            }),
    {
        proof {
            reveal(Bk7231RollingXor::filled);
            reveal(Bk7231RollingXor::image);
        }
        let x0: u32 = self.input.0[0];
        let x1: u32 = self.input.0[1] ^ x0;
        let x2: u32 = self.input.0[2] ^ x1;
        let ghost image = self.image();
        let ghost c = self.consumed@.len() as int / 4 - 1;
        let ghost start = self.consumed@.len() - 12 + skip;
        proof {
            self.lemma_slots();
            lemma_xor_algebra(block_word(image, c - 1), block_word(image, c));
            lemma_xor_algebra(block_word(image, c - 2), block_word(image, c - 1));
            assert(x1 == block_word(image, c - 1));
            assert(x2 == block_word(image, c - 2));
        }
        let b0: [u8; 4] = to_le_bytes(x0);
        let b1: [u8; 4] = to_le_bytes(x1);
        let b2: [u8; 4] = to_le_bytes(x2);
        let mut input: Vec<u8> = Vec::new();
        let mut i: usize = skip;
        while i < 12 && input.len() < len
            invariant
                skip <= i <= 12,
                1 <= skip <= 4,
                input@.len() == i - skip,
                input@.len() <= len,
                c >= 1,
                skip == 4 || c >= 2,
                start == 4 * (c + 1) - 12 + skip,
                4 * (c + 1) <= image.len(),
                forall|k: int| 0 <= k < 4 ==> #[trigger] b0@[k] == crate::bits::byte_of(block_word(image, c), k),
                forall|k: int|
                    0 <= k < 4 ==> #[trigger] b1@[k] == crate::bits::byte_of(block_word(image, c - 1), k),
                forall|k: int|
                    0 <= k < 4 ==> #[trigger] b2@[k] == crate::bits::byte_of(block_word(image, c - 2), k),
                forall|j: int| 0 <= j < input@.len() ==> #[trigger] input@[j] == image[start + j],
            decreases 12 - i,
        {
            let byte: u8 = if i < 4 {
                b2[i]
            } else if i < 8 {
                b1[i - 4]
            } else {
                b0[i - 8]
            };
            proof {
                let pos = 4 * (c + 1) - 12 + i;
                lemma_block_byte(image, pos);
                assert(pos / 4 == c - 2 + i as int / 4);
                assert(pos % 4 == i as int % 4);
            }
            input.push(byte);
            i += 1;
        }
        let prefix_len: usize = input.len();
        while input.len() < len
            invariant
                prefix_len <= input@.len() <= len,
                forall|j: int| 0 <= j < prefix_len ==> #[trigger] input@[j] == image[start + j],
            decreases len - input@.len(),
        {
            input.push(0u8);
        }
        let ghost padded = input@;
        let slice: &mut [u8] = input.as_mut_slice();
        let (head, rest) = slice.split_at_mut(prefix_len);
        let read: usize = self.stream.peek(rest);
        if read < len - prefix_len {
            return None;
        }
        proof {
            let pending = old(self).stream.pending();
            assert(prefix_len < len ==> prefix_len == 12 - skip);
            assert(rest@ =~= pending.take(read as int));
            assert(image == old(self).consumed@ + pending);
            assert(input@ =~= image.subrange(start, start + len)) by {
                assert(input@ == head@ + rest@);
                assert(head@ == padded.subrange(0, prefix_len as int));
                assert forall|j: int| 0 <= j < len implies input@[j] == image[start + j] by {
                    if j < prefix_len {
                        assert(input@[j] == head@[j]);
                        assert(head@[j] == padded[j]);
                    } else {
                        assert(input@[j] == rest@[j - prefix_len]);
                        assert(rest@[j - prefix_len] == pending[j - prefix_len]);
                    }
                }
            }
        }
        Some(input)
    }
}

/// Pairs each choice for a stage, the four parameters and then "off",
/// with `block` after that stage's buffered difference in slot `I` was
/// taken off it.
pub fn all_selectors<const I: usize>(buffers: &[RollingXor<u32>; 4], block: u32) -> (r: [(
    Option<u8>,
    u32,
); 5])
    requires
        I < 3,
    ensures
        forall|i: int|
            0 <= i < 4 ==> #[trigger] r@[i] == (Some(i as u8), block ^ buffers@[i].0@[I as int]),
        r@[4] == (None::<u8>, block),
{
    [
        (Some(0u8), block ^ buffers[0].0[I]),
        (Some(1u8), block ^ buffers[1].0[I]),
        (Some(2u8), block ^ buffers[2].0[I]),
        (Some(3u8), block ^ buffers[3].0[I]),
        (None, block),
    ]
}

/// The little-endian half-word at offset `x` of `bytes`.
fn half_word_at(bytes: &[u8], x: usize) -> (r: u16)
    requires
        x + 2 <= bytes@.len(),
    ensures
        r == crate::bits::half_at(bytes@, x as int),
{
    (bytes[x] as u16) | ((bytes[x + 1] as u16) << 8)
}

/// Which entry of the comparison table pass `offset` of its construction
/// fills.
pub open spec fn table_index(offset: int) -> int {
    if offset == 0 {
        0
    } else if offset == 1 {
        3
    } else if offset == 2 {
        2
    } else {
        1
    }
}

/// Preprocesses the known plaintext into the comparison table.  For each
/// of the four places an occurrence can start at relative to a block, it
/// holds a half-word to find first (in the low half of a block for the
/// first two entries, in the high half for the last two), the half-word
/// that must then precede it in the stream, and the offset of the latter
/// in the plaintext.
pub fn matchers(search: &[u8]) -> (table: [(u16, u16, u8); 4])
    requires
        search@.len() >= 9,
    ensures
        forall|q: int| 0 <= q < 4 ==> #[trigger] table@[q] == matcher(search@, q),
{
    let mut table: [(u16, u16, u8); 4] = [(0u16, 0u16, 0u8), (0u16, 0u16, 0u8), (0u16, 0u16, 0u8), (
        0u16,
        0u16,
        0u8,
    )];
    let mut offset: usize = 0;
    while offset < 4
        invariant
            offset <= 4,
            search@.len() >= 9,
            forall|o: int|
                0 <= o < offset ==> #[trigger] table@[table_index(o)] == matcher(
                    search@,
                    table_index(o),
                ),
        decreases 4 - offset,
    {
        let stream_offset: usize = (offset + 4 + 1) & !1usize;
        assert(5usize & !1usize == 4 && 6usize & !1usize == 6 && 7usize & !1usize == 6 && 8usize
            & !1usize == 8 && 4usize & 2 == 0 && 6usize & 2 == 2 && 8usize & 2 == 0 && 4usize & 1 == 0
            && 5usize & 1 == 1) by (bit_vector);
        let at: usize = stream_offset - offset;
        let index: usize = (stream_offset & 2) + (at & 1);
        let first: u16 = half_word_at(search, at + 2) ^ half_word_at(search, at - 2);
        let second: u16 = half_word_at(search, at) ^ half_word_at(search, at - 4);
        let ghost before = table@;
        table[index] = (first, second, at as u8);
        proof {
            assert(index == table_index(offset as int));
            assert(table@[index as int] == matcher(search@, index as int));
            assert forall|o: int| 0 <= o < offset implies #[trigger] table@[table_index(o)] == matcher(
                search@,
                table_index(o),
            ) by {
                assert(table_index(o) != index);
                assert(before[table_index(o)] == matcher(search@, table_index(o)));
            }
        }
        offset += 1;
    }
    proof {
        assert forall|q: int| 0 <= q < 4 implies #[trigger] table@[q] == matcher(search@, q) by {
            let o = table_index(q);
            assert(table_index(o) == q);
        }
    }
    table
}

/// The byte-wise XOR of two strings of one length.
fn xor_bytes(a: &[u8], b: &[u8]) -> (r: Vec<u8>)
    requires
        a@.len() == b@.len(),
    ensures
        r@.len() == a@.len(),
        forall|i: int| 0 <= i < r@.len() ==> #[trigger] r@[i] == a@[i] ^ b@[i],
{
    let mut r: Vec<u8> = Vec::new();
    let mut i: usize = 0;
    while i < a.len()
        invariant
            i <= a@.len(),
            a@.len() == b@.len(),
            r@.len() == i,
            forall|j: int| 0 <= j < i ==> #[trigger] r@[j] == a@[j] ^ b@[j],
        decreases a@.len() - i,
    {
        r.push(a[i] ^ b[i]);
        i += 1;
    }
    r
}


/// A choice for a selector slot that the search tries: off, or one of 0..=3.
pub open spec fn tried(sel: Option<u8>) -> bool {
    sel matches Some(p) ==> p < 4
}

/// Where the plaintext occurs at a candidate, the cheap comparison on the
/// block itself hits.
pub proof fn lemma_occurrence_passes_first(
    image: Seq<u8>,
    base: u32,
    pattern: Seq<u8>,
    c: int,
    q: int,
    s3: Option<u8>,
    first: Option<u8>,
    second: Option<u8>,
)
    requires
        base % 4 == 0,
        pattern.len() >= 9,
        0 <= q < 4,
        0 <= c,
        4 * c + 4 <= image.len(),
        base + 4 * c <= u32::MAX,
        crate::matching::occurs(
            image,
            base,
            pattern,
            candidate_selectors(q, s3, first, second),
            window_offset(c, q),
        ),
    ensures
        crate::bits::half_of(filter_word(image, base, c, s3, first), q / 2) == matcher(pattern, q).0,
{
    let sel = candidate_selectors(q, s3, first, second);
    let at = window_offset(c, q);
    let x = 6 + q % 2;
    assert(sel[2] == s3);
    assert(q < 2 ==> sel[1] == first);
    assert(q >= 2 ==> sel[0] == first);
    assert(at + x == 4 * c + 2 * (q / 2));
    assert((at + x) / 4 == c && ((at + x) % 4) / 2 == q / 2 && (at + x) % 2 == 0);
    lemma_occurrence_shows_difference(image, base, pattern, sel, at, x);
    lemma_filter_word_halves(image, base, c, sel);
}

/// Where the plaintext occurs at a candidate, the comparison on the
/// sixteen bits of stream before the block's half-word hits.
pub proof fn lemma_occurrence_passes_second(
    image: Seq<u8>,
    base: u32,
    pattern: Seq<u8>,
    c: int,
    q: int,
    s3: Option<u8>,
    first: Option<u8>,
    second: Option<u8>,
)
    requires
        base % 4 == 0,
        pattern.len() >= 9,
        0 <= q < 4,
        0 <= c,
        4 * c + 4 <= image.len(),
        base + 4 * c <= u32::MAX,
        crate::matching::occurs(
            image,
            base,
            pattern,
            candidate_selectors(q, s3, first, second),
            window_offset(c, q),
        ),
    ensures
        crate::bits::half_of(
            filter_word(image, base, if q < 2 { c - 1 } else { c }, s3, second),
            1 - q / 2,
        ) == matcher(pattern, q).1,
{
    let sel = candidate_selectors(q, s3, first, second);
    let at = window_offset(c, q);
    let x = 4 + q % 2;
    let k = if q < 2 { c - 1 } else { c };
    assert(sel[2] == s3);
    assert(q < 2 ==> sel[0] == second);
    assert(q >= 2 ==> sel[1] == second);
    assert(at + x == 4 * k + 2 * (1 - q / 2));
    assert((at + x) / 4 == k && ((at + x) % 4) / 2 == 1 - q / 2 && (at + x) % 2 == 0);
    lemma_occurrence_shows_difference(image, base, pattern, sel, at, x);
    lemma_filter_word_halves(image, base, k, sel);
}

/// Where the cheap comparison misses, no choice for the remaining stage
/// gives an occurrence.
pub proof fn lemma_miss_is_empty(
    image: Seq<u8>,
    base: u32,
    pattern: Seq<u8>,
    c: int,
    q: int,
    s3: Option<u8>,
    first: Option<u8>,
)
    requires
        base % 4 == 0,
        pattern.len() >= 9,
        0 <= q < 4,
        0 <= c,
        4 * c + 4 <= image.len(),
        base + 4 * c <= u32::MAX,
        crate::bits::half_of(filter_word(image, base, c, s3, first), q / 2) != matcher(pattern, q).0,
    ensures
        verified_seq(image, base, pattern, c, s3, first, q) == Seq::<Match>::empty(),
{
    let f = candidate_piece(image, base, pattern, c, s3, first, q);
    assert forall|i: int| 0 <= i < 5 implies (#[trigger] f(i)).len() == 0 by {
        let second = crate::matching::nth_selector(i);
        if crate::matching::occurs(
            image,
            base,
            pattern,
            candidate_selectors(q, s3, first, second),
            window_offset(c, q),
        ) {
            lemma_occurrence_passes_first(image, base, pattern, c, q, s3, first, second);
        }
    }
    crate::matching::lemma_concat_empty(f, 5);
}

/// The full check of one candidate: fetches the bytes the occurrence
/// would cover, `12 - skip` bytes before the current position, derives the
/// key from them, and adds a record to `found` if one key fits them all.
fn check_candidate<R: ByteSource>(
    stream: &mut Bk7231RollingXor<R>,
    search: &[u8],
    match_addr: u32,
    selectors: [Option<u8>; 3],
    skip: usize,
    found: &mut Vec<Match>,
)
    requires
        old(stream).wf(),
        search@.len() >= 9,
        1 <= skip <= 4,
        old(stream).consumed().len() >= 8,
        skip == 4 || old(stream).consumed().len() >= 12,
        match_addr == old(stream).base() + old(stream).consumed().len() - 12 + skip,
        match_addr + search@.len() <= 0x1_0000_0000,
        crate::crypto::selectors_ok(selectors),
    ensures
        final(stream).wf(),
        final(stream).base() == old(stream).base(),
        final(stream).consumed() == old(stream).consumed(),
        final(stream).pending() == old(stream).pending(),
        final(stream).image() == old(stream).image(),
        final(stream).held() <= old(stream).held() || final(stream).held() <= search@.len(),
        final(found)@ == old(found)@ + crate::matching::found_at(
            old(stream).image(),
            old(stream).base(),
            search@,
            selectors,
            old(stream).consumed().len() - 12 + skip,
        ),
{
    let ghost image = stream.image();
    let ghost at = stream.consumed().len() - 12 + skip;
    // obtain the bytes of input belonging to the occurrence
    match stream.occurrence_bytes(skip, search.len()) {
        None => {},
        Some(input) => {
            // calculate/verify the key
            let keystream: Vec<u8> = xor_bytes(input.as_slice(), search);
            proof {
                assert(keystream@ =~= crate::matching::residue(image, search@, at));
            }
            match calculate_key(match_addr, selectors, keystream.as_slice()) {
                Some(key) => {
                    let settings: u32 = format_settings_word(selectors);
                    found.push(Match { addr: match_addr, key, settings });
                },
                None => {},
            }
        },
    }
    proof {
        assert(found@ =~= old(found)@ + crate::matching::found_at(
            image,
            stream.base(),
            search@,
            selectors,
            at,
        ));
    }
}

/// The table entry that leads to an occurrence `lead` bytes before the
/// block in whose half `half` the cheap comparison hit.
pub open spec fn entry_of(half: int, lead: int) -> int {
    if half == 0 {
        lead - 6
    } else {
        lead - 2
    }
}

/// Checks one candidate: compares the sixteen bits of stream that precede
/// the hit, `word` holding them with the candidate's stages taken off,
/// and where they fit, runs the full check.
fn follow_up<const HALF: usize, R: ByteSource>(
    stream: &mut Bk7231RollingXor<R>,
    search: &[u8],
    match_addr: u32,
    lead: u32,
    expected: u16,
    word: u32,
    s3sel: Option<u8>,
    first: Option<u8>,
    second: Option<u8>,
    found: &mut Vec<Match>,
)
    requires
        old(stream).wf(),
        search@.len() >= 9,
        HALF < 2,
        HALF == 0 ==> 6 <= lead <= 7,
        HALF == 1 ==> 4 <= lead <= 5,
        old(stream).consumed().len() >= 4 + lead,
        match_addr == old(stream).base() + old(stream).consumed().len() - 4 - lead,
        match_addr + search@.len() <= 0x1_0000_0000,
        tried(s3sel),
        tried(first),
        tried(second),
        expected == matcher(search@, entry_of(HALF as int, lead as int)).1,
        word == filter_word(
            old(stream).image(),
            old(stream).base(),
            old(stream).consumed().len() as int / 4 - 2 + HALF,
            s3sel,
            second,
        ),
    ensures
        final(stream).wf(),
        final(stream).base() == old(stream).base(),
        final(stream).consumed() == old(stream).consumed(),
        final(stream).pending() == old(stream).pending(),
        final(stream).image() == old(stream).image(),
        final(stream).held() <= old(stream).held() || final(stream).held() <= search@.len(),
        final(found)@ == old(found)@ + crate::matching::found_at(
            old(stream).image(),
            old(stream).base(),
            search@,
            candidate_selectors(entry_of(HALF as int, lead as int), s3sel, first, second),
            window_offset(
                old(stream).consumed().len() as int / 4 - 1,
                entry_of(HALF as int, lead as int),
            ),
        ),
{
    let ghost image = stream.image();
    let ghost base = stream.base();
    let ghost c = stream.consumed().len() as int / 4 - 1;
    let ghost q = entry_of(HALF as int, lead as int);
    let ghost sel = candidate_selectors(q, s3sel, first, second);
    let ghost at = window_offset(c, q);
    proof {
        stream.lemma_aligned();
        stream.lemma_image_len();
        assert(at == 4 * c - lead);
        assert(q / 2 == HALF as int);
    }
    if expected == half(word, 1 - HALF) {
        let selectors: [Option<u8>; 3] = if HALF == 0 {
            [second, first, s3sel]
        } else {
            [first, second, s3sel]
        };
        assert(selectors =~= sel);
        check_candidate(stream, search, match_addr, selectors, (8 - lead) as usize, found);
    } else {
        proof {
            if crate::matching::occurs(image, base, search@, sel, at) {
                lemma_occurrence_passes_second(image, base, search@, c, q, s3sel, first, second);
            }
            assert(found@ =~= old(found)@ + crate::matching::found_at(image, base, search@, sel, at));
        }
    }
}

/// Follows up a hit of the cheap comparison.  With stage three and the
/// stage under the half-word that hit fixed, tries every choice for the
/// remaining stage: compares the sixteen bits of stream before the hit,
/// and where they fit as well, fetches the bytes the occurrence would
/// cover and derives the key from them.  Every occurrence found is added
/// to `found`.
pub fn verify_preliminary_match<const HALF: usize, const BLOCK: usize, R: ByteSource>(
    stream: &mut Bk7231RollingXor<R>,
    search: &[u8],
    addr: u32,
    matcher: (u16, u8),
    selectors: [Option<u8>; 2],
    found: &mut Vec<Match>,
)
    requires
        old(stream).wf(),
        search@.len() >= 9,
        HALF < 2,
        BLOCK == 2 - HALF,
        old(stream).consumed().len() >= 4,
        addr == old(stream).base() + old(stream).consumed().len() - 4,
        matcher.1 == 4 || matcher.1 == 5,
        matcher.0 == diff_half(search@, matcher.1 as int),
        tried(selectors[0]),
        tried(selectors[1]),
    ensures
        final(stream).wf(),
        final(stream).base() == old(stream).base(),
        final(stream).consumed() == old(stream).consumed(),
        final(stream).pending() == old(stream).pending(),
        final(stream).image() == old(stream).image(),
        final(stream).held() <= old(stream).held() || final(stream).held() <= search@.len(),
        final(found)@ == old(found)@ + verified_seq(
            old(stream).image(),
            old(stream).base(),
            search@,
            old(stream).consumed().len() as int / 4 - 1,
            selectors[0],
            selectors[1],
            2 * HALF + matcher.1 - 4,
        ),
{
    let s3sel: Option<u8> = selectors[0];
    let first: Option<u8> = selectors[1];
    let ghost image = stream.image();
    let ghost base = stream.base;
    let ghost c = stream.consumed@.len() as int / 4 - 1;
    let ghost q: int = 2 * HALF + matcher.1 - 4;
    let ghost piece = candidate_piece(image, base, search@, c, s3sel, first, q);
    proof {
        stream.lemma_aligned();
    }
    let position: u32 = addr - stream.base;
    let lead: u32 = 2 + matcher.1 as u32 - 2 * (HALF as u32);
    assert(window_offset(c, q) == position - lead);
    assert(q == entry_of(HALF as int, lead as int));
    let fits: bool = position >= lead && search.len() as u64 <= 0x1_0000_0000u64 - (addr - lead) as u64;
    if !fits {
        proof {
            assert forall|i: int| 0 <= i < 5 implies (#[trigger] piece(i)).len() == 0 by {}
            crate::matching::lemma_concat_empty(piece, 5);
            assert(found@ =~= old(found)@ + Seq::<Match>::empty());
        }
        return ;
    }
    // 1. get the block containing the previous word, with only stage three applied
    let match_addr: u32 = addr - lead;
    let mut block: u32 = stream.input.0[BLOCK];
    match s3sel {
        Some(x) => {
            block ^= stream.s3out[x as usize].0[BLOCK];
        },
        None => {},
    }
    // 2. apply all choices for the other stage to the other word
    let candidates: [(Option<u8>, u32); 5] = all_selectors::<BLOCK>(&stream.s12out, block);
    let ghost k: int = c - 1 + HALF;
    proof {
        stream.lemma_slots();
        lemma_xor_algebra(stream.input.0@[BLOCK as int], 0);
        assert forall|i: int| 0 <= i < 5 implies (#[trigger] candidates@[i]).0
            == crate::matching::nth_selector(i) && candidates@[i].1 == filter_word(
            image,
            base,
            k,
            s3sel,
            crate::matching::nth_selector(i),
        ) by {
            lemma_xor_algebra(block, 0);
        }
        assert(found@ =~= old(found)@ + crate::matching::concat_upto(piece, 0));
    }
    let mut i: usize = 0;
    while i < 5
        invariant
            i <= 5,
            stream.wf(),
            stream.base() == base,
            stream.consumed() == old(stream).consumed(),
            stream.pending() == old(stream).pending(),
            stream.image() == image,
            stream.held() <= old(stream).held() || stream.held() <= search@.len(),
            search@.len() >= 9,
            HALF < 2,
            HALF == 0 ==> 6 <= lead <= 7,
            HALF == 1 ==> 4 <= lead <= 5,
            q == entry_of(HALF as int, lead as int),
            matcher.0 == crate::search::matcher(search@, q).1,
            c == stream.consumed().len() as int / 4 - 1,
            k == c - 1 + HALF,
            stream.consumed().len() >= 4 + lead,
            match_addr == base + stream.consumed().len() - 4 - lead,
            match_addr + search@.len() <= 0x1_0000_0000,
            tried(s3sel),
            tried(first),
            piece == candidate_piece(image, base, search@, c, s3sel, first, q),
            forall|j: int|
                0 <= j < 5 ==> (#[trigger] candidates@[j]).0 == crate::matching::nth_selector(j)
                    && candidates@[j].1 == filter_word(
                    image,
                    base,
                    k,
                    s3sel,
                    crate::matching::nth_selector(j),
                ),
            found@ == old(found)@ + crate::matching::concat_upto(piece, i as int),
        decreases 5 - i,
    {
        let (second, word) = candidates[i];
        let ghost before = found@;
        follow_up::<HALF, R>(
            stream,
            search,
            match_addr,
            lead,
            matcher.0,
            word,
            s3sel,
            first,
            second,
            found,
        );
        proof {
            assert(found@ == before + piece(i as int));
            assert(crate::matching::concat_upto(piece, i + 1) == crate::matching::concat_upto(
                piece,
                i as int,
            ) + piece(i as int));
        }
        i += 1;
    }
}

/// Runs the cheap comparison for one entry of the comparison table: where
/// the half-word `word` of the block is the one the entry asks for,
/// follows the hit up.
fn scan_entry<const HALF: usize, const BLOCK: usize, R: ByteSource>(
    stream: &mut Bk7231RollingXor<R>,
    search: &[u8],
    entry: (u16, u16, u8),
    addr: u32,
    s3sel: Option<u8>,
    s12sel: Option<u8>,
    word: u16,
    found: &mut Vec<Match>,
)
    requires
        old(stream).wf(),
        search@.len() >= 9,
        HALF < 2,
        BLOCK == 2 - HALF,
        old(stream).consumed().len() >= 4,
        addr == old(stream).base() + old(stream).consumed().len() - 4,
        entry.2 == 4 || entry.2 == 5,
        entry == matcher(search@, 2 * HALF + entry.2 - 4),
        tried(s3sel),
        tried(s12sel),
        word == crate::bits::half_of(
            filter_word(
                old(stream).image(),
                old(stream).base(),
                old(stream).consumed().len() as int / 4 - 1,
                s3sel,
                s12sel,
            ),
            HALF as int,
        ),
    ensures
        final(stream).wf(),
        final(stream).base() == old(stream).base(),
        final(stream).consumed() == old(stream).consumed(),
        final(stream).pending() == old(stream).pending(),
        final(stream).image() == old(stream).image(),
        final(stream).held() <= old(stream).held() || final(stream).held() <= search@.len(),
        final(found)@ == old(found)@ + verified_seq(
            old(stream).image(),
            old(stream).base(),
            search@,
            old(stream).consumed().len() as int / 4 - 1,
            s3sel,
            s12sel,
            2 * HALF + entry.2 - 4,
        ),
{
    let (m1, m2, offset) = entry;
    if m1 == word {
        verify_preliminary_match::<HALF, BLOCK, R>(stream, search, addr, (m2, offset), [s3sel, s12sel], found);
    } else {
        proof {
            let c = stream.consumed().len() as int / 4 - 1;
            let q: int = 2 * HALF + entry.2 - 4;
            stream.lemma_aligned();
            stream.lemma_image_len();
            assert(q / 2 == HALF as int);
            lemma_miss_is_empty(stream.image(), stream.base(), search@, c, q, s3sel, s12sel);
            assert(found@ =~= old(found)@ + Seq::<Match>::empty());
        }
    }
}

/// Runs the cheap comparison for one pair of choices, for stage three and
/// for the stage under the half-word compared, against all four entries
/// of the comparison table, and follows up every hit.  `block` is the
/// difference of the newest two blocks with the chosen stage differences
/// taken off.
fn scan_pair<R: ByteSource>(
    stream: &mut Bk7231RollingXor<R>,
    search: &[u8],
    table: &[(u16, u16, u8); 4],
    addr: u32,
    s3sel: Option<u8>,
    s12sel: Option<u8>,
    block: u32,
    found: &mut Vec<Match>,
)
    requires
        old(stream).wf(),
        search@.len() >= 9,
        old(stream).consumed().len() >= 4,
        addr == old(stream).base() + old(stream).consumed().len() - 4,
        forall|q: int| 0 <= q < 4 ==> #[trigger] table@[q] == matcher(search@, q),
        tried(s3sel),
        tried(s12sel),
        block == filter_word(
            old(stream).image(),
            old(stream).base(),
            old(stream).consumed().len() as int / 4 - 1,
            s3sel,
            s12sel,
        ),
    ensures
        final(stream).wf(),
        final(stream).base() == old(stream).base(),
        final(stream).consumed() == old(stream).consumed(),
        final(stream).pending() == old(stream).pending(),
        final(stream).image() == old(stream).image(),
        final(stream).held() <= old(stream).held() || final(stream).held() <= search@.len(),
        final(found)@ == old(found)@ + pair_seq(
            old(stream).image(),
            old(stream).base(),
            search@,
            old(stream).consumed().len() as int / 4 - 1,
            s3sel,
            s12sel,
        ),
{
    let ghost image = stream.image();
    let ghost base = stream.base();
    let ghost c = stream.consumed().len() as int / 4 - 1;
    let ghost piece = entry_piece(image, base, search@, c, s3sel, s12sel);
    proof {
        assert(found@ =~= old(found)@ + crate::matching::concat_upto(piece, 0));
    }
    let mut q: usize = 0;
    let word: u16 = half(block, 0);
    while q < 2
        invariant
            q <= 2,
            stream.wf(),
            stream.base() == base,
            stream.consumed() == old(stream).consumed(),
            stream.pending() == old(stream).pending(),
            stream.image() == image,
            stream.held() <= old(stream).held() || stream.held() <= search@.len(),
            search@.len() >= 9,
            c == stream.consumed().len() as int / 4 - 1,
            stream.consumed().len() >= 4,
            addr == base + stream.consumed().len() - 4,
            forall|j: int| 0 <= j < 4 ==> #[trigger] table@[j] == matcher(search@, j),
            tried(s3sel),
            tried(s12sel),
            word == crate::bits::half_of(filter_word(image, base, c, s3sel, s12sel), 0),
            piece == entry_piece(image, base, search@, c, s3sel, s12sel),
            found@ == old(found)@ + crate::matching::concat_upto(piece, q as int),
        decreases 2 - q,
    {
        let ghost before = found@;
        proof {
            assert(table@[q as int] == matcher(search@, q as int));
            assert(q as int % 2 == q as int);
            assert(table@[q as int].2 == 4 + q);
        }
        scan_entry::<0, 2, R>(stream, search, table[q], addr, s3sel, s12sel, word, found);
        proof {
            assert(found@ == before + piece(q as int));
            assert(crate::matching::concat_upto(piece, q + 1) == crate::matching::concat_upto(
                piece,
                q as int,
            ) + piece(q as int));
        }
        q += 1;
    }
    let word: u16 = half(block, 1);
    while q < 4
        invariant
            2 <= q <= 4,
            stream.wf(),
            stream.base() == base,
            stream.consumed() == old(stream).consumed(),
            stream.pending() == old(stream).pending(),
            stream.image() == image,
            stream.held() <= old(stream).held() || stream.held() <= search@.len(),
            search@.len() >= 9,
            c == stream.consumed().len() as int / 4 - 1,
            stream.consumed().len() >= 4,
            addr == base + stream.consumed().len() - 4,
            forall|j: int| 0 <= j < 4 ==> #[trigger] table@[j] == matcher(search@, j),
            tried(s3sel),
            tried(s12sel),
            word == crate::bits::half_of(filter_word(image, base, c, s3sel, s12sel), 1),
            piece == entry_piece(image, base, search@, c, s3sel, s12sel),
            found@ == old(found)@ + crate::matching::concat_upto(piece, q as int),
        decreases 4 - q,
    {
        let ghost before = found@;
        proof {
            assert(table@[q as int] == matcher(search@, q as int));
            assert(q as int % 2 == q as int - 2);
            assert(table@[q as int].2 == 2 + q);
        }
        scan_entry::<1, 1, R>(stream, search, table[q], addr, s3sel, s12sel, word, found);
        proof {
            assert(found@ == before + piece(q as int));
            assert(crate::matching::concat_upto(piece, q + 1) == crate::matching::concat_upto(
                piece,
                q as int,
            ) + piece(q as int));
        }
        q += 1;
    }
}

/// Scans the block read last, at `addr`: for each of the 25 pairs of
/// choices for stage three and for stage one or two, takes the stage
/// differences off the block difference and hands the result to the cheap
/// comparison.
fn scan_block<R: ByteSource>(
    stream: &mut Bk7231RollingXor<R>,
    search: &[u8],
    table: &[(u16, u16, u8); 4],
    addr: u32,
    found: &mut Vec<Match>,
)
    requires
        old(stream).wf(),
        search@.len() >= 9,
        old(stream).consumed().len() >= 4,
        addr == old(stream).base() + old(stream).consumed().len() - 4,
        forall|q: int| 0 <= q < 4 ==> #[trigger] table@[q] == matcher(search@, q),
    ensures
        final(stream).wf(),
        final(stream).base() == old(stream).base(),
        final(stream).consumed() == old(stream).consumed(),
        final(stream).pending() == old(stream).pending(),
        final(stream).image() == old(stream).image(),
        final(stream).held() <= old(stream).held() || final(stream).held() <= search@.len(),
        final(found)@ == old(found)@ + block_seq(
            old(stream).image(),
            old(stream).base(),
            search@,
            old(stream).consumed().len() as int / 4 - 1,
        ),
{
    let ghost image = stream.image();
    let ghost base = stream.base();
    let ghost c = stream.consumed().len() as int / 4 - 1;
    let ghost outer = stage3_piece(image, base, search@, c);
    proof {
        reveal(block_seq);
    }
    let block: u32 = stream.input.0[1];
    let by_stage3: [(Option<u8>, u32); 5] = all_selectors::<1>(&stream.s3out, block);
    proof {
        stream.lemma_slots();
        lemma_xor_algebra(block, 0);
        assert(found@ =~= old(found)@ + crate::matching::concat_upto(outer, 0));
        assert forall|i: int| 0 <= i < 5 implies (#[trigger] by_stage3@[i]).0
            == crate::matching::nth_selector(i) && by_stage3@[i].1 == (block_word(image, c - 1)
            ^ block_word(image, c)) ^ (stage3_term(base, c - 1, crate::matching::nth_selector(i))
            ^ stage3_term(base, c, crate::matching::nth_selector(i))) by {}
    }
    let mut i3: usize = 0;
    while i3 < 5
        invariant
            i3 <= 5,
            stream.wf(),
            stream.base() == base,
            stream.consumed() == old(stream).consumed(),
            stream.pending() == old(stream).pending(),
            stream.image() == image,
            stream.held() <= old(stream).held() || stream.held() <= search@.len(),
            search@.len() >= 9,
            c == stream.consumed().len() as int / 4 - 1,
            stream.consumed().len() >= 4,
            addr == base + stream.consumed().len() - 4,
            forall|j: int| 0 <= j < 4 ==> #[trigger] table@[j] == matcher(search@, j),
            outer == stage3_piece(image, base, search@, c),
            forall|i: int|
                0 <= i < 5 ==> (#[trigger] by_stage3@[i]).0 == crate::matching::nth_selector(i)
                    && by_stage3@[i].1 == (block_word(image, c - 1) ^ block_word(image, c)) ^ (
                stage3_term(base, c - 1, crate::matching::nth_selector(i)) ^ stage3_term(
                    base,
                    c,
                    crate::matching::nth_selector(i),
                )),
            found@ == old(found)@ + crate::matching::concat_upto(outer, i3 as int),
        decreases 5 - i3,
    {
        let (s3sel, block3) = by_stage3[i3];
        let by_stage12: [(Option<u8>, u32); 5] = all_selectors::<1>(&stream.s12out, block3);
        let ghost inner = pair_piece(image, base, search@, c, s3sel);
        let ghost entered = found@;
        proof {
            stream.lemma_slots();
            lemma_xor_algebra(block3, 0);
            assert(found@ =~= entered + crate::matching::concat_upto(inner, 0));
            assert forall|i: int| 0 <= i < 5 implies (#[trigger] by_stage12@[i]).0
                == crate::matching::nth_selector(i) && by_stage12@[i].1 == filter_word(
                image,
                base,
                c,
                s3sel,
                crate::matching::nth_selector(i),
            ) by {}
        }
        let mut i12: usize = 0;
        while i12 < 5
            invariant
                i12 <= 5,
                stream.wf(),
                stream.base() == base,
                stream.consumed() == old(stream).consumed(),
                stream.pending() == old(stream).pending(),
                stream.image() == image,
                stream.held() <= old(stream).held() || stream.held() <= search@.len(),
                search@.len() >= 9,
                c == stream.consumed().len() as int / 4 - 1,
                stream.consumed().len() >= 4,
                addr == base + stream.consumed().len() - 4,
                forall|j: int| 0 <= j < 4 ==> #[trigger] table@[j] == matcher(search@, j),
                tried(s3sel),
                inner == pair_piece(image, base, search@, c, s3sel),
                forall|i: int|
                    0 <= i < 5 ==> (#[trigger] by_stage12@[i]).0 == crate::matching::nth_selector(i)
                        && by_stage12@[i].1 == filter_word(
                        image,
                        base,
                        c,
                        s3sel,
                        crate::matching::nth_selector(i),
                    ),
                found@ == entered + crate::matching::concat_upto(inner, i12 as int),
            decreases 5 - i12,
        {
            let (s12sel, block12) = by_stage12[i12];
            let ghost before = found@;
            scan_pair(stream, search, table, addr, s3sel, s12sel, block12, found);
            proof {
                assert(found@ =~= before + inner(i12 as int));
                assert(crate::matching::concat_upto(inner, i12 + 1) == crate::matching::concat_upto(
                    inner,
                    i12 as int,
                ) + inner(i12 as int));
            }
            i12 += 1;
        }
        proof {
            assert(found@ =~= entered + outer(i3 as int));
            assert(crate::matching::concat_upto(outer, i3 + 1) == crate::matching::concat_upto(
                outer,
                i3 as int,
            ) + outer(i3 as int));
            assert(found@ =~= old(found)@ + crate::matching::concat_upto(outer, i3 + 1));
        }
        i3 += 1;
    }
}

/// Whether an image of `blocks` whole blocks at `base` reaches the end of
/// the address space.  The scan keeps the address that follows each block
/// it reads, so the last block must end below the top address.
pub open spec fn overflows(base: u32, blocks: int) -> bool {
    base + 4 * blocks > u32::MAX
}

/// How many blocks of an image of `len` bytes at `base` a scan gets
/// through: the whole blocks, as far as they lie inside the address space.
pub open spec fn scanned_blocks(base: u32, len: int) -> int {
    vstd::math::min(len / 4, (u32::MAX - base) / 4)
}

/// The records that a search from the state `stream`, for the plaintext
/// `pattern`, adds to its results, whether it gets to the end of the image
/// or not.  The search begins with the block read last, the one in the
/// buffers.
pub open spec fn search_seq<R: ByteSource>(stream: Bk7231RollingXor<R>, pattern: Seq<u8>) -> Seq<
    Match,
> {
    stream_seq(
        stream.image(),
        stream.base(),
        pattern,
        stream.consumed().len() as int / 4 - 1,
        scanned_blocks(stream.base(), (stream.consumed().len() + stream.pending().len()) as int),
    )
}

/// Searches the rest of the image for the known plaintext `pattern`, in
/// one pass, and adds a record to `found` for every occurrence.
///
/// The search begins with the block read last, the one in the buffers,
/// and so finds the occurrences that start at most eleven bytes before
/// the position of the scan; after `new`, all of them.  They come in the
/// order in which the scan meets them: by the block that holds the eighth
/// byte of the occurrence, then by selectors.  Of the bytes ahead of the
/// scan, no more are held in memory at a time than the plaintext is long,
/// or than were held to begin with.
///
/// A plaintext of fewer than nine bytes is refused before anything is
/// read.  An image that ends inside a block, or runs past the end of the
/// address space, ends the search with an error; what was found up to
/// there is in `found`.
pub fn search<R: ByteSource>(
    stream: &mut Bk7231RollingXor<R>,
    pattern: &[u8],
    found: &mut Vec<Match>,
) -> (r: Result<(), SearchError>)
    requires
        old(stream).wf(),
    ensures
        final(stream).base() == old(stream).base(),
        final(stream).held() <= old(stream).held() || final(stream).held() <= pattern@.len(),
        pattern@.len() < 9 <==> r == Err::<(), SearchError>(SearchError::PatternTooShort),
        r is Ok <==> {
            &&& pattern@.len() >= 9
            &&& old(stream).pending().len() % 4 == 0
            &&& !overflows(
                old(stream).base(),
                (old(stream).consumed().len() as int + old(stream).pending().len()) / 4,
            )
        },
        pattern@.len() < 9 ==> {
            &&& final(stream).wf()
            &&& final(stream).consumed() == old(stream).consumed()
            &&& final(stream).pending() == old(stream).pending()
            &&& final(stream).image() == old(stream).image()
            &&& final(stream).held() == old(stream).held()
            &&& final(found)@ == old(found)@
        },
        pattern@.len() >= 9 ==> final(found)@ == old(found)@ + search_seq(*old(stream), pattern@),
        match r {
            Err(SearchError::PatternTooShort) => true,
            Err(SearchError::AddressOverflow) => overflows(
                old(stream).base(),
                (old(stream).consumed().len() as int + old(stream).pending().len()) / 4,
            ),
            Err(SearchError::IncompleteBlock) => {
                &&& !overflows(
                    old(stream).base(),
                    (old(stream).consumed().len() as int + old(stream).pending().len()) / 4,
                )
                &&& old(stream).pending().len() % 4 != 0
            },
            Err(SearchError::MisalignedBase) => false,
            Err(SearchError::ImageTooShort) => false,
            Ok(()) => {
                &&& !overflows(
                    old(stream).base(),
                    (old(stream).consumed().len() as int + old(stream).pending().len()) / 4,
                )
                &&& old(stream).pending().len() % 4 == 0
                &&& final(stream).wf()
                &&& final(stream).consumed() == old(stream).image()
                &&& final(stream).pending() == Seq::<u8>::empty()
                &&& forall|r: Match|
                    search_seq(*old(stream), pattern@).contains(r)
                        <==> crate::matching::reports_occurrence(
                        old(stream).image(),
                        old(stream).base(),
                        pattern@,
                        old(stream).consumed().len() - 11,
                        r,
                    )
                &&& search_seq(*old(stream), pattern@).no_duplicates()
            },
        },
{
    if pattern.len() < 9 {
        return Err(SearchError::PatternTooShort);
    }
    // preprocess the search string
    let table: [(u16, u16, u8); 4] = matchers(pattern);
    let ghost image = stream.image();
    let ghost base = stream.base();
    let ghost from = stream.consumed().len() as int / 4 - 1;
    let ghost mut blocks: int = from + 1;
    let ghost total = stream.consumed().len() + stream.pending().len();
    let mut failure: Option<SearchError> = None;
    proof {
        stream.lemma_aligned();
        stream.lemma_addr();
        stream.lemma_image_len();
        lemma_stream_seq_extends(image, base, pattern@, from, from);
    }
    // the block that is in the buffers
    let addr: u32 = stream.addr - 4;
    scan_block(stream, pattern, &table, addr, found);
    proof {
        assert(found@ =~= old(found)@ + stream_seq(image, base, pattern@, from, blocks));
    }
    // the actual search
    loop
        invariant_except_break
            stream.wf(),
            stream.image() == image,
            stream.consumed().len() == 4 * blocks,
            total == stream.consumed().len() + stream.pending().len(),
            failure is None,
        invariant
            stream.base() == base,
            stream.held() <= old(stream).held() || stream.held() <= pattern@.len(),
            pattern@.len() >= 9,
            from < blocks,
            4 * blocks <= total,
            forall|q: int| 0 <= q < 4 ==> #[trigger] table@[q] == matcher(pattern@, q),
            found@ == old(found)@ + stream_seq(image, base, pattern@, from, blocks),
        ensures
            base + 4 * blocks <= u32::MAX,
            match failure {
                None => {
                    &&& stream.wf()
                    &&& stream.consumed() == image
                    &&& stream.pending() == Seq::<u8>::empty()
                    &&& total == 4 * blocks
                },
                Some(SearchError::IncompleteBlock) => 0 < total - 4 * blocks < 4,
                Some(SearchError::AddressOverflow) => {
                    &&& total - 4 * blocks >= 4
                    &&& base + 4 * blocks + 4 > u32::MAX
                },
                Some(_) => false,
            },
        decreases total - 4 * blocks,
    {
        let ghost before = found@;
        proof {
            stream.lemma_aligned();
        }
        match scan_next(stream, pattern, &table, found) {
            Err(e) => {
                failure = Some(e);
                break ;
            },
            Ok(false) => {
                break ;
            },
            Ok(true) => {
                proof {
                    lemma_stream_seq_extends(image, base, pattern@, from, blocks);
                    assert(found@ =~= old(found)@ + stream_seq(image, base, pattern@, from, blocks + 1));
                    blocks = blocks + 1;
                }
            },
        }
    }
    proof {
        lemma_whole_blocks(4 * (from + 1), total - 4 * (from + 1), 4 * blocks, total - 4 * blocks);
        lemma_scanned_blocks(base, total as int, blocks);
    }
    match failure {
        Some(e) => Err(e),
        None => {
            proof {
                assert forall|r: Match|
                    stream_seq(image, base, pattern@, from, blocks).contains(r)
                        <==> crate::matching::reports_occurrence(
                        image,
                        base,
                        pattern@,
                        4 * from - 7,
                        r,
                    ) by {
                    crate::equivalence::lemma_stream_reports(image, base, pattern@, from, blocks, r);
                }
                crate::equivalence::lemma_stream_no_duplicates(image, base, pattern@, from, blocks);
            }
            Ok(())
        },
    }
}

/// A scan that has got through `blocks` blocks, all inside the address
/// space, and then met the end of the image, a block cut short, or the
/// end of the address space, has got through `scanned_blocks`.
proof fn lemma_scanned_blocks(base: u32, total: int, blocks: int)
    requires
        base % 4 == 0,
        0 <= blocks,
        4 * blocks <= total,
        base + 4 * blocks <= u32::MAX,
        total - 4 * blocks < 4 || base + 4 * blocks + 4 > u32::MAX,
    ensures
        scanned_blocks(base, total) == blocks,
        overflows(base, total / 4) <==> (total - 4 * blocks >= 4),
{
}

/// Reads the next block, if there is one, and scans it.  Returns whether
/// there was a block.
fn scan_next<R: ByteSource>(
    stream: &mut Bk7231RollingXor<R>,
    pattern: &[u8],
    table: &[(u16, u16, u8); 4],
    found: &mut Vec<Match>,
) -> (r: Result<bool, SearchError>)
    requires
        old(stream).wf(),
        pattern@.len() >= 9,
        forall|q: int| 0 <= q < 4 ==> #[trigger] table@[q] == matcher(pattern@, q),
    ensures
        final(stream).base() == old(stream).base(),
        final(stream).held() <= old(stream).held() || final(stream).held() <= pattern@.len(),
        match r {
            Ok(true) => {
                &&& final(stream).wf()
                &&& final(stream).image() == old(stream).image()
                &&& final(stream).consumed().len() == old(stream).consumed().len() + 4
                &&& final(stream).pending().len() == old(stream).pending().len() - 4
                &&& final(found)@ == old(found)@ + block_seq(
                    old(stream).image(),
                    old(stream).base(),
                    pattern@,
                    old(stream).consumed().len() as int / 4,
                )
            },
            Ok(false) => {
                &&& final(stream).wf()
                &&& final(stream).image() == old(stream).image()
                &&& final(stream).consumed() == old(stream).image()
                &&& final(stream).pending() == Seq::<u8>::empty()
                &&& old(stream).pending().len() == 0
                &&& final(stream).consumed().len() == old(stream).consumed().len()
                &&& final(found)@ == old(found)@
            },
            Err(SearchError::IncompleteBlock) => {
                &&& 0 < old(stream).pending().len() < 4
                &&& old(stream).base() + old(stream).consumed().len() <= u32::MAX
                &&& final(found)@ == old(found)@
            },
            Err(SearchError::AddressOverflow) => {
                &&& old(stream).pending().len() >= 4
                &&& old(stream).base() + old(stream).consumed().len() + 4 > u32::MAX
                &&& final(found)@ == old(found)@
            },
            Err(_) => false,
        },
{
    proof {
        stream.lemma_aligned();
    }
    match stream.update() {
        Err(e) => Err(e),
        Ok(None) => Ok(false),
        Ok(Some(addr)) => {
            proof {
                stream.lemma_aligned();
            }
            scan_block(stream, pattern, table, addr, found);
            Ok(true)
        },
    }
}

/// The scan of no block, or of a range that ends before it begins, adds
/// nothing.
pub proof fn lemma_stream_seq_nothing(image: Seq<u8>, base: u32, pattern: Seq<u8>, from: int, to: int)
    requires
        to <= from,
    ensures
        stream_seq(image, base, pattern, from, to) == Seq::<Match>::empty(),
{
    reveal(stream_seq);
}

/// The scan of blocks `from..to + 1` adds what the scan of `from..to`
/// adds and then what the scan of block `to` adds; the scan of no block
/// adds nothing.
pub proof fn lemma_stream_seq_extends(image: Seq<u8>, base: u32, pattern: Seq<u8>, from: int, to: int)
    requires
        from <= to,
    ensures
        stream_seq(image, base, pattern, from, from) == Seq::<Match>::empty(),
        stream_seq(image, base, pattern, from, to + 1) == stream_seq(image, base, pattern, from, to)
            + block_seq(image, base, pattern, to),
{
    reveal(stream_seq);
    let piece = block_piece(image, base, pattern, from);
    assert(piece(to - from) == block_seq(image, base, pattern, to));
    assert(crate::matching::concat_upto(piece, to - from + 1) == crate::matching::concat_upto(
        piece,
        to - from,
    ) + piece(to - from));
    assert(crate::matching::concat_upto(piece, 0) =~= Seq::<Match>::empty());
}

/// Counting whole blocks from two positions of one stream: `done` bytes
/// read and `left` to come at one time, `done2` and `left2` at another.
proof fn lemma_whole_blocks(done: int, left: int, done2: int, left2: int)
    requires
        done % 4 == 0,
        done2 % 4 == 0,
        0 <= done <= done2,
        0 <= left2,
        done + left == done2 + left2,
    ensures
        (done + left) / 4 == done2 / 4 + left2 / 4,
        left % 4 == left2 % 4,
        left2 >= 4 ==> (done + left) / 4 >= done2 / 4 + 1,
        left2 < 4 ==> (done + left) / 4 == done2 / 4,
        done / 4 * 4 == done,
        done2 / 4 * 4 == done2,
{
}

} // verus!
