//! The batch strategy: the whole image in memory, transformed once under
//! each selector tuple and searched for the plaintext's signature.
use vstd::prelude::*;
use crate::bits::{from_le_bytes, rotate_left, to_le_bytes};
use crate::crypto::{format_settings_word, keystream};
use crate::matching::{Match, SearchError};

verus! {

/// The image with the keystream of the given selectors taken off.  What is
/// left at an occurrence of the plaintext is the plaintext XOR the key.
pub open spec fn transformed(image: Seq<u8>, base: u32, selectors: [Option<u8>; 3]) -> Seq<u8> {
    Seq::new(image.len(), |m: int| image[m] ^ crate::key::cipher_byte(selectors, base + m))
}

/// Each byte XOR the byte one block further on.  In the transformed image
/// this cancels the key.
pub open spec fn differenced(bytes: Seq<u8>) -> Seq<u8> {
    Seq::new(
        if bytes.len() >= 4 {
            (bytes.len() - 4) as nat
        } else {
            0
        },
        |m: int| bytes[m] ^ bytes[m + 4],
    )
}

/// `needle` stands at offset `at` of `hay`.
pub open spec fn stands_at(hay: Seq<u8>, needle: Seq<u8>, at: int) -> bool {
    &&& 0 <= at
    &&& at + needle.len() <= hay.len()
    &&& forall|i: int| 0 <= i < needle.len() ==> #[trigger] hay[at + i] == needle[i]
}

/// What checking offset `at` under one selector tuple adds to the results.
pub open spec fn offset_piece(
    image: Seq<u8>,
    base: u32,
    pattern: Seq<u8>,
    selectors: [Option<u8>; 3],
) -> spec_fn(int) -> Seq<Match> {
    |at: int| crate::matching::found_at(image, base, pattern, selectors, at)
}

/// The records for one selector tuple, by ascending offset.
pub open spec fn tuple_seq(
    image: Seq<u8>,
    base: u32,
    pattern: Seq<u8>,
    selectors: [Option<u8>; 3],
) -> Seq<Match> {
    crate::matching::concat_upto(
        offset_piece(image, base, pattern, selectors),
        image.len() - pattern.len() + 1,
    )
}

/// The selector tuple made of one choice for each stage.
pub open spec fn selector_tuple(s1: Option<u8>, s2: Option<u8>, s3: Option<u8>) -> [Option<u8>; 3] {
    [s1, s2, s3]
}

/// `tuple_seq` as a function of the index of the choice for stage three.
pub open spec fn third_piece(
    image: Seq<u8>,
    base: u32,
    pattern: Seq<u8>,
    s1: Option<u8>,
    s2: Option<u8>,
) -> spec_fn(int) -> Seq<Match> {
    |i: int| tuple_seq(image, base, pattern, selector_tuple(s1, s2, crate::matching::nth_selector(i)))
}

/// The records for one choice for stages one and two.
pub open spec fn second_seq(
    image: Seq<u8>,
    base: u32,
    pattern: Seq<u8>,
    s1: Option<u8>,
    s2: Option<u8>,
) -> Seq<Match> {
    crate::matching::concat_upto(third_piece(image, base, pattern, s1, s2), 5)
}

/// `second_seq` as a function of the index of the choice for stage two.
pub open spec fn second_piece(image: Seq<u8>, base: u32, pattern: Seq<u8>, s1: Option<u8>) -> spec_fn(
    int,
) -> Seq<Match> {
    |i: int| second_seq(image, base, pattern, s1, crate::matching::nth_selector(i))
}

/// The records for one choice for stage one.
pub open spec fn first_seq(image: Seq<u8>, base: u32, pattern: Seq<u8>, s1: Option<u8>) -> Seq<Match> {
    crate::matching::concat_upto(second_piece(image, base, pattern, s1), 5)
}

/// `first_seq` as a function of the index of the choice for stage one.
pub open spec fn first_piece(image: Seq<u8>, base: u32, pattern: Seq<u8>) -> spec_fn(int) -> Seq<
    Match,
> {
    |i: int| first_seq(image, base, pattern, crate::matching::nth_selector(i))
}

/// The records of the batch search, in the order it finds them: selector
/// tuple by selector tuple, and by ascending offset under each.
pub open spec fn batch_seq(image: Seq<u8>, base: u32, pattern: Seq<u8>) -> Seq<Match> {
    crate::matching::concat_upto(first_piece(image, base, pattern), 5)
}

/// Reordering XORs of bytes: the key byte may be taken with the keystream
/// off first or the plaintext off first, and two positions agree on it
/// exactly when their differences agree.
proof fn lemma_byte_algebra(a: u8, t: u8, c: u8, a2: u8, t2: u8, c2: u8)
    by (bit_vector)
    ensures
        (a ^ c) ^ t == (a ^ t) ^ c,
        ((a2 ^ c2) ^ (a ^ c) == t2 ^ t) <==> ((a ^ t) ^ c == (a2 ^ t2) ^ c2),
{
}

/// Rotating a word left by whole bytes moves each byte up that many places.
proof fn lemma_rotated_bytes(b0: u8, b1: u8, b2: u8, b3: u8)
    by (bit_vector)
    ensures
        crate::bits::rotl32(crate::bits::word_from(b0, b1, b2, b3), 0) == crate::bits::word_from(
            b0,
            b1,
            b2,
            b3,
        ),
        crate::bits::rotl32(crate::bits::word_from(b0, b1, b2, b3), 8) == crate::bits::word_from(
            b3,
            b0,
            b1,
            b2,
        ),
        crate::bits::rotl32(crate::bits::word_from(b0, b1, b2, b3), 16) == crate::bits::word_from(
            b2,
            b3,
            b0,
            b1,
        ),
        crate::bits::rotl32(crate::bits::word_from(b0, b1, b2, b3), 24) == crate::bits::word_from(
            b1,
            b2,
            b3,
            b0,
        ),
{
}

/// The plaintext's signature stands in the differenced, transformed image
/// exactly where the plaintext occurs: differencing cancels the key on
/// both sides.
pub proof fn lemma_signature_marks_occurrence(
    image: Seq<u8>,
    base: u32,
    pattern: Seq<u8>,
    selectors: [Option<u8>; 3],
    at: int,
)
    requires
        pattern.len() >= 4,
        0 <= at,
        at + pattern.len() <= image.len(),
        base + image.len() <= 0x1_0000_0000,
    ensures
        stands_at(differenced(transformed(image, base, selectors)), differenced(pattern), at)
            <==> crate::matching::occurs(image, base, pattern, selectors, at),
{
    let t = transformed(image, base, selectors);
    let d = differenced(t);
    let sig = differenced(pattern);
    let addr = (base + at) as u32;
    let ks = crate::matching::residue(image, pattern, at);
    assert forall|i: int| 4 <= i < pattern.len() implies (crate::key::key_agrees(
        addr,
        selectors,
        ks,
        i,
    ) <==> d[at + i - 4] == sig[i - 4]) by {
        lemma_byte_algebra(
            image[at + i],
            pattern[i],
            crate::key::cipher_byte(selectors, base + at + i),
            image[at + i - 4],
            pattern[i - 4],
            crate::key::cipher_byte(selectors, base + at + i - 4),
        );
    }
    if stands_at(d, sig, at) {
        assert forall|i: int| 4 <= i < pattern.len() implies #[trigger] crate::key::key_agrees(
            addr,
            selectors,
            ks,
            i,
        ) by {
            assert(d[at + (i - 4)] == sig[i - 4]);
        }
    }
    if crate::matching::occurs(image, base, pattern, selectors, at) {
        assert forall|i: int| 0 <= i < sig.len() implies #[trigger] d[at + i] == sig[i] by {
            assert(crate::key::key_agrees(addr, selectors, ks, i + 4));
        }
    }
}

/// The `i`-th choice for a selector slot.
fn nth(i: usize) -> (r: Option<u8>)
    ensures
        r == crate::matching::nth_selector(i as int),
{
    if i < 4 {
        Some(i as u8)
    } else {
        None
    }
}

/// Takes the keystream of `selectors` off the first `whole` bytes of the image.
fn transform(image: &[u8], whole: usize, base: u32, selectors: [Option<u8>; 3]) -> (t: Vec<u8>)
    requires
        whole <= image@.len(),
        whole % 4 == 0,
        base % 4 == 0,
        base + whole <= u32::MAX,
        crate::crypto::selectors_ok(selectors),
    ensures
        t@ == transformed(image@.take(whole as int), base, selectors),
{
    let mut stream = keystream(selectors, base);
    let mut t: Vec<u8> = Vec::new();
    let mut at: usize = 0;
    while at < whole
        invariant
            at <= whole,
            at % 4 == 0,
            whole % 4 == 0,
            whole <= image@.len(),
            base % 4 == 0,
            base + whole <= u32::MAX,
            stream.selectors() == selectors,
            stream.addr() == base + at,
            t@.len() == at,
            forall|m: int|
                0 <= m < at ==> #[trigger] t@[m] == image@[m] ^ crate::key::cipher_byte(
                    selectors,
                    base + m,
                ),
        decreases whole - at,
    {
        let ghost before = stream;
        let word: [u8; 4] = match stream.next() {
            Some(w) => to_le_bytes(w),
            None => [0u8, 0u8, 0u8, 0u8],
        };
        proof {
            assert(before.word(0) == crate::crypto::encrypt_spec((base + at) as u32, selectors));
            assert forall|k: int| 0 <= k < 4 implies #[trigger] word@[k] == crate::key::cipher_byte(
                selectors,
                base + at + k,
            ) by {
                assert((base + at + k) % 4 == k);
            }
        }
        let mut k: usize = 0;
        while k < 4
            invariant
                k <= 4,
                at + 4 <= whole,
                whole <= image@.len(),
                t@.len() == at + k,
                forall|j: int|
                    0 <= j < 4 ==> #[trigger] word@[j] == crate::key::cipher_byte(
                        selectors,
                        base + at + j,
                    ),
                forall|m: int|
                    0 <= m < at + k ==> #[trigger] t@[m] == image@[m] ^ crate::key::cipher_byte(
                        selectors,
                        base + m,
                    ),
            decreases 4 - k,
        {
            t.push(image[at + k] ^ word[k]);
            k += 1;
        }
        at += 4;
    }
    proof {
        assert(t@ =~= transformed(image@.take(whole as int), base, selectors));
    }
    t
}

/// Each byte XOR the byte one block further on.
fn difference(bytes: &[u8]) -> (d: Vec<u8>)
    ensures
        d@ == differenced(bytes@),
{
    let mut d: Vec<u8> = Vec::new();
    if bytes.len() < 4 {
        assert(d@ =~= differenced(bytes@));
        return d;
    }
    let n: usize = bytes.len() - 4;
    let mut m: usize = 0;
    while m < n
        invariant
            m <= n,
            n + 4 == bytes@.len(),
            d@.len() == m,
            forall|j: int| 0 <= j < m ==> #[trigger] d@[j] == bytes@[j] ^ bytes@[j + 4],
        decreases n - m,
    {
        d.push(bytes[m] ^ bytes[m + 4]);
        m += 1;
    }
    proof {
        assert(d@ =~= differenced(bytes@));
    }
    d
}

/// Whether `needle` stands at offset `at` of `hay`.
fn compare_at(hay: &[u8], needle: &[u8], at: usize) -> (r: bool)
    requires
        at + needle@.len() <= hay@.len(),
    ensures
        r == stands_at(hay@, needle@, at as int),
{
    let size: usize = hay.len();
    let mut i: usize = 0;
    while i < needle.len()
        invariant
            i <= needle@.len(),
            size == hay@.len(),
            at + needle@.len() <= hay@.len(),
            forall|j: int| 0 <= j < i ==> #[trigger] hay@[at + j] == needle@[j],
        decreases needle@.len() - i,
    {
        if hay[at + i] != needle[i] {
            return false;
        }
        i += 1;
    }
    true
}

/// The key at a place where the signature stands: the transformed bytes
/// XOR the head of the plaintext, rotated to where the place lies in its
/// block.
fn key_at(changed: &[u8], pattern: &[u8], at: usize) -> (key: u32)
    requires
        pattern@.len() >= 4,
        at + 4 <= changed@.len(),
    ensures
        key == crate::bits::rotl32(
            crate::bits::word_from(
                changed@[at as int] ^ pattern@[0],
                changed@[at + 1] ^ pattern@[1],
                changed@[at + 2] ^ pattern@[2],
                changed@[at + 3] ^ pattern@[3],
            ),
            (8 * (at % 4)) as u32,
        ),
{
    let head: [u8; 4] = [
        changed[at] ^ pattern[0],
        changed[at + 1] ^ pattern[1],
        changed[at + 2] ^ pattern[2],
        changed[at + 3] ^ pattern[3],
    ];
    rotate_left(from_le_bytes(head), 8 * ((at % 4) as u32))
}

/// The key read off the transformed image is the key that the occurrence
/// asks for.
proof fn lemma_key_at(image: Seq<u8>, base: u32, pattern: Seq<u8>, selectors: [Option<u8>; 3], at: int)
    requires
        base % 4 == 0,
        pattern.len() >= 4,
        0 <= at,
        at + pattern.len() <= image.len(),
        base + image.len() <= 0x1_0000_0000,
    ensures
        ({
            let t = transformed(image, base, selectors);
            crate::bits::rotl32(
                crate::bits::word_from(
                    t[at] ^ pattern[0],
                    t[at + 1] ^ pattern[1],
                    t[at + 2] ^ pattern[2],
                    t[at + 3] ^ pattern[3],
                ),
                (8 * (at % 4)) as u32,
            ) == crate::key::key_word(
                (base + at) as u32,
                selectors,
                crate::matching::residue(image, pattern, at),
            )
        }),
{
    let t = transformed(image, base, selectors);
    let addr = (base + at) as u32;
    let ks = crate::matching::residue(image, pattern, at);
    assert forall|i: int| 0 <= i < 4 implies #[trigger] t[at + i] ^ pattern[i] == crate::key::key_byte(
        addr,
        selectors,
        ks,
        i,
    ) by {
        lemma_byte_algebra(
            image[at + i],
            pattern[i],
            crate::key::cipher_byte(selectors, base + at + i),
            0,
            0,
            0,
        );
    }
    assert(addr % 4 == at % 4);
    lemma_rotated_bytes(
        t[at + 0] ^ pattern[0],
        t[at + 1] ^ pattern[1],
        t[at + 2] ^ pattern[2],
        t[at + 3] ^ pattern[3],
    );
}

/// Checks one offset: where the signature stands in `marks`, reads the
/// key off `changed` and adds a record.  `bytes` is the image searched,
/// `changed` what is left of it with the keystream taken off.
fn check_offset(
    Ghost(bytes): Ghost<Seq<u8>>,
    changed: &[u8],
    marks: &[u8],
    base: u32,
    pattern: &[u8],
    signature: &[u8],
    selectors: [Option<u8>; 3],
    settings: u32,
    at: usize,
    found: &mut Vec<Match>,
)
    requires
        pattern@.len() >= 8,
        signature@ == differenced(pattern@),
        at + pattern@.len() <= bytes.len(),
        base % 4 == 0,
        base + bytes.len() <= u32::MAX,
        changed@ == transformed(bytes, base, selectors),
        marks@ == differenced(changed@),
        settings == crate::crypto::settings_word_spec(selectors),
    ensures
        final(found)@ == old(found)@ + crate::matching::found_at(
            bytes,
            base,
            pattern@,
            selectors,
            at as int,
        ),
{
    proof {
        lemma_signature_marks_occurrence(bytes, base, pattern@, selectors, at as int);
    }
    if compare_at(marks, signature, at) {
        proof {
            lemma_key_at(bytes, base, pattern@, selectors, at as int);
        }
        let key: u32 = key_at(changed, pattern, at);
        found.push(Match { addr: base + at as u32, key, settings });
    }
    proof {
        assert(found@ =~= old(found)@ + crate::matching::found_at(
            bytes,
            base,
            pattern@,
            selectors,
            at as int,
        ));
    }
}

/// Searches the image under one selector tuple: takes the keystream off,
/// differences the result, and looks for the plaintext's signature.
fn search_tuple(
    image: &[u8],
    whole: usize,
    base: u32,
    pattern: &[u8],
    signature: &[u8],
    selectors: [Option<u8>; 3],
    found: &mut Vec<Match>,
)
    requires
        pattern@.len() >= 8,
        signature@ == differenced(pattern@),
        whole <= image@.len(),
        whole % 4 == 0,
        base % 4 == 0,
        base + whole <= u32::MAX,
        crate::crypto::selectors_ok(selectors),
    ensures
        final(found)@ == old(found)@ + tuple_seq(image@.take(whole as int), base, pattern@, selectors),
{
    let ghost bytes = image@.take(whole as int);
    let ghost piece = offset_piece(bytes, base, pattern@, selectors);
    if whole < pattern.len() {
        proof {
            assert(found@ =~= old(found)@ + crate::matching::concat_upto(piece, whole - pattern@.len() + 1));
        }
        return ;
    }
    let changed: Vec<u8> = transform(image, whole, base, selectors);
    let marks: Vec<u8> = difference(changed.as_slice());
    let settings: u32 = format_settings_word(selectors);
    let last: usize = whole - pattern.len();
    let mut at: usize = 0;
    proof {
        assert(found@ =~= old(found)@ + crate::matching::concat_upto(piece, 0));
    }
    while at <= last
        invariant
            at <= last + 1,
            last + pattern@.len() == whole,
            pattern@.len() >= 8,
            bytes.len() == whole,
            base % 4 == 0,
            base + whole <= u32::MAX,
            signature@ == differenced(pattern@),
            changed@ == transformed(bytes, base, selectors),
            marks@ == differenced(changed@),
            settings == crate::crypto::settings_word_spec(selectors),
            piece == offset_piece(bytes, base, pattern@, selectors),
            found@ == old(found)@ + crate::matching::concat_upto(piece, at as int),
        decreases last + 1 - at,
    {
        let ghost before = found@;
        check_offset(
            Ghost(bytes),
            changed.as_slice(),
            marks.as_slice(),
            base,
            pattern,
            signature,
            selectors,
            settings,
            at,
            found,
        );
        proof {
            assert(found@ == before + piece(at as int));
            assert(crate::matching::concat_upto(piece, at + 1) == crate::matching::concat_upto(
                piece,
                at as int,
            ) + piece(at as int));
        }
        at += 1;
    }
}

/// The plaintext's signature: each byte XOR the byte four further on.
fn signature_of(pattern: &[u8]) -> (signature: Vec<u8>)
    ensures
        signature@ == differenced(pattern@),
{
    difference(pattern)
}

/// Searches an image held in memory for the known plaintext `pattern`,
/// and returns a record for every occurrence, under every selector tuple.
///
/// The plaintext must have at least eight bytes, the base address must be
/// a multiple of four, and the image must lie inside the address space.
/// Bytes after the last whole block are left out of the search.
pub fn batch_search(image: &[u8], base_addr: u32, pattern: &[u8]) -> (r: Result<
    Vec<Match>,
    SearchError,
>)
    ensures
        pattern@.len() < 8 <==> r matches Err(SearchError::PatternTooShort),
        r is Ok <==> {
            &&& pattern@.len() >= 8
            &&& base_addr % 4 == 0
            &&& !crate::search::overflows(base_addr, image@.len() as int / 4)
        },
        match r {
            Err(SearchError::PatternTooShort) => pattern@.len() < 8,
            Err(SearchError::MisalignedBase) => pattern@.len() >= 8 && base_addr % 4 != 0,
            Err(SearchError::AddressOverflow) => {
                &&& pattern@.len() >= 8
                &&& base_addr % 4 == 0
                &&& crate::search::overflows(base_addr, image@.len() as int / 4)
            },
            Err(SearchError::IncompleteBlock) => false,
            Err(SearchError::ImageTooShort) => false,
            Ok(found) => {
                &&& pattern@.len() >= 8
                &&& base_addr % 4 == 0
                &&& !crate::search::overflows(base_addr, image@.len() as int / 4)
                &&& found@ == batch_seq(
                    image@.take(4 * (image@.len() as int / 4)),
                    base_addr,
                    pattern@,
                )
                &&& forall|r: Match|
                    found@.contains(r) <==> crate::matching::reports_occurrence(
                        image@.take(4 * (image@.len() as int / 4)),
                        base_addr,
                        pattern@,
                        0,
                        r,
                    )
                &&& found@.no_duplicates()
            },
        },
{
    if pattern.len() < 8 {
        return Err(SearchError::PatternTooShort);
    }
    if base_addr % 4 != 0 {
        return Err(SearchError::MisalignedBase);
    }
    let blocks: usize = image.len() / 4;
    if blocks as u64 > ((u32::MAX - base_addr) / 4) as u64 {
        return Err(SearchError::AddressOverflow);
    }
    let whole: usize = blocks * 4;
    let ghost bytes = image@.take(whole as int);
    let signature: Vec<u8> = signature_of(pattern);
    let mut found: Vec<Match> = Vec::new();
    let ghost outer = first_piece(bytes, base_addr, pattern@);
    proof {
        assert(found@ =~= crate::matching::concat_upto(outer, 0));
    }
    let mut i1: usize = 0;
    while i1 < 5
        invariant
            i1 <= 5,
            pattern@.len() >= 8,
            signature@ == differenced(pattern@),
            whole <= image@.len(),
            whole % 4 == 0,
            base_addr % 4 == 0,
            base_addr + whole <= u32::MAX,
            bytes == image@.take(whole as int),
            outer == first_piece(bytes, base_addr, pattern@),
            found@ == crate::matching::concat_upto(outer, i1 as int),
        decreases 5 - i1,
    {
        let s1: Option<u8> = nth(i1);
        let ghost middle = second_piece(bytes, base_addr, pattern@, s1);
        let ghost entered1 = found@;
        proof {
            assert(found@ =~= entered1 + crate::matching::concat_upto(middle, 0));
        }
        let mut i2: usize = 0;
        while i2 < 5
            invariant
                i2 <= 5,
                pattern@.len() >= 8,
                signature@ == differenced(pattern@),
                whole <= image@.len(),
                whole % 4 == 0,
                base_addr % 4 == 0,
                base_addr + whole <= u32::MAX,
                bytes == image@.take(whole as int),
                s1 == crate::matching::nth_selector(i1 as int),
                middle == second_piece(bytes, base_addr, pattern@, s1),
                found@ == entered1 + crate::matching::concat_upto(middle, i2 as int),
            decreases 5 - i2,
        {
            let s2: Option<u8> = nth(i2);
            let ghost inner = third_piece(bytes, base_addr, pattern@, s1, s2);
            let ghost entered2 = found@;
            proof {
                assert(found@ =~= entered2 + crate::matching::concat_upto(inner, 0));
            }
            let mut i3: usize = 0;
            while i3 < 5
                invariant
                    i3 <= 5,
                    pattern@.len() >= 8,
                    signature@ == differenced(pattern@),
                    whole <= image@.len(),
                    whole % 4 == 0,
                    base_addr % 4 == 0,
                    base_addr + whole <= u32::MAX,
                    bytes == image@.take(whole as int),
                    s1 == crate::matching::nth_selector(i1 as int),
                    s2 == crate::matching::nth_selector(i2 as int),
                    inner == third_piece(bytes, base_addr, pattern@, s1, s2),
                    found@ == entered2 + crate::matching::concat_upto(inner, i3 as int),
                decreases 5 - i3,
            {
                let s3: Option<u8> = nth(i3);
                let selectors: [Option<u8>; 3] = [s1, s2, s3];
                let ghost before = found@;
                assert(selectors =~= selector_tuple(s1, s2, s3));
                search_tuple(image, whole, base_addr, pattern, signature.as_slice(), selectors, &mut found);
                proof {
                    assert(found@ =~= before + inner(i3 as int));
                    assert(crate::matching::concat_upto(inner, i3 + 1)
                        == crate::matching::concat_upto(inner, i3 as int) + inner(i3 as int));
                }
                i3 += 1;
            }
            proof {
                assert(found@ =~= entered2 + middle(i2 as int));
                assert(crate::matching::concat_upto(middle, i2 + 1) == crate::matching::concat_upto(
                    middle,
                    i2 as int,
                ) + middle(i2 as int));
                assert(found@ =~= entered1 + crate::matching::concat_upto(middle, i2 + 1));
            }
            i2 += 1;
        }
        proof {
            assert(found@ =~= entered1 + outer(i1 as int));
            assert(crate::matching::concat_upto(outer, i1 + 1) == crate::matching::concat_upto(
                outer,
                i1 as int,
            ) + outer(i1 as int));
            assert(found@ =~= crate::matching::concat_upto(outer, i1 + 1));
        }
        i1 += 1;
    }
    proof {
        assert forall|r: Match|
            found@.contains(r) <==> crate::matching::reports_occurrence(
                bytes,
                base_addr,
                pattern@,
                0,
                r,
            ) by {
            crate::equivalence::lemma_batch_reports(bytes, base_addr, pattern@, r);
        }
        crate::equivalence::lemma_batch_no_duplicates(bytes, base_addr, pattern@);
    }
    Ok(found)
}

} // verus!
