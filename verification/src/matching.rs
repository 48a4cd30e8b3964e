//! What both search strategies look for: occurrences of a known plaintext
//! in an encrypted image, and the records that report them.
use vstd::prelude::*;

verus! {

/// One verified occurrence of the known plaintext.
#[derive(Clone, Copy, Debug, PartialEq, Eq, Structural)]
pub struct Match {
    /// Address of the first byte of the occurrence.
    pub addr: u32,
    /// The key that decrypts the image.
    pub key: u32,
    /// The selector tuple, packed as a settings word.
    pub settings: u32,
}

/// Why a search could not be run to its end.
#[derive(Clone, Copy, Debug, PartialEq, Eq, Structural)]
pub enum SearchError {
    /// The known plaintext is shorter than the strategy needs.
    PatternTooShort,
    /// The base address is not a multiple of the block size.
    MisalignedBase,
    /// The image ends in the middle of a block.
    IncompleteBlock,
    /// The image runs past the end of the 32-bit address space.
    AddressOverflow,
    /// The image ends before its second block, so there is nothing to
    /// fill the buffers of a scan with.
    ImageTooShort,
}

/// The `i`-th choice for a selector slot: the four parameters the search
/// tries, then "disabled".
pub open spec fn nth_selector(i: int) -> Option<u8> {
    if 0 <= i < 4 {
        Some(i as u8)
    } else {
        None
    }
}

/// The selector tuples a search tries: each slot disabled or one of 0..=3.
pub open spec fn searched(selectors: [Option<u8>; 3]) -> bool {
    forall|i: int| 0 <= i < 3 ==> (#[trigger] selectors[i] matches Some(p) ==> p < 4)
}

/// Ciphertext XOR known plaintext, for the plaintext laid over the image
/// at offset `at`.
pub open spec fn residue(image: Seq<u8>, pattern: Seq<u8>, at: int) -> Seq<u8> {
    Seq::new(pattern.len(), |i: int| image[at + i] ^ pattern[i])
}

/// The known plaintext occurs at offset `at` of the image under the given
/// selectors: it lies inside the image and the address space, and one key
/// explains every byte of it.
pub open spec fn occurs(
    image: Seq<u8>,
    base: u32,
    pattern: Seq<u8>,
    selectors: [Option<u8>; 3],
    at: int,
) -> bool {
    &&& 0 <= at
    &&& at + pattern.len() <= image.len()
    &&& base + at + pattern.len() <= 0x1_0000_0000
    &&& crate::key::key_consistent((base + at) as u32, selectors, residue(image, pattern, at))
}

/// The record that reports the occurrence at offset `at`.
pub open spec fn match_at(
    image: Seq<u8>,
    base: u32,
    pattern: Seq<u8>,
    selectors: [Option<u8>; 3],
    at: int,
) -> Match {
    Match {
        addr: (base + at) as u32,
        key: crate::key::key_word((base + at) as u32, selectors, residue(image, pattern, at)),
        settings: crate::crypto::settings_word_spec(selectors),
    }
}

/// `r` reports an occurrence of the plaintext at offset `from` of the
/// image or later, under one of the selector tuples that are tried.
pub open spec fn reports_occurrence(
    image: Seq<u8>,
    base: u32,
    pattern: Seq<u8>,
    from: int,
    r: Match,
) -> bool {
    exists|selectors: [Option<u8>; 3], at: int|
        searched(selectors) && at >= from && #[trigger] occurs(image, base, pattern, selectors, at)
            && r == match_at(image, base, pattern, selectors, at)
}

/// What checking one candidate adds to the results: its record if the
/// plaintext occurs there, nothing otherwise.
pub open spec fn found_at(
    image: Seq<u8>,
    base: u32,
    pattern: Seq<u8>,
    selectors: [Option<u8>; 3],
    at: int,
) -> Seq<Match> {
    if occurs(image, base, pattern, selectors, at) {
        seq![match_at(image, base, pattern, selectors, at)]
    } else {
        Seq::empty()
    }
}

/// `f(0) + f(1) + ... + f(n - 1)`.
pub open spec fn concat_upto(f: spec_fn(int) -> Seq<Match>, n: int) -> Seq<Match>
    decreases n,
{
    if n <= 0 {
        Seq::empty()
    } else {
        concat_upto(f, n - 1) + f(n - 1)
    }
}

/// A record is in a concatenation exactly when it is in one of the pieces.
pub proof fn lemma_concat_contains(f: spec_fn(int) -> Seq<Match>, n: int, r: Match)
    ensures
        concat_upto(f, n).contains(r) <==> exists|i: int| 0 <= i < n && #[trigger] f(i).contains(r),
    decreases n,
{
    if n > 0 {
        lemma_concat_contains(f, n - 1, r);
        let head = concat_upto(f, n - 1);
        let tail = f(n - 1);
        if head.contains(r) {
            let j = choose|j: int| 0 <= j < head.len() && head[j] == r;
            assert((head + tail)[j] == r);
            let i = choose|i: int| 0 <= i < n - 1 && #[trigger] f(i).contains(r);
            assert(0 <= i < n && f(i).contains(r));
        }
        if tail.contains(r) {
            let j = choose|j: int| 0 <= j < tail.len() && tail[j] == r;
            assert((head + tail)[head.len() + j] == r);
        }
        if (head + tail).contains(r) {
            let j = choose|j: int| 0 <= j < (head + tail).len() && (head + tail)[j] == r;
            if j < head.len() {
                assert(head[j] == r);
            } else {
                assert(tail[j - head.len()] == r);
                assert(f(n - 1).contains(r));
            }
        }
        if exists|i: int| 0 <= i < n && #[trigger] f(i).contains(r) {
            let i = choose|i: int| 0 <= i < n && #[trigger] f(i).contains(r);
            if i < n - 1 {
                assert(head.contains(r));
            } else {
                assert(tail.contains(r));
            }
        }
    }
}

/// The piece that a record of a concatenation comes from.
pub proof fn lemma_concat_member(f: spec_fn(int) -> Seq<Match>, n: int, r: Match) -> (i: int)
    requires
        concat_upto(f, n).contains(r),
    ensures
        0 <= i < n,
        f(i).contains(r),
{
    lemma_concat_contains(f, n, r);
    choose|i: int| 0 <= i < n && #[trigger] f(i).contains(r)
}

/// A record of a piece is a record of the concatenation.
pub proof fn lemma_concat_holds(f: spec_fn(int) -> Seq<Match>, n: int, i: int, r: Match)
    requires
        0 <= i < n,
        f(i).contains(r),
    ensures
        concat_upto(f, n).contains(r),
{
    lemma_concat_contains(f, n, r);
}

/// A concatenation of pieces that repeat nothing and share nothing
/// repeats nothing.
pub proof fn lemma_concat_no_duplicates(f: spec_fn(int) -> Seq<Match>, n: int)
    requires
        forall|i: int| 0 <= i < n ==> (#[trigger] f(i)).no_duplicates(),
        forall|i: int, j: int, r: Match|
            0 <= i < j < n && #[trigger] f(i).contains(r) ==> !#[trigger] f(j).contains(r),
    ensures
        concat_upto(f, n).no_duplicates(),
    decreases n,
{
    if n > 0 {
        lemma_concat_no_duplicates(f, n - 1);
        let head = concat_upto(f, n - 1);
        let tail = f(n - 1);
        assert forall|a: int, b: int| 0 <= a < head.len() && 0 <= b < tail.len() implies head[a]
            != tail[b] by {
            if head[a] == tail[b] {
                let r = head[a];
                assert(head.contains(r));
                assert(tail.contains(r));
                lemma_concat_contains(f, n - 1, r);
                let i = choose|i: int| 0 <= i < n - 1 && #[trigger] f(i).contains(r);
                assert(!f(n - 1).contains(r));
            }
        }
        vstd::seq_lib::lemma_no_dup_in_concat(head, tail);
    }
}

/// A concatenation of empty pieces is empty.
pub proof fn lemma_concat_empty(f: spec_fn(int) -> Seq<Match>, n: int)
    requires
        forall|i: int| 0 <= i < n ==> (#[trigger] f(i)).len() == 0,
    ensures
        concat_upto(f, n) == Seq::<Match>::empty(),
    decreases n,
{
    if n > 0 {
        lemma_concat_empty(f, n - 1);
        assert(concat_upto(f, n - 1) + f(n - 1) =~= Seq::<Match>::empty());
    }
}

} // verus!
