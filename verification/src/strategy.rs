//! The two search strategies behind one entry point.
use vstd::prelude::*;
use crate::batch::batch_search;
use crate::matching::{Match, SearchError};
use crate::search::{search, Bk7231RollingXor};
use crate::utils::{MemorySource, PeekRead};

verus! {

/// How to search an image.
#[derive(Clone, Copy, Debug, PartialEq, Eq, Structural)]
pub enum Strategy {
    /// Transform the whole image under each selector tuple and look for
    /// the plaintext's signature.  Takes a plaintext of eight bytes or
    /// more, and leaves out what follows the last whole block.
    Batch,
    /// Scan the image once, block by block.  Takes a plaintext of nine
    /// bytes or more, and an image of two or more blocks, all whole.
    Streaming,
}

/// All records that report an occurrence of the plaintext in the image,
/// under the selector tuples that are tried.
pub open spec fn occurrence_records(image: Seq<u8>, base: u32, pattern: Seq<u8>) -> Set<Match> {
    Set::new(|r: Match| crate::matching::reports_occurrence(image, base, pattern, 0, r))
}

/// The part of the image that lies in whole blocks.
pub open spec fn whole_blocks(image: Seq<u8>) -> Seq<u8> {
    image.take(4 * (image.len() as int / 4))
}

/// The length that a strategy asks of the plaintext.
pub open spec fn minimum_length(strategy: Strategy) -> int {
    match strategy {
        Strategy::Batch => 8,
        Strategy::Streaming => 9,
    }
}

/// The error, if any, that a strategy answers these inputs with.  Either
/// looks at the plaintext first, then at the base address, then at the
/// image.
pub open spec fn refusal(strategy: Strategy, image: Seq<u8>, base: u32, pattern: Seq<u8>) -> Option<
    SearchError,
> {
    if pattern.len() < minimum_length(strategy) {
        Some(SearchError::PatternTooShort)
    } else if base % 4 != 0 {
        Some(SearchError::MisalignedBase)
    } else if crate::search::overflows(base, image.len() as int / 4) {
        Some(SearchError::AddressOverflow)
    } else {
        match strategy {
            Strategy::Batch => None,
            Strategy::Streaming => {
                if image.len() % 4 != 0 {
                    Some(SearchError::IncompleteBlock)
                } else if image.len() < 8 {
                    Some(SearchError::ImageTooShort)
                } else {
                    None
                }
            },
        }
    }
}

/// The records that a strategy finds, in its order.  The batch strategy
/// finds nothing where it refuses; the streaming strategy finds what lies
/// in the blocks it gets through before it has to give up.
pub open spec fn found_by(strategy: Strategy, image: Seq<u8>, base: u32, pattern: Seq<u8>) -> Seq<
    Match,
> {
    if pattern.len() < minimum_length(strategy) || base % 4 != 0 {
        Seq::empty()
    } else {
        match strategy {
            Strategy::Batch => {
                if crate::search::overflows(base, image.len() as int / 4) {
                    Seq::empty()
                } else {
                    crate::batch::batch_seq(whole_blocks(image), base, pattern)
                }
            },
            Strategy::Streaming => crate::search::stream_seq(
                image,
                base,
                pattern,
                1,
                crate::search::scanned_blocks(base, image.len() as int),
            ),
        }
    }
}

/// Where no scan can start, the streaming strategy refuses for the same
/// reason, and there is no block it gets through past the first.
proof fn lemma_refused_at_start(image: Seq<u8>, base: u32, pattern: Seq<u8>)
    requires
        pattern.len() >= 9,
        crate::search::priming_refusal(base, image.len() as int) is Some,
    ensures
        refusal(Strategy::Streaming, image, base, pattern) == crate::search::priming_refusal(
            base,
            image.len() as int,
        ),
        base % 4 == 0 ==> crate::search::scanned_blocks(base, image.len() as int) <= 1,
{
    let len = image.len() as int;
    if base % 4 == 0 {
        if len < 8 {
            assert(len / 4 <= 1);
            assert(len < 4 ==> len / 4 == 0);
            assert(len >= 4 ==> len / 4 == 1);
        } else {
            assert(len / 4 >= 2);
            assert((u32::MAX - base) / 4 <= 1);
        }
    }
}

/// Where a scan can start, the streaming strategy refuses only an image
/// that runs past the address space or ends inside a block.
proof fn lemma_refused_later(image: Seq<u8>, base: u32, pattern: Seq<u8>)
    requires
        pattern.len() >= 9,
        crate::search::priming_refusal(base, image.len() as int) is None,
    ensures
        image.len() >= 8,
        base % 4 == 0,
        refusal(Strategy::Streaming, image, base, pattern) == if crate::search::overflows(
            base,
            image.len() as int / 4,
        ) {
            Some(SearchError::AddressOverflow)
        } else if image.len() % 4 != 0 {
            Some(SearchError::IncompleteBlock)
        } else {
            None::<SearchError>
        },
{
}

/// An occurrence never starts before the image does.
proof fn lemma_reports_from_start(image: Seq<u8>, base: u32, pattern: Seq<u8>, from: int, r: Match)
    requires
        from <= 0,
    ensures
        crate::matching::reports_occurrence(image, base, pattern, from, r)
            <==> crate::matching::reports_occurrence(image, base, pattern, 0, r),
{
    if crate::matching::reports_occurrence(image, base, pattern, from, r) {
        let (selectors, at) = choose|selectors: [Option<u8>; 3], at: int|
            crate::matching::searched(selectors) && at >= from && #[trigger] crate::matching::occurs(
                image,
                base,
                pattern,
                selectors,
                at,
            ) && r == crate::matching::match_at(image, base, pattern, selectors, at);
        assert(at >= 0);
    }
    if crate::matching::reports_occurrence(image, base, pattern, 0, r) {
        let (selectors, at) = choose|selectors: [Option<u8>; 3], at: int|
            crate::matching::searched(selectors) && at >= 0 && #[trigger] crate::matching::occurs(
                image,
                base,
                pattern,
                selectors,
                at,
            ) && r == crate::matching::match_at(image, base, pattern, selectors, at);
        assert(at >= from);
    }
}

impl Strategy {
    /// Searches `image`, whose first byte sits at `base_addr`, for the
    /// known plaintext `pattern`, and adds the records to `found`.
    /// Whichever strategy runs, where it does not refuse, the records are
    /// those of all occurrences in the image, each once; the strategies
    /// differ in the order of the records and in what they refuse.  A
    /// plaintext that is too short is refused before anything else is
    /// looked at.
    pub fn find(self, image: Vec<u8>, base_addr: u32, pattern: &[u8], found: &mut Vec<Match>) -> (r:
        Result<(), SearchError>)
        ensures
            match r {
                Ok(_) => refusal(self, image@, base_addr, pattern@) is None,
                Err(e) => refusal(self, image@, base_addr, pattern@) == Some(e),
            },
            final(found)@ == old(found)@ + found_by(self, image@, base_addr, pattern@),
            r is Ok ==> {
                &&& found_by(self, image@, base_addr, pattern@).no_duplicates()
                &&& found_by(self, image@, base_addr, pattern@).to_set() == occurrence_records(
                    whole_blocks(image@),
                    base_addr,
                    pattern@,
                )
            },
    {
        let ghost bytes = image@;
        match self {
            Strategy::Batch => {
                match batch_search(image.as_slice(), base_addr, pattern) {
                    Err(e) => {
                        proof {
                            assert(found@ =~= old(found)@ + Seq::<Match>::empty());
                        }
                        Err(e)
                    },
                    Ok(mut records) => {
                        proof {
                            assert(records@.to_set() =~= occurrence_records(
                                whole_blocks(bytes),
                                base_addr,
                                pattern@,
                            ));
                        }
                        found.append(&mut records);
                        Ok(())
                    },
                }
            },
            Strategy::Streaming => {
                if pattern.len() < 9 {
                    proof {
                        assert(found@ =~= old(found)@ + Seq::<Match>::empty());
                    }
                    return Err(SearchError::PatternTooShort);
                }
                let stream = PeekRead::new(MemorySource::new(image));
                match Bk7231RollingXor::new(stream, base_addr) {
                    Err(e) => {
                        proof {
                            lemma_refused_at_start(bytes, base_addr, pattern@);
                            if base_addr % 4 == 0 {
                                crate::search::lemma_stream_seq_nothing(
                                    bytes,
                                    base_addr,
                                    pattern@,
                                    1,
                                    crate::search::scanned_blocks(base_addr, bytes.len() as int),
                                );
                            }
                            assert(found@ =~= old(found)@ + Seq::<Match>::empty());
                        }
                        Err(e)
                    },
                    Ok(mut state) => {
                        let ghost start = state;
                        proof {
                            lemma_refused_later(bytes, base_addr, pattern@);
                            assert(start.consumed().len() == 8);
                            assert(start.pending().len() == bytes.len() - 8);
                        }
                        let r = search(&mut state, pattern, found);
                        proof {
                            let rest = start.pending().len() as int;
                            assert(bytes.len() == rest + 8);
                            assert((rest + 8) / 4 == rest / 4 + 2 && (rest + 8) % 4 == rest % 4);
                            if r is Ok {
                                assert(whole_blocks(bytes) =~= bytes);
                                let added = found_by(self, bytes, base_addr, pattern@);
                                assert forall|rec: Match|
                                    added.contains(rec) <==> crate::matching::reports_occurrence(
                                        bytes,
                                        base_addr,
                                        pattern@,
                                        0,
                                        rec,
                                    ) by {
                                    lemma_reports_from_start(bytes, base_addr, pattern@, -3, rec);
                                }
                                assert(added.to_set() =~= occurrence_records(
                                    bytes,
                                    base_addr,
                                    pattern@,
                                ));
                            }
                        }
                        r
                    },
                }
            },
        }
    }
}

/// Where neither strategy refuses, both find the same set of records, and
/// as many.
pub proof fn lemma_same_records(image: Seq<u8>, base: u32, pattern: Seq<u8>)
    requires
        refusal(Strategy::Batch, image, base, pattern) is None,
        refusal(Strategy::Streaming, image, base, pattern) is None,
    ensures
        found_by(Strategy::Batch, image, base, pattern).to_set() == found_by(
            Strategy::Streaming,
            image,
            base,
            pattern,
        ).to_set(),
        found_by(Strategy::Batch, image, base, pattern).len() == found_by(
            Strategy::Streaming,
            image,
            base,
            pattern,
        ).len(),
{
    let batched = found_by(Strategy::Batch, image, base, pattern);
    let streamed = found_by(Strategy::Streaming, image, base, pattern);
    assert(whole_blocks(image) =~= image);
    assert(crate::search::scanned_blocks(base, image.len() as int) == image.len() as int / 4);
    assert forall|r: Match| batched.contains(r) <==> streamed.contains(r) by {
        crate::equivalence::lemma_batch_reports(image, base, pattern, r);
        crate::equivalence::lemma_stream_reports(image, base, pattern, 1, image.len() as int / 4, r);
        lemma_reports_from_start(image, base, pattern, -3, r);
    }
    assert(batched.to_set() =~= streamed.to_set());
    crate::equivalence::lemma_batch_no_duplicates(image, base, pattern);
    crate::equivalence::lemma_stream_no_duplicates(image, base, pattern, 1, image.len() as int / 4);
    batched.unique_seq_to_set();
    streamed.unique_seq_to_set();
}

/// The shortest plaintext that a strategy takes has eight bytes for the
/// batch strategy and nine for the streaming strategy.  One byte less is
/// refused whatever the image and the base address are; the shortest, and
/// any longer one, is taken whenever the base address and the image are
/// taken.
pub proof fn lemma_minimum_length(strategy: Strategy, image: Seq<u8>, base: u32, pattern: Seq<u8>)
    ensures
        pattern.len() < minimum_length(strategy) <==> refusal(strategy, image, base, pattern) == Some(
            SearchError::PatternTooShort,
        ),
        pattern.len() >= minimum_length(strategy) && base % 4 == 0 && image.len() % 4 == 0
            && image.len() >= 8 && base + image.len() <= u32::MAX ==> refusal(
            strategy,
            image,
            base,
            pattern,
        ) is None,
{
}

} // verus!
