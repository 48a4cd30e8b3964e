//! What the two strategies report, stated without reference to the order
//! in which they work, and the proof that they report the same.
use vstd::prelude::*;
use crate::batch::{
    batch_seq, first_piece, first_seq, offset_piece, second_piece, second_seq, selector_tuple,
    third_piece, tuple_seq,
};
use crate::matching::{
    concat_upto, found_at, lemma_concat_contains, lemma_concat_holds, lemma_concat_member,
    lemma_concat_no_duplicates, match_at, nth_selector, occurs, reports_occurrence, searched, Match,
};
use crate::search::{
    block_piece, block_seq, candidate_piece, candidate_selectors, entry_piece, pair_piece, pair_seq,
    stage3_piece, stage3_seq, stream_seq, tried, verified_seq, window_offset,
};

verus! {

/// Where a choice for a selector slot stands among the five that are tried.
pub open spec fn selector_index(sel: Option<u8>) -> int {
    match sel {
        Some(p) => p as int,
        None => 4,
    }
}

/// The block whose scan finds an occurrence at offset `at`.
pub open spec fn finding_block(at: int) -> int {
    (at + 7) / 4
}

/// The table entry through which an occurrence at offset `at` is found.
pub open spec fn finding_entry(at: int) -> int {
    if at % 4 == 0 {
        2
    } else if at % 4 == 1 {
        1
    } else if at % 4 == 2 {
        0
    } else {
        3
    }
}

/// Every offset is looked at by exactly one table entry of one block.
pub proof fn lemma_window_covers(at: int)
    requires
        0 <= at,
    ensures
        window_offset(finding_block(at), finding_entry(at)) == at,
        0 <= finding_entry(at) < 4,
        1 <= finding_block(at),
{
}

/// A table entry of a block looks at no other offset than the one that
/// leads back to it.
pub proof fn lemma_window_unique(c: int, q: int)
    requires
        0 <= q < 4,
        0 <= window_offset(c, q),
    ensures
        finding_block(window_offset(c, q)) == c,
        finding_entry(window_offset(c, q)) == q,
{
}

/// A record in the results of one block reports an occurrence that the
/// block's window covers.
proof fn lemma_block_reports_only(image: Seq<u8>, base: u32, pattern: Seq<u8>, c: int, r: Match)
    requires
        block_seq(image, base, pattern, c).contains(r),
    ensures
        exists|selectors: [Option<u8>; 3], at: int|
            searched(selectors) && 4 * c - 7 <= at <= 4 * c - 4 && #[trigger] occurs(
                image,
                base,
                pattern,
                selectors,
                at,
            ) && r == match_at(image, base, pattern, selectors, at),
{
    let (s3, first, q, second) = lemma_block_member(image, base, pattern, c, r);
    let selectors = candidate_selectors(q, s3, first, second);
    let at = window_offset(c, q);
    assert(searched(selectors)) by {
        assert(selectors[2] == s3);
        assert(q < 2 ==> selectors[0] == second && selectors[1] == first);
        assert(q >= 2 ==> selectors[0] == first && selectors[1] == second);
    }
    assert(4 * c - 7 <= at <= 4 * c - 4);
}

/// Every occurrence that a block's window covers is in the block's results.
proof fn lemma_block_reports_all(
    image: Seq<u8>,
    base: u32,
    pattern: Seq<u8>,
    selectors: [Option<u8>; 3],
    at: int,
)
    requires
        searched(selectors),
        occurs(image, base, pattern, selectors, at),
    ensures
        block_seq(image, base, pattern, finding_block(at)).contains(
            match_at(image, base, pattern, selectors, at),
        ),
{
    let r = match_at(image, base, pattern, selectors, at);
    let c = finding_block(at);
    let q = finding_entry(at);
    lemma_window_covers(at);
    let s3 = selectors[2];
    let first = if q < 2 { selectors[1] } else { selectors[0] };
    let second = if q < 2 { selectors[0] } else { selectors[1] };
    assert(tried(s3) && tried(first) && tried(second));
    let i3 = selector_index(s3);
    let ia = selector_index(first);
    let ib = selector_index(second);
    assert(nth_selector(i3) == s3 && nth_selector(ia) == first && nth_selector(ib) == second);
    assert(candidate_selectors(q, s3, first, second) =~= selectors);
    let fb = candidate_piece(image, base, pattern, c, s3, first, q);
    assert(fb(ib) == found_at(image, base, pattern, selectors, at));
    assert(fb(ib)[0] == r);
    lemma_concat_holds(fb, 5, ib, r);
    let fq = entry_piece(image, base, pattern, c, s3, first);
    assert(fq(q) == concat_upto(fb, 5));
    lemma_concat_holds(fq, 4, q, r);
    let fa = pair_piece(image, base, pattern, c, s3);
    assert(fa(ia) == concat_upto(fq, 4));
    lemma_concat_holds(fa, 5, ia, r);
    let f3 = stage3_piece(image, base, pattern, c);
    assert(f3(i3) == concat_upto(fa, 5));
    lemma_concat_holds(f3, 5, i3, r);
    reveal(block_seq);
}

/// The streaming search over blocks `from..to` of an image of `to` blocks
/// reports exactly the occurrences of the plaintext that start no more
/// than seven bytes before block `from`, under the selector tuples that
/// are tried.
pub proof fn lemma_stream_reports(
    image: Seq<u8>,
    base: u32,
    pattern: Seq<u8>,
    from: int,
    to: int,
    r: Match,
)
    requires
        pattern.len() >= 9,
        0 <= from <= to,
        image.len() <= 4 * to,
    ensures
        stream_seq(image, base, pattern, from, to).contains(r) <==> reports_occurrence(
            image,
            base,
            pattern,
            4 * from - 7,
            r,
        ),
{
    reveal(stream_seq);
    let f = block_piece(image, base, pattern, from);
    lemma_concat_contains(f, to - from, r);
    if stream_seq(image, base, pattern, from, to).contains(r) {
        let i = choose|i: int| 0 <= i < to - from && #[trigger] f(i).contains(r);
        lemma_block_reports_only(image, base, pattern, from + i, r);
    }
    if reports_occurrence(image, base, pattern, 4 * from - 7, r) {
        let (selectors, at) = choose|selectors: [Option<u8>; 3], at: int|
            searched(selectors) && at >= 4 * from - 7 && #[trigger] occurs(
                image,
                base,
                pattern,
                selectors,
                at,
            ) && r == match_at(image, base, pattern, selectors, at);
        lemma_block_reports_all(image, base, pattern, selectors, at);
        let c = finding_block(at);
        assert(from <= c < to);
        assert(f(c - from) == block_seq(image, base, pattern, c));
        assert(f(c - from).contains(r));
    }
}

/// A record in the batch results reports an occurrence.
proof fn lemma_batch_reports_only(image: Seq<u8>, base: u32, pattern: Seq<u8>, r: Match)
    requires
        batch_seq(image, base, pattern).contains(r),
    ensures
        reports_occurrence(image, base, pattern, 0, r),
{
    let f1 = first_piece(image, base, pattern);
    let i1 = lemma_concat_member(f1, 5, r);
    let s1 = nth_selector(i1);
    let (s2, s3, at) = lemma_first_member(image, base, pattern, s1, r);
    let selectors = selector_tuple(s1, s2, s3);
    assert(searched(selectors)) by {
        assert(selectors[0] == s1 && selectors[1] == s2 && selectors[2] == s3);
    }
}

/// Every occurrence is in the batch results.
proof fn lemma_batch_reports_all(
    image: Seq<u8>,
    base: u32,
    pattern: Seq<u8>,
    selectors: [Option<u8>; 3],
    at: int,
)
    requires
        searched(selectors),
        occurs(image, base, pattern, selectors, at),
    ensures
        batch_seq(image, base, pattern).contains(match_at(image, base, pattern, selectors, at)),
{
    let r = match_at(image, base, pattern, selectors, at);
    let s1 = selectors[0];
    let s2 = selectors[1];
    let s3 = selectors[2];
    assert(tried(s1) && tried(s2) && tried(s3));
    let i1 = selector_index(s1);
    let i2 = selector_index(s2);
    let i3 = selector_index(s3);
    assert(nth_selector(i1) == s1 && nth_selector(i2) == s2 && nth_selector(i3) == s3);
    assert(selector_tuple(s1, s2, s3) =~= selectors);
    let fo = offset_piece(image, base, pattern, selectors);
    let n = image.len() - pattern.len() + 1;
    assert(fo(at) == found_at(image, base, pattern, selectors, at));
    assert(fo(at)[0] == r);
    lemma_concat_holds(fo, n, at, r);
    let f3 = third_piece(image, base, pattern, s1, s2);
    assert(f3(i3) == concat_upto(fo, n));
    lemma_concat_holds(f3, 5, i3, r);
    let f2 = second_piece(image, base, pattern, s1);
    assert(f2(i2) == concat_upto(f3, 5));
    lemma_concat_holds(f2, 5, i2, r);
    let f1 = first_piece(image, base, pattern);
    assert(f1(i1) == concat_upto(f2, 5));
    lemma_concat_holds(f1, 5, i1, r);
}

/// The batch search reports exactly the occurrences of the plaintext in
/// the image, under the selector tuples that are tried.
pub proof fn lemma_batch_reports(image: Seq<u8>, base: u32, pattern: Seq<u8>, r: Match)
    ensures
        batch_seq(image, base, pattern).contains(r) <==> reports_occurrence(
            image,
            base,
            pattern,
            0,
            r,
        ),
{
    if batch_seq(image, base, pattern).contains(r) {
        lemma_batch_reports_only(image, base, pattern, r);
    }
    if reports_occurrence(image, base, pattern, 0, r) {
        let (selectors, at) = choose|selectors: [Option<u8>; 3], at: int|
            searched(selectors) && at >= 0 && #[trigger] occurs(image, base, pattern, selectors, at)
                && r == match_at(image, base, pattern, selectors, at);
        lemma_batch_reports_all(image, base, pattern, selectors, at);
    }
}

/// On an image of whole blocks, and for a plaintext long enough for both,
/// the streaming search from the start of the image and the batch search
/// report the same set of records.
pub proof fn lemma_strategies_agree(image: Seq<u8>, base: u32, pattern: Seq<u8>)
    requires
        pattern.len() >= 9,
        image.len() % 4 == 0,
    ensures
        stream_seq(image, base, pattern, 0, image.len() as int / 4).to_set() == batch_seq(
            image,
            base,
            pattern,
        ).to_set(),
{
    let streamed = stream_seq(image, base, pattern, 0, image.len() as int / 4);
    let batched = batch_seq(image, base, pattern);
    assert forall|r: Match| streamed.contains(r) <==> batched.contains(r) by {
        lemma_stream_reports(image, base, pattern, 0, image.len() as int / 4, r);
        lemma_batch_reports(image, base, pattern, r);
        if reports_occurrence(image, base, pattern, -7, r) {
            let (selectors, at) = choose|selectors: [Option<u8>; 3], at: int|
                searched(selectors) && at >= -7 && #[trigger] occurs(
                    image,
                    base,
                    pattern,
                    selectors,
                    at,
                ) && r == match_at(image, base, pattern, selectors, at);
            assert(at >= 0);
        }
        if reports_occurrence(image, base, pattern, 0, r) {
            let (selectors, at) = choose|selectors: [Option<u8>; 3], at: int|
                searched(selectors) && at >= 0 && #[trigger] occurs(
                    image,
                    base,
                    pattern,
                    selectors,
                    at,
                ) && r == match_at(image, base, pattern, selectors, at);
            assert(at >= -7);
        }
    }
    assert(streamed.to_set() =~= batched.to_set());
}


/// A record tells which occurrence it reports: the address gives the
/// offset, the settings word the selector tuple.
pub proof fn lemma_record_identifies(
    image: Seq<u8>,
    base: u32,
    pattern: Seq<u8>,
    selectors: [Option<u8>; 3],
    at: int,
    selectors2: [Option<u8>; 3],
    at2: int,
)
    requires
        pattern.len() >= 1,
        searched(selectors),
        searched(selectors2),
        occurs(image, base, pattern, selectors, at),
        occurs(image, base, pattern, selectors2, at2),
        match_at(image, base, pattern, selectors, at) == match_at(
            image,
            base,
            pattern,
            selectors2,
            at2,
        ),
    ensures
        at == at2,
        selectors == selectors2,
{
    let r = match_at(image, base, pattern, selectors, at);
    let r2 = match_at(image, base, pattern, selectors2, at2);
    assert(r.addr == base + at);
    assert(r2.addr == base + at2);
    crate::crypto::lemma_settings_word_round_trip(selectors);
    crate::crypto::lemma_settings_word_round_trip(selectors2);
    assert(r.settings == r2.settings);
    assert(selectors@ == selectors2@);
    assert(selectors =~= selectors2);
}

/// The candidate that a record of `verified_seq` comes from.
proof fn lemma_verified_member(
    image: Seq<u8>,
    base: u32,
    pattern: Seq<u8>,
    c: int,
    s3: Option<u8>,
    first: Option<u8>,
    q: int,
    r: Match,
) -> (second: Option<u8>)
    requires
        verified_seq(image, base, pattern, c, s3, first, q).contains(r),
    ensures
        tried(second),
        occurs(image, base, pattern, candidate_selectors(q, s3, first, second), window_offset(c, q)),
        r == match_at(
            image,
            base,
            pattern,
            candidate_selectors(q, s3, first, second),
            window_offset(c, q),
        ),
{
    let fb = candidate_piece(image, base, pattern, c, s3, first, q);
    let ib = lemma_concat_member(fb, 5, r);
    let second = nth_selector(ib);
    let selectors = candidate_selectors(q, s3, first, second);
    let at = window_offset(c, q);
    assert(fb(ib) == found_at(image, base, pattern, selectors, at));
    assert(fb(ib)[0] == match_at(image, base, pattern, selectors, at));
    second
}

/// The candidate that a record of `pair_seq` comes from.
proof fn lemma_pair_member(
    image: Seq<u8>,
    base: u32,
    pattern: Seq<u8>,
    c: int,
    s3: Option<u8>,
    first: Option<u8>,
    r: Match,
) -> (w: (int, Option<u8>))
    requires
        pair_seq(image, base, pattern, c, s3, first).contains(r),
    ensures
        0 <= w.0 < 4,
        tried(w.1),
        occurs(image, base, pattern, candidate_selectors(w.0, s3, first, w.1), window_offset(c, w.0)),
        r == match_at(
            image,
            base,
            pattern,
            candidate_selectors(w.0, s3, first, w.1),
            window_offset(c, w.0),
        ),
{
    let fq = entry_piece(image, base, pattern, c, s3, first);
    let q = lemma_concat_member(fq, 4, r);
    let second = lemma_verified_member(image, base, pattern, c, s3, first, q, r);
    (q, second)
}

/// The candidate that a record of `stage3_seq` comes from.
proof fn lemma_stage3_member(
    image: Seq<u8>,
    base: u32,
    pattern: Seq<u8>,
    c: int,
    s3: Option<u8>,
    r: Match,
) -> (w: (Option<u8>, int, Option<u8>))
    requires
        stage3_seq(image, base, pattern, c, s3).contains(r),
    ensures
        0 <= w.1 < 4,
        tried(w.0),
        tried(w.2),
        occurs(image, base, pattern, candidate_selectors(w.1, s3, w.0, w.2), window_offset(c, w.1)),
        r == match_at(
            image,
            base,
            pattern,
            candidate_selectors(w.1, s3, w.0, w.2),
            window_offset(c, w.1),
        ),
{
    let fa = pair_piece(image, base, pattern, c, s3);
    let ia = lemma_concat_member(fa, 5, r);
    let first = nth_selector(ia);
    let (q, second) = lemma_pair_member(image, base, pattern, c, s3, first, r);
    (first, q, second)
}

/// The candidate that a record of `block_seq` comes from.
proof fn lemma_block_member(image: Seq<u8>, base: u32, pattern: Seq<u8>, c: int, r: Match) -> (w: (
    Option<u8>,
    Option<u8>,
    int,
    Option<u8>,
))
    requires
        block_seq(image, base, pattern, c).contains(r),
    ensures
        0 <= w.2 < 4,
        tried(w.0),
        tried(w.1),
        tried(w.3),
        occurs(image, base, pattern, candidate_selectors(w.2, w.0, w.1, w.3), window_offset(c, w.2)),
        r == match_at(
            image,
            base,
            pattern,
            candidate_selectors(w.2, w.0, w.1, w.3),
            window_offset(c, w.2),
        ),
{
    reveal(block_seq);
    let f3 = stage3_piece(image, base, pattern, c);
    let i3 = lemma_concat_member(f3, 5, r);
    let s3 = nth_selector(i3);
    let (first, q, second) = lemma_stage3_member(image, base, pattern, c, s3, r);
    (s3, first, q, second)
}

/// Two candidates with one record are one candidate.
proof fn lemma_candidate_identifies(
    image: Seq<u8>,
    base: u32,
    pattern: Seq<u8>,
    c: int,
    q: int,
    s3: Option<u8>,
    first: Option<u8>,
    second: Option<u8>,
    c2: int,
    q2: int,
    s32: Option<u8>,
    first2: Option<u8>,
    second2: Option<u8>,
)
    requires
        pattern.len() >= 1,
        0 <= q < 4,
        0 <= q2 < 4,
        tried(s3),
        tried(first),
        tried(second),
        tried(s32),
        tried(first2),
        tried(second2),
        occurs(image, base, pattern, candidate_selectors(q, s3, first, second), window_offset(c, q)),
        occurs(
            image,
            base,
            pattern,
            candidate_selectors(q2, s32, first2, second2),
            window_offset(c2, q2),
        ),
        match_at(
            image,
            base,
            pattern,
            candidate_selectors(q, s3, first, second),
            window_offset(c, q),
        ) == match_at(
            image,
            base,
            pattern,
            candidate_selectors(q2, s32, first2, second2),
            window_offset(c2, q2),
        ),
    ensures
        c == c2,
        q == q2,
        s3 == s32,
        first == first2,
        second == second2,
{
    let sel = candidate_selectors(q, s3, first, second);
    let sel2 = candidate_selectors(q2, s32, first2, second2);
    let at = window_offset(c, q);
    let at2 = window_offset(c2, q2);
    assert(sel[2] == s3 && sel[if q < 2 { 1int } else { 0int }] == first && sel[if q < 2 {
        0int
    } else {
        1int
    }] == second);
    assert(sel2[2] == s32 && sel2[if q2 < 2 { 1int } else { 0int }] == first2 && sel2[if q2 < 2 {
        0int
    } else {
        1int
    }] == second2);
    assert(searched(sel));
    assert(searched(sel2));
    assert(at == at2 && sel == sel2) by {
        lemma_record_identifies(image, base, pattern, sel, at, sel2, at2);
    }
    assert(c == c2 && q == q2) by {
        lemma_window_unique(c, q);
        lemma_window_unique(c2, q2);
    }
}

/// Distinct indices stand for distinct choices.
proof fn lemma_nth_selector_injective(i: int, j: int)
    requires
        0 <= i < 5,
        0 <= j < 5,
        nth_selector(i) == nth_selector(j),
    ensures
        i == j,
{
}

/// One follow-up of a hit reports no record twice.
proof fn lemma_verified_no_duplicates(
    image: Seq<u8>,
    base: u32,
    pattern: Seq<u8>,
    c: int,
    s3: Option<u8>,
    first: Option<u8>,
    q: int,
)
    requires
        pattern.len() >= 1,
        tried(s3),
        tried(first),
        0 <= q < 4,
    ensures
        verified_seq(image, base, pattern, c, s3, first, q).no_duplicates(),
{
    let f = candidate_piece(image, base, pattern, c, s3, first, q);
    assert forall|i: int, j: int, r: Match|
        0 <= i < j < 5 && #[trigger] f(i).contains(r) implies !#[trigger] f(j).contains(r) by {
        if f(j).contains(r) {
            assert(f(i)[0] == r && f(j)[0] == r);
            lemma_candidate_identifies(
                image,
                base,
                pattern,
                c,
                q,
                s3,
                first,
                nth_selector(i),
                c,
                q,
                s3,
                first,
                nth_selector(j),
            );
            lemma_nth_selector_injective(i, j);
        }
    }
    lemma_concat_no_duplicates(f, 5);
}

/// One pair of choices reports no record twice.
proof fn lemma_pair_no_duplicates(
    image: Seq<u8>,
    base: u32,
    pattern: Seq<u8>,
    c: int,
    s3: Option<u8>,
    first: Option<u8>,
)
    requires
        pattern.len() >= 1,
        tried(s3),
        tried(first),
    ensures
        pair_seq(image, base, pattern, c, s3, first).no_duplicates(),
{
    let f = entry_piece(image, base, pattern, c, s3, first);
    assert forall|i: int| 0 <= i < 4 implies (#[trigger] f(i)).no_duplicates() by {
        lemma_verified_no_duplicates(image, base, pattern, c, s3, first, i);
    }
    assert forall|i: int, j: int, r: Match|
        0 <= i < j < 4 && #[trigger] f(i).contains(r) implies !#[trigger] f(j).contains(r) by {
        if f(j).contains(r) {
            let second = lemma_verified_member(image, base, pattern, c, s3, first, i, r);
            let second2 = lemma_verified_member(image, base, pattern, c, s3, first, j, r);
            lemma_candidate_identifies(
                image,
                base,
                pattern,
                c,
                i,
                s3,
                first,
                second,
                c,
                j,
                s3,
                first,
                second2,
            );
        }
    }
    lemma_concat_no_duplicates(f, 4);
}

/// One choice for stage three reports no record twice.
proof fn lemma_stage3_no_duplicates(
    image: Seq<u8>,
    base: u32,
    pattern: Seq<u8>,
    c: int,
    s3: Option<u8>,
)
    requires
        pattern.len() >= 1,
        tried(s3),
    ensures
        stage3_seq(image, base, pattern, c, s3).no_duplicates(),
{
    let f = pair_piece(image, base, pattern, c, s3);
    assert forall|i: int| 0 <= i < 5 implies (#[trigger] f(i)).no_duplicates() by {
        lemma_pair_no_duplicates(image, base, pattern, c, s3, nth_selector(i));
    }
    assert forall|i: int, j: int, r: Match|
        0 <= i < j < 5 && #[trigger] f(i).contains(r) implies !#[trigger] f(j).contains(r) by {
        if f(j).contains(r) {
            let (q, second) = lemma_pair_member(image, base, pattern, c, s3, nth_selector(i), r);
            let (q2, second2) = lemma_pair_member(image, base, pattern, c, s3, nth_selector(j), r);
            lemma_candidate_identifies(
                image,
                base,
                pattern,
                c,
                q,
                s3,
                nth_selector(i),
                second,
                c,
                q2,
                s3,
                nth_selector(j),
                second2,
            );
            lemma_nth_selector_injective(i, j);
        }
    }
    lemma_concat_no_duplicates(f, 5);
}

/// The scan of one block reports no record twice.
proof fn lemma_block_no_duplicates(image: Seq<u8>, base: u32, pattern: Seq<u8>, c: int)
    requires
        pattern.len() >= 1,
    ensures
        block_seq(image, base, pattern, c).no_duplicates(),
{
    reveal(block_seq);
    let f = stage3_piece(image, base, pattern, c);
    assert forall|i: int| 0 <= i < 5 implies (#[trigger] f(i)).no_duplicates() by {
        lemma_stage3_no_duplicates(image, base, pattern, c, nth_selector(i));
    }
    assert forall|i: int, j: int, r: Match|
        0 <= i < j < 5 && #[trigger] f(i).contains(r) implies !#[trigger] f(j).contains(r) by {
        if f(j).contains(r) {
            let (first, q, second) = lemma_stage3_member(image, base, pattern, c, nth_selector(i), r);
            let (first2, q2, second2) = lemma_stage3_member(
                image,
                base,
                pattern,
                c,
                nth_selector(j),
                r,
            );
            lemma_candidate_identifies(
                image,
                base,
                pattern,
                c,
                q,
                nth_selector(i),
                first,
                second,
                c,
                q2,
                nth_selector(j),
                first2,
                second2,
            );
            lemma_nth_selector_injective(i, j);
        }
    }
    lemma_concat_no_duplicates(f, 5);
}

/// The streaming search reports no record twice: every occurrence is
/// met through one table entry of one block only.
pub proof fn lemma_stream_no_duplicates(
    image: Seq<u8>,
    base: u32,
    pattern: Seq<u8>,
    from: int,
    to: int,
)
    requires
        pattern.len() >= 1,
    ensures
        stream_seq(image, base, pattern, from, to).no_duplicates(),
{
    reveal(stream_seq);
    let f = block_piece(image, base, pattern, from);
    assert forall|i: int| 0 <= i < to - from implies (#[trigger] f(i)).no_duplicates() by {
        lemma_block_no_duplicates(image, base, pattern, from + i);
    }
    assert forall|i: int, j: int, r: Match|
        0 <= i < j < to - from && #[trigger] f(i).contains(r) implies !#[trigger] f(j).contains(
            r,
        ) by {
        if f(j).contains(r) {
            let (s3, first, q, second) = lemma_block_member(image, base, pattern, from + i, r);
            let (s32, first2, q2, second2) = lemma_block_member(image, base, pattern, from + j, r);
            lemma_candidate_identifies(
                image,
                base,
                pattern,
                from + i,
                q,
                s3,
                first,
                second,
                from + j,
                q2,
                s32,
                first2,
                second2,
            );
        }
    }
    lemma_concat_no_duplicates(f, to - from);
}

/// The occurrence that a record of `tuple_seq` comes from.
proof fn lemma_tuple_member(
    image: Seq<u8>,
    base: u32,
    pattern: Seq<u8>,
    selectors: [Option<u8>; 3],
    r: Match,
) -> (at: int)
    requires
        tuple_seq(image, base, pattern, selectors).contains(r),
    ensures
        occurs(image, base, pattern, selectors, at),
        r == match_at(image, base, pattern, selectors, at),
{
    let f = offset_piece(image, base, pattern, selectors);
    let at = lemma_concat_member(f, image.len() - pattern.len() + 1, r);
    assert(f(at) == found_at(image, base, pattern, selectors, at));
    assert(f(at)[0] == match_at(image, base, pattern, selectors, at));
    at
}

/// The occurrence that a record of `second_seq` comes from.
proof fn lemma_second_member(
    image: Seq<u8>,
    base: u32,
    pattern: Seq<u8>,
    s1: Option<u8>,
    s2: Option<u8>,
    r: Match,
) -> (w: (Option<u8>, int))
    requires
        second_seq(image, base, pattern, s1, s2).contains(r),
    ensures
        tried(w.0),
        occurs(image, base, pattern, selector_tuple(s1, s2, w.0), w.1),
        r == match_at(image, base, pattern, selector_tuple(s1, s2, w.0), w.1),
{
    let f = third_piece(image, base, pattern, s1, s2);
    let i3 = lemma_concat_member(f, 5, r);
    let s3 = nth_selector(i3);
    let at = lemma_tuple_member(image, base, pattern, selector_tuple(s1, s2, s3), r);
    (s3, at)
}

/// The occurrence that a record of `first_seq` comes from.
proof fn lemma_first_member(image: Seq<u8>, base: u32, pattern: Seq<u8>, s1: Option<u8>, r: Match) -> (w:
    (Option<u8>, Option<u8>, int))
    requires
        first_seq(image, base, pattern, s1).contains(r),
    ensures
        tried(w.0),
        tried(w.1),
        occurs(image, base, pattern, selector_tuple(s1, w.0, w.1), w.2),
        r == match_at(image, base, pattern, selector_tuple(s1, w.0, w.1), w.2),
{
    let f = second_piece(image, base, pattern, s1);
    let i2 = lemma_concat_member(f, 5, r);
    let s2 = nth_selector(i2);
    let (s3, at) = lemma_second_member(image, base, pattern, s1, s2, r);
    (s2, s3, at)
}

/// Two occurrences with one record are one occurrence.
proof fn lemma_tuple_identifies(
    image: Seq<u8>,
    base: u32,
    pattern: Seq<u8>,
    s1: Option<u8>,
    s2: Option<u8>,
    s3: Option<u8>,
    at: int,
    t1: Option<u8>,
    t2: Option<u8>,
    t3: Option<u8>,
    at2: int,
)
    requires
        pattern.len() >= 1,
        tried(s1),
        tried(s2),
        tried(s3),
        tried(t1),
        tried(t2),
        tried(t3),
        occurs(image, base, pattern, selector_tuple(s1, s2, s3), at),
        occurs(image, base, pattern, selector_tuple(t1, t2, t3), at2),
        match_at(image, base, pattern, selector_tuple(s1, s2, s3), at) == match_at(
            image,
            base,
            pattern,
            selector_tuple(t1, t2, t3),
            at2,
        ),
    ensures
        at == at2,
        s1 == t1,
        s2 == t2,
        s3 == t3,
{
    let sel = selector_tuple(s1, s2, s3);
    let sel2 = selector_tuple(t1, t2, t3);
    assert(searched(sel));
    assert(searched(sel2));
    lemma_record_identifies(image, base, pattern, sel, at, sel2, at2);
    assert(sel[0] == sel2[0] && sel[1] == sel2[1] && sel[2] == sel2[2]);
}

/// The search under one selector tuple reports no record twice.
proof fn lemma_tuple_no_duplicates(
    image: Seq<u8>,
    base: u32,
    pattern: Seq<u8>,
    s1: Option<u8>,
    s2: Option<u8>,
    s3: Option<u8>,
)
    requires
        pattern.len() >= 1,
        tried(s1),
        tried(s2),
        tried(s3),
    ensures
        tuple_seq(image, base, pattern, selector_tuple(s1, s2, s3)).no_duplicates(),
{
    let selectors = selector_tuple(s1, s2, s3);
    let f = offset_piece(image, base, pattern, selectors);
    let n = image.len() - pattern.len() + 1;
    assert forall|i: int, j: int, r: Match|
        0 <= i < j < n && #[trigger] f(i).contains(r) implies !#[trigger] f(j).contains(r) by {
        if f(j).contains(r) {
            assert(f(i)[0] == r && f(j)[0] == r);
            lemma_tuple_identifies(image, base, pattern, s1, s2, s3, i, s1, s2, s3, j);
        }
    }
    lemma_concat_no_duplicates(f, n);
}

/// One choice for stages one and two reports no record twice.
proof fn lemma_second_no_duplicates(
    image: Seq<u8>,
    base: u32,
    pattern: Seq<u8>,
    s1: Option<u8>,
    s2: Option<u8>,
)
    requires
        pattern.len() >= 1,
        tried(s1),
        tried(s2),
    ensures
        second_seq(image, base, pattern, s1, s2).no_duplicates(),
{
    let f = third_piece(image, base, pattern, s1, s2);
    assert forall|i: int| 0 <= i < 5 implies (#[trigger] f(i)).no_duplicates() by {
        lemma_tuple_no_duplicates(image, base, pattern, s1, s2, nth_selector(i));
    }
    assert forall|i: int, j: int, r: Match|
        0 <= i < j < 5 && #[trigger] f(i).contains(r) implies !#[trigger] f(j).contains(r) by {
        if f(j).contains(r) {
            let at = lemma_tuple_member(
                image,
                base,
                pattern,
                selector_tuple(s1, s2, nth_selector(i)),
                r,
            );
            let at2 = lemma_tuple_member(
                image,
                base,
                pattern,
                selector_tuple(s1, s2, nth_selector(j)),
                r,
            );
            lemma_tuple_identifies(
                image,
                base,
                pattern,
                s1,
                s2,
                nth_selector(i),
                at,
                s1,
                s2,
                nth_selector(j),
                at2,
            );
            lemma_nth_selector_injective(i, j);
        }
    }
    lemma_concat_no_duplicates(f, 5);
}

/// One choice for stage one reports no record twice.
proof fn lemma_first_no_duplicates(image: Seq<u8>, base: u32, pattern: Seq<u8>, s1: Option<u8>)
    requires
        pattern.len() >= 1,
        tried(s1),
    ensures
        first_seq(image, base, pattern, s1).no_duplicates(),
{
    let f = second_piece(image, base, pattern, s1);
    assert forall|i: int| 0 <= i < 5 implies (#[trigger] f(i)).no_duplicates() by {
        lemma_second_no_duplicates(image, base, pattern, s1, nth_selector(i));
    }
    assert forall|i: int, j: int, r: Match|
        0 <= i < j < 5 && #[trigger] f(i).contains(r) implies !#[trigger] f(j).contains(r) by {
        if f(j).contains(r) {
            let (s3, at) = lemma_second_member(image, base, pattern, s1, nth_selector(i), r);
            let (t3, at2) = lemma_second_member(image, base, pattern, s1, nth_selector(j), r);
            lemma_tuple_identifies(
                image,
                base,
                pattern,
                s1,
                nth_selector(i),
                s3,
                at,
                s1,
                nth_selector(j),
                t3,
                at2,
            );
            lemma_nth_selector_injective(i, j);
        }
    }
    lemma_concat_no_duplicates(f, 5);
}

/// The batch search reports no record twice.
pub proof fn lemma_batch_no_duplicates(image: Seq<u8>, base: u32, pattern: Seq<u8>)
    requires
        pattern.len() >= 1,
    ensures
        batch_seq(image, base, pattern).no_duplicates(),
{
    let f = first_piece(image, base, pattern);
    assert forall|i: int| 0 <= i < 5 implies (#[trigger] f(i)).no_duplicates() by {
        lemma_first_no_duplicates(image, base, pattern, nth_selector(i));
    }
    assert forall|i: int, j: int, r: Match|
        0 <= i < j < 5 && #[trigger] f(i).contains(r) implies !#[trigger] f(j).contains(r) by {
        if f(j).contains(r) {
            let (s2, s3, at) = lemma_first_member(image, base, pattern, nth_selector(i), r);
            let (t2, t3, at2) = lemma_first_member(image, base, pattern, nth_selector(j), r);
            lemma_tuple_identifies(
                image,
                base,
                pattern,
                nth_selector(i),
                s2,
                s3,
                at,
                nth_selector(j),
                t2,
                t3,
                at2,
            );
            lemma_nth_selector_injective(i, j);
        }
    }
    lemma_concat_no_duplicates(f, 5);
}

} // verus!
