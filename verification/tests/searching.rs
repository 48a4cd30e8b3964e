use bk7231_calculator::batch::batch_search;
use bk7231_calculator::crypto::{encrypt, format_settings_word};
use bk7231_calculator::matching::{Match, SearchError};
use bk7231_calculator::search::{all_selectors, matchers, search, Bk7231RollingXor};
use bk7231_calculator::strategy::Strategy;
use bk7231_calculator::utils::{MemorySource, PeekRead, RollingXor};

fn filled(size: usize, mul: u32, add: u32) -> Vec<u8> {
    (0..size as u32).map(|i| (i.wrapping_mul(mul).wrapping_add(add) & 0xff) as u8).collect()
}

/// An image of `size` bytes whose plaintext is the fill pattern with
/// `plain` laid over it at `offset`; the blocks that `plain` touches are
/// encrypted, the others left as they are.
fn planted(
    size: usize,
    base: u32,
    offset: usize,
    plain: &[u8],
    key: u32,
    selectors: [Option<u8>; 3],
    mul: u32,
    add: u32,
) -> Vec<u8> {
    let mut image = filled(size, mul, add);
    let mut text = image.clone();
    text[offset..offset + plain.len()].copy_from_slice(plain);
    let first = offset / 4 * 4;
    let last = (offset + plain.len() + 3) / 4 * 4;
    let mut block = first;
    while block < last {
        let word = u32::from_le_bytes([text[block], text[block + 1], text[block + 2], text[block + 3]]);
        let word = word ^ key ^ encrypt(base + block as u32, selectors);
        image[block..block + 4].copy_from_slice(&word.to_le_bytes());
        block += 4;
    }
    image
}

fn stream_search(image: &[u8], base: u32, pattern: &[u8]) -> Result<Vec<Match>, SearchError> {
    let reader = PeekRead::new(MemorySource::new(image.to_vec()));
    let mut state = Bk7231RollingXor::new(reader, base)?;
    let mut found = Vec::new();
    search(&mut state, pattern, &mut found)?;
    Ok(found)
}

fn find(strategy: Strategy, image: &[u8], base: u32, pattern: &[u8]) -> (Vec<Match>, Result<(), SearchError>) {
    let mut found = Vec::new();
    let outcome = strategy.find(image.to_vec(), base, pattern, &mut found);
    (found, outcome)
}

fn sorted(mut records: Vec<Match>) -> Vec<(u32, u32, u32)> {
    records.sort_by_key(|r| (r.addr, r.key, r.settings));
    records.iter().map(|r| (r.addr, r.key, r.settings)).collect()
}

#[test]
fn end_to_end_finds_the_planted_key() {
    let plain = b"known text";
    let selectors = [Some(1), None, Some(2)];
    let image = planted(64, 0, 0x20, plain, 0x1234_5678, selectors, 0, 0);
    let found = sorted(stream_search(&image, 0, plain).unwrap());
    assert!(found.contains(&(0x20, 0x1234_5678, format_settings_word(selectors))));
    // At these small addresses some stages give the same words for several
    // parameters, so the same occurrence is reported under each of them.
    let expected = vec![
        (0x20, 0x1234_5238, 0x5500_1020),
        (0x20, 0x1234_5238, 0x5500_1060),
        (0x20, 0x1234_5678, 0x5500_1022),
        (0x20, 0x1234_5678, 0x5500_1062),
        (0x20, 0x1234_5678, 0x5500_1320),
        (0x20, 0x1234_5678, 0x5500_1360),
    ];
    assert_eq!(found, expected);
    assert_eq!(sorted(batch_search(&image, 0, plain).unwrap()), expected);
}

#[test]
fn end_to_end_at_a_high_base_address() {
    let plain = b"known text";
    let selectors = [Some(1), None, Some(2)];
    let image = planted(64, 0x1234_5600, 0x20, plain, 0x1234_5678, selectors, 0, 0);
    let expected = vec![
        (0x1234_5620, 0x1234_5678, 0x5500_1022),
        (0x1234_5620, 0x1234_702d, 0x5500_1020),
        (0x1234_5620, 0x1234_745a, 0x5500_1320),
        (0x1234_5620, 0x1369_5678, 0x5500_1062),
        (0x1234_5620, 0x1369_702d, 0x5500_1060),
        (0x1234_5620, 0x1369_745a, 0x5500_1360),
    ];
    assert_eq!(sorted(stream_search(&image, 0x1234_5600, plain).unwrap()), expected);
    assert_eq!(sorted(batch_search(&image, 0x1234_5600, plain).unwrap()), expected);
}

#[test]
fn occurrences_are_found_at_every_alignment() {
    let plain = b"Hello, world!";
    let selectors = [Some(3), Some(2), None];
    let base = 0x1234_5600;
    for &offset in [0usize, 1, 2, 3, 0x20, 0x21, 0x22, 0x23, 64 - 13].iter() {
        let image = planted(64, base, offset, plain, 0xdead_beef, selectors, 37, 11);
        let at = base + offset as u32;
        let expected = vec![(at, 0xdead_beef, 0x5500_0264), (at, 0xdff0_beef, 0x5500_0224)];
        assert_eq!(sorted(stream_search(&image, base, plain).unwrap()), expected);
        assert_eq!(sorted(batch_search(&image, base, plain).unwrap()), expected);
    }
}

#[test]
fn both_strategies_report_the_same_matches() {
    let choices = [Some(0u8), Some(1), Some(2), Some(3), None];
    let mut seed = 0x2545_f491u32;
    for round in 0..40u32 {
        seed = seed.wrapping_mul(1_664_525).wrapping_add(1_013_904_223);
        let size = 4 * (4 + (seed >> 8) as usize % 40);
        let length = 9 + (seed >> 16) as usize % 8;
        let offset = (seed >> 20) as usize % (size - length + 1);
        let selectors = [
            choices[(seed >> 3) as usize % 5],
            choices[(seed >> 7) as usize % 5],
            choices[(seed >> 11) as usize % 5],
        ];
        let base = (seed & 0x0fff_fff0) & !3;
        let plain: Vec<u8> = (0..length as u32).map(|i| (i * 29 + round * 3 + 65) as u8).collect();
        let image = planted(size, base, offset, &plain, seed ^ 0xa5a5_5a5a, selectors, seed | 1, round);
        let streamed = sorted(stream_search(&image, base, &plain).unwrap());
        let batched = sorted(batch_search(&image, base, &plain).unwrap());
        assert_eq!(streamed, batched);
        let wanted = (base + offset as u32, seed ^ 0xa5a5_5a5a, format_settings_word(selectors));
        assert!(streamed.contains(&wanted));
    }
}

#[test]
fn no_record_is_reported_twice() {
    let plain = b"known text";
    let image = planted(64, 0, 0x20, plain, 0x1234_5678, [Some(1), None, Some(2)], 0, 0);
    let found = sorted(stream_search(&image, 0, plain).unwrap());
    let mut unique = found.clone();
    unique.dedup();
    assert_eq!(found, unique);
    let found = sorted(batch_search(&image, 0, plain).unwrap());
    let mut unique = found.clone();
    unique.dedup();
    assert_eq!(found, unique);
}

#[test]
fn an_image_without_the_plaintext_gives_no_match() {
    let image = filled(256, 37, 11);
    assert_eq!(stream_search(&image, 0x0800_0000, b"not in there").unwrap(), vec![]);
    assert_eq!(batch_search(&image, 0x0800_0000, b"not in there").unwrap(), vec![]);
}

#[test]
fn an_image_of_less_than_two_blocks_starts_no_scan() {
    assert_eq!(stream_search(&[], 0, b"plaintext"), Err(SearchError::ImageTooShort));
    assert_eq!(stream_search(&[1, 2, 3, 4], 0, b"plaintext"), Err(SearchError::ImageTooShort));
    assert_eq!(stream_search(&[1, 2, 3, 4, 5, 6], 0, b"plaintext"), Err(SearchError::IncompleteBlock));
    assert_eq!(stream_search(&[0; 8], 0xffff_fffc, b"plaintext"), Err(SearchError::AddressOverflow));
    assert_eq!(stream_search(&[0; 8], 0xffff_fff8, b"plaintext"), Err(SearchError::AddressOverflow));
    assert_eq!(stream_search(&[0; 8], 0xffff_fff4, b"plaintext"), Ok(vec![]));
    assert_eq!(stream_search(&[0; 8], 0, b"plaintext"), Ok(vec![]));
    assert_eq!(batch_search(&[], 0, b"plaintext").unwrap(), vec![]);
}

#[test]
fn new_reads_the_first_two_blocks() {
    let reader = PeekRead::new(MemorySource::new(filled(16, 1, 0)));
    let mut state = Bk7231RollingXor::new(reader, 0x4000).unwrap();
    assert_eq!(state.update(), Ok(Some(0x4008)));
    assert_eq!(state.update(), Ok(Some(0x400c)));
    assert_eq!(state.update(), Ok(None));
}

#[test]
fn a_short_plaintext_is_refused_before_anything_is_read() {
    let reader = PeekRead::new(MemorySource::new(filled(16, 1, 0)));
    let mut state = Bk7231RollingXor::new(reader, 0x4000).unwrap();
    let mut found = Vec::new();
    assert_eq!(search(&mut state, b"eightlen", &mut found), Err(SearchError::PatternTooShort));
    assert!(found.is_empty());
    assert_eq!(state.update(), Ok(Some(0x4008)));
}

#[test]
fn what_was_found_before_an_error_is_kept() {
    let plain = b"Hello, world!";
    let selectors = [Some(3), Some(2), None];
    let base = 0x1234_5600;
    let mut image = planted(64, base, 0x10, plain, 0xdead_beef, selectors, 37, 11);
    let expected = vec![(base + 0x10, 0xdead_beef, 0x5500_0264), (base + 0x10, 0xdff0_beef, 0x5500_0224)];
    image.extend_from_slice(&[1, 2, 3]);
    let (found, outcome) = find(Strategy::Streaming, &image, base, plain);
    assert_eq!(outcome, Err(SearchError::IncompleteBlock));
    assert_eq!(sorted(found), expected);

    let image = planted(64, 0xffff_ffd0, 0x10, plain, 0xdead_beef, selectors, 37, 11);
    let (found, outcome) = find(Strategy::Streaming, &image, 0xffff_ffd0, plain);
    assert_eq!(outcome, Err(SearchError::AddressOverflow));
    assert_eq!(
        sorted(found),
        sorted(batch_search(&image[..44], 0xffff_ffd0, plain).unwrap())
    );
    let (found, outcome) = find(Strategy::Batch, &image, 0xffff_ffd0, plain);
    assert_eq!(outcome, Err(SearchError::AddressOverflow));
    assert!(found.is_empty());
}

#[test]
fn streaming_accepts_nine_bytes_and_rejects_eight() {
    let plain = b"plaintext";
    let image = planted(64, 0x1000, 0x10, plain, 0x0102_0304, [None, Some(0), Some(3)], 37, 11);
    let found = stream_search(&image, 0x1000, plain).unwrap();
    assert!(sorted(found).contains(&(0x1010, 0x0102_0304, format_settings_word([None, Some(0), Some(3)]))));
    assert_eq!(stream_search(&image, 0x1000, &plain[..8]), Err(SearchError::PatternTooShort));
    assert_eq!(stream_search(&image, 0x1000, b""), Err(SearchError::PatternTooShort));
}

#[test]
fn batch_accepts_eight_bytes_and_rejects_seven() {
    let plain = b"eightlen";
    let image = planted(64, 0x1000, 0x10, plain, 0x0102_0304, [None, Some(0), Some(3)], 37, 11);
    let found = batch_search(&image, 0x1000, plain).unwrap();
    assert!(sorted(found).contains(&(0x1010, 0x0102_0304, format_settings_word([None, Some(0), Some(3)]))));
    assert_eq!(batch_search(&image, 0x1000, &plain[..7]), Err(SearchError::PatternTooShort));
}

#[test]
fn a_misaligned_base_is_rejected() {
    let image = filled(64, 37, 11);
    let reader = PeekRead::new(MemorySource::new(image.clone()));
    assert!(matches!(Bk7231RollingXor::new(reader, 0x1002), Err(SearchError::MisalignedBase)));
    assert_eq!(batch_search(&image, 0x1002, b"plaintext"), Err(SearchError::MisalignedBase));
    assert_eq!(batch_search(&image, 0x1001, b"short"), Err(SearchError::PatternTooShort));
}

#[test]
fn streaming_rejects_an_incomplete_trailing_block() {
    let image = filled(66, 37, 11);
    assert_eq!(stream_search(&image, 0, b"plaintext"), Err(SearchError::IncompleteBlock));
    assert_eq!(stream_search(&image[..3], 0, b"plaintext"), Err(SearchError::IncompleteBlock));
}

#[test]
fn batch_leaves_an_incomplete_trailing_block_out() {
    let plain = b"Hello, world!";
    let selectors = [Some(3), Some(2), None];
    let mut image = planted(64, 0x1234_5600, 0x20, plain, 0xdead_beef, selectors, 37, 11);
    let whole = sorted(batch_search(&image, 0x1234_5600, plain).unwrap());
    image.extend_from_slice(&[1, 2, 3]);
    assert_eq!(sorted(batch_search(&image, 0x1234_5600, plain).unwrap()), whole);
}

#[test]
fn an_image_past_the_address_space_is_rejected() {
    let image = filled(32, 37, 11);
    assert_eq!(stream_search(&image, 0xffff_fff0, b"plaintext"), Err(SearchError::AddressOverflow));
    assert_eq!(batch_search(&image, 0xffff_fff0, b"plaintext"), Err(SearchError::AddressOverflow));
    assert_eq!(stream_search(&image[..16], 0xffff_fff0, b"plaintext"), Err(SearchError::AddressOverflow));
    assert_eq!(batch_search(&image[..16], 0xffff_fff0, b"plaintext"), Err(SearchError::AddressOverflow));
    assert_eq!(stream_search(&image[..12], 0xffff_fff0, b"plaintext"), Ok(vec![]));
    assert_eq!(batch_search(&image[..12], 0xffff_fff0, b"plaintext"), Ok(vec![]));
}

#[test]
fn update_returns_block_addresses_until_the_end() {
    let reader = PeekRead::new(MemorySource::new(filled(20, 1, 0)));
    let mut state = Bk7231RollingXor::new(reader, 0x4000).unwrap();
    assert_eq!(state.update(), Ok(Some(0x4008)));
    assert_eq!(state.update(), Ok(Some(0x400c)));
    assert_eq!(state.update(), Ok(Some(0x4010)));
    assert_eq!(state.update(), Ok(None));
    assert_eq!(state.update(), Ok(None));
}

#[test]
fn a_search_resumed_mid_stream_finds_what_lies_ahead() {
    let plain = b"Hello, world!";
    let selectors = [Some(3), Some(2), None];
    let base = 0x1234_5600;
    let image = planted(64, base, 0x20, plain, 0xdead_beef, selectors, 37, 11);
    let reader = PeekRead::new(MemorySource::new(image.clone()));
    let mut state = Bk7231RollingXor::new(reader, base).unwrap();
    for _ in 0..6 {
        assert!(matches!(state.update(), Ok(Some(_))));
    }
    let expected = vec![(base + 0x20, 0xdead_beef, 0x5500_0264), (base + 0x20, 0xdff0_beef, 0x5500_0224)];
    let mut found = Vec::new();
    assert_eq!(search(&mut state, plain, &mut found), Ok(()));
    assert_eq!(sorted(found), expected);
    let mut again = Vec::new();
    assert_eq!(search(&mut state, plain, &mut again), Ok(()));
    assert!(again.is_empty());
}

#[test]
fn a_search_begins_with_the_block_in_the_buffers() {
    let plain = b"Hello, world!";
    let selectors = [Some(3), Some(2), None];
    let base = 0x1234_5600;
    // The eighth byte of the occurrence lies in the block read last.
    let image = planted(64, base, 0x11, plain, 0xdead_beef, selectors, 37, 11);
    let reader = PeekRead::new(MemorySource::new(image.clone()));
    let mut state = Bk7231RollingXor::new(reader, base).unwrap();
    for _ in 0..5 {
        assert!(matches!(state.update(), Ok(Some(_))));
    }
    let expected = vec![(base + 0x11, 0xdead_beef, 0x5500_0264), (base + 0x11, 0xdff0_beef, 0x5500_0224)];
    let mut found = Vec::new();
    assert_eq!(search(&mut state, plain, &mut found), Ok(()));
    assert_eq!(sorted(found), expected);
    // One block further on, the occurrence lies behind the scan.
    let reader = PeekRead::new(MemorySource::new(image));
    let mut state = Bk7231RollingXor::new(reader, base).unwrap();
    for _ in 0..6 {
        assert!(matches!(state.update(), Ok(Some(_))));
    }
    let mut found = Vec::new();
    assert_eq!(search(&mut state, plain, &mut found), Ok(()));
    assert!(found.is_empty());
}

#[test]
fn all_selectors_lists_four_parameters_then_disabled() {
    let buffers = [
        RollingXor([1u32, 0x10, 0x100]),
        RollingXor([2u32, 0x20, 0x200]),
        RollingXor([3u32, 0x30, 0x300]),
        RollingXor([4u32, 0x40, 0x400]),
    ];
    assert_eq!(
        all_selectors::<1>(&buffers, 0xff),
        [(Some(0), 0xef), (Some(1), 0xdf), (Some(2), 0xcf), (Some(3), 0xbf), (None, 0xff)]
    );
    assert_eq!(
        all_selectors::<2>(&buffers, 0),
        [(Some(0), 0x100), (Some(1), 0x200), (Some(2), 0x300), (Some(3), 0x400), (None, 0)]
    );
}

#[test]
fn matchers_hold_the_plaintext_differences() {
    let table = matchers(b"ABCDEFGHI");
    let word = |x: usize| u16::from_le_bytes([b"ABCDEFGHI"[x], b"ABCDEFGHI"[x + 1]]);
    let low = (word(6) ^ word(2), word(4) ^ word(0), 4u8);
    let high = (word(7) ^ word(3), word(5) ^ word(1), 5u8);
    assert_eq!(table, [low, high, low, high]);
}

#[test]
fn either_strategy_finds_the_same_records() {
    let plain = b"Hello, world!";
    let selectors = [Some(3), Some(2), None];
    let base = 0x1234_5600;
    for offset in 0..(96 - 13) {
        let image = planted(96, base, offset, plain, 0xdead_beef, selectors, 37, 11);
        let (batched, outcome) = find(Strategy::Batch, &image, base, plain);
        assert_eq!(outcome, Ok(()));
        let (streamed, outcome) = find(Strategy::Streaming, &image, base, plain);
        assert_eq!(outcome, Ok(()));
        let (batched, streamed) = (sorted(batched), sorted(streamed));
        assert_eq!(batched, streamed);
        assert!(batched.contains(&(base + offset as u32, 0xdead_beef, 0x5500_0264)));
    }
}

#[test]
fn strategies_refuse_the_plaintext_first() {
    let image = filled(66, 37, 11);
    assert_eq!(find(Strategy::Batch, &image, 0x1001, b"short").1, Err(SearchError::PatternTooShort));
    assert_eq!(find(Strategy::Streaming, &image, 0x1001, b"short").1, Err(SearchError::PatternTooShort));
    assert_eq!(find(Strategy::Batch, &image, 0x1001, b"plaintext").1, Err(SearchError::MisalignedBase));
    assert_eq!(find(Strategy::Streaming, &image, 0x1001, b"plaintext").1, Err(SearchError::MisalignedBase));
    assert_eq!(find(Strategy::Batch, &image, 0x1000, b"eightlen"), (vec![], Ok(())));
    assert_eq!(find(Strategy::Streaming, &image, 0x1000, b"eightlen").1, Err(SearchError::PatternTooShort));
    assert_eq!(find(Strategy::Batch, &image, 0x1000, b"plaintext"), (vec![], Ok(())));
    assert_eq!(find(Strategy::Streaming, &image, 0x1000, b"plaintext").1, Err(SearchError::IncompleteBlock));
    assert_eq!(find(Strategy::Batch, &image, 0xffff_ffe0, b"plaintext").1, Err(SearchError::AddressOverflow));
    assert_eq!(find(Strategy::Streaming, &image, 0xffff_ffe0, b"plaintext").1, Err(SearchError::AddressOverflow));
    assert_eq!(find(Strategy::Batch, &image[..4], 0x1000, b"plaintext"), (vec![], Ok(())));
    assert_eq!(find(Strategy::Streaming, &image[..4], 0x1000, b"plaintext").1, Err(SearchError::ImageTooShort));
}

#[test]
fn update_reports_a_block_that_is_cut_short() {
    let reader = PeekRead::new(MemorySource::new(filled(14, 1, 0)));
    let mut state = Bk7231RollingXor::new(reader, 0x4000).unwrap();
    assert_eq!(state.update(), Ok(Some(0x4008)));
    assert_eq!(state.update(), Err(SearchError::IncompleteBlock));
}

#[test]
fn update_reports_the_end_of_the_address_space() {
    let reader = PeekRead::new(MemorySource::new(filled(16, 1, 0)));
    let mut state = Bk7231RollingXor::new(reader, 0xffff_fff0).unwrap();
    assert_eq!(state.update(), Ok(Some(0xffff_fff8)));
    assert_eq!(state.update(), Err(SearchError::AddressOverflow));
}
