use bk7231_calculator::bits::{from_le_bytes, rotate_left, rotate_right, swap_bytes, to_le_bytes};
use bk7231_calculator::crypto::{
    bit, encrypt, format_settings_word, keystream, stage1, stage12, stage2, stage3,
};

const CHOICES: [Option<u8>; 5] = [Some(0), Some(1), Some(2), Some(3), None];

#[test]
fn rotations_match_the_standard_ones() {
    for n in 0..70u32 {
        assert_eq!(rotate_right(0x8123_4567, n), 0x8123_4567u32.rotate_right(n));
        assert_eq!(rotate_left(0x8123_4567, n), 0x8123_4567u32.rotate_left(n));
    }
    assert_eq!(rotate_right(1, 1), 0x8000_0000);
    assert_eq!(rotate_left(0x8000_0000, 1), 1);
}

#[test]
fn byte_helpers_match_the_standard_ones() {
    assert_eq!(swap_bytes(0x1234), 0x3412);
    assert_eq!(to_le_bytes(0x1234_5678), [0x78, 0x56, 0x34, 0x12]);
    assert_eq!(from_le_bytes([0x78, 0x56, 0x34, 0x12]), 0x1234_5678);
    assert_eq!(bit(0b100, 2), 1);
    assert_eq!(bit(0b100, 1), 0);
}

#[test]
fn stage_outputs_at_zero_are_zero() {
    for p in 0..4u8 {
        assert_eq!(stage1(0, p), 0);
        assert_eq!(stage2(0, p), 0);
        assert_eq!(stage3(0, p), 0);
    }
}

#[test]
fn stage1_exact_values() {
    assert_eq!(stage1(0x20, 0), 0x0111);
    assert_eq!(stage1(0x20, 1), 0x0040);
    assert_eq!(stage1(0x20, 2), 0x0111);
    assert_eq!(stage1(0x20, 3), 0x0040);
    assert_eq!(stage1(0x1234_5678, 0), 0x22a8);
    assert_eq!(stage1(0x1234_5678, 1), 0x23e5);
    assert_eq!(stage1(0x1234_5678, 2), 0x23f5);
    assert_eq!(stage1(0x1234_5678, 3), 0x22b8);
    assert_eq!(stage1(0xffff_fffc, 1), 0x0006);
}

#[test]
fn stage1_reads_only_the_low_two_parameter_bits() {
    for p in 0..=255u8 {
        assert_eq!(stage1(0x1234_5678, p), stage1(0x1234_5678, p & 3));
    }
}

#[test]
fn stage2_exact_values() {
    assert_eq!(stage2(0x20, 0), 0x0440);
    assert_eq!(stage2(0x20, 1), 0);
    assert_eq!(stage2(0x1234_5678, 0), 0x2655);
    assert_eq!(stage2(0x1234_5678, 1), 0x365b);
    assert_eq!(stage2(0x1234_5678, 2), 0x004d);
    assert_eq!(stage2(0x1234_5678, 3), 0x222a);
    assert_eq!(stage2(0x1234_5678, 31), 0);
    assert_eq!(stage2(0xffff_fffc, 0), 0x362e);
    assert_eq!(stage2(0xffff_fffc, 3), 0x3626);
}

#[test]
fn stage3_exact_values() {
    assert_eq!(stage3(0x20, 0), 0x8048_8080);
    assert_eq!(stage3(0x20, 1), 0x0000_4000);
    assert_eq!(stage3(0x20, 2), 0x0000_0040);
    assert_eq!(stage3(0x20, 3), 0x4000_0000);
    assert_eq!(stage3(0x1234_5678, 0), 0x48f8_8088);
    assert_eq!(stage3(0x1234_5678, 1), 0x2dbd_f475);
    assert_eq!(stage3(0x1234_5678, 2), 0xe171_2821);
    assert_eq!(stage3(0x1234_5678, 3), 0xb424_6cec);
    assert_eq!(stage3(0xffff_fffc, 3), 0x1ce6_5b0e);
}

#[test]
fn stage3_rotation_wraps_after_four_bytes() {
    assert_eq!(stage3(0x1234_5678, 4), stage3(0x1234_5678, 0));
    assert_eq!(stage3(0x1234_5678, 255), stage3(0x1234_5678, 3));
}

#[test]
fn stage12_puts_stage1_above_stage2() {
    for p in 0..4u8 {
        let expected = ((stage1(0x1234_5678, p) as u32) << 16) | stage2(0x1234_5678, p) as u32;
        assert_eq!(stage12(0x1234_5678, p), expected);
    }
    assert_eq!(stage12(0x20, 0), 0x0111_0440);
}

#[test]
fn encrypt_combines_the_enabled_stages() {
    assert_eq!(encrypt(0x20, [Some(1), None, Some(2)]), 0x0040_0040);
    assert_eq!(encrypt(0x1000, [Some(2), Some(3), Some(1)]), 0x4400_2640);
    assert_eq!(encrypt(0x1234_5678, [None, None, None]), 0);
    assert_eq!(encrypt(0x1234_5678, [Some(1), None, None]), 0x23e5_0000);
    assert_eq!(encrypt(0x1234_5678, [None, Some(1), None]), 0x0000_365b);
    assert_eq!(encrypt(0x1234_5678, [None, None, Some(1)]), 0x2dbd_f475);
    assert_eq!(
        encrypt(0x1234_5678, [Some(1), Some(1), Some(1)]),
        0x23e5_0000 ^ 0x0000_365b ^ 0x2dbd_f475
    );
}

#[test]
fn encrypt_is_self_inverse_as_a_keystream() {
    let blocks = [0u32, 1, 0xdead_beef, 0xffff_ffff, 0x1234_5678];
    for &block in blocks.iter() {
        for &s1 in CHOICES.iter() {
            for &s2 in CHOICES.iter() {
                for &s3 in CHOICES.iter() {
                    let word = encrypt(0x0040_1230, [s1, s2, s3]);
                    assert_eq!((block ^ word) ^ word, block);
                }
            }
        }
    }
}

#[test]
fn keystream_walks_the_blocks_in_order() {
    let selectors = [Some(2), Some(3), Some(1)];
    let mut stream = keystream(selectors, 0x1000);
    assert_eq!(stream.next(), Some(0x4400_2640));
    assert_eq!(stream.next(), Some(0x4400_2e40));
    assert_eq!(stream.next(), Some(0x4400_3640));
    assert_eq!(stream.next(), Some(0x4400_3e40));
    for i in 4..100u32 {
        assert_eq!(stream.next(), Some(encrypt(0x1000 + 4 * i, selectors)));
    }
}

#[test]
fn keystream_restarts_from_a_copy() {
    let start = keystream([Some(0), None, Some(3)], 0x8000);
    let mut first = start;
    let mut second = start;
    let a: Vec<Option<u32>> = (0..8).map(|_| first.next()).collect();
    let b: Vec<Option<u32>> = (0..8).map(|_| second.next()).collect();
    assert_eq!(a, b);
}

#[test]
fn keystream_wraps_at_the_top_of_the_address_space() {
    let mut stream = keystream([Some(0), Some(1), Some(2)], 0xffff_fff8);
    assert_eq!(stream.next(), Some(0x1ae6_6d2e));
    assert_eq!(stream.next(), Some(encrypt(0xffff_fffc, [Some(0), Some(1), Some(2)])));
    assert_eq!(stream.next(), Some(0));
    assert_eq!(stream.next(), Some(encrypt(4, [Some(0), Some(1), Some(2)])));
}

#[test]
fn settings_word_exact_values() {
    assert_eq!(format_settings_word([None, None, None]), 0x5500_0007);
    assert_eq!(format_settings_word([Some(0), Some(0), Some(0)]), 0x5500_0000);
    assert_eq!(format_settings_word([Some(3), Some(3), Some(3)]), 0x5500_1b60);
    assert_eq!(format_settings_word([Some(1), None, Some(2)]), 0x5500_1022);
    assert_eq!(format_settings_word([None, Some(2), None]), 0x5500_0205);
    assert_eq!(format_settings_word([Some(7), Some(7), Some(7)]), 0x5500_3fe0);
}

fn decode_slot(word: u32, i: u32) -> Option<u8> {
    if (word >> i) & 1 != 0 {
        None
    } else {
        Some(((word >> (5 + 3 * i)) & 7) as u8)
    }
}

#[test]
fn settings_word_round_trips_for_all_tuples() {
    let mut seen = Vec::new();
    for &s1 in CHOICES.iter() {
        for &s2 in CHOICES.iter() {
            for &s3 in CHOICES.iter() {
                let word = format_settings_word([s1, s2, s3]);
                assert_eq!(word >> 24, 0x55);
                assert_eq!([decode_slot(word, 0), decode_slot(word, 1), decode_slot(word, 2)], [s1, s2, s3]);
                assert!(!seen.contains(&word));
                seen.push(word);
            }
        }
    }
    assert_eq!(seen.len(), 125);
}
