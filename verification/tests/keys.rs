use bk7231_calculator::crypto::encrypt;
use bk7231_calculator::key::calculate_key;

#[test]
fn key_of_a_periodic_keystream() {
    let keystream: Vec<u8> = [0x11u8, 0x22, 0x33, 0x44].iter().cycle().take(12).cloned().collect();
    assert_eq!(calculate_key(0x100, [None, None, None], &keystream), Some(0x4433_2211));
}

#[test]
fn key_is_rotated_by_the_offset_within_the_block() {
    let keystream: Vec<u8> = [0x11u8, 0x22, 0x33, 0x44].iter().cycle().take(12).cloned().collect();
    assert_eq!(calculate_key(0x101, [None, None, None], &keystream), Some(0x3322_1144));
    assert_eq!(calculate_key(0x102, [None, None, None], &keystream[..9]), Some(0x2211_4433));
}

#[test]
fn key_of_exactly_four_bytes_is_always_found() {
    assert_eq!(calculate_key(0x200, [None, None, None], &[1, 2, 3, 4]), Some(0x0403_0201));
    assert_eq!(calculate_key(0x203, [None, None, None], &[1, 2, 3, 4]), Some(0x0104_0302));
}

#[test]
fn key_derivation_rejects_mismatch_across_period() {
    let mut keystream: Vec<u8> = [0x11u8, 0x22, 0x33, 0x44].iter().cycle().take(12).cloned().collect();
    keystream[5] ^= 1;
    assert_eq!(calculate_key(0x100, [None, None, None], &keystream), None);
}

#[test]
fn key_derivation_rejects_mismatch_in_the_last_byte() {
    let mut keystream: Vec<u8> = [0x11u8, 0x22, 0x33, 0x44].iter().cycle().take(9).cloned().collect();
    keystream[8] = 0x10;
    assert_eq!(calculate_key(0x100, [None, None, None], &keystream), None);
    keystream[8] = 0x11;
    assert_eq!(calculate_key(0x100, [None, None, None], &keystream), Some(0x4433_2211));
}

#[test]
fn key_derivation_takes_the_cipher_keystream_off() {
    let selectors = [Some(1), None, Some(2)];
    let keystream = [0xd8u8, 0x6a, 0x08, 0x24, 0xd8, 0x62, 0x08, 0xdc, 0xd9];
    assert_eq!(calculate_key(0x1234_5679, selectors, &keystream), Some(0xcafe_f00d));
}

#[test]
fn key_derivation_recovers_any_key_under_any_selectors() {
    let choices = [Some(0u8), Some(1), Some(2), Some(3), None];
    for &s1 in choices.iter() {
        for &s2 in choices.iter() {
            for &s3 in choices.iter() {
                let selectors = [s1, s2, s3];
                let key = 0x0bad_c0deu32;
                let mut bytes = Vec::new();
                for block in 0..5u32 {
                    let word = encrypt(0x0801_0000 + 4 * block, selectors) ^ key;
                    bytes.extend_from_slice(&word.to_le_bytes());
                }
                for offset in 0..4usize {
                    let got = calculate_key(0x0801_0000 + offset as u32, selectors, &bytes[offset..offset + 13]);
                    assert_eq!(got, Some(key));
                }
            }
        }
    }
}

#[test]
fn key_derivation_at_the_top_of_the_address_space() {
    let selectors = [Some(0), Some(1), Some(2)];
    let key = 0x1020_3040u32;
    let mut bytes = Vec::new();
    bytes.extend_from_slice(&(encrypt(0xffff_fff8, selectors) ^ key).to_le_bytes());
    bytes.extend_from_slice(&(encrypt(0xffff_fffc, selectors) ^ key).to_le_bytes());
    assert_eq!(calculate_key(0xffff_fff8, selectors, &bytes), Some(key));
}
