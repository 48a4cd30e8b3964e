use bk7231_calculator::utils::{ByteSource, MemorySource, PeekRead, RollingXor};

#[test]
fn rolling_xor_keeps_the_last_two_differences() {
    let mut buffer = RollingXor([0u32, 0, 0]);
    buffer.update(0x11);
    assert_eq!(buffer.0, [0x11, 0x11, 0]);
    buffer.update(0x23);
    assert_eq!(buffer.0, [0x23, 0x32, 0x11]);
    buffer.update(0x0f);
    assert_eq!(buffer.0, [0x0f, 0x2c, 0x32]);
}

#[test]
fn rolling_xor_matches_recomputation_from_the_last_three_inputs() {
    let inputs: Vec<u32> = (0..50u32).map(|i| i.wrapping_mul(0x9e37_79b9) ^ 0x1234_5678).collect();
    let mut buffer = RollingXor([0xaaaa_aaaau32, 0xbbbb_bbbb, 0xcccc_cccc]);
    for (n, &x) in inputs.iter().enumerate() {
        buffer.update(x);
        if n >= 2 {
            let direct = [x, inputs[n - 1] ^ x, inputs[n - 2] ^ inputs[n - 1]];
            assert_eq!(buffer.0, direct);
        }
    }
}

#[test]
fn rolling_xor_works_on_other_word_types() {
    let mut bytes = RollingXor([0u8, 0, 0]);
    bytes.update(0xf0);
    bytes.update(0x0f);
    assert_eq!(bytes.0, [0x0f, 0xff, 0xf0]);
    let mut flags = RollingXor([false, false, false]);
    flags.update(true);
    flags.update(true);
    assert_eq!(flags.0, [true, false, true]);
}

#[test]
fn rolling_xor_default_is_all_zero() {
    let buffer: RollingXor<u32> = Default::default();
    assert_eq!(buffer, RollingXor([0, 0, 0]));
}

#[test]
fn memory_source_reads_in_order_and_stops_at_the_end() {
    let mut source = MemorySource::new(vec![1, 2, 3, 4, 5]);
    let mut buf = [0u8; 3];
    assert_eq!(source.read(&mut buf), 3);
    assert_eq!(buf, [1, 2, 3]);
    let mut buf = [9u8; 4];
    assert_eq!(source.read(&mut buf), 2);
    assert_eq!(buf, [4, 5, 9, 9]);
    assert_eq!(source.read(&mut buf), 0);
    assert_eq!(buf, [4, 5, 9, 9]);
}

#[test]
fn peek_does_not_consume() {
    let mut stream = PeekRead::new(MemorySource::new((0..20u8).collect()));
    let mut ahead = [0u8; 6];
    assert_eq!(stream.peek(&mut ahead), 6);
    assert_eq!(ahead, [0, 1, 2, 3, 4, 5]);
    let mut again = [0u8; 3];
    assert_eq!(stream.peek(&mut again), 3);
    assert_eq!(again, [0, 1, 2]);
    let mut further = [0u8; 9];
    assert_eq!(stream.peek(&mut further), 9);
    assert_eq!(further, [0, 1, 2, 3, 4, 5, 6, 7, 8]);
    let mut buf = [0u8; 4];
    assert_eq!(stream.read(&mut buf), 4);
    assert_eq!(buf, [0, 1, 2, 3]);
}

#[test]
fn peeks_then_reads_return_the_whole_stream_in_order() {
    let data: Vec<u8> = (0..200u32).map(|i| (i * 7 + 3) as u8).collect();
    let mut stream = PeekRead::new(MemorySource::new(data.clone()));
    let mut out = Vec::new();
    let sizes = [1usize, 5, 2, 13, 4, 4, 31, 7, 64, 3, 100];
    for (round, &size) in sizes.iter().enumerate() {
        let mut ahead = vec![0u8; (round * 11) % 40];
        let peeked = stream.peek(&mut ahead);
        let mut buf = vec![0u8; size];
        let got = stream.read(&mut buf);
        let common = peeked.min(got);
        assert_eq!(ahead[..common], buf[..common]);
        out.extend_from_slice(&buf[..got]);
    }
    assert_eq!(out, data);
    let mut one = PeekRead::new(MemorySource::new(data.clone()));
    let mut whole = vec![0u8; 234];
    assert_eq!(one.read(&mut whole), 200);
    assert_eq!(whole[..200], data[..]);
}

#[test]
fn peek_past_the_end_returns_what_is_left() {
    let mut stream = PeekRead::new(MemorySource::new(vec![7, 8, 9]));
    let mut buf = [0u8; 2];
    assert_eq!(stream.read(&mut buf), 2);
    let mut ahead = [0xeeu8; 5];
    assert_eq!(stream.peek(&mut ahead), 1);
    assert_eq!(ahead, [9, 0xee, 0xee, 0xee, 0xee]);
    assert_eq!(stream.peek(&mut ahead), 1);
    let mut rest = [0u8; 5];
    assert_eq!(stream.read(&mut rest), 1);
    assert_eq!(rest[0], 9);
    assert_eq!(stream.read(&mut rest), 0);
    assert_eq!(stream.peek(&mut rest), 0);
}

#[test]
fn read_drains_held_bytes_before_fresh_ones() {
    let mut stream = PeekRead::new(MemorySource::new((10..30u8).collect()));
    let mut ahead = [0u8; 4];
    assert_eq!(stream.peek(&mut ahead), 4);
    let mut buf = [0u8; 10];
    assert_eq!(stream.read(&mut buf), 10);
    assert_eq!(buf, [10, 11, 12, 13, 14, 15, 16, 17, 18, 19]);
    assert_eq!(stream.peek(&mut ahead), 4);
    assert_eq!(ahead, [20, 21, 22, 23]);
}

#[test]
fn peek_read_wraps_another_peek_read() {
    let inner = PeekRead::new(MemorySource::new(vec![1, 2, 3, 4]));
    let mut outer = PeekRead::new(inner);
    let mut ahead = [0u8; 2];
    assert_eq!(outer.peek(&mut ahead), 2);
    let mut buf = [0u8; 4];
    assert_eq!(outer.read(&mut buf), 4);
    assert_eq!(buf, [1, 2, 3, 4]);
}
