use hashlab::bits::{
    count_ones_8, load_be_u32, load_be_u64, push_be_u32, push_be_u64, push_zeros, rotate_left_32,
    rotate_left_64, rotate_right_64, wrapping_add_32, wrapping_add_64,
};

#[test]
fn rotations_agree_with_the_standard_library() {
    for n in 1..32u32 {
        assert_eq!(rotate_left_32(0x8000_0001, n), 0x8000_0001u32.rotate_left(n));
        assert_eq!(rotate_left_32(0xdead_beef, n), 0xdead_beefu32.rotate_left(n));
    }
    for n in 1..64u32 {
        let x = 0x0123_4567_89ab_cdefu64;
        assert_eq!(rotate_left_64(x, n), x.rotate_left(n));
        assert_eq!(rotate_right_64(x, n), x.rotate_right(n));
    }
    assert_eq!(rotate_left_32(0x8000_0000, 1), 1);
    assert_eq!(rotate_right_64(1, 1), 0x8000_0000_0000_0000);
}

#[test]
fn additions_wrap_around() {
    assert_eq!(wrapping_add_32(u32::MAX, 1), 0);
    assert_eq!(wrapping_add_32(0xffff_fff0, 0x20), 0x10);
    assert_eq!(wrapping_add_32(1, 2), 3);
    assert_eq!(wrapping_add_64(u64::MAX, u64::MAX), u64::MAX - 1);
    assert_eq!(wrapping_add_64(5, 6), 11);
}

#[test]
fn big_endian_words_are_read_most_significant_byte_first() {
    let bytes = [0x01u8, 0x02, 0x03, 0x04, 0x05, 0x06, 0x07, 0x08, 0x09];
    assert_eq!(load_be_u32(&bytes, 0), 0x0102_0304);
    assert_eq!(load_be_u32(&bytes, 5), 0x0607_0809);
    assert_eq!(load_be_u64(&bytes, 0), 0x0102_0304_0506_0708);
    assert_eq!(load_be_u64(&bytes, 1), 0x0203_0405_0607_0809);
    assert_eq!(load_be_u32(&[0xff; 4], 0), u32::MAX);
    assert_eq!(load_be_u64(&[0xff; 8], 0), u64::MAX);
}

#[test]
fn big_endian_words_are_written_most_significant_byte_first() {
    let mut out = vec![0xeeu8];
    push_be_u32(&mut out, 0x0102_0304);
    assert_eq!(out, vec![0xee, 1, 2, 3, 4]);
    push_be_u64(&mut out, 0x1122_3344_5566_7788);
    assert_eq!(out[5..], [0x11, 0x22, 0x33, 0x44, 0x55, 0x66, 0x77, 0x88]);
    let mut out = Vec::new();
    push_be_u64(&mut out, 0x80);
    assert_eq!(out, 0x80u64.to_be_bytes());
    assert_eq!(load_be_u64(&out, 0), 0x80);
}

#[test]
fn count_ones_agrees_with_the_standard_library() {
    for b in 0..=255u8 {
        assert_eq!(count_ones_8(b), b.count_ones());
    }
}

#[test]
fn push_zeros_appends_zero_bytes() {
    let mut out = vec![1u8, 2];
    push_zeros(&mut out, 3);
    assert_eq!(out, vec![1, 2, 0, 0, 0]);
    push_zeros(&mut out, 0);
    assert_eq!(out.len(), 5);
}
