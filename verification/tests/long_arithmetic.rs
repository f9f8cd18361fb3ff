use pydeob::long::Long;

#[test]
fn long_round_trips_through_i64() {
    for v in [0i64, 1, -1, 127, 128, 255, 256, -128, -129, i64::MAX, i64::MIN] {
        assert_eq!(Long::from_i64(v).to_i64(), Some(v));
    }
}

#[test]
fn long_sum_difference_product() {
    let a = Long::from_i64(1_000_000_007);
    let b = Long::from_i64(-42);
    assert_eq!(a.sum(&b).to_i64(), Some(1_000_000_007 - 42));
    assert_eq!(a.difference(&b).to_i64(), Some(1_000_000_007 + 42));
    assert_eq!(a.product(&b).to_i64(), Some(-42 * 1_000_000_007));
}

#[test]
fn long_quotient_rounds_toward_zero() {
    let seven = Long::from_i64(7);
    let minus_seven = Long::from_i64(-7);
    let two = Long::from_i64(2);
    let minus_two = Long::from_i64(-2);
    assert_eq!(seven.quotient(&two).unwrap().to_i64(), Some(3));
    assert_eq!(minus_seven.quotient(&two).unwrap().to_i64(), Some(-3));
    assert_eq!(seven.quotient(&minus_two).unwrap().to_i64(), Some(-3));
    assert_eq!(minus_seven.quotient(&minus_two).unwrap().to_i64(), Some(3));
    assert!(seven.quotient(&Long::from_u8(0)).is_none());
}

#[test]
fn long_floor_quotient_rounds_toward_negative_infinity() {
    let cases = [
        (7, 2, 3),
        (-7, 2, -4),
        (7, -2, -4),
        (-7, -2, 3),
        (6, 3, 2),
        (-6, 3, -2),
        (6, -3, -2),
        (0, -5, 0),
        (1, 5, 0),
        (-1, 5, -1),
    ];
    for (a, b, q) in cases {
        let quotient = Long::from_i64(a).floor_quotient(&Long::from_i64(b)).unwrap();
        assert_eq!(quotient.to_i64(), Some(q), "{} / {}", a, b);
    }
    assert!(Long::from_i64(7).floor_quotient(&Long::from_u8(0)).is_none());
}

#[test]
fn long_shifts() {
    let a = Long::from_i64(5);
    assert_eq!(a.shift_left(3).to_i64(), Some(40));
    assert_eq!(a.shift_right(1).to_i64(), Some(2));
    assert_eq!(Long::from_i64(-5).shift_right(1).to_i64(), Some(-3));
    assert_eq!(Long::from_i64(-1).shift_right(70).to_i64(), Some(-1));
}

#[test]
fn long_bitwise() {
    let a = Long::from_i64(0b1100);
    let b = Long::from_i64(0b1010);
    assert_eq!(a.bit_and(&b).to_i64(), Some(0b1000));
    assert_eq!(a.bit_or(&b).to_i64(), Some(0b1110));
    assert_eq!(a.bit_xor(&b).to_i64(), Some(0b0110));
    assert_eq!(Long::from_i64(-1).bit_and(&b).to_i64(), Some(0b1010));
    assert_eq!(Long::from_i64(-1).bit_xor(&Long::from_i64(5)).to_i64(), Some(-6));
    assert_eq!(Long::from_i64(-8).bit_or(&Long::from_i64(3)).to_i64(), Some(-5));
    assert_eq!(Long::from_i64(-12).bit_and(&Long::from_i64(-10)).to_i64(), Some(-12));
    assert_eq!(Long::from_i64(-12).bit_xor(&Long::from_i64(-10)).to_i64(), Some(2));
    let wide = Long::from_i64(1).shift_left(70);
    assert_eq!(wide.bit_or(&Long::from_i64(-1)).to_i64(), Some(-1));
    assert_eq!(wide.bit_and(&Long::from_i64(-1)).shift_right(70).to_i64(), Some(1));
}

#[test]
fn long_comparisons_and_narrowing() {
    let a = Long::from_u8(200);
    assert_eq!(a.to_u8(), Some(200));
    assert_eq!(a.to_usize(), Some(200));
    assert_eq!(Long::from_i64(256).to_u8(), None);
    assert_eq!(Long::from_i64(-1).to_usize(), None);
    assert!(Long::from_i64(-3).less_than(&a));
    assert!(!a.less_than(&a));
    assert!(a.equals(&Long::from_signed_bytes_le(vec![200, 0, 0])));
    assert!(Long::from_signed_bytes_le(vec![]).is_zero());
    assert_eq!(Long::from_signed_bytes_le(vec![0x9b, 0xfb]).to_i64(), Some(-1125));
}
