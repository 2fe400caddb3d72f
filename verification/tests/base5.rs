use ph::math::base5::b5;

#[test]
fn length_test() {
    assert_eq!(b5::from(0).length(), 0);
    assert_eq!(b5::from(1).length(), 1);
    assert_eq!(b5::from(4).length(), 1);
    assert_eq!(b5::from(5).length(), 2);
    assert_eq!(b5::from(24).length(), 2);
    assert_eq!(b5::from(25).length(), 3);
}

#[test]
fn highest_bit_test() {
    assert_eq!(b5::from(1).highest_bit(), b5::from(1));
    assert_eq!(b5::from(2).highest_bit(), b5::from(2));
    assert_eq!(b5::from(3).highest_bit(), b5::from(3));
    assert_eq!(b5::from(4).highest_bit(), b5::from(4));
    assert_eq!(b5::from(5).highest_bit(), b5::from(1));
}

#[test]
fn add_test() {
    assert_eq!(b5::from(1) + b5::from(2), b5::from(3))
}

#[test]
fn shl_test() {
    assert_eq!(b5::from(1) << 1, b5::from(5));
    assert_eq!(b5::from(5) << 2, b5::from(125))
}

#[test]
fn shr_test() {
    assert_eq!(b5::from(5) >> 1, b5::from(1));
    assert_eq!(b5::from(25) >> 2, b5::from(1))
}

#[test]
fn value_round_trip() {
    assert_eq!(b5::from(0).value(), 0);
    assert_eq!(b5::from(1234567).value(), 1234567);
    assert_eq!(b5::from(u32::MAX).value(), u32::MAX);
}

#[test]
fn length_at_powers_of_five() {
    assert_eq!(b5::from(124).length(), 3);
    assert_eq!(b5::from(125).length(), 4);
    assert_eq!(b5::from(1220703124).length(), 13);
    assert_eq!(b5::from(1220703125).length(), 14);
    assert_eq!(b5::from(u32::MAX).length(), 14);
}

#[test]
fn highest_bit_of_large_numbers() {
    // 3 * 5^4 + 4 * 5^2 + 2 has leading digit 3
    assert_eq!(b5::from(3 * 625 + 4 * 25 + 2).highest_bit(), b5::from(3));
    assert_eq!(b5::from(1220703125).highest_bit(), b5::from(1));
    // u32::MAX = 4294967295 = 3 * 5^13 + ...
    assert_eq!(b5::from(u32::MAX).highest_bit(), b5::from(3));
}

#[test]
fn shl_then_shr_gives_number_back() {
    for n in 0..14usize {
        assert_eq!((b5::from(1) << n) >> n, b5::from(1));
    }
    assert_eq!((b5::from(7) << 5) >> 5, b5::from(7));
    assert_eq!(b5::from(7) << 5, b5::from(7 * 3125));
}

#[test]
fn shl_adds_digits() {
    assert_eq!((b5::from(13) << 3).length(), b5::from(13).length() + 3);
}

#[test]
fn shr_drops_digits() {
    assert_eq!(b5::from(124) >> 1, b5::from(24));
    assert_eq!(b5::from(124) >> 3, b5::from(0));
    assert_eq!(b5::from(u32::MAX) >> 13, b5::from(3));
}
