use nbitmask::BitMask;

#[test]
fn test_zeros_count_and_render() {
    for size in [0usize, 1, 7, 8, 9, 63, 64, 65] {
        let mask: BitMask<u64> = BitMask::zeros(size);
        assert_eq!(mask.length(), size);
        assert_eq!(mask.count_ones(), 0);
        assert_eq!(mask.render(), "0".repeat(size));
    }
}

#[test]
fn test_ones_count() {
    for size in [0usize, 1, 7, 8, 9, 15, 16, 17, 100] {
        let mask: BitMask<u8> = BitMask::ones(size);
        assert_eq!(mask.count_ones(), size);
        assert_eq!(mask.render(), "1".repeat(size));
    }
}

#[test]
fn test_set_then_get() {
    let mut mask: BitMask<u16> = BitMask::zeros(40);
    for index in [0usize, 1, 15, 16, 17, 31, 32, 39] {
        mask.set(index, true).unwrap();
        assert_eq!(mask.get(index).unwrap(), true);
        mask.set(index, false).unwrap();
        assert_eq!(mask.get(index).unwrap(), false);
    }
}

#[test]
fn test_double_complement() {
    let mut mask: BitMask<u8> = BitMask::zeros(21);
    mask.set(0, true).unwrap();
    mask.set(9, true).unwrap();
    mask.set(20, true).unwrap();
    assert_eq!(mask.not().not(), mask);
}

#[test]
fn test_xor_self_is_zeros() {
    let mut mask: BitMask<u32> = BitMask::zeros(45);
    mask.set(3, true).unwrap();
    mask.set(31, true).unwrap();
    mask.set(44, true).unwrap();
    assert_eq!(mask.xor(&mask), BitMask::zeros(45));
}

#[test]
fn test_xor_zeros_extends() {
    let mut mask: BitMask<u8> = BitMask::zeros(5);
    mask.set(1, true).unwrap();
    mask.set(4, true).unwrap();
    let extended = mask.xor(&BitMask::zeros(12));
    assert_eq!(extended.length(), 12);
    assert_eq!(extended.render(), "010010000000".to_string());
}

#[test]
fn test_or_and_commutative() {
    let mut a: BitMask<u8> = BitMask::zeros(10);
    a.set(2, true).unwrap();
    a.set(7, true).unwrap();
    let mut b: BitMask<u8> = BitMask::zeros(13);
    b.set(2, true).unwrap();
    b.set(9, true).unwrap();

    assert_eq!(a.or(&b), b.or(&a));
    assert_eq!(a.and(&b), b.and(&a));
}

#[test]
fn test_or_and_associative() {
    let mut a: BitMask<u8> = BitMask::zeros(9);
    a.set(0, true).unwrap();
    let mut b: BitMask<u8> = BitMask::zeros(9);
    b.set(4, true).unwrap();
    let mut c: BitMask<u8> = BitMask::ones(9);
    c.set(4, false).unwrap();

    assert_eq!(a.or(&b).or(&c), a.or(&b.or(&c)));
    assert_eq!(a.and(&b).and(&c), a.and(&b.and(&c)));
}

#[test]
fn test_or_zeros_and_ones_identity() {
    let mut mask: BitMask<u64> = BitMask::zeros(70);
    mask.set(1, true).unwrap();
    mask.set(64, true).unwrap();

    assert_eq!(mask.or(&BitMask::zeros(70)), mask);
    assert_eq!(mask.and(&BitMask::ones(70)), mask);
}

#[test]
fn test_shift_beyond_capacity_clears() {
    let mask: BitMask<u8> = BitMask::ones(10);
    // The two allocated words hold 16 bits; shifting by that much clears all.
    assert_eq!(mask.shift_right(16), BitMask::zeros(10));
    assert_eq!(mask.shift_left(16), BitMask::zeros(10));
}

#[test]
fn test_shift_by_zero_is_identity() {
    let mut mask: BitMask<u8> = BitMask::zeros(12);
    mask.set(0, true).unwrap();
    mask.set(8, true).unwrap();
    assert_eq!(mask.shift_right(0), mask);
    assert_eq!(mask.shift_left(0), mask);
}

#[test]
fn test_shift_left_then_right() {
    let mut mask: BitMask<u8> = BitMask::zeros(10);
    mask.set(0, true).unwrap();
    mask.set(5, true).unwrap();
    mask.set(9, true).unwrap();
    // Bit 9 is pushed out over the length by the left shift; the rest return.
    let back = mask.shift_left(2).shift_right(2);
    assert_eq!(back.render(), "1000010000".to_string());
}

#[test]
fn test_shift_crosses_word_boundary() {
    let mut mask: BitMask<u8> = BitMask::zeros(20);
    mask.set(3, true).unwrap();
    let up = mask.shift_left(9);
    assert_eq!(up.get(12).unwrap(), true);
    assert_eq!(up.count_ones(), 1);
    let down = up.shift_right(9);
    assert_eq!(down, mask);
}

#[test]
fn test_trailing_zeros_values() {
    let mut mask: BitMask<u64> = BitMask::zeros(100);
    assert_eq!(mask.trailing_zeros(), 100);
    mask.set(70, true).unwrap();
    assert_eq!(mask.trailing_zeros(), 70);
    mask.set(5, true).unwrap();
    assert_eq!(mask.trailing_zeros(), 5);
    mask.set(0, true).unwrap();
    assert_eq!(mask.trailing_zeros(), 0);
}

#[test]
fn test_empty_mask() {
    let mask: BitMask<u32> = BitMask::zeros(0);
    assert_eq!(mask.length(), 0);
    assert_eq!(mask.count_ones(), 0);
    assert_eq!(mask.trailing_zeros(), 0);
    assert_eq!(mask.render(), "".to_string());
    assert!(mask.get(0).is_err());
}

#[test]
fn test_word_aligned_length() {
    let mut mask: BitMask<u8> = BitMask::ones(16);
    assert_eq!(mask.count_ones(), 16);
    assert_eq!(mask.not(), BitMask::zeros(16));
    mask.set(15, false).unwrap();
    assert_eq!(mask.count_ones(), 15);
}

#[test]
fn test_u32_and_u128_words() {
    let mut a: BitMask<u32> = BitMask::zeros(40);
    a.set(31, true).unwrap();
    a.set(32, true).unwrap();
    assert_eq!(a.count_ones(), 2);
    assert_eq!(a.trailing_zeros(), 31);
    assert_eq!(a.shift_right(31).get(1).unwrap(), true);

    let mut b: BitMask<u128> = BitMask::zeros(130);
    b.set(127, true).unwrap();
    b.set(129, true).unwrap();
    assert_eq!(b.count_ones(), 2);
    assert_eq!(b.trailing_zeros(), 127);
    let record = b.to_record();
    let back: BitMask<u128> = BitMask::try_from_record(&record).unwrap();
    assert_eq!(back, b);
}

#[test]
fn test_and_keeps_length_in_place_only() {
    let mut short: BitMask<u8> = BitMask::ones(3);
    let long: BitMask<u8> = BitMask::ones(9);
    // The non-mutating form extends to the longer operand's length...
    assert_eq!(short.and(&long).length(), 9);
    assert_eq!(short.and(&long).render(), "111000000".to_string());
    // ...while the in-place form keeps the left operand's own length.
    short.and_assign(&long);
    assert_eq!(short.length(), 3);
    assert_eq!(short.render(), "111".to_string());
}
