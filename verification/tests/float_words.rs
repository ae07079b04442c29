use essvi::float_bits::clear_low_word;

#[test]
fn clear_low_word_masks_the_low_half() {
    assert_eq!(clear_low_word(u64::MAX), 18446744069414584320);
    assert_eq!(clear_low_word(0x3FF0_0000_1234_5678), 0x3FF0_0000_0000_0000);
    assert_eq!(clear_low_word(0), 0);
}

#[test]
fn clear_low_word_matches_erfc_split() {
    for x in [1.25f64, 2.0, 2.857142857142857, 3.3, 27.9] {
        let z = f64::from_bits(clear_low_word(x.to_bits()));
        let expected = f64::from_bits(x.to_bits() & 0xFFFF_FFFF_0000_0000);
        assert_eq!(z, expected);
        assert!(z <= x && x - z < 1e-6 * x);
    }
}
