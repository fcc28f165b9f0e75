use straps::pd::utils::iter_set_bits;

#[test]
fn test_iter_set_bits() {
    assert_eq!(iter_set_bits(0b0), Vec::<usize>::new());
    assert_eq!(iter_set_bits(0b1), vec![0]);
    assert_eq!(iter_set_bits(0b11), vec![0, 1]);
    assert_eq!(iter_set_bits(0b111), vec![0, 1, 2]);
    assert_eq!(iter_set_bits(0b1111), vec![0, 1, 2, 3]);
    assert_eq!(iter_set_bits(0b101), vec![0, 2]);
    assert_eq!(iter_set_bits(0b10001), vec![0, 4]);
    assert_eq!(iter_set_bits(0b10101), vec![0, 2, 4]);
    assert_eq!(iter_set_bits(0b100010001), vec![0, 4, 8]);
    assert_eq!(iter_set_bits(0b1000100), vec![2, 6]);
}

#[test]
fn iter_set_bits_of_the_highest_bit() {
    assert_eq!(iter_set_bits(1usize << 63), vec![63]);
    assert_eq!(iter_set_bits(usize::MAX).len(), 64);
}
