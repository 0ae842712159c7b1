use prime_implicants::bits::count_ones;

#[test]
fn count_ones_of_zero_is_zero() {
    assert_eq!(count_ones(0), 0);
}

#[test]
fn count_ones_counts_every_set_bit() {
    assert_eq!(count_ones(1), 1);
    assert_eq!(count_ones(0b10), 1);
    assert_eq!(count_ones(0b101101), 4);
    assert_eq!(count_ones(0b111111), 6);
    assert_eq!(count_ones(0b100000), 1);
}

#[test]
fn count_ones_sees_bits_above_the_table_width() {
    assert_eq!(count_ones(1 << 20), 1);
    assert_eq!(count_ones(usize::MAX), usize::BITS as usize);
}

#[test]
fn count_ones_agrees_with_the_hardware_count() {
    for n in 0usize..4096 {
        assert_eq!(count_ones(n), n.count_ones() as usize);
    }
}
