use qip_pipeline::bits::{flip_bits, get_bit, pow2_u64, set_bit, sub_to_full};

#[test]
fn flip_bits_reverses_the_low_bits() {
    assert_eq!(flip_bits(3, 0b001), 0b100);
    assert_eq!(flip_bits(3, 0b110), 0b011);
    assert_eq!(flip_bits(3, 0b101), 0b101);
    assert_eq!(flip_bits(1, 1), 1);
    assert_eq!(flip_bits(8, 0b0000_0011), 0b1100_0000);
}

#[test]
fn flip_bits_drops_the_bits_above() {
    assert_eq!(flip_bits(4, 0b1_0001), 0b1000);
    assert_eq!(flip_bits(0, 5), 0);
    assert_eq!(flip_bits(2, 0b111), 0b11);
}

#[test]
fn flip_bits_of_a_whole_word() {
    assert_eq!(flip_bits(64, 1), 1u64 << 63);
    assert_eq!(flip_bits(64, u64::MAX), u64::MAX);
    assert_eq!(flip_bits(64, 0x0123_4567_89ab_cdef), 0x0123_4567_89ab_cdefu64.reverse_bits());
}

#[test]
fn flip_bits_twice_is_the_identity() {
    for n in 0..=10usize {
        for x in 0..(1u64 << n) {
            assert_eq!(flip_bits(n, flip_bits(n, x)), x);
        }
    }
}

#[test]
fn flip_bits_agrees_with_the_shifted_reversal() {
    for n in 1..=12usize {
        for x in 0..(1u64 << n) {
            assert_eq!(flip_bits(n, x), x.reverse_bits() >> (64 - n));
        }
    }
}

#[test]
fn get_bit_reads_one_bit() {
    assert!(get_bit(0b100, 2));
    assert!(!get_bit(0b100, 1));
    assert!(get_bit(u64::MAX, 63));
    assert!(!get_bit(u64::MAX, 64));
    assert!(!get_bit(u64::MAX, 1000));
}

#[test]
fn set_bit_writes_one_bit() {
    assert_eq!(set_bit(0, 3, true), 0b1000);
    assert_eq!(set_bit(0b1000, 3, true), 0b1000);
    assert_eq!(set_bit(0b1111, 1, false), 0b1101);
    assert_eq!(set_bit(0b1101, 1, false), 0b1101);
    assert_eq!(set_bit(0, 63, true), 1u64 << 63);
    assert_eq!(set_bit(u64::MAX, 63, false), u64::MAX >> 1);
}

#[test]
fn pow2_u64_is_a_shift() {
    assert_eq!(pow2_u64(0), 1);
    assert_eq!(pow2_u64(10), 1024);
    assert_eq!(pow2_u64(63), 1u64 << 63);
}

#[test]
fn sub_to_full_places_the_first_index_at_the_lowest_bit_of_the_value() {
    // qubit 0 is the top bit of a 3-bit address
    assert_eq!(sub_to_full(3, &[0], 1, 0), 0b100);
    assert_eq!(sub_to_full(3, &[2], 1, 0), 0b001);
    // bit 0 of the value goes to the first index listed, bit 1 to the second
    assert_eq!(sub_to_full(3, &[0, 2], 0b01, 0), 0b100);
    assert_eq!(sub_to_full(3, &[0, 2], 0b10, 0), 0b001);
    assert_eq!(sub_to_full(3, &[2, 0], 0b01, 0), 0b001);
    assert_eq!(sub_to_full(3, &[0, 1, 2], 0b110, 0), 0b011);
}

#[test]
fn sub_to_full_keeps_the_template_elsewhere() {
    assert_eq!(sub_to_full(4, &[1], 0, 0b1111), 0b1011);
    assert_eq!(sub_to_full(4, &[1], 1, 0b1010), 0b1110);
    assert_eq!(sub_to_full(4, &[], 7, 0b1010), 0b1010);
    // bits of the value beyond the indices are not read
    assert_eq!(sub_to_full(4, &[3], 0b10, 0), 0);
}

#[test]
fn sub_to_full_lets_the_later_index_win() {
    assert_eq!(sub_to_full(2, &[0, 0], 0b01, 0), 0);
    assert_eq!(sub_to_full(2, &[0, 0], 0b10, 0), 0b10);
}
