use hill_climbing::{
    bit_length, format_binary, low_bits, max_index, parse_binary, random_l_bit_bin, Bin,
    ConfigError, Int,
};

#[test]
fn bin_and_int_carry_the_same_number() {
    assert_eq!(Bin(13).to_int(), Int(13));
    assert_eq!(Int(13).to_bin(), Bin(13));
    assert_eq!(Bin(0).to_int().to_bin(), Bin(0));
}

#[test]
fn flip_nth_bit_inverts_one_bit() {
    assert_eq!(Bin(0b1010).flip_nth_bit(0), Bin(0b1011));
    assert_eq!(Bin(0b1010).flip_nth_bit(1), Bin(0b1000));
    assert_eq!(Bin(0).flip_nth_bit(31), Bin(0x8000_0000));
}

#[test]
fn flip_nth_bit_twice_gives_back_the_pattern() {
    for p in [0u32, 1, 0b1011_0110, 0x7fff_ffff, u32::MAX] {
        for n in 0..32 {
            assert_eq!(Bin(p).flip_nth_bit(n).flip_nth_bit(n), Bin(p));
        }
    }
}

#[test]
fn low_bits_masks_to_the_width() {
    assert_eq!(low_bits(u32::MAX, 3), Bin(7));
    assert_eq!(low_bits(0b1011_0110, 4), Bin(0b0110));
    assert_eq!(low_bits(12345, 0), Bin(0));
    assert_eq!(low_bits(u32::MAX, 31), Bin(0x7fff_ffff));
}

#[test]
fn random_pattern_fits_the_width() {
    for l in [1u32, 5, 14, 31] {
        for _ in 0..50 {
            assert!(random_l_bit_bin(l).0 < (1u32 << l));
        }
    }
}

#[test]
fn bit_length_for_the_default_space_is_fourteen() {
    // [-4, 12] with step 0.001 has 16000 steps.
    assert_eq!(bit_length(16000), 14);
}

#[test]
fn bit_length_is_the_fewest_resolving_bits() {
    assert_eq!(bit_length(0), 0);
    assert_eq!(bit_length(1), 1);
    assert_eq!(bit_length(2), 2);
    assert_eq!(bit_length(3), 2);
    assert_eq!(bit_length(4), 3);
    assert_eq!(bit_length(16383), 14);
    assert_eq!(bit_length(16384), 15);
    assert_eq!(bit_length(u64::MAX), 64);
    for steps in 0u64..5000 {
        let l = bit_length(steps);
        assert!((1u128 << l) - 1 >= steps as u128);
        assert!(l == 0 || (1u128 << (l - 1)) - 1 < steps as u128);
    }
}

#[test]
fn max_index_of_valid_lengths() {
    assert_eq!(max_index(1), Ok(1));
    assert_eq!(max_index(14), Ok(16383));
    assert_eq!(max_index(31), Ok(0x7fff_ffff));
}

#[test]
fn max_index_rejects_lengths_out_of_range() {
    assert_eq!(max_index(0), Err(ConfigError::BitLengthOutOfRange));
    assert_eq!(max_index(32), Err(ConfigError::BitLengthOutOfRange));
    assert_eq!(max_index(u32::MAX), Err(ConfigError::BitLengthOutOfRange));
}

#[test]
fn format_binary_pads_to_the_width() {
    assert_eq!(format_binary(5, 4), "0101");
    assert_eq!(format_binary(0, 3), "000");
    assert_eq!(format_binary(1, 1), "1");
    assert_eq!(format_binary(0b1111, 2), "11");
    assert_eq!(format_binary(u32::MAX, 32), "1".repeat(32));
    assert_eq!(format_binary(7, 0), "");
}

#[test]
fn parse_binary_reads_digits() {
    assert_eq!(parse_binary("0101"), Some(5));
    assert_eq!(parse_binary("0"), Some(0));
    assert_eq!(parse_binary("1"), Some(1));
    assert_eq!(parse_binary(&"1".repeat(32)), Some(u32::MAX));
    assert_eq!(parse_binary(&format!("0000{}", "1".repeat(32))), Some(u32::MAX));
}

#[test]
fn parse_binary_rejects_bad_input() {
    assert_eq!(parse_binary(""), None);
    assert_eq!(parse_binary("102"), None);
    assert_eq!(parse_binary(" 1"), None);
    assert_eq!(parse_binary(&format!("1{}", "0".repeat(32))), None);
}

#[test]
fn binary_text_round_trips() {
    for l in 1u32..=12 {
        for i in 0..(1u32 << l) {
            let s = format_binary(i, l);
            assert_eq!(s.len(), l as usize);
            assert_eq!(parse_binary(&s), Some(i));
        }
    }
    assert_eq!(parse_binary(&format_binary(0x7fff_ffff, 31)), Some(0x7fff_ffff));
}
