use bode_response::rounding::bit_length;
use bode_response::rounding::round_to_pattern;
use bode_response::rounding::two_to_wide;
use bode_response::rounding::INFINITY_BITS;

#[test]
fn bit_lengths() {
    assert_eq!(bit_length(0), 0);
    assert_eq!(bit_length(1), 1);
    assert_eq!(bit_length(2), 2);
    assert_eq!(bit_length(3), 2);
    assert_eq!(bit_length(255), 8);
    assert_eq!(bit_length(256), 9);
    assert_eq!(bit_length((1u128 << 53) - 1), 53);
    assert_eq!(bit_length(1u128 << 53), 54);
    assert_eq!(bit_length(1u128 << 127), 128);
    assert_eq!(bit_length(u128::MAX), 128);
}

#[test]
fn powers_of_two() {
    assert_eq!(two_to_wide(0), 1);
    assert_eq!(two_to_wide(1), 2);
    assert_eq!(two_to_wide(64), 1u128 << 64);
    assert_eq!(two_to_wide(127), 1u128 << 127);
}

#[test]
fn whole_units_round_to_themselves() {
    // p * 2^0 units of 2^-1074
    assert_eq!(round_to_pattern(1, 0, 1, 0), 5e-324f64.to_bits());
    assert_eq!(round_to_pattern(3, 0, 1, 0), 1.5e-323f64.to_bits());
    assert_eq!(round_to_pattern(1 << 52, 0, 1, 0), f64::MIN_POSITIVE.to_bits());
    // 2^1074 units are one
    assert_eq!(round_to_pattern(1, 0, 1, 1074), 1.0f64.to_bits());
    assert_eq!(round_to_pattern(3, 0, 1, 1073), 1.5f64.to_bits());
    assert_eq!(round_to_pattern(5, 0, 1, 1074), 5.0f64.to_bits());
}

#[test]
fn ties_go_to_the_even_pattern() {
    // 2^53 + 1 lies between 2^53 and 2^53 + 2
    assert_eq!(
        round_to_pattern((1 << 53) + 1, 0, 1, 1074),
        9007199254740992.0f64.to_bits()
    );
    assert_eq!(
        round_to_pattern((1 << 53) + 3, 0, 1, 1074),
        9007199254740996.0f64.to_bits()
    );
    // half a unit goes to zero, one and a half units to two
    assert_eq!(round_to_pattern(1, 0, 1, -1), 0);
    assert_eq!(round_to_pattern(3, 0, 1, -1), 2);
    assert_eq!(round_to_pattern(5, 0, 1, -1), 2);
    assert_eq!(round_to_pattern(7, 0, 1, -1), 4);
}

#[test]
fn a_remainder_breaks_the_tie() {
    // (2^53 + 1 + 1/3) units of one
    assert_eq!(
        round_to_pattern((1 << 53) + 1, 1, 3, 1074),
        9007199254740994.0f64.to_bits()
    );
    assert_eq!(
        round_to_pattern((1 << 53) + 1, 0, 3, 1074),
        9007199254740992.0f64.to_bits()
    );
}

#[test]
fn what_is_too_small_rounds_to_zero() {
    assert_eq!(round_to_pattern(1, 0, 1, -2), 0);
    assert_eq!(round_to_pattern(1, 0, 1, -1200), 0);
    assert_eq!(round_to_pattern((1 << 119) + 12345, 0, 1, -1200), 0);
    assert_eq!(round_to_pattern(3, 0, 1, -2), 1);
}

#[test]
fn what_is_too_large_rounds_to_infinity() {
    assert_eq!(round_to_pattern(1, 0, 1, 1074 + 1024), INFINITY_BITS);
    assert_eq!(round_to_pattern(1, 0, 1, 4200), INFINITY_BITS);
    assert_eq!(
        round_to_pattern((1 << 53) - 1, 0, 1, 1074 + 971),
        f64::MAX.to_bits()
    );
    // the midpoint between the largest finite number and 2^1024
    assert_eq!(
        round_to_pattern((1 << 54) - 1, 0, 1, 1074 + 970),
        INFINITY_BITS
    );
    assert_eq!(
        round_to_pattern((1 << 55) - 3, 0, 1, 1074 + 969),
        f64::MAX.to_bits()
    );
}
