use visual_diff::binary32::{decode, Reading};
use visual_diff::dyadic::{power_of_two, scaled_up, weigh, weigh_sum, Balance};

#[test]
fn decode_reads_normal_numbers() {
    assert_eq!(
        decode(1.0f32.to_bits()),
        Reading::Finite { negative: false, mantissa: 0x80_0000, shift: 126 }
    );
    assert_eq!(
        decode((-1.5f32).to_bits()),
        Reading::Finite { negative: true, mantissa: 0xc0_0000, shift: 126 }
    );
    assert_eq!(
        decode(f32::MAX.to_bits()),
        Reading::Finite { negative: false, mantissa: 0xff_ffff, shift: 253 }
    );
}

#[test]
fn decode_reads_zero_and_subnormal_numbers() {
    assert_eq!(decode(0), Reading::Finite { negative: false, mantissa: 0, shift: 0 });
    assert_eq!(
        decode((-0.0f32).to_bits()),
        Reading::Finite { negative: true, mantissa: 0, shift: 0 }
    );
    assert_eq!(decode(1), Reading::Finite { negative: false, mantissa: 1, shift: 0 });
    assert_eq!(
        decode(f32::MIN_POSITIVE.to_bits()),
        Reading::Finite { negative: false, mantissa: 0x80_0000, shift: 0 }
    );
}

#[test]
fn decode_reads_infinities_and_not_a_number() {
    assert_eq!(decode(f32::INFINITY.to_bits()), Reading::Infinite { negative: false });
    assert_eq!(decode(f32::NEG_INFINITY.to_bits()), Reading::Infinite { negative: true });
    assert_eq!(decode(f32::NAN.to_bits()), Reading::NotANumber);
    assert_eq!(decode(0x7f80_0001), Reading::NotANumber);
}

#[test]
fn decode_gives_back_every_finite_number() {
    let samples = [0.1f32, 0.05, 1.0e-40, 3.5, 100.0, 1.0e30, 0.15, 2.55];
    for sample in samples {
        match decode(sample.to_bits()) {
            Reading::Finite { negative, mantissa, shift } => {
                assert!(!negative);
                let value = mantissa as f64 * 2f64.powi(shift as i32 - 149);
                assert_eq!(value, sample as f64);
            }
            other => panic!("{:?} is finite, read as {:?}", sample, other),
        }
    }
}

#[test]
fn power_of_two_doubles_with_each_step() {
    assert_eq!(power_of_two(0), 1);
    assert_eq!(power_of_two(1), 2);
    assert_eq!(power_of_two(40), 0x100_0000_0000);
    assert_eq!(power_of_two(127), 1u128 << 127);
    let mut expected: u128 = 1;
    for exponent in 0..128u32 {
        assert_eq!(power_of_two(exponent), expected);
        expected = expected.wrapping_mul(2);
    }
}

#[test]
fn scaled_up_multiplies_by_a_power_of_two() {
    assert_eq!(scaled_up(5, 0), Some(5));
    assert_eq!(scaled_up(5, 3), Some(40));
    assert_eq!(scaled_up(1, 127), Some(1u128 << 127));
    assert_eq!(scaled_up(1, 128), None);
    assert_eq!(scaled_up(3, 127), None);
    assert_eq!(scaled_up(0, 4000), Some(0));
    assert_eq!(scaled_up(1, 4000), None);
    assert_eq!(scaled_up(u128::MAX, 0), Some(u128::MAX));
    assert_eq!(scaled_up(u128::MAX, 1), None);
    assert_eq!(scaled_up(u128::MAX >> 1, 1), Some(u128::MAX - 1));
}

#[test]
fn weigh_compares_across_exponents() {
    assert_eq!(weigh(1, 10, 1024, 0), Balance::Level);
    assert_eq!(weigh(1, 10, 1025, 0), Balance::Below);
    assert_eq!(weigh(1, 10, 1023, 0), Balance::Above);
    assert_eq!(weigh(3, 0, 1, 2), Balance::Below);
    assert_eq!(weigh(1, 300, u128::MAX, 0), Balance::Above);
    assert_eq!(weigh(u128::MAX, 0, 1, 300), Balance::Below);
    assert_eq!(weigh(0, 300, 0, 0), Balance::Level);
    assert_eq!(weigh(0, 300, 1, 0), Balance::Below);
}

#[test]
fn weigh_sum_is_exact_for_near_and_far_exponents() {
    assert_eq!(weigh_sum(1, 4, 1, 0, 17, 0), Balance::Level);
    assert_eq!(weigh_sum(1, 4, 1, 0, 18, 0), Balance::Below);
    assert_eq!(weigh_sum(1, 0, 1, 4, 16, 0), Balance::Above);
    assert_eq!(weigh_sum(1, 200, 1, 0, 1, 200), Balance::Above);
    assert_eq!(weigh_sum(1, 200, 0, 0, 1, 200), Balance::Level);
    assert_eq!(weigh_sum(1, 0, 1, 200, 1, 200), Balance::Above);
    assert_eq!(weigh_sum(1, 200, 1, 0, 2, 200), Balance::Below);
    assert_eq!(weigh_sum(0, 250, 5, 1, 10, 0), Balance::Level);
    assert_eq!(weigh_sum(3, 100, 1, 19, 3, 100), Balance::Above);
    assert_eq!(weigh_sum(3, 100, 1, 19, 1, 102), Balance::Below);
}
