use rume::sample::ONE_RAW;
use rume::Sample;

fn enc(x: f64) -> Sample {
    Sample { raw: (x * 4294967296.0_f64).round() as i64 }
}

#[test]
fn addition_is_exact_and_saturates() {
    assert_eq!(enc(1.25).add(enc(2.5)), enc(3.75));
    assert_eq!(enc(-1.0).add(enc(1.0)), enc(0.0));
    assert_eq!(Sample { raw: i64::MAX }.add(enc(1.0)), Sample { raw: i64::MAX });
    assert_eq!(Sample { raw: i64::MIN }.sub(enc(1.0)), Sample { raw: i64::MIN });
}

#[test]
fn multiplication_scales_back_down() {
    assert_eq!(enc(1.5).mul(enc(2.0)), enc(3.0));
    assert_eq!(enc(-0.5).mul(enc(0.5)), enc(-0.25));
    assert_eq!(enc(0.0).mul(enc(123.0)), enc(0.0));
    assert_eq!(Sample { raw: ONE_RAW }.mul(enc(7.0)), enc(7.0));
}

#[test]
fn step_division_truncates_toward_zero() {
    assert_eq!(Sample { raw: 15 }.div_steps(4), Sample { raw: 3 });
    assert_eq!(Sample { raw: -15 }.div_steps(4), Sample { raw: -3 });
    assert_eq!(enc(1.0).div_steps(4), enc(0.25));
    assert_eq!(enc(3.0).div_steps(0), enc(0.0));
}

#[test]
fn remainder_wraps_against_a_positive_modulus() {
    assert_eq!(enc(3.5).rem(enc(2.0)), enc(1.5));
    assert_eq!(enc(-3.5).rem(enc(2.0)), enc(-1.5));
    assert_eq!(enc(5.0).rem(enc(0.0)), enc(5.0));
}
