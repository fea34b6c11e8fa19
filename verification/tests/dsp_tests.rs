use rume::{fall, pwm, rise, square, OwnedLut, Phasor, Sample};

fn enc(x: f64) -> Sample {
    Sample { raw: (x * 4294967296.0_f64).round() as i64 }
}

#[test]
fn wraps_when_passing_max() {
    let mut phasor = Phasor::new(enc(0.5), enc(2.0));
    assert_eq!(phasor.get(), enc(0.0));
    assert_eq!(phasor.advance(), enc(0.5));
    assert_eq!(phasor.advance(), enc(1.0));
    assert_eq!(phasor.advance(), enc(1.5));
    assert_eq!(phasor.advance(), enc(0.0));
}

#[test]
fn resetting_moves_back_to_zero() {
    let mut phasor = Phasor::new(enc(0.1), enc(1.0));
    assert_eq!(phasor.get(), enc(0.0));
    assert_eq!(phasor.advance(), enc(0.1));
    phasor.reset();
    assert_eq!(phasor.get(), enc(0.0));
}

#[test]
fn shifting_moves_phase_with_wrap() {
    let max = enc(1.0);
    let inc = enc(0.1);
    let shift = enc(0.2);
    let epsilon = enc(0.0001);

    let mut phasor = Phasor::new(inc, max);
    assert_eq!(phasor.get(), enc(0.0));
    assert_eq!(phasor.advance(), inc);

    phasor.reset();
    phasor.shift(shift);
    assert_eq!(phasor.get(), shift);

    phasor.reset();
    assert_eq!(phasor.get(), enc(0.0));

    phasor.shift(shift.add(max));
    assert!(phasor.get().raw > shift.raw - epsilon.raw);
    assert!(phasor.get().raw < shift.raw + epsilon.raw);
}

#[test]
fn rising_saw() {
    assert_eq!(rise(enc(0.0)), enc(-1.0));
    assert_eq!(rise(enc(0.25)), enc(-0.5));
    assert_eq!(rise(enc(0.5)), enc(0.0));
    assert_eq!(rise(enc(0.75)), enc(0.5));
    assert_eq!(rise(enc(1.0)), enc(1.0));
}

#[test]
fn falling_saw() {
    assert_eq!(fall(enc(0.0)), enc(1.0));
    assert_eq!(fall(enc(0.25)), enc(0.5));
    assert_eq!(fall(enc(0.5)), enc(0.0));
    assert_eq!(fall(enc(0.75)), enc(-0.5));
    assert_eq!(fall(enc(1.0)), enc(-1.0));
}

#[test]
fn basic_square() {
    assert_eq!(square(enc(0.0)), enc(1.0));
    assert_eq!(square(enc(0.1)), enc(1.0));
    assert_eq!(square(enc(0.2)), enc(1.0));
    assert_eq!(square(enc(0.3)), enc(1.0));
    assert_eq!(square(enc(0.4)), enc(1.0));
    assert_eq!(square(enc(0.499)), enc(1.0));
    assert_eq!(square(enc(0.5)), enc(-1.0));
    assert_eq!(square(enc(0.6)), enc(-1.0));
    assert_eq!(square(enc(0.7)), enc(-1.0));
    assert_eq!(square(enc(0.8)), enc(-1.0));
    assert_eq!(square(enc(0.9)), enc(-1.0));
    assert_eq!(square(enc(1.0)), enc(-1.0));
}

#[test]
fn pulse_width() {
    const N: usize = 100;
    for x in 0..N {
        let xs = enc(x as f64 / N as f64);
        assert_eq!(pwm(xs, enc(0.5)), square(xs));

        for d in 0..N {
            let ds = enc(d as f64 / N as f64);
            if xs.raw < ds.raw {
                assert_eq!(pwm(xs, ds), enc(1.0));
            } else {
                assert_eq!(pwm(xs, ds), enc(-1.0));
            }
        }
    }
}

#[test]
fn lookup_outside_the_table_extrapolates_below_and_clamps_above() {
    let table = vec![enc(0.0), enc(1.0), enc(2.0), enc(3.0)];
    // a negative index extrapolates from slot zero with a negative weight:
    // (1 - (-0.5)) * table[0] + (-0.5) * table[1]
    assert_eq!(rume::lut::lookup(&table, enc(-0.5)), enc(-0.5));
    // an index at or past the table's end reads the last slot whole
    assert_eq!(rume::lut::lookup(&table, enc(4.0)), enc(3.0));
    assert_eq!(rume::lut::lookup(&table, enc(9.25)), enc(3.0));
}

#[test]
fn lookup_table_sweeps_its_slots() {
    // a four-slot ramp table swept one slot per step, mixing neighbors
    let table = vec![enc(0.0), enc(1.0), enc(2.0), enc(3.0)];
    let mut lut = OwnedLut::new(table);
    assert_eq!(lut.advance(), enc(1.0));
    assert_eq!(lut.advance(), enc(2.0));
    assert_eq!(lut.advance(), enc(3.0));
    // the phase wraps to slot zero
    assert_eq!(lut.advance(), enc(0.0));
    // a half-slot phase mixes two neighbors evenly
    lut.phasor.inc(enc(0.5));
    assert_eq!(lut.advance(), enc(0.5));
}
