use vstd::prelude::*;

use crate::sample::{Sample, ONE_RAW};

verus! {

/// A saw ramp rising over one phase cycle: `phase * 2 - 1`.
pub open spec fn spec_rise(phase: Sample) -> Sample {
    phase.spec_mul(Sample { raw: ((2 * ONE_RAW) as i64) }).spec_sub(Sample { raw: ONE_RAW })
}

/// A saw ramp rising from -1 at phase 0 to 1 at phase 1.
pub fn rise(phase: Sample) -> (r: Sample)
    ensures
        r == spec_rise(phase),
{
    phase.mul(Sample { raw: 2 * ONE_RAW }).sub(Sample { raw: ONE_RAW })
}

/// A saw ramp falling over one phase cycle: `1 - phase * 2`.
pub open spec fn spec_fall(phase: Sample) -> Sample {
    Sample { raw: ONE_RAW }.spec_sub(phase.spec_mul(Sample { raw: ((2 * ONE_RAW) as i64) }))
}

/// A saw ramp falling from 1 at phase 0 to -1 at phase 1.
pub fn fall(phase: Sample) -> (r: Sample)
    ensures
        r == spec_fall(phase),
{
    Sample { raw: ONE_RAW }.sub(phase.mul(Sample { raw: 2 * ONE_RAW }))
}

/// A pulse: 1 while the phase is below the duty point, else -1.
pub open spec fn spec_pwm(phase: Sample, duty: Sample) -> Sample {
    if phase.raw < duty.raw {
        Sample { raw: ONE_RAW }
    } else {
        Sample { raw: ((-ONE_RAW) as i64) }
    }
}

/// A pulse wave with the given duty cycle.
pub fn pwm(phase: Sample, duty: Sample) -> (r: Sample)
    ensures
        r == spec_pwm(phase, duty),
{
    if phase.raw < duty.raw {
        Sample { raw: ONE_RAW }
    } else {
        Sample { raw: ((-ONE_RAW) as i64) }
    }
}

/// A square wave: a pulse with a half duty cycle.
pub fn square(phase: Sample) -> (r: Sample)
    ensures
        r == spec_pwm(phase, Sample { raw: ((ONE_RAW / 2) as i64) }),
{
    pwm(phase, Sample { raw: ONE_RAW / 2 })
}

} // verus!
