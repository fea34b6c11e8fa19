use vstd::prelude::*;

verus! {

/// One signal scalar, a Q32.32 fixed-point number: `raw` counts
/// steps of 2^-32, so `raw == ONE_RAW` stands for the value 1.
#[derive(Clone, Copy, PartialEq, Eq, Structural, Debug)]
pub struct Sample {
    pub raw: i64,
}

/// Raw weight of the value 1 (2^32).
pub const ONE_RAW: i64 = 0x1_0000_0000;

/// Saturate an unbounded integer into the `i64` range.
pub open spec fn sat64(x: int) -> i64 {
    if x > i64::MAX {
        i64::MAX
    } else if x < i64::MIN {
        i64::MIN
    } else {
        x as i64
    }
}

/// Division that truncates toward zero, the way machine division does;
/// defined for a positive divisor.
pub open spec fn trunc_div(a: int, b: int) -> int {
    if a >= 0 {
        a / b
    } else {
        -((-a) / b)
    }
}

impl Sample {
    /// The zero signal.
    pub open spec fn spec_zero() -> Sample {
        Sample { raw: 0 }
    }

    #[verifier::when_used_as_spec(spec_zero)]
    pub fn zero() -> (r: Sample)
        ensures
            r == Sample::spec_zero(),
    {
        Sample { raw: 0 }
    }

    pub open spec fn spec_add(self, o: Sample) -> Sample {
        Sample { raw: sat64(self.raw + o.raw) }
    }

    /// Saturating addition.
    pub fn add(self, o: Sample) -> (r: Sample)
        ensures
            r == self.spec_add(o),
    {
        let s: i128 = (self.raw as i128) + (o.raw as i128);
        if s > (i64::MAX as i128) {
            Sample { raw: i64::MAX }
        } else if s < (i64::MIN as i128) {
            Sample { raw: i64::MIN }
        } else {
            Sample { raw: s as i64 }
        }
    }

    pub open spec fn spec_sub(self, o: Sample) -> Sample {
        Sample { raw: sat64(self.raw - o.raw) }
    }

    /// Saturating subtraction.
    pub fn sub(self, o: Sample) -> (r: Sample)
        ensures
            r == self.spec_sub(o),
    {
        let s: i128 = (self.raw as i128) - (o.raw as i128);
        if s > (i64::MAX as i128) {
            Sample { raw: i64::MAX }
        } else if s < (i64::MIN as i128) {
            Sample { raw: i64::MIN }
        } else {
            Sample { raw: s as i64 }
        }
    }

    pub open spec fn spec_mul(self, o: Sample) -> Sample {
        Sample { raw: sat64(trunc_div(self.raw * o.raw, ONE_RAW as int)) }
    }

    /// Saturating fixed-point multiplication: the product of the raw
    /// values, scaled back down by 2^32 with truncation toward zero.
    pub fn mul(self, o: Sample) -> (r: Sample)
        ensures
            r == self.spec_mul(o),
    {
        let x: i128 = self.raw as i128;
        let y: i128 = o.raw as i128;
        assert(i128::MIN <= x * y <= i128::MAX) by (nonlinear_arith)
            requires
                -0x8000_0000_0000_0000 <= x <= 0x7FFF_FFFF_FFFF_FFFF,
                -0x8000_0000_0000_0000 <= y <= 0x7FFF_FFFF_FFFF_FFFF,
        ;
        let p: i128 = x * y;
        let q: i128 = p / (ONE_RAW as i128);
        if q > (i64::MAX as i128) {
            Sample { raw: i64::MAX }
        } else if q < (i64::MIN as i128) {
            Sample { raw: i64::MIN }
        } else {
            Sample { raw: q as i64 }
        }
    }

    pub open spec fn spec_div_steps(self, n: u32) -> Sample {
        if n == 0 {
            Sample { raw: 0 }
        } else {
            Sample { raw: trunc_div(self.raw as int, n as int) as i64 }
        }
    }

    /// Division of a value into `n` equal steps, truncating toward zero;
    /// zero steps give the zero signal.
    pub fn div_steps(self, n: u32) -> (r: Sample)
        ensures
            r == self.spec_div_steps(n),
    {
        if n == 0 {
            Sample { raw: 0 }
        } else {
            let q: i128 = (self.raw as i128) / (n as i128);
            Sample { raw: q as i64 }
        }
    }

    pub open spec fn spec_rem(self, m: Sample) -> Sample {
        if m.raw <= 0 {
            self
        } else if self.raw >= 0 {
            Sample { raw: (self.raw as int % m.raw as int) as i64 }
        } else {
            Sample { raw: -((-(self.raw as int)) % m.raw as int) as i64 }
        }
    }

    /// Remainder after division by a positive modulus, truncating toward
    /// zero; a modulus that is not positive leaves the value unchanged.
    pub fn rem(self, m: Sample) -> (r: Sample)
        ensures
            r == self.spec_rem(m),
    {
        if m.raw <= 0 {
            self
        } else {
            let q: i128 = (self.raw as i128) % (m.raw as i128);
            Sample { raw: q as i64 }
        }
    }
}

} // verus!
