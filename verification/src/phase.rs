use vstd::prelude::*;

use crate::sample::Sample;

verus! {

/// A phase accumulator: each step adds the increment and wraps the total
/// at `max`, so the value sweeps `[0, max)` at a rate set by the
/// increment.
#[derive(Clone, Copy, PartialEq, Eq, Structural, Debug)]
pub struct Phasor {
    pub increment: Sample,
    pub accumulator: Sample,
    pub max: Sample,
}

impl Phasor {
    pub fn new(increment: Sample, max: Sample) -> (r: Phasor)
        ensures
            r == (Phasor { accumulator: Sample { raw: 0 }, increment, max }),
    {
        Phasor { accumulator: Sample { raw: 0 }, increment, max }
    }

    /// A phasor that advances one unit per step.
    pub fn with_max(max: Sample) -> (r: Phasor)
        ensures
            r == (Phasor { accumulator: Sample { raw: 0 }, increment: Sample { raw: crate::sample::ONE_RAW }, max }),
    {
        Phasor::new(Sample { raw: crate::sample::ONE_RAW }, max)
    }

    /// Move the phase back to zero.
    pub fn reset(&mut self)
        ensures
            *final(self) == (Phasor { accumulator: Sample { raw: 0 }, ..*old(self) }),
    {
        self.accumulator = Sample { raw: 0 };
    }

    /// Change the per-step increment.
    pub fn inc(&mut self, increment: Sample)
        ensures
            *final(self) == (Phasor { increment, ..*old(self) }),
    {
        self.increment = increment;
    }

    /// The phasor after its phase moves by `shift`, wrapped at `max`.
    pub open spec fn spec_shift(self, shift: Sample) -> Phasor {
        Phasor { accumulator: self.accumulator.spec_add(shift).spec_rem(self.max), ..self }
    }

    /// Move the phase by `shift`, wrapping at `max`.
    pub fn shift(&mut self, shift: Sample)
        ensures
            *final(self) == old(self).spec_shift(shift),
    {
        self.accumulator = self.accumulator.add(shift).rem(self.max);
    }

    /// The current phase.
    pub fn get(&self) -> (r: Sample)
        ensures
            r == self.accumulator,
    {
        self.accumulator
    }

    /// Step the phase forward by the increment and return it.
    pub fn advance(&mut self) -> (r: Sample)
        ensures
            *final(self) == old(self).spec_shift(old(self).increment),
            r == final(self).accumulator,
    {
        let i = self.increment;
        self.shift(i);
        self.get()
    }
}

} // verus!
