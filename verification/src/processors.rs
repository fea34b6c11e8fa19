use vstd::prelude::*;

use crate::lut::{OwnedLut, OwnedLutView};
use crate::phase::Phasor;
use crate::proc::{AudioConfig, Processor};
use crate::sample::{sat64, Sample, ONE_RAW};

verus! {

/// A constant source: one output port that always shows the same value.
#[derive(Clone, Copy, PartialEq, Eq, Structural, Debug)]
pub struct Value {
    pub value: Sample,
}

impl Value {
    pub fn new(value: Sample) -> (r: Value)
        ensures
            r == (Value { value }),
    {
        Value { value }
    }
}

impl Processor for Value {
    open spec fn prepare_rel(pre: Value, post: Value, config: AudioConfig) -> bool {
        post == pre
    }

    open spec fn process_rel(pre: Value, post: Value) -> bool {
        post == pre
    }

    fn prepare(&mut self, config: AudioConfig) {
    }

    fn process(&mut self) {
    }
}

/// A pass-through unit for exercising graphs: its input port writes its
/// one field and its output port reads it back; processing does nothing.
#[derive(Clone, Copy, PartialEq, Eq, Structural, Debug)]
pub struct DummyProcessor {
    pub value: Sample,
}

impl DummyProcessor {
    pub fn new() -> (r: DummyProcessor)
        ensures
            r == (DummyProcessor { value: Sample { raw: 0 } }),
    {
        DummyProcessor { value: Sample { raw: 0 } }
    }
}

impl Processor for DummyProcessor {
    open spec fn prepare_rel(pre: DummyProcessor, post: DummyProcessor, config: AudioConfig) -> bool {
        post == pre
    }

    open spec fn process_rel(pre: DummyProcessor, post: DummyProcessor) -> bool {
        post == pre
    }

    fn prepare(&mut self, config: AudioConfig) {
    }

    fn process(&mut self) {
    }
}

/// A joining unit: three input ports all write its one field, read back
/// on a single output port.
#[derive(Clone, Copy, PartialEq, Eq, Structural, Debug)]
pub struct MultiInProcessor {
    pub value: Sample,
}

impl MultiInProcessor {
    pub fn new() -> (r: MultiInProcessor)
        ensures
            r == (MultiInProcessor { value: Sample { raw: 0 } }),
    {
        MultiInProcessor { value: Sample { raw: 0 } }
    }
}

impl Processor for MultiInProcessor {
    open spec fn prepare_rel(pre: MultiInProcessor, post: MultiInProcessor, config: AudioConfig) -> bool {
        post == pre
    }

    open spec fn process_rel(pre: MultiInProcessor, post: MultiInProcessor) -> bool {
        post == pre
    }

    fn prepare(&mut self, config: AudioConfig) {
    }

    fn process(&mut self) {
    }
}

/// A fanning unit: one input port writes its field, and three output
/// ports all read it.
#[derive(Clone, Copy, PartialEq, Eq, Structural, Debug)]
pub struct MultiOutProcessor {
    pub value: Sample,
}

impl MultiOutProcessor {
    pub fn new() -> (r: MultiOutProcessor)
        ensures
            r == (MultiOutProcessor { value: Sample { raw: 0 } }),
    {
        MultiOutProcessor { value: Sample { raw: 0 } }
    }
}

impl Processor for MultiOutProcessor {
    open spec fn prepare_rel(pre: MultiOutProcessor, post: MultiOutProcessor, config: AudioConfig) -> bool {
        post == pre
    }

    open spec fn process_rel(pre: MultiOutProcessor, post: MultiOutProcessor) -> bool {
        post == pre
    }

    fn prepare(&mut self, config: AudioConfig) {
    }

    fn process(&mut self) {
    }
}

/// What the verifier sees of a wavetable oscillator.
pub struct SineView {
    pub frequency: Sample,
    pub amplitude: Sample,
    pub sample: Sample,
    pub lut: OwnedLutView,
    pub table_time: Sample,
    pub sample_time: Sample,
}

/// A wavetable oscillator: frequency and amplitude input ports, one
/// output port carrying the scaled table reading; each sample the phase
/// advances by `frequency * table_time` table slots.
pub struct Sine {
    frequency: Sample,
    amplitude: Sample,
    sample: Sample,
    lut: OwnedLut,
    table_time: Sample,
    sample_time: Sample,
}

impl View for Sine {
    type V = SineView;

    closed spec fn view(&self) -> SineView {
        SineView {
            frequency: self.frequency,
            amplitude: self.amplitude,
            sample: self.sample,
            lut: self.lut@,
            table_time: self.table_time,
            sample_time: self.sample_time,
        }
    }
}

/// One table length per cycle of a 48 kHz clock: `len / 48000` as a
/// fixed-point step time.
pub open spec fn spec_table_time(len: nat) -> Sample {
    Sample { raw: sat64(len * ONE_RAW / 48000) }
}

/// One second per `rate`: the fixed-point duration of one sample.
pub open spec fn spec_sample_time(rate: nat) -> Sample {
    if rate == 0 {
        Sample { raw: 0 }
    } else {
        Sample { raw: sat64(ONE_RAW * ONE_RAW / rate as int) }
    }
}

impl Sine {
    /// An oscillator sweeping the given wavetable, starting silent at
    /// frequency and amplitude zero.
    pub fn new(table: Vec<Sample>) -> (r: Sine)
        requires
            0 < table@.len() <= 0x7FFF_FFFF,
        ensures
            r@ == (SineView {
                frequency: Sample { raw: 0 },
                amplitude: Sample { raw: 0 },
                sample: Sample { raw: 0 },
                lut: OwnedLutView {
                    phasor: Phasor {
                        accumulator: Sample { raw: 0 },
                        increment: Sample { raw: ONE_RAW },
                        max: Sample { raw: ((table@.len() * ONE_RAW) as i64) },
                    },
                    table: table@,
                },
                table_time: spec_table_time(table@.len()),
                sample_time: Sample { raw: 0 },
            }),
    {
        let len: i128 = table.len() as i128;
        assert(len * (ONE_RAW as i128) <= 0x7FFF_FFFF_0000_0000_0000_0000) by (nonlinear_arith)
            requires
                0 < len <= 0x7FFF_FFFF,
        ;
        assert(len * (ONE_RAW as i128) >= 0) by (nonlinear_arith)
            requires
                0 < len,
        ;
        let t: i128 = len * (ONE_RAW as i128) / 48000;
        let table_time = Sample { raw: t as i64 };
        Sine {
            frequency: Sample { raw: 0 },
            amplitude: Sample { raw: 0 },
            sample: Sample { raw: 0 },
            lut: OwnedLut::new(table),
            table_time,
            sample_time: Sample { raw: 0 },
        }
    }

    /// The oscillator after one sample: the phase steps by
    /// `frequency * table_time` slots and the output shows the table
    /// reading scaled by the amplitude.
    pub open spec fn stepped(v: SineView) -> SineView {
        if v.lut.table.len() > 0 {
            let inc = v.frequency.spec_mul(v.table_time);
            let ready = OwnedLutView { phasor: Phasor { increment: inc, ..v.lut.phasor }, ..v.lut };
            let (lut, reading) = OwnedLut::spec_advance(ready);
            SineView { lut, sample: reading.spec_mul(v.amplitude), ..v }
        } else {
            v
        }
    }

    /// The value on the oscillator's output port.
    pub fn output_value(&self) -> (r: Sample)
        ensures
            r == self@.sample,
    {
        self.sample
    }

    /// Write the frequency input port.
    pub fn set_frequency(&mut self, v: Sample)
        ensures
            final(self)@ == (SineView { frequency: v, ..old(self)@ }),
    {
        self.frequency = v;
    }

    /// Write the amplitude input port.
    pub fn set_amplitude(&mut self, v: Sample)
        ensures
            final(self)@ == (SineView { amplitude: v, ..old(self)@ }),
    {
        self.amplitude = v;
    }
}

impl Clone for Sine {
    /// The clone carries the same view.
    fn clone(&self) -> (r: Self)
        ensures
            r@ == self@,
    {
        Sine {
            frequency: self.frequency,
            amplitude: self.amplitude,
            sample: self.sample,
            lut: self.lut.clone(),
            table_time: self.table_time,
            sample_time: self.sample_time,
        }
    }
}

impl Processor for Sine {
    /// Preparing caches the sample period for the configured rate.
    open spec fn prepare_rel(pre: Sine, post: Sine, config: AudioConfig) -> bool {
        post@ == (SineView { sample_time: spec_sample_time(config.sample_rate as nat), ..pre@ })
    }

    open spec fn process_rel(pre: Sine, post: Sine) -> bool {
        post@ == Sine::stepped(pre@)
    }

    fn prepare(&mut self, config: AudioConfig) {
        if config.sample_rate == 0 {
            self.sample_time = Sample { raw: 0 };
        } else {
            let t: i128 = 0x1_0000_0000_0000_0000i128 / (config.sample_rate as i128);
            if t > (i64::MAX as i128) {
                self.sample_time = Sample { raw: i64::MAX };
            } else {
                self.sample_time = Sample { raw: t as i64 };
            }
        }
    }

    fn process(&mut self) {
        if self.lut.table.len() > 0 {
            let inc = self.frequency.mul(self.table_time);
            self.lut.phasor.inc(inc);
            let reading = self.lut.advance();
            self.sample = reading.mul(self.amplitude);
        }
    }
}

} // verus!
