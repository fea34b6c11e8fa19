use vstd::prelude::*;

use crate::endpoints::{InputEndpoint, InputEndpointView, OutputEndpoint};
use crate::processors::{DummyProcessor, MultiInProcessor, MultiOutProcessor, Sine, SineView, Value};
use crate::sample::Sample;
use crate::stream::OUTPUT_STREAM_CAPACITY;

verus! {

/// What every unit learns before streaming starts: the sample rate in
/// hertz, the block size in samples, and the channel count.
#[derive(Clone, Copy, PartialEq, Eq, Structural, Debug)]
pub struct AudioConfig {
    pub sample_rate: usize,
    pub buffer_size: usize,
    pub num_channels: usize,
}

impl Default for AudioConfig {
    /// 48 kHz, 64-sample blocks, stereo.
    fn default() -> (r: AudioConfig)
        ensures
            r == (AudioConfig { sample_rate: 48000, buffer_size: 64, num_channels: 2 }),
    {
        AudioConfig { sample_rate: 48000, buffer_size: 64, num_channels: 2 }
    }
}

impl From<u32> for AudioConfig {
    /// A bare number is read as a sample rate, with the default block
    /// size and channel count.
    fn from(rate: u32) -> (r: AudioConfig)
        ensures
            r == (AudioConfig { sample_rate: rate as usize, buffer_size: 64, num_channels: 2 }),
    {
        AudioConfig { sample_rate: rate as usize, buffer_size: 64, num_channels: 2 }
    }
}

impl vstd::std_specs::convert::FromSpecImpl<u32> for AudioConfig {
    open spec fn obeys_from_spec() -> bool {
        true
    }

    open spec fn from_spec(rate: u32) -> AudioConfig {
        AudioConfig { sample_rate: rate as usize, buffer_size: 64, num_channels: 2 }
    }
}

/// The contract every unit satisfies: `prepare` runs once before
/// streaming, `process` runs once per sample. Each implementor pins the
/// two transitions down with its own relations.
pub trait Processor where Self: Sized {
    /// Exactly the state changes `prepare` may make under `config`.
    spec fn prepare_rel(pre: Self, post: Self, config: AudioConfig) -> bool;

    /// Exactly the state changes one `process` step may make.
    spec fn process_rel(pre: Self, post: Self) -> bool;

    fn prepare(&mut self, config: AudioConfig)
        ensures
            Self::prepare_rel(*old(self), *final(self), config),
    ;

    fn process(&mut self)
        ensures
            Self::process_rel(*old(self), *final(self)),
    ;
}

/// What the verifier sees of one unit of a signal graph.
pub enum ProcUnitView {
    Input(InputEndpointView),
    Output(Seq<i64>),
    Value(Value),
    Sine(SineView),
    Dummy(DummyProcessor),
    MultiIn(MultiInProcessor),
    MultiOut(MultiOutProcessor),
}

/// One unit of a signal graph: any of the processors this library
/// offers, behind a single face the chain can drive.
pub enum ProcUnit {
    Input(InputEndpoint),
    Output(OutputEndpoint),
    Value(Value),
    Sine(Sine),
    Dummy(DummyProcessor),
    MultiIn(MultiInProcessor),
    MultiOut(MultiOutProcessor),
}

impl View for ProcUnit {
    type V = ProcUnitView;

    open spec fn view(&self) -> ProcUnitView {
        match self {
            ProcUnit::Input(u) => ProcUnitView::Input(u@),
            ProcUnit::Output(u) => ProcUnitView::Output(u@),
            ProcUnit::Value(u) => ProcUnitView::Value(*u),
            ProcUnit::Sine(u) => ProcUnitView::Sine(u@),
            ProcUnit::Dummy(u) => ProcUnitView::Dummy(*u),
            ProcUnit::MultiIn(u) => ProcUnitView::MultiIn(*u),
            ProcUnit::MultiOut(u) => ProcUnitView::MultiOut(*u),
        }
    }
}

impl ProcUnitView {
    /// The unit after one `process` step.
    pub open spec fn stepped(self) -> ProcUnitView {
        match self {
            ProcUnitView::Input(v) => ProcUnitView::Input(v.stepped()),
            ProcUnitView::Sine(v) => ProcUnitView::Sine(Sine::stepped(v)),
            _ => self,
        }
    }

    /// The unit after `prepare(config)`.
    pub open spec fn prepared(self, config: AudioConfig) -> ProcUnitView {
        match self {
            ProcUnitView::Input(v) => ProcUnitView::Input(v.prepared()),
            ProcUnitView::Sine(v) => ProcUnitView::Sine(
                SineView { sample_time: crate::processors::spec_sample_time(config.sample_rate as nat), ..v },
            ),
            _ => self,
        }
    }

    /// What the unit's output port `port` shows; a port the unit does not
    /// have reads zero.
    pub open spec fn output_at(self, port: int) -> Sample {
        match self {
            ProcUnitView::Input(v) => if port == 0 {
                v.value
            } else {
                Sample { raw: 0 }
            },
            ProcUnitView::Value(u) => if port == 0 {
                u.value
            } else {
                Sample { raw: 0 }
            },
            ProcUnitView::Sine(v) => if port == 0 {
                v.sample
            } else {
                Sample { raw: 0 }
            },
            ProcUnitView::Dummy(u) => if port == 0 {
                u.value
            } else {
                Sample { raw: 0 }
            },
            ProcUnitView::MultiIn(u) => if port == 0 {
                u.value
            } else {
                Sample { raw: 0 }
            },
            ProcUnitView::MultiOut(u) => if 0 <= port < 3 {
                u.value
            } else {
                Sample { raw: 0 }
            },
            _ => Sample { raw: 0 },
        }
    }

    /// The unit after `v` is written to its input port `port`; a port the
    /// unit does not have swallows the write.
    pub open spec fn with_input(self, port: int, v: Sample) -> ProcUnitView {
        match self {
            ProcUnitView::Output(q) => if port == 0 {
                if q.len() < OUTPUT_STREAM_CAPACITY {
                    ProcUnitView::Output(q.push(v.raw))
                } else {
                    self
                }
            } else {
                self
            },
            ProcUnitView::Sine(s) => if port == 0 {
                ProcUnitView::Sine(SineView { frequency: v, ..s })
            } else if port == 1 {
                ProcUnitView::Sine(SineView { amplitude: v, ..s })
            } else {
                self
            },
            ProcUnitView::Dummy(u) => if port == 0 {
                ProcUnitView::Dummy(DummyProcessor { value: v })
            } else {
                self
            },
            ProcUnitView::MultiIn(u) => if 0 <= port < 3 {
                ProcUnitView::MultiIn(MultiInProcessor { value: v })
            } else {
                self
            },
            ProcUnitView::MultiOut(u) => if port == 0 {
                ProcUnitView::MultiOut(MultiOutProcessor { value: v })
            } else {
                self
            },
            _ => self,
        }
    }
}

impl ProcUnit {
    /// Read the unit's output port `port`.
    pub fn get_output(&self, port: usize) -> (r: Sample)
        ensures
            r == self@.output_at(port as int),
    {
        match self {
            ProcUnit::Input(u) => if port == 0 {
                u.output_value()
            } else {
                Sample { raw: 0 }
            },
            ProcUnit::Value(u) => if port == 0 {
                u.value
            } else {
                Sample { raw: 0 }
            },
            ProcUnit::Sine(u) => if port == 0 {
                u.output_value()
            } else {
                Sample { raw: 0 }
            },
            ProcUnit::Dummy(u) => if port == 0 {
                u.value
            } else {
                Sample { raw: 0 }
            },
            ProcUnit::MultiIn(u) => if port == 0 {
                u.value
            } else {
                Sample { raw: 0 }
            },
            ProcUnit::MultiOut(u) => if port < 3 {
                u.value
            } else {
                Sample { raw: 0 }
            },
            _ => Sample { raw: 0 },
        }
    }

    /// Write `v` to the unit's input port `port`.
    pub fn set_input(&mut self, port: usize, v: Sample)
        ensures
            final(self)@ == old(self)@.with_input(port as int, v),
    {
        match self {
            ProcUnit::Output(u) => if port == 0 {
                u.set_input(v);
            },
            ProcUnit::Sine(u) => if port == 0 {
                u.set_frequency(v);
            } else if port == 1 {
                u.set_amplitude(v);
            },
            ProcUnit::Dummy(u) => if port == 0 {
                u.value = v;
            },
            ProcUnit::MultiIn(u) => if port < 3 {
                u.value = v;
            },
            ProcUnit::MultiOut(u) => if port == 0 {
                u.value = v;
            },
            _ => {},
        }
    }
}

impl Processor for ProcUnit {
    open spec fn prepare_rel(pre: ProcUnit, post: ProcUnit, config: AudioConfig) -> bool {
        post@ == pre@.prepared(config)
    }

    open spec fn process_rel(pre: ProcUnit, post: ProcUnit) -> bool {
        post@ == pre@.stepped()
    }

    fn prepare(&mut self, config: AudioConfig) {
        match self {
            ProcUnit::Input(u) => u.prepare(config),
            ProcUnit::Output(u) => u.prepare(config),
            ProcUnit::Value(u) => u.prepare(config),
            ProcUnit::Sine(u) => u.prepare(config),
            ProcUnit::Dummy(u) => u.prepare(config),
            ProcUnit::MultiIn(u) => u.prepare(config),
            ProcUnit::MultiOut(u) => u.prepare(config),
        }
    }

    fn process(&mut self) {
        match self {
            ProcUnit::Input(u) => u.process(),
            ProcUnit::Output(u) => u.process(),
            ProcUnit::Value(u) => u.process(),
            ProcUnit::Sine(u) => u.process(),
            ProcUnit::Dummy(u) => u.process(),
            ProcUnit::MultiIn(u) => u.process(),
            ProcUnit::MultiOut(u) => u.process(),
        }
    }
}

impl Clone for ProcUnit {
    /// The clone carries the same view: same queued values, same state.
    fn clone(&self) -> (r: Self)
        ensures
            r@ == self@,
    {
        match self {
            ProcUnit::Input(u) => ProcUnit::Input(u.clone()),
            ProcUnit::Output(u) => ProcUnit::Output(u.clone()),
            ProcUnit::Value(u) => ProcUnit::Value(*u),
            ProcUnit::Sine(u) => ProcUnit::Sine(u.clone()),
            ProcUnit::Dummy(u) => ProcUnit::Dummy(*u),
            ProcUnit::MultiIn(u) => ProcUnit::MultiIn(*u),
            ProcUnit::MultiOut(u) => ProcUnit::MultiOut(*u),
        }
    }
}

/// A handle to one processor instance: the number that identifies the
/// instance in a chain, together with the unit it stands for. Two handles
/// name the same instance exactly when they carry the same number.
pub struct SharedProc {
    pub id: usize,
    pub unit: ProcUnit,
}

impl Clone for SharedProc {
    /// The clone names the same instance and carries the same view.
    fn clone(&self) -> (r: Self)
        ensures
            r.id == self.id,
            r.unit@ == self.unit@,
    {
        SharedProc { id: self.id, unit: self.unit.clone() }
    }
}

/// Make a processor instance out of a unit: `id` is the instance's
/// identity; a builder treats two handles with one `id` as one instance.
pub fn make_processor(id: usize, unit: ProcUnit) -> (r: SharedProc)
    ensures
        r.id == id,
        r.unit == unit,
{
    SharedProc { id, unit }
}

} // verus!
