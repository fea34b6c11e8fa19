//! A signal-processing graph engine, verified end to end: unit
//! processors with numbered input and output ports are connected into a
//! directed graph, linearized by a cycle-rejecting topological sort, and
//! driven one sample at a time, values moving along the connections the
//! same sample they are produced. Fixed-capacity streams bridge a control
//! side to the render side; per-input conditioning clamps, smooths and
//! auto-resets arriving values. Signal values are Q32.32 fixed-point
//! scalars with saturating arithmetic.

pub mod chain;
pub mod codegen;
pub mod endpoints;
pub mod io;
pub mod lut;
pub mod phase;
pub mod proc;
pub mod processors;
pub mod sample;
pub mod sort;
pub mod stream;
pub mod waves;

pub use chain::{ConnectedProcessor, ConnectedProcessors, Renderable, SignalChain, SignalChainBuilder};
pub use codegen::{GraphOutputs, ProcessorDecl, ProcessorsDecl};
pub use endpoints::{InputEndpoint, InputEndpointBuilder, InputEndpointKind, OutputEndpoint, RangedData, ValueSmoother};
pub use io::{Connection, InputPort, OutputPort, PortRef};
pub use lut::OwnedLut;
pub use phase::Phasor;
pub use proc::{make_processor, AudioConfig, ProcUnit, Processor, SharedProc};
pub use processors::{DummyProcessor, MultiInProcessor, MultiOutProcessor, Sine, Value};
pub use sample::Sample;
pub use sort::{BuildError, DirectedGraph, Sortable, TopologicalSort};
pub use stream::{InputStream, OutputStream};
pub use waves::{fall, pwm, rise, square};
