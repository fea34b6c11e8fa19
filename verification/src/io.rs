use vstd::prelude::*;

use crate::proc::SharedProc;

verus! {

/// One end of a connection: the identity of a processor instance and the
/// index of one of its ports.
#[derive(Clone, Copy, PartialEq, Eq, Structural, Debug)]
pub struct PortRef {
    pub proc: usize,
    pub port: usize,
}

/// A writable port of a processor instance: the instance's handle and the
/// index of the input field to write.
pub struct InputPort {
    pub proc: SharedProc,
    pub port: usize,
}

/// A readable port of a processor instance: the instance's handle and the
/// index of the output field to read.
pub struct OutputPort {
    pub proc: SharedProc,
    pub port: usize,
}

impl SharedProc {
    /// The handle's output port `port`.
    pub fn output_port(&self, port: usize) -> (r: OutputPort)
        ensures
            r.proc.id == self.id,
            r.proc.unit@ == self.unit@,
            r.port == port,
    {
        OutputPort { proc: self.clone(), port }
    }

    /// The handle's input port `port`.
    pub fn input_port(&self, port: usize) -> (r: InputPort)
        ensures
            r.proc.id == self.id,
            r.proc.unit@ == self.unit@,
            r.port == port,
    {
        InputPort { proc: self.clone(), port }
    }
}

/// A directed edge of the graph: when executed, the value read at the
/// producer's output port is written to the consumer's input port. Two
/// connections are the same exactly when both ends name the same instance
/// and port.
#[derive(Clone, Copy, PartialEq, Eq, Structural, Debug)]
pub struct Connection {
    pub output: PortRef,
    pub input: PortRef,
}

impl Connection {
    /// The edge from `output` to `input`.
    pub fn new(output: &OutputPort, input: &InputPort) -> (r: Connection)
        ensures
            r == (Connection {
                output: PortRef { proc: output.proc.id, port: output.port },
                input: PortRef { proc: input.proc.id, port: input.port },
            }),
    {
        Connection {
            output: PortRef { proc: output.proc.id, port: output.port },
            input: PortRef { proc: input.proc.id, port: input.port },
        }
    }
}

} // verus!
