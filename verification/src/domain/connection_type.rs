use vstd::prelude::*;

verus! {

/// How a backend reaches the supervisor.
#[derive(Clone, Copy, Debug, PartialEq, Eq, Structural)]
pub enum ConnectionType {
    /// Over the control channel of the machine the process runs on.
    Local,
    /// Over a channel to another machine.
    Remote,
}

} // verus!
