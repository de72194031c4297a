//! What can go wrong while a graph or a schedule is read, built or checked.
use vstd::prelude::*;

verus! {

/// A failure that stops the operation that met it.
///
/// An overloaded arc is no error: it is the ordinary negative answer of an
/// admission or of a validation.
#[derive(Clone, Copy, Debug, PartialEq, Eq, Structural)]
pub enum Error {
    /// A line of the input does not have the expected shape. `line` counts
    /// from one.
    MalformedInput { line: usize },
    /// A route names a node that the graph does not hold, or that has no
    /// arc leaving it.
    MissingNode { id: u64 },
    /// A task was given an evacuation rate of zero, so it would never end.
    ZeroRateTask { node_id: u64 },
    /// A schedule holds no task for the evacuation node at which a route
    /// starts.
    MissingTask { node_id: u64 },
    /// The window of the task of this node would end after the last unit of
    /// time that 64 bits can count.
    TimeOverflow { node_id: u64 },
    /// No start was found at which the arcs can carry the task of this node.
    CapacityExceeded { node_id: u64 },
}

} // verus!
