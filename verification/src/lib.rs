//! Evacuation routing on a capacitated graph.
//!
//! Population centres feed a single safe node along fixed routes. Every arc of a
//! route has a travel duration and a capacity: the number of people that may
//! enter it during one unit of time. A schedule gives each evacuation node a
//! departure rate and a start time; the library decides, with proof, whether
//! such a schedule ever overloads an arc.
//!
//! * [`task`]: one node's evacuation flow and its demand at each unit of time.
//! * [`resource`]: the ledger of one arc, which admits a task only if the arc's
//!   capacity holds at every unit of the task's window.
//! * [`validator`]: the ledgers of one validation pass, one for each arc, and
//!   the walk of a task along its route.
//! * [`solution`]: a schedule and its validation against a graph.
//! * [`demand`]: what validity means, without ledgers: no arc is ever asked to
//!   carry more than it can.
//! * [`graph`]: nodes, arcs and routes, and lower bounds on evacuation time.
//! * [`bound`]: why those bounds are bounds.
//! * [`assemble`]: the making of a graph from its declared nodes and arcs.
//! * [`generate`]: the making of a schedule that a graph can carry.
//! * [`text`], [`reader`], [`writer`]: the line-oriented text form of graphs
//!   and schedules, read and written.
//! * [`round_trip`]: what is written is read as it was, and what is read is
//!   written as it was.
//! * [`error`]: what can go wrong.
//!
//! Every type that decisions are made on has a mathematical model, its view;
//! the contracts of the functions and the laws of the library are stated over
//! these models.
pub mod assemble;
pub mod bound;
pub mod demand;
pub mod error;
pub mod generate;
pub mod graph;
pub mod reader;
pub mod resource;
pub mod round_trip;
pub mod solution;
pub mod task;
pub mod text;
pub mod validator;
pub mod writer;

pub use assemble::EvacNode;
pub use error::Error;
pub use graph::{Arc, Drawing, Graph, GraphModel, Node, NodeModel};
pub use resource::{AddTaskResult, Resource, ResourceModel};
pub use solution::{Solution, SolutionModel};
pub use task::{Task, TaskModel};
pub use validator::Validator;
