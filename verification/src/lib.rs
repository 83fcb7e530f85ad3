//! Local-usage analysis over a control-flow graph.
//!
//! A [`Body`] is the control-flow graph of one procedure: basic blocks of
//! statements, each closed by a terminator that names its successor blocks.
//! The queries answer how one local is used in it: where it is assigned,
//! where it is used after a given point, whether a block lies on a cycle, and
//! whether a local is used exactly once.

pub mod body;
pub mod assignments;
pub mod cycle;
pub mod traversal;
pub mod usage;
pub mod usage_laws;
pub mod single_use;

pub use body::{
    BasicBlockData, Body, Local, Location, Occurrence, Place, PlaceContext, Statement,
    StatementKind, Terminator, TerminatorKind, UsageClass,
};
pub use assignments::{is_local_assignment, local_assignments};
pub use cycle::block_in_cycle;
pub use traversal::reverse_postorder;
pub use usage::{visit_local_usage, LocalUsage};
pub use single_use::used_exactly_once;
