//! An in-process incremental computation engine.
//!
//! Callers declare named units of work ("tasks") with ordered input and
//! output asset names, wire one task's output to another's input
//! ("binding"), and ask a transient solver to produce the value of some
//! task's outputs.  The solver resolves the transitive dependency closure,
//! executes tasks in dependency order against a fresh value store, and
//! memoizes across solves: a task whose inputs are unchanged since the
//! previous solve reuses its previously stored outputs instead of running
//! its body.

use vstd::prelude::*;

pub mod chain;
pub mod errors;
pub mod float_bits;
pub mod graph;
pub mod laws;
pub mod node;
pub mod solver;
pub mod store;
pub mod table;
pub mod value;

pub use chain::Chain;
pub use chain::End;
pub use chain::Pop;
pub use chain::Push;
pub use errors::GraphError;
pub use errors::SolverError;
pub use errors::SolverStatus;
pub use graph::AssetProvider;
pub use graph::Graph;
pub use node::asset_str;
pub use node::Node;
pub use node::TaskBody;
pub use solver::GraphSolver;
pub use solver::NodeRunner;
pub use store::Cache;
pub use store::ValuesCache;
pub use value::Comparable;
pub use value::Value;
pub use value::ValueKind;
