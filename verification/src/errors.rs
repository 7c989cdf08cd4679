//! The two closed error taxonomies of the engine, and the run status.
//!
//! Construction-time failures ([`GraphError`]) leave the graph unchanged;
//! solve-time failures ([`SolverError`]) abort the current solve.

use vstd::prelude::*;

verus! {

/// Errors that may happen during graph construction.
#[derive(Debug)]
pub enum GraphError {
    /// A binding endpoint does not resolve to a declared input or output slot.
    UndefinedAssetSlot(String),
    /// A task was registered under a name that is already registered.
    RedefinedNode(String),
    /// A binding is structurally disconnected.
    DisconnectedDependency,
    /// A freestanding asset was declared twice under the same name.
    RedeclaredAsset(String),
}

/// The mathematical value of a [`GraphError`]: the same variants over
/// character sequences.
pub enum GraphErrorV {
    UndefinedAssetSlot(Seq<char>),
    RedefinedNode(Seq<char>),
    DisconnectedDependency,
    RedeclaredAsset(Seq<char>),
}

impl View for GraphError {
    type V = GraphErrorV;

    open spec fn view(&self) -> GraphErrorV {
        match self {
            GraphError::UndefinedAssetSlot(s) => GraphErrorV::UndefinedAssetSlot(s@),
            GraphError::RedefinedNode(s) => GraphErrorV::RedefinedNode(s@),
            GraphError::DisconnectedDependency => GraphErrorV::DisconnectedDependency,
            GraphError::RedeclaredAsset(s) => GraphErrorV::RedeclaredAsset(s@),
        }
    }
}

/// Errors that may happen while a solver instance executes.
#[derive(Debug)]
pub enum SolverError {
    /// The asset was never declared during graph construction: an unbound
    /// input whose value was not fed directly into the current store.
    AssetNotDeclared(String),
    /// A task producing the bound asset was not declared.
    AssetNotProduced(String),
    /// The asset was never written during graph execution.
    AssetNotCreated(String),
    /// The asset is stored under a different kind than the one requested.
    AssetWrongType(String),
    /// The asset is not bound: no edge in the graph satisfies it.
    AssetUnbound(String),
    /// No task was found with this name.
    NodeNotFound(String),
    /// The graph has no terminal (output-less) tasks.
    NoTerminalsDefined,
    /// A freestanding asset was reached through transitive binding
    /// resolution, a path the engine does not support.
    NotImplemented,
    /// The dependency traversal exhausted its step budget, which only a
    /// cyclic binding graph can cause: the engine fails fast instead of
    /// walking a cycle without end.
    TraversalLimitReached,
}

/// The mathematical value of a [`SolverError`].
pub enum SolverErrorV {
    AssetNotDeclared(Seq<char>),
    AssetNotProduced(Seq<char>),
    AssetNotCreated(Seq<char>),
    AssetWrongType(Seq<char>),
    AssetUnbound(Seq<char>),
    NodeNotFound(Seq<char>),
    NoTerminalsDefined,
    NotImplemented,
    TraversalLimitReached,
}

impl View for SolverError {
    type V = SolverErrorV;

    open spec fn view(&self) -> SolverErrorV {
        match self {
            SolverError::AssetNotDeclared(s) => SolverErrorV::AssetNotDeclared(s@),
            SolverError::AssetNotProduced(s) => SolverErrorV::AssetNotProduced(s@),
            SolverError::AssetNotCreated(s) => SolverErrorV::AssetNotCreated(s@),
            SolverError::AssetWrongType(s) => SolverErrorV::AssetWrongType(s@),
            SolverError::AssetUnbound(s) => SolverErrorV::AssetUnbound(s@),
            SolverError::NodeNotFound(s) => SolverErrorV::NodeNotFound(s@),
            SolverError::NoTerminalsDefined => SolverErrorV::NoTerminalsDefined,
            SolverError::NotImplemented => SolverErrorV::NotImplemented,
            SolverError::TraversalLimitReached => SolverErrorV::TraversalLimitReached,
        }
    }
}

/// Whether a task's body ran ([`SolverStatus::Executed`]) or its previous
/// outputs were reused ([`SolverStatus::Cached`]).
#[derive(Clone, Copy, PartialEq, Eq, Structural, Debug)]
pub enum SolverStatus {
    Cached,
    Executed,
}

} // verus!
