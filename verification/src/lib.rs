//! Typed workspace dependency DAG with verified graph checks.

pub mod analysis;
pub mod builder;
pub mod composition;
pub mod dependency;
pub mod pleme;
pub mod text;
pub mod types;
pub mod verify;

pub use analysis::{affected_workspaces, deployment_order};
pub use builder::WorkspaceGraphBuilder;
pub use types::{InputPort, OutputPort, WorkspaceEdge, WorkspaceGraph, WorkspaceId, WorkspaceNode};
pub use verify::{
    GraphViolation, verify_compatibility, verify_connectivity, verify_graph, verify_ordering,
    verify_uniqueness,
};
