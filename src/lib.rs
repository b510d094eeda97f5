//! Editing and traversal of a node graph: a directed acyclic graph of computation nodes
//! with an import and export boundary, edited by insertion, deletion with reconnection,
//! connection, layout shifts, previews and copy/paste.

use vstd::prelude::*;

/// Nodes, inputs, networks and their lookups.
pub mod graph;
/// Default inputs of the node types.
pub mod registry;
/// Edits of inputs and flags, and the preview of a node.
pub mod edit;
/// Reachability along connections, and acyclicity.
pub mod topology;
/// Moving and spacing nodes on the grid.
pub mod layout;
/// Deleting nodes: reference rewriting and the sole-dependent pruning.
pub mod delete;
/// Copying, pasting and duplicating nodes under new ids.
pub mod clipboard;
/// The graph panel: selection, properties, links, layer rows and commands.
pub mod handler;

verus! {

} // verus!
