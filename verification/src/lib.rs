//! A flow and data mapper for binary WebAssembly modules.
//!
//! The library walks the decoded operator stream of each function body,
//! builds a per-function control/data-flow node, lifts inline blocks into
//! first-class nodes with explicit call edges, expands the call graph into a
//! feed-forward tree by pruning self references and reference loops, and can
//! collapse a fully expanded node back into a single byte image.

pub mod keyed_map;
pub mod node;
pub mod types;
pub mod mapper;
pub mod walker;
pub mod expand;
pub mod collapse;
