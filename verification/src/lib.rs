//! An in-memory directed multigraph store with a canonical JSON codec.
//!
//! Nodes carry an integer identifier and string properties, edges carry an
//! ordered list of labels. Every mutation keeps the forward edge table and
//! the predecessor index consistent with each other.

pub mod decimal;
pub mod decode;
pub mod depth;
pub mod encode;
pub mod entries;
pub mod error;
pub mod graph;
pub mod json;
pub mod lex;
pub mod pairs;
pub mod props;
pub mod round_trip;
pub mod screen;
pub mod sort;
pub mod tree;

pub use error::GraphError;
pub use error::ParseReason;
pub use props::Props;
pub use graph::{Edge, Graph, GraphView, Node, NodeView};
pub use tree::{Tree, TreeView};
