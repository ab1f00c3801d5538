//! The graph data model and its elaborator.

pub mod graph;
pub mod id;
pub mod node;
pub mod root;
pub mod shape;
pub mod variable;

pub use self::graph::Graph;
pub use self::root::GraphRoot;
pub use self::id::{GraphId, GraphIdArg};
pub use self::node::Node;
pub use self::shape::{Dim, DimKey};
pub use self::variable::{ValueType, Variable};
