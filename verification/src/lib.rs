//! Core compiler for a declarative neural-network description language.
//!
//! A textual model source is parsed (outside this crate) into an abstract
//! syntax tree of named models composed of chained operator nodes with shape
//! annotations.  This crate elaborates such a tree into a fully resolved
//! graph whose every node has determinate tensor shapes expressed over a
//! symbolic algebra.

pub mod algebra;
pub mod ast;
pub mod compile;
pub mod error;
pub mod graphs;
pub mod prefab;

pub use self::ast::{UseOrigin, Value};
pub use self::error::CompileError;
pub use self::graphs::{
    Dim, DimKey, Graph, GraphId, GraphIdArg, GraphRoot, Node, ValueType, Variable,
};
