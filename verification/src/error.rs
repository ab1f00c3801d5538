//! The compilation error values.

use vstd::prelude::*;

use crate::ast::UseOrigin;
use crate::ast::Value;
use crate::graphs::id::GraphId;
use crate::graphs::shape::Dim;
use crate::graphs::variable::ValueType;

verus! {

/// Any failure of a compilation.  Each variant carries the offending model
/// name.
#[derive(Debug)]
pub enum CompileError {
    ExternModelError { error: ExternModelError, model: String },
    NonExternModelError { error: NonExternModelError, model: String },
    ModelError { error: ModelError, model: String, origin: UseOrigin },
    GraphError { error: GraphError, model: String },
}

/// Failures special to extern models.
#[derive(Debug)]
pub enum ExternModelError {
    UnknownGraph,
    MalformedShape,
    UnexpectedChild { model: String },
}

/// Failures special to non-extern models.
#[derive(Debug)]
pub enum NonExternModelError {
    NoGraph,
    ModelNotFound,
    OverrideChild,
    OverrideGraph,
}

/// Failures of the registry.
#[derive(Debug)]
pub enum ModelError {
    ModelNotFound,
    RecursiveUsage,
}

/// Failures while elaborating one graph.
#[derive(Debug)]
pub enum GraphError {
    InputNodeNotFound,
    FirstNodeNotFound,
    UnvalidNodeId { last: GraphId, id: GraphId },
    UnvalidNodeArg { id: GraphId, arg: u64, given: u64 },
    ShapeNotDefined { id: GraphId },
    FullShapeRequired { id: GraphId },
    NoSuchVariable { name: String },
    NoVariableValue { name: String },
    NoSuchNode { query_id: GraphId, node: u64 },
    CannotEstimateShape { id: GraphId, arg: u64, axis: usize },
    DifferentDimension { id: GraphId, arg: u64, axis: usize, expected: Dim, given: Dim },
    DifferentArgs { id: GraphId, last_args: Vec<u64>, args: Vec<u64> },
    DifferentRank { id: GraphId, arg: u64, last_rank: usize, rank: usize },
    DifferentVariableType { variable: String, expected: ValueType, given: Option<Value> },
    DivideByZero { id: GraphId, arg: u64 },
    NumericOverflow { id: GraphId, arg: u64 },
}

} // verus!
