//! The abstract syntax consumed by the elaborator.
//!
//! The surface parser is an outside collaborator: it turns model source text
//! into this tree.  The compiler depends only on these shapes.

use vstd::prelude::*;

verus! {

/// Where a `use`d model is looked up.
#[derive(Debug)]
pub enum UseOrigin {
    Site(String),
    User(String),
    Local,
}

impl Clone for UseOrigin {
    fn clone(&self) -> (r: Self)
        ensures
            r == *self,
    {
        match self {
            UseOrigin::Site(s) => UseOrigin::Site(s.clone()),
            UseOrigin::User(s) => UseOrigin::User(s.clone()),
            UseOrigin::Local => UseOrigin::Local,
        }
    }
}

/// An import of another model by name.
#[derive(Debug)]
pub struct Use {
    pub model: String,
    pub origin: UseOrigin,
}

/// One source file: imports and a single top-level model.
#[derive(Debug)]
pub struct File {
    pub uses: Vec<Use>,
    pub model: Model,
}

/// A named model; `is_extern` marks a leaf operator whose behavior is
/// provided externally, declaring only its input and output shapes.
#[derive(Debug)]
pub struct Model {
    pub name: String,
    pub inner: ModelInner,
    pub is_extern: bool,
}

/// The body of a model.
#[derive(Debug)]
pub struct ModelInner {
    pub variables: Vec<Variable>,
    pub children: Vec<Model>,
    pub graph: Vec<Graph>,
}

/// A declared model parameter: optional short name, canonical description,
/// optional default value.
#[derive(Debug)]
pub struct Variable {
    pub name: Option<String>,
    pub description: String,
    pub default: Option<Value>,
    pub is_model: bool,
}

/// A scalar literal.  `Real` carries the bit pattern of a binary64 number;
/// the compiler only stores such values and never computes with them.
#[derive(Debug, PartialEq)]
pub enum Value {
    Bool(bool),
    Int(i64),
    UInt(u64),
    Real(u64),
    Model(String),
}

impl Clone for Value {
    fn clone(&self) -> (r: Self)
        ensures
            r == *self,
    {
        match self {
            Value::Bool(b) => Value::Bool(*b),
            Value::Int(v) => Value::Int(*v),
            Value::UInt(v) => Value::UInt(*v),
            Value::Real(v) => Value::Real(*v),
            Value::Model(s) => Value::Model(s.clone()),
        }
    }
}

/// One graph line: the node number, its chained passes, an optional inline
/// sub-model, and optional declared output shapes.
#[derive(Debug)]
pub struct Graph {
    pub id: u64,
    pub passes: Vec<GraphPass>,
    pub inline: Option<Model>,
    pub shapes: Option<Shapes>,
}

/// One operator application in a graph line.
#[derive(Debug)]
pub struct GraphPass {
    pub name: String,
    pub args: Vec<GraphPassArg>,
    pub repeat: u64,
}

/// An argument of a pass: explicit input edges, or a keyword binding.
#[derive(Debug)]
pub enum GraphPassArg {
    NodeArg(Vec<NodeArg>),
    Keyword { name: String, value: Value },
}

impl GraphPassArg {
    /// Whether this is a keyword argument with the given name.
    pub fn is_named(&self, name: &str) -> (r: bool)
        ensures
            r == (self matches GraphPassArg::Keyword { name: n, .. } && n@ == name@),
    {
        match self {
            GraphPassArg::Keyword { name: k_name, value: _ } => {
                let owned: String = name.to_owned();
                *k_name == owned
            },
            _ => false,
        }
    }
}

/// An explicit input edge: upstream node number and argument slot.
#[derive(Copy, Clone, Debug, PartialEq, Eq, Structural)]
pub struct NodeArg {
    pub node: u64,
    pub arg: u64,
}

/// Declared shapes for the output slots of a node, keyed by slot number.
#[derive(Debug)]
pub struct Shapes(pub Vec<(u64, Shape)>);

/// The declared dims of one output slot.
#[derive(Debug)]
pub struct Shape(pub Vec<Dim>);

/// A declared dimension: a literal, a name, or an arithmetic expression.
#[derive(Debug)]
pub enum Dim {
    Fixed(u64),
    Semantic(String),
    Expr { lhs: Box<Dim>, rhs: Box<Dim>, op: DimOp },
}

/// The operator of a declared dimension expression.
#[derive(Copy, Clone, Debug, PartialEq, Eq, Structural)]
pub enum DimOp {
    Add,
    Sub,
    Mul,
    Div,
}

} // verus!
