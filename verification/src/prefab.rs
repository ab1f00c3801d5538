//! The embedded standard library: prefab operator models that every
//! registry starts with.

use vstd::prelude::*;

use crate::ast;

verus! {

/// A semantic dimension name.
fn sem(name: &str) -> ast::Dim {
    ast::Dim::Semantic(name.to_owned())
}

/// A single-slot shape declaration.
fn shape1(dims: Vec<ast::Dim>) -> Option<ast::Shapes> {
    let mut entries: Vec<(u64, ast::Shape)> = Vec::new();
    entries.push((0, ast::Shape(dims)));
    Some(ast::Shapes(entries))
}

/// One pass with no arguments.
fn pass(name: &str) -> ast::GraphPass {
    ast::GraphPass { name: name.to_owned(), args: Vec::new(), repeat: 1 }
}

/// One graph line with a single pass.
fn line(id: u64, p: ast::GraphPass, shapes: Option<ast::Shapes>) -> ast::Graph {
    let mut passes: Vec<ast::GraphPass> = Vec::new();
    passes.push(p);
    ast::Graph { id, passes, inline: None, shapes }
}

/// An extern model file of exactly an input line and a shape line.
fn extern_file(
    name: &str,
    variables: Vec<ast::Variable>,
    l0: ast::Graph,
    l1: ast::Graph,
) -> (r: ast::File)
    ensures
        r.model.name@ == name@,
{
    let mut graph: Vec<ast::Graph> = Vec::new();
    graph.push(l0);
    graph.push(l1);
    ast::File {
        uses: Vec::new(),
        model: ast::Model {
            name: name.to_owned(),
            inner: ast::ModelInner { variables, children: Vec::new(), graph },
            is_extern: true,
        },
    }
}

/// A declared parameter with a short name and no default.
fn param(short: &str, description: &str) -> ast::Variable {
    ast::Variable {
        name: Some(short.to_owned()),
        description: description.to_owned(),
        default: None,
        is_model: false,
    }
}

/// A fully connected layer: one input width, one output width.
fn linear_file() -> (r: ast::File)
    ensures
        r.model.name@ == "Linear"@,
{
    let mut d0: Vec<ast::Dim> = Vec::new();
    d0.push(sem("Ic"));
    let mut d1: Vec<ast::Dim> = Vec::new();
    d1.push(sem("Oc"));
    extern_file(
        "Linear",
        Vec::new(),
        line(0, pass("Input"), shape1(d0)),
        line(1, pass("fixed"), shape1(d1)),
    )
}

/// A shape-preserving activation.
fn relu_file() -> (r: ast::File)
    ensures
        r.model.name@ == "ReLU"@,
{
    extern_file("ReLU", Vec::new(), line(0, pass("Input"), None), line(1, pass("identity"), None))
}

/// A shape-preserving normalization.
fn softmax_file() -> (r: ast::File)
    ensures
        r.model.name@ == "Softmax"@,
{
    extern_file(
        "Softmax",
        Vec::new(),
        line(0, pass("Input"), None),
        line(1, pass("identity"), None),
    )
}

/// A reshaping node: ranks may differ, products must match.
fn transform_file() -> (r: ast::File)
    ensures
        r.model.name@ == "Transform"@,
{
    let mut args: Vec<ast::GraphPassArg> = Vec::new();
    args.push(
        ast::GraphPassArg::Keyword {
            name: "transform".to_owned(),
            value: ast::Value::Bool(true),
        },
    );
    let dynamic = ast::GraphPass { name: "dynamic".to_owned(), args, repeat: 1 };
    extern_file(
        "Transform",
        Vec::new(),
        line(0, pass("Input"), None),
        line(1, dynamic, None),
    )
}

/// A two-dimensional convolution over channelled input.
fn conv2d_file() -> (r: ast::File)
    ensures
        r.model.name@ == "Conv2d"@,
{
    let mut variables: Vec<ast::Variable> = Vec::new();
    variables.push(param("K", "kernel size"));
    variables.push(param("S", "stride"));
    let mut d0: Vec<ast::Dim> = Vec::new();
    d0.push(sem("Ic"));
    d0.push(sem("Ih"));
    d0.push(sem("Iw"));
    let mut d1: Vec<ast::Dim> = Vec::new();
    d1.push(sem("Oc"));
    d1.push(sem("Oh"));
    d1.push(sem("Ow"));
    extern_file(
        "Conv2d",
        variables,
        line(0, pass("Input"), shape1(d0)),
        line(1, pass("fixed"), shape1(d1)),
    )
}

/// The embedded prefabs every registry starts with: the five standard
/// operator models, under pairwise distinct names.
pub fn standard_prefabs() -> (r: Vec<ast::File>)
    ensures
        r@.len() == 5,
        r@[0].model.name@ == "Linear"@,
        r@[1].model.name@ == "ReLU"@,
        r@[2].model.name@ == "Softmax"@,
        r@[3].model.name@ == "Transform"@,
        r@[4].model.name@ == "Conv2d"@,
        forall|i: int, j: int|
            0 <= i < j < r@.len() ==> (#[trigger] r@[i]).model.name@ != (#[trigger] r@[
                j
            ]).model.name@,
{
    let mut files: Vec<ast::File> = Vec::new();
    files.push(linear_file());
    files.push(relu_file());
    files.push(softmax_file());
    files.push(transform_file());
    files.push(conv2d_file());
    proof {
        reveal_strlit("Linear");
        reveal_strlit("ReLU");
        reveal_strlit("Softmax");
        reveal_strlit("Transform");
        reveal_strlit("Conv2d");
        assert(("Linear"@).len() == 6);
        assert(("ReLU"@).len() == 4);
        assert(("Softmax"@).len() == 7);
        assert(("Transform"@).len() == 9);
        assert(("Conv2d"@).len() == 6);
        assert(("Linear"@)[0] != ("Conv2d"@)[0]);
    }
    files
}

} // verus!
