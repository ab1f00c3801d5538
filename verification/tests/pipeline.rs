use n3_core::ast::{
    Dim as AstDim, DimOp, File, Graph as AstGraph, GraphPass, GraphPassArg, Model, ModelInner,
    NodeArg, Shape as AstShape, Shapes as AstShapes, Use, UseOrigin, Variable as AstVariable,
};
use n3_core::algebra::Expr;
use n3_core::error::{GraphError, ModelError, NonExternModelError};
use n3_core::{CompileError, Dim, GraphRoot, Value};

fn s(x: &str) -> String {
    x.to_owned()
}

fn fx(n: u64) -> AstDim {
    AstDim::Fixed(n)
}

fn sh(dims: Vec<AstDim>) -> Option<AstShapes> {
    Some(AstShapes(vec![(0, AstShape(dims))]))
}

fn pass(name: &str) -> GraphPass {
    GraphPass { name: s(name), args: vec![], repeat: 1 }
}

fn line(id: u64, passes: Vec<GraphPass>, shapes: Option<AstShapes>) -> AstGraph {
    AstGraph { id, passes, inline: None, shapes }
}

fn use_local(n: &str) -> Use {
    Use { model: s(n), origin: UseOrigin::Local }
}

fn plain_model(name: &str, graph: Vec<AstGraph>) -> Model {
    Model {
        name: s(name),
        inner: ModelInner { variables: vec![], children: vec![], graph },
        is_extern: false,
    }
}

/// A fixed pipeline with fully static shapes resolves every node.
#[test]
fn fixed_pipeline() {
    // use Linear / ReLU
    // [Sample Model]
    //     #0 Input = 42
    //     #1 Linear + ReLU = 22
    let file = File {
        uses: vec![use_local("Linear"), use_local("ReLU")],
        model: plain_model(
            "Sample Model",
            vec![
                line(0, vec![pass("Input")], sh(vec![fx(42)])),
                line(1, vec![pass("Linear"), pass("ReLU")], sh(vec![fx(22)])),
            ],
        ),
    };
    let mut root = GraphRoot::default();
    let graph = root.compile_file(&file).unwrap();
    let shapes = graph.get_shapes();
    assert_eq!(shapes.len(), 3);
    let last_shapes = &shapes[shapes.len() - 1].1;
    assert_eq!(last_shapes.len(), 1);
    assert_eq!(last_shapes[0].len(), 1);
    assert_eq!(last_shapes[0][0], Dim::Expr(Expr::from_u64(22)));
}

/// Two prefabs that `use` each other fail with a recursive usage.
#[test]
fn cycle_detection() {
    let file_a = File {
        uses: vec![use_local("Beta")],
        model: plain_model("Alpha", vec![line(0, vec![pass("Input")], sh(vec![fx(1)]))]),
    };
    let file_b = File {
        uses: vec![use_local("Alpha")],
        model: plain_model("Beta", vec![line(0, vec![pass("Input")], sh(vec![fx(1)]))]),
    };
    let mut root = GraphRoot::default();
    root.insert_prefab(file_a);
    root.insert_prefab(file_b);
    let err = root.find_graph("Alpha", UseOrigin::Local).unwrap_err();
    assert!(matches!(
        err,
        CompileError::ModelError { error: ModelError::RecursiveUsage, .. }
    ));
}

/// A divisor that reduces to zero in a declared shape fails.
#[test]
fn divide_by_zero() {
    let quotient = AstDim::Expr {
        lhs: Box::new(fx(10)),
        rhs: Box::new(fx(0)),
        op: DimOp::Div,
    };
    let file = File {
        uses: vec![],
        model: plain_model(
            "Broken",
            vec![
                line(0, vec![pass("Input")], sh(vec![fx(42)])),
                line(1, vec![pass("identity")], sh(vec![quotient])),
            ],
        ),
    };
    let mut root = GraphRoot::default();
    let err = root.compile_file(&file).unwrap_err();
    assert!(matches!(
        err,
        CompileError::GraphError { error: GraphError::DivideByZero { .. }, .. }
    ));
}

/// An override with its own graph lines is rejected.
#[test]
fn override_graph_rejected() {
    let bad_override = Model {
        name: s("Conv2d"),
        inner: ModelInner {
            variables: vec![AstVariable {
                name: None,
                description: s("kernel size"),
                default: Some(Value::UInt(5)),
                is_model: false,
            }],
            children: vec![],
            graph: vec![line(0, vec![pass("Input")], sh(vec![fx(1)]))],
        },
        is_extern: false,
    };
    let file = File {
        uses: vec![use_local("Conv2d")],
        model: Model {
            name: s("Wrapper"),
            inner: ModelInner {
                variables: vec![],
                children: vec![bad_override],
                graph: vec![line(0, vec![pass("Input")], sh(vec![fx(1)]))],
            },
            is_extern: false,
        },
    };
    let mut root = GraphRoot::default();
    let err = root.compile_file(&file).unwrap_err();
    assert!(matches!(
        err,
        CompileError::NonExternModelError { error: NonExternModelError::OverrideGraph, .. }
    ));
}

/// An override binding its parameters without a body succeeds.
#[test]
fn override_variables() {
    let good_override = Model {
        name: s("Conv2d"),
        inner: ModelInner {
            variables: vec![
                AstVariable {
                    name: None,
                    description: s("kernel size"),
                    default: Some(Value::UInt(5)),
                    is_model: false,
                },
                AstVariable {
                    name: None,
                    description: s("stride"),
                    default: Some(Value::UInt(2)),
                    is_model: false,
                },
            ],
            children: vec![],
            graph: vec![],
        },
        is_extern: false,
    };
    let file = File {
        uses: vec![use_local("Conv2d")],
        model: Model {
            name: s("Wrapper"),
            inner: ModelInner {
                variables: vec![],
                children: vec![good_override],
                graph: vec![
                    line(0, vec![pass("Input")], sh(vec![fx(3), fx(28), fx(28)])),
                    line(
                        1,
                        vec![pass("Conv2d")],
                        sh(vec![fx(32), fx(14), fx(14)]),
                    ),
                ],
            },
            is_extern: false,
        },
    };
    let mut root = GraphRoot::default();
    let graph = root.compile_file(&file).unwrap();
    let shapes = graph.get_shapes();
    assert_eq!(shapes.len(), 2);
}

/// An unknown model name fails.
#[test]
fn model_not_found() {
    let file = File {
        uses: vec![],
        model: plain_model(
            "Missing",
            vec![
                line(0, vec![pass("Input")], sh(vec![fx(1)])),
                line(1, vec![pass("NoSuchModel")], None),
            ],
        ),
    };
    let mut root = GraphRoot::default();
    let err = root.compile_file(&file).unwrap_err();
    assert!(matches!(
        err,
        CompileError::NonExternModelError { error: NonExternModelError::ModelNotFound, .. }
    ));
}

/// Node ids must follow one another.
#[test]
fn node_id_must_follow() {
    let file = File {
        uses: vec![],
        model: plain_model(
            "Gap",
            vec![
                line(0, vec![pass("Input")], sh(vec![fx(1)])),
                line(2, vec![pass("identity")], None),
            ],
        ),
    };
    let mut root = GraphRoot::default();
    let err = root.compile_file(&file).unwrap_err();
    assert!(matches!(
        err,
        CompileError::GraphError { error: GraphError::UnvalidNodeId { .. }, .. }
    ));
}

/// The first node must be the input sentinel.
#[test]
fn first_node_must_be_input() {
    let file = File {
        uses: vec![],
        model: plain_model("Late", vec![line(1, vec![pass("identity")], None)]),
    };
    let mut root = GraphRoot::default();
    let err = root.compile_file(&file).unwrap_err();
    assert!(matches!(
        err,
        CompileError::GraphError { error: GraphError::FirstNodeNotFound, .. }
    ));
}

/// A declared slot out of position is rejected.
#[test]
fn shape_slot_out_of_position() {
    let file = File {
        uses: vec![],
        model: plain_model(
            "Slots",
            vec![line(
                0,
                vec![pass("Input")],
                Some(AstShapes(vec![(1, AstShape(vec![fx(4)]))])),
            )],
        ),
    };
    let mut root = GraphRoot::default();
    let err = root.compile_file(&file).unwrap_err();
    assert!(matches!(
        err,
        CompileError::GraphError { error: GraphError::UnvalidNodeArg { .. }, .. }
    ));
}

/// A model without any graph line is rejected.
#[test]
fn model_needs_graph() {
    let file = File { uses: vec![], model: plain_model("Empty", vec![]) };
    let mut root = GraphRoot::default();
    let err = root.compile_file(&file).unwrap_err();
    assert!(matches!(
        err,
        CompileError::NonExternModelError { error: NonExternModelError::NoGraph, .. }
    ));
}

/// A fresh name may not be coined once the shapes are weakly fixed.
#[test]
fn full_shape_required() {
    let file = File {
        uses: vec![use_local("Linear")],
        model: plain_model(
            "Weak",
            vec![
                line(0, vec![pass("Input")], sh(vec![fx(42)])),
                line(1, vec![pass("Linear")], sh(vec![AstDim::Semantic(s("B"))])),
            ],
        ),
    };
    let mut root = GraphRoot::default();
    let err = root.compile_file(&file).unwrap_err();
    assert!(matches!(
        err,
        CompileError::GraphError { error: GraphError::FullShapeRequired { .. }, .. }
    ));
}

/// Ranks of a declared shape must match the incoming one.
#[test]
fn different_rank() {
    let file = File {
        uses: vec![],
        model: plain_model(
            "Ranks",
            vec![
                line(0, vec![pass("Input")], sh(vec![fx(42)])),
                line(1, vec![pass("identity")], sh(vec![fx(6), fx(7)])),
            ],
        ),
    };
    let mut root = GraphRoot::default();
    let err = root.compile_file(&file).unwrap_err();
    assert!(matches!(
        err,
        CompileError::GraphError { error: GraphError::DifferentRank { .. }, .. }
    ));
}

/// A contradicting constant dimension is rejected.
#[test]
fn different_dimension() {
    let file = File {
        uses: vec![],
        model: plain_model(
            "Clash",
            vec![
                line(0, vec![pass("Input")], sh(vec![fx(42)])),
                line(1, vec![pass("identity")], sh(vec![fx(41)])),
            ],
        ),
    };
    let mut root = GraphRoot::default();
    let err = root.compile_file(&file).unwrap_err();
    assert!(matches!(
        err,
        CompileError::GraphError { error: GraphError::DifferentDimension { .. }, .. }
    ));
}

/// A literal beyond the coefficient range overflows.
#[test]
fn numeric_overflow() {
    let file = File {
        uses: vec![],
        model: plain_model(
            "Huge",
            vec![line(0, vec![pass("Input")], sh(vec![fx(u64::MAX)]))],
        ),
    };
    let mut root = GraphRoot::default();
    let err = root.compile_file(&file).unwrap_err();
    assert!(matches!(
        err,
        CompileError::GraphError { error: GraphError::NumericOverflow { .. }, .. }
    ));
}

/// Binding a variable with a differently typed value is rejected.
#[test]
fn different_variable_type() {
    let bool_override = Model {
        name: s("Conv2d"),
        inner: ModelInner {
            variables: vec![AstVariable {
                name: None,
                description: s("kernel size"),
                default: Some(Value::Bool(true)),
                is_model: false,
            }],
            children: vec![],
            graph: vec![],
        },
        is_extern: false,
    };
    let call = GraphPass {
        name: s("Conv2d"),
        args: vec![GraphPassArg::Keyword { name: s("kernel size"), value: Value::UInt(5) }],
        repeat: 1,
    };
    let file = File {
        uses: vec![use_local("Conv2d")],
        model: Model {
            name: s("Wrapper"),
            inner: ModelInner {
                variables: vec![],
                children: vec![bool_override],
                graph: vec![
                    line(0, vec![pass("Input")], sh(vec![fx(3), fx(28), fx(28)])),
                    line(1, vec![call], None),
                ],
            },
            is_extern: false,
        },
    };
    let mut root = GraphRoot::default();
    let err = root.compile_file(&file).unwrap_err();
    assert!(matches!(
        err,
        CompileError::GraphError { error: GraphError::DifferentVariableType { .. }, .. }
    ));
}

/// Looking a graph up under an unsupported origin is not found.
#[test]
fn origin_not_supported() {
    let mut root = GraphRoot::default();
    let err = root.find_graph("Linear", UseOrigin::Site(s("somewhere"))).unwrap_err();
    assert!(matches!(
        err,
        CompileError::ModelError { error: ModelError::ModelNotFound, .. }
    ));
}

/// A repeated pass attaches one node per repetition.
#[test]
fn repeated_pass() {
    let file = File {
        uses: vec![use_local("ReLU")],
        model: plain_model(
            "Twice",
            vec![
                line(0, vec![pass("Input")], sh(vec![fx(42)])),
                line(
                    1,
                    vec![GraphPass { name: s("ReLU"), args: vec![], repeat: 2 }],
                    None,
                ),
                line(2, vec![pass("identity")], sh(vec![fx(42)])),
            ],
        ),
    };
    let mut root = GraphRoot::default();
    let graph = root.compile_file(&file).unwrap();
    let nodes = graph.get_nodes();
    assert_eq!(nodes.len(), 4);
    assert_eq!(nodes[1].0, n3_core::GraphId { node: 1, pass: 0, repeat: 0 });
    assert_eq!(nodes[2].0, n3_core::GraphId { node: 1, pass: 0, repeat: 1 });
}

/// Feeding two slots into a one-slot model mismatches the slot sets.
#[test]
fn different_args() {
    let call = GraphPass {
        name: s("Linear"),
        args: vec![GraphPassArg::NodeArg(vec![
            NodeArg { node: 0, arg: 0 },
            NodeArg { node: 0, arg: 0 },
        ])],
        repeat: 1,
    };
    let file = File {
        uses: vec![use_local("Linear")],
        model: plain_model(
            "Fork",
            vec![line(0, vec![pass("Input")], sh(vec![fx(8)])), line(1, vec![call], None)],
        ),
    };
    let mut root = GraphRoot::default();
    let err = root.compile_file(&file).unwrap_err();
    assert!(matches!(
        err,
        CompileError::GraphError { error: GraphError::DifferentArgs { .. }, .. }
    ));
}

/// A bare input node adopts a sub-model's declared input shapes: the
/// remaining placeholders are archived and registered as local variables.
#[test]
fn promote_child_input() {
    let file = File {
        uses: vec![use_local("Linear")],
        model: plain_model(
            "Adopt",
            vec![
                line(0, vec![pass("Input")], None),
                line(1, vec![pass("Linear")], sh(vec![fx(5)])),
            ],
        ),
    };
    let mut root = GraphRoot::default();
    let graph = root.compile_file(&file).unwrap();
    let shapes = graph.get_shapes();
    assert_eq!(shapes.len(), 2);
    assert_eq!(shapes[0].1[0][0], Dim::Expr(Expr::from_u64(5)));
    assert_eq!(shapes[1].1[0][0], Dim::Expr(Expr::from_u64(5)));
}
