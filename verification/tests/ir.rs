use n3_core::ast::{
    Dim as AstDim, DimOp, File, Graph as AstGraph, GraphPass, GraphPassArg, Model, ModelInner,
    NodeArg, Shape as AstShape, Shapes as AstShapes, Use, UseOrigin, Variable as AstVariable,
};
use n3_core::algebra::Expr;
use n3_core::{Dim, DimKey, GraphId, GraphIdArg, GraphRoot, Value, ValueType, Variable};

fn s(x: &str) -> String {
    x.to_owned()
}

fn sem(n: &str) -> AstDim {
    AstDim::Semantic(s(n))
}

fn fx(n: u64) -> AstDim {
    AstDim::Fixed(n)
}

fn sh(dims: Vec<AstDim>) -> Option<AstShapes> {
    Some(AstShapes(vec![(0, AstShape(dims))]))
}

fn pass(name: &str, args: Vec<GraphPassArg>) -> GraphPass {
    GraphPass { name: s(name), args, repeat: 1 }
}

fn line(id: u64, passes: Vec<GraphPass>, shapes: Option<AstShapes>) -> AstGraph {
    AstGraph { id, passes, inline: None, shapes }
}

fn use_local(n: &str) -> Use {
    Use { model: s(n), origin: UseOrigin::Local }
}

fn lookup<'a, T>(v: &'a Vec<(String, T)>, k: &str) -> Option<&'a T> {
    for e in v.iter() {
        if e.0 == k {
            return Some(&e.1);
        }
    }
    None
}

fn var_decl(name: Option<&str>, description: &str, default: Option<Value>) -> AstVariable {
    AstVariable { name: name.map(s), description: s(description), default, is_model: false }
}

#[test]
fn make_ir() {
    // use Conv2d / Linear / ReLU / Softmax / Transform
    //
    // [Sample Model]
    //     * N: number of channels = 10
    //     [Conv2d]
    //         * kernel size = 5
    //         * stride = 2
    //     #0 Input                = Ic, 28, 28
    //     #1 Conv2d (#0) + ReLU   = 32, 14, 14
    //     #2 Conv2d      + ReLU   = 64,  7,  7
    //     #3 Transform            = 64*  7*  7
    //     #4 Linear + Softmax     =  N
    let conv_override = Model {
        name: s("Conv2d"),
        inner: ModelInner {
            variables: vec![
                var_decl(None, "kernel size", Some(Value::UInt(5))),
                var_decl(None, "stride", Some(Value::UInt(2))),
            ],
            children: vec![],
            graph: vec![],
        },
        is_extern: false,
    };
    let product = AstDim::Expr {
        lhs: Box::new(AstDim::Expr {
            lhs: Box::new(fx(64)),
            rhs: Box::new(fx(7)),
            op: DimOp::Mul,
        }),
        rhs: Box::new(fx(7)),
        op: DimOp::Mul,
    };
    let file = File {
        uses: vec![
            use_local("Conv2d"),
            use_local("Linear"),
            use_local("ReLU"),
            use_local("Softmax"),
            use_local("Transform"),
        ],
        model: Model {
            name: s("Sample Model"),
            inner: ModelInner {
                variables: vec![var_decl(
                    Some("N"),
                    "number of channels",
                    Some(Value::UInt(10)),
                )],
                children: vec![conv_override],
                graph: vec![
                    line(0, vec![pass("Input", vec![])], sh(vec![sem("Ic"), fx(28), fx(28)])),
                    line(
                        1,
                        vec![
                            pass(
                                "Conv2d",
                                vec![GraphPassArg::NodeArg(vec![NodeArg { node: 0, arg: 0 }])],
                            ),
                            pass("ReLU", vec![]),
                        ],
                        sh(vec![fx(32), fx(14), fx(14)]),
                    ),
                    line(
                        2,
                        vec![pass("Conv2d", vec![]), pass("ReLU", vec![])],
                        sh(vec![fx(64), fx(7), fx(7)]),
                    ),
                    line(3, vec![pass("Transform", vec![])], sh(vec![product])),
                    line(
                        4,
                        vec![pass("Linear", vec![]), pass("Softmax", vec![])],
                        sh(vec![sem("N")]),
                    ),
                ],
            },
            is_extern: false,
        },
    };

    let mut root = GraphRoot::default();
    let graph = root.compile_file(&file).unwrap();

    assert_eq!(graph.is_extern(), false);

    // Variables
    let variables = graph.get_variables();
    assert_eq!(
        lookup(variables, "number of channels"),
        Some(&Variable {
            description: s("number of channels"),
            ty: ValueType::UInt,
            value: Some(Value::UInt(10)),
        })
    );
    assert_eq!(lookup(variables, "N"), None);
    assert_eq!(lookup(variables, "Ic"), None);

    // Nodes
    let nodes = graph.get_nodes();
    assert_eq!(nodes.len(), 8);

    let input_node = &nodes[0].1;
    assert_eq!(&input_node.name, "Input");
    assert_eq!(input_node.graph.is_some(), false);

    let first_node_conv2d = &nodes[1].1;
    assert_eq!(&first_node_conv2d.name, "Conv2d");

    let first_graph_conv2d = first_node_conv2d.graph.as_ref().unwrap();
    let first_graph_conv2d_variables = first_graph_conv2d.get_variables();
    assert_eq!(first_graph_conv2d.is_extern(), true);
    assert_eq!(
        lookup(first_graph_conv2d_variables, "kernel size"),
        Some(&Variable {
            description: s("kernel size"),
            ty: ValueType::UInt,
            value: Some(Value::UInt(5)),
        })
    );
    assert_eq!(
        lookup(first_graph_conv2d_variables, "stride"),
        Some(&Variable {
            description: s("stride"),
            ty: ValueType::UInt,
            value: Some(Value::UInt(2)),
        })
    );
    assert_eq!(lookup(first_graph_conv2d_variables, "S"), None);

    let first_node_conv2d_inputs = &first_node_conv2d.inputs;
    assert_eq!(first_node_conv2d_inputs.len(), 1);
    assert_eq!(
        first_node_conv2d_inputs[0],
        GraphIdArg { id: GraphId { node: 0, pass: 0, repeat: 0 }, arg: Some(0) }
    );

    let first_node_relu = &nodes[2].1;
    assert_eq!(&first_node_relu.name, "ReLU");

    let first_graph_relu = first_node_relu.graph.as_ref().unwrap();
    assert_eq!(first_graph_relu.is_extern(), true);
    assert_eq!(first_graph_relu.get_variables().is_empty(), true);

    let first_node_relu_inputs = &first_node_relu.inputs;
    assert_eq!(first_node_relu_inputs.len(), 1);
    assert_eq!(
        first_node_relu_inputs[0],
        GraphIdArg { id: GraphId { node: 1, pass: 0, repeat: 0 }, arg: None }
    );

    // Shapes
    let shapes = graph.get_shapes();
    assert_eq!(shapes.len(), 8);

    let first_shapes = &shapes[0].1;
    assert_eq!(first_shapes.len(), 1);
    assert_eq!(first_shapes[0].len(), 3);
    assert_eq!(first_shapes[0][1], Dim::Expr(Expr::from_u64(28)));
    assert_eq!(first_shapes[0][2], Dim::Expr(Expr::from_u64(28)));
    assert_eq!(DimKey::try_from_expr(&first_shapes[0][1]), None);
    assert_eq!(DimKey::try_from_expr(&first_shapes[0][2]), None);
    assert_eq!(
        DimKey::try_from_expr(&first_shapes[0][0]),
        Some(DimKey::Placeholder(s("Ic"), true))
    );

    let last_shapes = &shapes[shapes.len() - 1].1;
    assert_eq!(last_shapes.len(), 1);
    assert_eq!(last_shapes[0].len(), 1);
    assert_eq!(last_shapes[0][0], Dim::Expr(Expr::from_u64(10)));
    assert_eq!(DimKey::try_from_expr(&last_shapes[0][0]), None);
}
