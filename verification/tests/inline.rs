use n3_core::ast::{
    Dim as AstDim, DimOp, File, Graph as AstGraph, GraphPass, GraphPassArg, Model, ModelInner,
    Shape as AstShape, Shapes as AstShapes, Use, UseOrigin, Variable as AstVariable,
};
use n3_core::algebra::Expr;
use n3_core::{Dim, GraphRoot, Value};

fn s(x: &str) -> String {
    x.to_owned()
}

fn fx(n: u64) -> AstDim {
    AstDim::Fixed(n)
}

fn sh(dims: Vec<AstDim>) -> Option<AstShapes> {
    Some(AstShapes(vec![(0, AstShape(dims))]))
}

fn pass(name: &str) -> GraphPass {
    GraphPass { name: s(name), args: vec![], repeat: 1 }
}

fn line(id: u64, passes: Vec<GraphPass>, shapes: Option<AstShapes>) -> AstGraph {
    AstGraph { id, passes, inline: None, shapes }
}

#[test]
fn inline_model() {
    // use Linear / ReLU
    //
    // [Recursive Model]
    //     #0 Input = 42
    //     #1 Linear = 12
    //     #2 [Inner Model]
    //         * weight = 2
    //         #0 Input = N
    //         #1 ReLU + Linear = N * weight + 1
    //     #3 ReLU = 25
    let formula = AstDim::Expr {
        lhs: Box::new(AstDim::Expr {
            lhs: Box::new(AstDim::Semantic(s("N"))),
            rhs: Box::new(AstDim::Semantic(s("weight"))),
            op: DimOp::Mul,
        }),
        rhs: Box::new(fx(1)),
        op: DimOp::Add,
    };
    let inner = Model {
        name: s("Inner Model"),
        inner: ModelInner {
            variables: vec![AstVariable {
                name: None,
                description: s("weight"),
                default: Some(Value::UInt(2)),
                is_model: false,
            }],
            children: vec![],
            graph: vec![
                line(0, vec![pass("Input")], sh(vec![AstDim::Semantic(s("N"))])),
                line(1, vec![pass("ReLU"), pass("Linear")], sh(vec![formula])),
            ],
        },
        is_extern: false,
    };
    let file = File {
        uses: vec![
            Use { model: s("Linear"), origin: UseOrigin::Local },
            Use { model: s("ReLU"), origin: UseOrigin::Local },
        ],
        model: Model {
            name: s("Recursive Model"),
            inner: ModelInner {
                variables: vec![],
                children: vec![],
                graph: vec![
                    line(0, vec![pass("Input")], sh(vec![fx(42)])),
                    line(1, vec![pass("Linear")], sh(vec![fx(12)])),
                    AstGraph {
                        id: 2,
                        passes: vec![pass("Inner Model")],
                        inline: Some(inner),
                        shapes: None,
                    },
                    line(3, vec![pass("ReLU")], sh(vec![fx(25)])),
                ],
            },
            is_extern: false,
        },
    };

    let mut root = GraphRoot::default();
    let graph = root.compile_file(&file).unwrap();

    let shapes = graph.get_shapes();
    assert_eq!(shapes.len(), 4);

    let last_shapes = &shapes[shapes.len() - 1].1;
    assert_eq!(last_shapes[0].len(), 1);
    assert_eq!(last_shapes[0][0], Dim::Expr(Expr::from_u64(25)));
    assert_eq!(last_shapes[0][0], Dim::Expr(Expr::from_u64(25)));
}
