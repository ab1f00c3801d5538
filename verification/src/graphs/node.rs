//! One elaborated node of a graph.

use vstd::prelude::*;

use crate::graphs::graph::{graph_eqv, Graph};
use crate::graphs::id::GraphIdArg;
use crate::graphs::shape::Shapes;

verus! {

/// An elaborated node: the operator name, the resolved sub-model when the
/// node is neither intrinsic nor the input, its input edges, and its shape
/// bundle.
#[derive(Debug)]
pub struct Node {
    pub name: String,
    pub graph: Option<Graph>,
    pub inputs: Vec<GraphIdArg>,
    pub shapes: Shapes,
}

/// Structural equivalence of nodes, with sub-models compared recursively.
pub open spec fn node_eqv(a: Node, b: Node) -> bool
    decreases a,
{
    &&& a.name == b.name
    &&& a.inputs@ == b.inputs@
    &&& a.shapes@ == b.shapes@
    &&& match (a.graph, b.graph) {
        (Some(g), Some(h)) => graph_eqv(g, h),
        (None, None) => true,
        _ => false,
    }
}

/// A node is well-formed when its shapes are and its sub-model, if any, is.
pub open spec fn node_wf(n: Node) -> bool
    decreases n,
{
    &&& n.shapes.wf()
    &&& match n.graph {
        Some(g) => g.wf(),
        None => true,
    }
}

impl Default for Node {
    /// The blank intrinsic node: empty name, no sub-model, no explicit
    /// inputs, unknown shapes.
    fn default() -> (r: Self)
        ensures
            r.name@ == Seq::<char>::empty(),
            r.graph is None,
            r.inputs@.len() == 0,
            r.shapes is Dynamic,
            node_wf(r),
    {
        Node { name: String::new(), graph: None, inputs: Vec::new(), shapes: Shapes::Dynamic }
    }
}

impl Clone for Node {
    fn clone(&self) -> (r: Self)
        ensures
            node_eqv(r, *self),
            node_wf(*self) ==> node_wf(r),
        decreases self,
    {
        let graph = match &self.graph {
            Some(g) => Some(g.clone()),
            None => None,
        };
        let mut inputs: Vec<GraphIdArg> = Vec::new();
        let mut i: usize = 0;
        while i < self.inputs.len()
            invariant
                i <= self.inputs@.len(),
                inputs@.len() == i,
                forall|k: int| 0 <= k < i ==> #[trigger] inputs@[k] == self.inputs@[k],
            decreases self.inputs@.len() - i,
        {
            inputs.push(self.inputs[i]);
            i = i + 1;
        }
        let r = Node { name: self.name.clone(), graph, inputs, shapes: self.shapes.clone() };
        proof {
            assert(r.inputs@ =~= self.inputs@);
        }
        r
    }
}

} // verus!
