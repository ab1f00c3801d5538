//! The model elaborator: walking one declared model into a graph.

use vstd::prelude::*;

use crate::ast;
use crate::error::{CompileError, ExternModelError, GraphError, NonExternModelError};
use crate::graphs::graph::{assoc_find, Graph};
use crate::graphs::id::GraphId;
use crate::graphs::shape::{FitState, ShapeState};
use crate::graphs::variable::{ValueType, Variable};

verus! {

/// Size of a model tree, counting nested and inline models.
pub open spec fn model_size(m: ast::Model) -> nat
    decreases m, (m.inner.children@.len() + m.inner.graph@.len() + 1) as int,
{
    1 + models_size_from(m, 0) + lines_size_from(m, 0)
}

/// Total size of the children of `m` from index `i` on.
pub open spec fn models_size_from(m: ast::Model, i: int) -> nat
    decreases m, m.inner.children@.len() - i,
{
    if i < 0 || i >= m.inner.children@.len() {
        0
    } else {
        model_size(m.inner.children@[i]) + models_size_from(m, i + 1)
    }
}

/// Total size of the graph lines of `m` from index `i` on.
pub open spec fn lines_size_from(m: ast::Model, i: int) -> nat
    decreases m, m.inner.graph@.len() - i,
{
    if i < 0 || i >= m.inner.graph@.len() {
        0
    } else {
        line_size(m.inner.graph@[i]) + lines_size_from(m, i + 1)
    }
}

/// Size of one graph line: one plus its inline model, if any.
pub open spec fn line_size(l: ast::Graph) -> nat
    decreases l, 0int,
{
    1 + match l.inline {
        Some(m) => model_size(m),
        None => 0,
    }
}

/// Every child weighs no more than the tail that holds it.
pub proof fn lemma_models_size_elem(m: ast::Model, j: int, i: int)
    requires
        0 <= j <= i < m.inner.children@.len(),
    ensures
        model_size(m.inner.children@[i]) <= models_size_from(m, j),
    decreases i - j,
{
    if j < i {
        lemma_models_size_elem(m, j + 1, i);
    }
}

/// Every line weighs no more than the tail that holds it.
pub proof fn lemma_lines_size_elem(m: ast::Model, j: int, i: int)
    requires
        0 <= j <= i < m.inner.graph@.len(),
    ensures
        line_size(m.inner.graph@[i]) <= lines_size_from(m, j),
    decreases i - j,
{
    if j < i {
        lemma_lines_size_elem(m, j + 1, i);
    }
}

/// Elaborate one declared parameter: the short name defaults to the
/// canonical description, the type is inferred from the default value.
pub fn compile_variable(variable: &ast::Variable) -> (r: (String, Variable))
    ensures
        r.0@ == (match variable.name {
            Some(n) => n@,
            None => variable.description@,
        }),
        r.1.description@ == variable.description@,
        r.1.value == variable.default,
        r.1.ty == crate::graphs::variable::spec_value_type(variable.default, variable.is_model),
{
    let name = match &variable.name {
        Some(name) => name.clone(),
        None => variable.description.clone(),
    };
    let default = match &variable.default {
        Some(v) => Some(v.clone()),
        None => None,
    };
    let ty = ValueType::new(default.as_ref(), variable.is_model);
    let var = Variable { description: variable.description.clone(), ty, value: default };
    (name, var)
}

/// The number of nodes a pass list attaches: one per pass and repetition.
pub open spec fn total_repeats(s: Seq<ast::GraphPass>) -> nat
    decreases s.len(),
{
    if s.len() == 0 {
        0
    } else {
        (total_repeats(s.drop_last()) + s.last().repeat) as nat
    }
}

/// A longer prefix of passes attaches at least as many nodes.
pub proof fn lemma_total_repeats_mono(s: Seq<ast::GraphPass>, p: int, q: int)
    requires
        0 <= p <= q <= s.len(),
    ensures
        total_repeats(s.subrange(0, p)) <= total_repeats(s.subrange(0, q)),
    decreases q - p,
{
    if p < q {
        lemma_total_repeats_mono(s, p, q - 1);
        assert(s.subrange(0, q).drop_last() =~= s.subrange(0, q - 1));
        assert(total_repeats(s.subrange(0, q)) == total_repeats(s.subrange(0, q - 1))
            + s.subrange(0, q).last().repeat);
    }
}

/// The id that the `rep`-th repetition of the line's pass `p` attaches.
pub open spec fn line_pass_id(line: ast::Graph, p: int, rep: int) -> GraphId {
    GraphId { node: line.id, pass: p as u64, repeat: rep as u64 }
}

/// A plain input line: the sentinel id, no inline model, one unrepeated
/// pass of a non-intrinsic name with no arguments, and an all-literal
/// in-order shape declaration.
pub open spec fn plain_first_line(line: ast::Graph) -> bool {
    &&& line.id == 0
    &&& line.inline is None
    &&& line.passes@.len() == 1
    &&& line.passes@[0].repeat == 1
    &&& line.passes@[0].args@.len() == 0
    &&& line.passes@[0].name@ != "dynamic"@
    &&& line.passes@[0].name@ != "fixed"@
    &&& line.passes@[0].name@ != "identity"@
    &&& line.shapes matches Some(d2)
    &&& (line.shapes matches Some(d2) ==> Graph::all_literal_decl(d2))
}

/// A fresh model of exactly one plain input line.
pub open spec fn plain_model(model: ast::Model, parent: Graph) -> bool {
    &&& !model.is_extern
    &&& assoc_find(parent.graphs@, model.name@) < 0
    &&& model.inner.children@.len() == 0
    &&& model.inner.variables@.len() == 0
    &&& model.inner.graph@.len() == 1
    &&& plain_first_line(model.inner.graph@[0])
}

/// A declared file with no imports whose model is a fresh plain one.
pub open spec fn plain_file(f: ast::File) -> bool {
    &&& f.uses@.len() == 0
    &&& !f.model.is_extern
    &&& f.model.inner.children@.len() == 0
    &&& f.model.inner.variables@.len() == 0
    &&& f.model.inner.graph@.len() == 1
    &&& plain_first_line(f.model.inner.graph@[0])
}

/// Elaborate one graph line into the graph: attach each pass, the first of
/// them consuming the inline sub-model, then adjust the declared shapes.
pub fn compile_graph_line(line: &ast::Graph, graph: &mut Graph) -> (r: Result<(), CompileError>)
    requires
        old(graph).wf(),
    ensures
        final(graph).wf(),
        final(graph).is_extern == old(graph).is_extern,
        r is Err ==> !(r matches Err(CompileError::ModelError { .. })),
        // one node per pass and repetition
        r is Ok ==> final(graph).nodes@.len() == old(graph).nodes@.len() + total_repeats(
            line.passes@,
        ),
        // each attached node's id names the line, the pass's index and the
        // repetition
        r is Ok ==> forall|p: int, rep: int|
            0 <= p < line.passes@.len() && 0 <= rep < line.passes@[p].repeat
                ==> final(graph).nodes@[old(graph).nodes@.len() + total_repeats(
                line.passes@.subrange(0, p),
            ) + rep].0 == #[trigger] line_pass_id(*line, p, rep),
        line.inline is None && line.passes@.len() == 0 && line.shapes is None ==> r is Ok
            && final(graph).nodes == old(graph).nodes,
        // a plain input line on a fresh graph is owed success and leaves the
        // mode fully fixed
        old(graph).nodes@.len() == 0 && plain_first_line(*line) ==> r is Ok
            && final(graph).shape_state == ShapeState::Fixed(FitState::Full),
    decreases line_size(*line),
{
    let mut inline: Option<Graph> = match &line.inline {
        Some(model) => {
            proof {
                assert(line_size(*line) == 1 + model_size(*model));
            }
            let (_, compiled) = match compile_model(model, graph) {
                Ok(p) => p,
                Err(e) => {
                    return Err(e);
                },
            };
            Some(compiled)
        },
        None => None,
    };
    let mut pass_idx: usize = 0;
    while pass_idx < line.passes.len()
        invariant
            pass_idx <= line.passes@.len(),
            graph.wf(),
            graph.is_extern == old(graph).is_extern,
            inline matches Some(g) ==> g.wf(),
            line.passes@.len() == 0 ==> graph == old(graph),
            graph.nodes@.len() == old(graph).nodes@.len() + total_repeats(
                line.passes@.subrange(0, pass_idx as int),
            ),
            old(graph).nodes@.len() == 0 && plain_first_line(*line) && pass_idx == 1 ==> {
                &&& graph.nodes@.len() == 1
                &&& graph.shape_state == ShapeState::Required(FitState::Weak)
                &&& graph.nodes@.last().1.shapes is Dynamic
            },
            forall|p: int, rep: int|
                0 <= p < pass_idx && 0 <= rep < line.passes@[p].repeat ==> graph.nodes@[old(
                    graph,
                ).nodes@.len() + total_repeats(line.passes@.subrange(0, p)) + rep].0 == #[trigger] line_pass_id(
                    *line,
                    p,
                    rep,
                ),
        decreases line.passes@.len() - pass_idx,
    {
        let pass = &line.passes[pass_idx];
        proof {
            assert(line.passes@.subrange(0, pass_idx + 1).drop_last() =~= line.passes@.subrange(
                0,
                pass_idx as int,
            ));
            assert(line.passes@.subrange(0, pass_idx + 1).last() == line.passes@[
                pass_idx as int
            ]);
        }
        let mut repeat: u64 = 0;
        while repeat < pass.repeat
            invariant
                repeat <= pass.repeat,
                graph.wf(),
                graph.is_extern == old(graph).is_extern,
                inline matches Some(g) ==> g.wf(),
                pass_idx < line.passes@.len(),
                pass == &line.passes@[pass_idx as int],
                graph.nodes@.len() == old(graph).nodes@.len() + total_repeats(
                    line.passes@.subrange(0, pass_idx as int),
                ) + repeat,
                old(graph).nodes@.len() == 0 && plain_first_line(*line) && repeat == 1 ==> {
                    &&& graph.nodes@.len() == 1
                    &&& graph.shape_state == ShapeState::Required(FitState::Weak)
                    &&& graph.nodes@.last().1.shapes is Dynamic
                },
                forall|p: int, rep: int|
                    0 <= p < pass_idx && 0 <= rep < line.passes@[p].repeat ==> graph.nodes@[old(
                        graph,
                    ).nodes@.len() + total_repeats(line.passes@.subrange(0, p)) + rep].0
                        == #[trigger] line_pass_id(*line, p, rep),
                forall|rep: int|
                    0 <= rep < repeat ==> graph.nodes@[old(graph).nodes@.len() + total_repeats(
                        line.passes@.subrange(0, pass_idx as int),
                    ) + rep].0 == #[trigger] line_pass_id(*line, pass_idx as int, rep),
            decreases pass.repeat - repeat,
        {
            let id = GraphId { node: line.id, pass: pass_idx as u64, repeat };
            let taken = inline;
            inline = None;
            let res = graph.attach(id, pass.name.clone(), taken, &pass.args);
            if let Err(e) = res {
                return Err(e);
            }
            proof {
                let base = old(graph).nodes@.len() as int;
                let cur = total_repeats(line.passes@.subrange(0, pass_idx as int)) as int;
                assert forall|p: int, rep: int|
                    0 <= p < pass_idx && 0 <= rep < line.passes@[p].repeat implies graph.nodes@[
                    base + total_repeats(line.passes@.subrange(0, p)) + rep].0
                    == #[trigger] line_pass_id(*line, p, rep) by {
                    assert(line.passes@.subrange(0, p + 1).drop_last() =~= line.passes@.subrange(
                        0,
                        p,
                    ));
                    assert(line.passes@.subrange(0, p + 1).last() == line.passes@[p]);
                    lemma_total_repeats_mono(line.passes@, p + 1, pass_idx as int);
                }
                assert(graph.nodes@[base + cur + (repeat as int)].0 == line_pass_id(
                    *line,
                    pass_idx as int,
                    repeat as int,
                ));
            }
            repeat = repeat + 1;
        }
        pass_idx = pass_idx + 1;
    }
    proof {
        assert(line.passes@.subrange(0, line.passes@.len() as int) =~= line.passes@);
        assert forall|p: int|
            0 <= p < line.passes@.len() implies total_repeats(
            #[trigger] line.passes@.subrange(0, p),
        ) + line.passes@[p].repeat <= total_repeats(line.passes@) by {
            assert(line.passes@.subrange(0, p + 1).drop_last() =~= line.passes@.subrange(0, p));
            assert(line.passes@.subrange(0, p + 1).last() == line.passes@[p]);
            lemma_total_repeats_mono(line.passes@, p + 1, line.passes@.len() as int);
        }
    }
    match &line.shapes {
        Some(shapes) => {
            if graph.get_nodes().len() == 0 {
                return Err(
                    CompileError::GraphError {
                        error: GraphError::FirstNodeNotFound,
                        model: String::new(),
                    },
                );
            }
            graph.adjust_shapes(shapes)
        },
        None => Ok(()),
    }
}

/// Elaborate one declared model against its parent.  An extern model keeps
/// exactly an input line and a shape line and is not finalized; a model
/// already registered with the parent is an override that only re-binds
/// variables; a fresh model compiles its children, variables and lines and
/// must end fully fixed.
pub fn compile_model(model: &ast::Model, parent: &Graph) -> (r: Result<
    (String, Graph),
    CompileError,
>)
    requires
        parent.wf(),
    ensures
        r matches Ok(p) ==> p.0@ == model.name@ && p.1.wf(),
        r is Err ==> !(r matches Err(CompileError::ModelError { .. })),
        model.is_extern && model.inner.children@.len() > 0 ==> (r matches Err(
            CompileError::ExternModelError {
                error: ExternModelError::UnexpectedChild { model: mc },
                model: mm,
            },
        ) && mc@ == model.inner.children@[0].name@ && mm@ == model.name@),
        model.is_extern && model.inner.children@.len() == 0 && model.inner.graph@.len() != 2
            ==> r matches Err(
            CompileError::ExternModelError { error: ExternModelError::UnknownGraph, .. },
        ),
        !model.is_extern && assoc_find(parent.graphs@, model.name@) >= 0
            && model.inner.children@.len() > 0 ==> r matches Err(
            CompileError::NonExternModelError { error: NonExternModelError::OverrideChild, .. },
        ),
        !model.is_extern && assoc_find(parent.graphs@, model.name@) >= 0
            && model.inner.children@.len() == 0 && model.inner.graph@.len() > 0 ==> r matches Err(
            CompileError::NonExternModelError { error: NonExternModelError::OverrideGraph, .. },
        ),
        !model.is_extern && assoc_find(parent.graphs@, model.name@) < 0
            && model.inner.graph@.len() == 0 ==> r matches Err(
            CompileError::NonExternModelError { error: NonExternModelError::NoGraph, .. },
        ),
        !model.is_extern && assoc_find(parent.graphs@, model.name@) < 0 ==> (r matches Ok(p)
            ==> p.1.shape_state == ShapeState::Fixed(FitState::Full)),
        // the extern flag of the result follows the path taken
        model.is_extern ==> (r matches Ok(p) ==> p.1.is_extern),
        !model.is_extern && assoc_find(parent.graphs@, model.name@) < 0 ==> (r matches Ok(p)
            ==> !p.1.is_extern && p.1.graphs@.len() == 0),
        // a fresh model of exactly one plain input line is owed success
        plain_model(*model, *parent) ==> r is Ok,
        // an override keeps the prefab's extern flag and mode, and succeeds
        // outright when it binds nothing
        !model.is_extern && assoc_find(parent.graphs@, model.name@) >= 0
            && model.inner.children@.len() == 0 && model.inner.graph@.len() == 0 ==> ({
            let prefab = parent.graphs@[assoc_find(parent.graphs@, model.name@)].1;
            &&& (r matches Ok(p) ==> p.1.is_extern == prefab.is_extern && p.1.shape_state
                == prefab.shape_state)
            &&& (model.inner.variables@.len() == 0 ==> r is Ok)
            &&& (model.inner.variables@.len() > 0 && model.inner.variables@[0].default is None
                ==> r matches Err(
                CompileError::GraphError { error: GraphError::NoVariableValue { .. }, .. },
            ))
        }),
    decreases model_size(*model),
{
    let found = parent.find_graph(&model.name);
    let is_override = !model.is_extern && found.is_some();
    let mut child: Graph;
    if model.is_extern {
        if model.inner.children.len() > 0 {
            let sub = &model.inner.children[0];
            return Err(
                CompileError::ExternModelError {
                    error: ExternModelError::UnexpectedChild { model: sub.name.clone() },
                    model: model.name.clone(),
                },
            );
        }
        if model.inner.graph.len() != 2 {
            return Err(
                CompileError::ExternModelError {
                    error: ExternModelError::UnknownGraph,
                    model: model.name.clone(),
                },
            );
        }
        child = Graph::new(true);
    } else {
        match found {
            Some(prefab) => {
                if model.inner.children.len() > 0 {
                    return Err(
                        CompileError::NonExternModelError {
                            error: NonExternModelError::OverrideChild,
                            model: model.name.clone(),
                        },
                    );
                }
                if model.inner.graph.len() > 0 {
                    return Err(
                        CompileError::NonExternModelError {
                            error: NonExternModelError::OverrideGraph,
                            model: model.name.clone(),
                        },
                    );
                }
                child = prefab;
            },
            None => {
                if model.inner.graph.len() == 0 {
                    return Err(
                        CompileError::NonExternModelError {
                            error: NonExternModelError::NoGraph,
                            model: model.name.clone(),
                        },
                    );
                }
                child = parent.new_child();
                // compile the nested child models first, then register them
                let mut compiled: Vec<(String, Graph)> = Vec::new();
                let mut ci: usize = 0;
                while ci < model.inner.children.len()
                    invariant
                        ci <= model.inner.children@.len(),
                        child.wf(),
                        child.is_extern == false,
                        plain_model(*model, *parent) ==> child.nodes@.len() == 0,
                        !model.is_extern && assoc_find(parent.graphs@, model.name@) < 0,
                        model.inner.graph@.len() > 0,
                        forall|k: int|
                            0 <= k < compiled@.len() ==> (#[trigger] compiled@[k]).1.wf(),
                    decreases model.inner.children@.len() - ci,
                {
                    let sub = &model.inner.children[ci];
                    proof {
                        lemma_models_size_elem(*model, 0, ci as int);
                    }
                    let (sub_name, sub_graph) = match compile_model(sub, &child) {
                        Ok(p) => p,
                        Err(e) => {
                            return Err(e);
                        },
                    };
                    compiled.push((sub_name, sub_graph));
                    ci = ci + 1;
                }
                while compiled.len() > 0
                    invariant
                        child.wf(),
                        child.is_extern == false,
                        plain_model(*model, *parent) ==> child.nodes@.len() == 0,
                        !model.is_extern && assoc_find(parent.graphs@, model.name@) < 0,
                        model.inner.graph@.len() > 0,
                        forall|k: int|
                            0 <= k < compiled@.len() ==> (#[trigger] compiled@[k]).1.wf(),
                    decreases compiled@.len(),
                {
                    let ghost pre = compiled@;
                    proof {
                        assert(pre[0].1.wf());
                    }
                    let entry = compiled.remove(0);
                    proof {
                        assert forall|k: int|
                            0 <= k < compiled@.len() implies (#[trigger] compiled@[k]).1.wf() by {
                            assert(compiled@[k] == pre[k + 1]);
                            assert(pre[k + 1].1.wf());
                        }
                    }
                    child.add_graph(entry.0, entry.1);
                }
            },
        }
    }
    let ghost cext = child.is_extern;
    let ghost cstate = child.shape_state;
    // declared parameters
    let mut vi: usize = 0;
    while vi < model.inner.variables.len()
        invariant
            vi <= model.inner.variables@.len(),
            child.wf(),
            child.is_extern == cext,
            plain_model(*model, *parent) ==> child.nodes@.len() == 0,
            is_override ==> child.shape_state == cstate,
            is_override && model.inner.variables@.len() > 0 && model.inner.variables@[0].default
                is None ==> vi == 0,
            model.is_extern || is_override || child.is_extern == false,
            model.is_extern ==> model.inner.children@.len() == 0 && model.inner.graph@.len()
                == 2,
            is_override == (!model.is_extern && assoc_find(parent.graphs@, model.name@) >= 0),
            is_override ==> model.inner.children@.len() == 0 && model.inner.graph@.len() == 0,
            !model.is_extern && !is_override ==> model.inner.graph@.len() > 0,
        decreases model.inner.variables@.len() - vi,
    {
        let v = &model.inner.variables[vi];
        let (vname, var) = compile_variable(v);
        if is_override {
            let Variable { description, ty, value } = var;
            match value {
                Some(value) => {
                    let res = child.update_variable(Some(description), Some(vname), value, ty);
                    if let Err(error) = res {
                        return Err(
                            CompileError::GraphError { error, model: model.name.clone() },
                        );
                    }
                },
                None => {
                    return Err(
                        CompileError::GraphError {
                            error: GraphError::NoVariableValue { name: vname },
                            model: model.name.clone(),
                        },
                    );
                },
            }
        } else {
            let res = child.add_variable(Some(vname), var);
            if let Err(error) = res {
                return Err(CompileError::GraphError { error, model: model.name.clone() });
            }
        }
        vi = vi + 1;
    }
    // graph lines
    let mut li: usize = 0;
    while li < model.inner.graph.len()
        invariant
            li <= model.inner.graph@.len(),
            child.wf(),
            child.is_extern == cext,
            plain_model(*model, *parent) ==> (li == 0 ==> child.nodes@.len() == 0) && (li == 1
                ==> child.shape_state == ShapeState::Fixed(FitState::Full)),
            is_override ==> child.shape_state == cstate,
            model.is_extern || is_override || child.is_extern == false,
            model.is_extern ==> model.inner.children@.len() == 0 && model.inner.graph@.len()
                == 2,
            is_override == (!model.is_extern && assoc_find(parent.graphs@, model.name@) >= 0),
            is_override ==> model.inner.children@.len() == 0 && model.inner.graph@.len() == 0,
            !model.is_extern && !is_override ==> model.inner.graph@.len() > 0,
        decreases model.inner.graph@.len() - li,
    {
        let line = &model.inner.graph[li];
        proof {
            lemma_lines_size_elem(*model, 0, li as int);
        }
        let res = compile_graph_line(line, &mut child);
        if let Err(e) = res {
            return Err(e);
        }
        li = li + 1;
    }
    if !model.is_extern && !is_override {
        let res = child.finalize();
        if let Err(e) = res {
            return Err(e);
        }
    }
    Ok((model.name.clone(), child))
}

} // verus!
