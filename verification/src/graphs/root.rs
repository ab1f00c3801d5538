//! The graph registry: prefabs, a compiled cache, and the recursion guard.

use vstd::prelude::*;

use crate::ast;
use crate::compile::compile_model;
use crate::error::{CompileError, ModelError};
use crate::graphs::graph::{
    assoc_find, assoc_idx, distinct_str_keys, graph_eqv, graphs_set, lemma_assoc_find, Graph,
};

verus! {

/// The registry for one compilation batch: compiled graphs by name, the
/// names being compiled right now (the recursion guard), and the pending
/// declared prefabs by name.
#[derive(Debug)]
pub struct GraphRoot {
    pub graphs: Vec<(String, Graph)>,
    pub compiling: Vec<String>,
    pub prefabs: Vec<(String, ast::File)>,
}

impl GraphRoot {
    /// Distinct cache and prefab names, every cached graph well-formed.
    pub open spec fn wf(self) -> bool {
        &&& distinct_str_keys(self.graphs@)
        &&& distinct_str_keys(self.prefabs@)
        &&& forall|i: int| 0 <= i < self.graphs@.len() ==> (#[trigger] self.graphs@[i]).1.wf()
    }

    /// A compiled graph of this name is cached.
    pub open spec fn cached(self, name: Seq<char>) -> bool {
        assoc_find(self.graphs@, name) >= 0
    }

    /// This name is being compiled right now.
    pub open spec fn guarded(self, name: Seq<char>) -> bool {
        exists|i: int| 0 <= i < self.compiling@.len() && (#[trigger] self.compiling@[i])@ == name
    }
}

/// Whether the list holds this name.
fn list_has(v: &Vec<String>, name: &String) -> (r: bool)
    ensures
        r == exists|i: int| 0 <= i < v@.len() && (#[trigger] v@[i])@ == name@,
{
    let mut i: usize = 0;
    while i < v.len()
        invariant
            i <= v@.len(),
            forall|k: int| 0 <= k < i ==> (#[trigger] v@[k])@ != name@,
        decreases v@.len() - i,
    {
        if v[i] == *name {
            proof {
                assert(v@[i as int]@ == name@);
            }
            return true;
        }
        i = i + 1;
    }
    proof {
        if exists|k: int| 0 <= k < v@.len() && (#[trigger] v@[k])@ == name@ {
            let w = choose|w: int| 0 <= w < v@.len() && (#[trigger] v@[w])@ == name@;
            assert(v@[w]@ != name@);
        }
    }
    false
}

/// Drop the first occurrence of this name, if any.
fn list_remove(v: &mut Vec<String>, name: &String)
    ensures
        final(v)@.len() <= old(v)@.len(),
        (forall|i: int| 0 <= i < old(v)@.len() ==> (#[trigger] old(v)@[i])@ != name@)
            ==> final(v)@ == old(v)@,
        forall|i: int|
            0 <= i < old(v)@.len() && (#[trigger] old(v)@[i])@ == name@ && (forall|j: int|
                0 <= j < i ==> (#[trigger] old(v)@[j])@ != name@)
                ==> final(v)@ == old(v)@.remove(i),
{
    let mut i: usize = 0;
    while i < v.len()
        invariant
            i <= v@.len(),
            v@ == old(v)@,
            forall|j: int| 0 <= j < i ==> (#[trigger] v@[j])@ != name@,
        decreases v@.len() - i,
    {
        if v[i] == *name {
            let ghost gi = i as int;
            let _ = v.remove(i);
            proof {
                assert forall|i2: int|
                    0 <= i2 < old(v)@.len() && (#[trigger] old(v)@[i2])@ == name@ && (forall|
                        j: int,
                    | 0 <= j < i2 ==> (#[trigger] old(v)@[j])@ != name@) implies v@ == old(
                    v,
                )@.remove(i2) by {
                    if i2 < gi {
                        assert(old(v)@[i2]@ != name@);
                    }
                    if i2 > gi {
                        assert(old(v)@[gi]@ != name@);
                    }
                }
            }
            return ;
        }
        i = i + 1;
    }
    proof {
        assert forall|i2: int|
            0 <= i2 < old(v)@.len() && (#[trigger] old(v)@[i2])@ == name@ && (forall|j: int|
                0 <= j < i2 ==> (#[trigger] old(v)@[j])@ != name@) implies v@ == old(
            v,
        )@.remove(i2) by {
            assert(old(v)@[i2]@ != name@);
        }
    }
}

impl Default for GraphRoot {
    /// A registry holding exactly the embedded standard prefabs, each under
    /// its model's name, with nothing compiled and nothing under compilation.
    fn default() -> (r: Self)
        ensures
            r.wf(),
            r.graphs@.len() == 0,
            r.compiling@.len() == 0,
            r.prefabs@.len() == 5,
            forall|j: int|
                0 <= j < r.prefabs@.len() ==> (#[trigger] r.prefabs@[j]).0@ == r.prefabs@[
                    j
                ].1.model.name@,
            assoc_find(r.prefabs@, "Linear"@) >= 0,
            assoc_find(r.prefabs@, "ReLU"@) >= 0,
            assoc_find(r.prefabs@, "Softmax"@) >= 0,
            assoc_find(r.prefabs@, "Transform"@) >= 0,
            assoc_find(r.prefabs@, "Conv2d"@) >= 0,
    {
        let mut root = GraphRoot { graphs: Vec::new(), compiling: Vec::new(), prefabs: Vec::new() };
        let mut files = crate::prefab::standard_prefabs();
        let ghost gfiles = files@;
        while files.len() > 0
            invariant
                root.wf(),
                root.graphs@.len() == 0,
                root.compiling@.len() == 0,
                files@ =~= gfiles.subrange(
                    gfiles.len() - files@.len(),
                    gfiles.len() as int,
                ),
                root.prefabs@.len() + files@.len() == gfiles.len(),
                forall|j: int|
                    0 <= j < root.prefabs@.len() ==> (#[trigger] root.prefabs@[j]).0@ == gfiles[
                        j
                    ].model.name@ && root.prefabs@[j].1 == gfiles[j],
                forall|i: int, j: int|
                    0 <= i < j < gfiles.len() ==> (#[trigger] gfiles[i]).model.name@ != (
                    #[trigger] gfiles[j]).model.name@,
            decreases files@.len(),
        {
            let ghost done = root.prefabs@.len() as int;
            let ghost pre = root.prefabs@;
            let file = files.remove(0);
            proof {
                assert(file == gfiles[done]);
                lemma_assoc_find(pre, file.model.name@);
                if assoc_find(pre, file.model.name@) >= 0 {
                    let w = assoc_find(pre, file.model.name@);
                    assert(gfiles[w].model.name@ == gfiles[done].model.name@);
                    assert(false);
                }
            }
            root.insert_prefab(file);
            proof {
                assert(files@ =~= gfiles.subrange(gfiles.len() - files@.len(), gfiles.len() as int));
                let name = gfiles[done].model.name@;
                lemma_assoc_find(root.prefabs@, name);
                let f = assoc_find(root.prefabs@, name);
                assert(root.prefabs@.len() == done + 1);
                if 0 <= f < done {
                    assert(root.prefabs@[f] == pre[f]);
                    assert(pre[f].0@ != name);
                }
                assert(f == done);
                assert(root.prefabs@[done].0@ == name);
                assert(root.prefabs@[done].1 == gfiles[done]);
                assert forall|j: int|
                    0 <= j < root.prefabs@.len() implies (#[trigger] root.prefabs@[j]).0@
                    == gfiles[j].model.name@ && root.prefabs@[j].1 == gfiles[j] by {
                    if j < done {
                        assert(root.prefabs@[j] == pre[j]);
                    }
                }
            }
        }
        proof {
            let p = root.prefabs@;
            lemma_assoc_find(p, "Linear"@);
            lemma_assoc_find(p, "ReLU"@);
            lemma_assoc_find(p, "Softmax"@);
            lemma_assoc_find(p, "Transform"@);
            lemma_assoc_find(p, "Conv2d"@);
            assert(p[0].0@ == "Linear"@);
            assert(p[1].0@ == "ReLU"@);
            assert(p[2].0@ == "Softmax"@);
            assert(p[3].0@ == "Transform"@);
            assert(p[4].0@ == "Conv2d"@);
        }
        root
    }
}

impl GraphRoot {
    /// Register one declared file under its model's name, replacing any
    /// earlier prefab of that name.
    pub fn insert_prefab(&mut self, file: ast::File)
        requires
            old(self).wf(),
        ensures
            final(self).wf(),
            final(self).graphs == old(self).graphs,
            final(self).compiling == old(self).compiling,
            // the file is stored under its model's name
            ({
                let f = assoc_find(final(self).prefabs@, file.model.name@);
                &&& f >= 0
                &&& final(self).prefabs@[f].0@ == file.model.name@
                &&& final(self).prefabs@[f].1 == file
            }),
            // a prefab of the same name is replaced, every other one is kept
            assoc_find(old(self).prefabs@, file.model.name@) >= 0 ==> {
                &&& final(self).prefabs@.len() == old(self).prefabs@.len()
                &&& forall|j: int|
                    0 <= j < final(self).prefabs@.len() && j != assoc_find(
                        old(self).prefabs@,
                        file.model.name@,
                    ) ==> #[trigger] final(self).prefabs@[j] == old(self).prefabs@[j]
            },
            assoc_find(old(self).prefabs@, file.model.name@) < 0 ==> {
                &&& final(self).prefabs@.len() == old(self).prefabs@.len() + 1
                &&& forall|j: int|
                    0 <= j < old(self).prefabs@.len() ==> #[trigger] final(self).prefabs@[j]
                        == old(self).prefabs@[j]
            },
    {
        let ghost gname = file.model.name@;
        let ghost gfile = file;
        let key = file.model.name.clone();
        let ghost gkey = key;
        let ghost pre = self.prefabs@;
        crate::graphs::graph::assoc_set(&mut self.prefabs, key, file);
        proof {
            assert(distinct_str_keys(self.prefabs@));
            lemma_assoc_find(pre, gname);
            let f0 = assoc_find(pre, gname);
            lemma_assoc_find(self.prefabs@, gname);
            let f = assoc_find(self.prefabs@, gname);
            if f0 >= 0 {
                assert(self.prefabs@ =~= pre.update(f0, (gkey, gfile)));
                assert(self.prefabs@[f0].0@ == gname);
                assert(f == f0) by {
                    if f < 0 {
                        assert(self.prefabs@[f0].0@ != gname);
                    } else if f < f0 {
                        assert(self.prefabs@[f] == pre[f]);
                        assert(pre[f].0@ != gname);
                    } else if f > f0 {
                        assert(self.prefabs@[f0].0@ != gname);
                    }
                }
            } else {
                assert(self.prefabs@ =~= pre.push((gkey, gfile)));
                assert(self.prefabs@[pre.len() as int].0@ == gname);
                assert(f == pre.len()) by {
                    if f < 0 {
                        assert(self.prefabs@[pre.len() as int].0@ != gname);
                    } else if f < pre.len() {
                        assert(self.prefabs@[f] == pre[f]);
                        assert(pre[f].0@ != gname);
                    }
                }
            }
        }
    }

    /// Look a graph up by name: a cached graph is copied out; a name under
    /// compilation is a recursive usage; otherwise the named prefab is
    /// compiled on demand under the recursion guard, cached, and returned.
    /// Only local lookup is supported; other origins are not found.
    pub fn find_graph(&mut self, name: &str, origin: ast::UseOrigin) -> (r: Result<
        Graph,
        CompileError,
    >)
        requires
            old(self).wf(),
        ensures
            final(self).wf(),
            final(self).prefabs@.len() <= old(self).prefabs@.len(),
            final(self).compiling@ == old(self).compiling@,
            r matches Ok(g) ==> g.wf(),
            r is Ok ==> final(self).cached(name@),
            // what is returned is what was cached: a later lookup of the
            // same name answers with an equal graph
            r matches Ok(g) ==> graph_eqv(
                g,
                final(self).graphs@[assoc_find(final(self).graphs@, name@)].1,
            ),
            // a not-found answer about a name is honest: that name was not
            // under compilation when asked about
            r matches Err(
                CompileError::ModelError { error: ModelError::ModelNotFound, model, .. },
            ) ==> !old(self).guarded(model@),
            !old(self).cached(name@) && !old(self).guarded(name@) && origin is Local
                && assoc_find(old(self).prefabs@, name@) < 0 ==> {
                &&& r matches Err(
                    CompileError::ModelError { error: ModelError::ModelNotFound, model, .. },
                )
                &&& model@ == name@
            },
            old(self).cached(name@) ==> (r matches Ok(g) && graph_eqv(
                g,
                old(self).graphs@[assoc_find(old(self).graphs@, name@)].1,
            ) && *final(self) == *old(self)),
            !old(self).cached(name@) && old(self).guarded(name@) ==> {
                &&& r matches Err(
                    CompileError::ModelError { error: ModelError::RecursiveUsage, model, .. },
                )
                &&& model@ == name@
            },
            !old(self).cached(name@) && !old(self).guarded(name@) && !(origin is Local) ==> (
            r matches Err(CompileError::ModelError { error: ModelError::ModelNotFound, .. })),
            // a registered plain prefab of this name is owed a compiled graph
            !old(self).cached(name@) && !old(self).guarded(name@) && origin is Local
                && assoc_find(old(self).prefabs@, name@) >= 0 && crate::compile::plain_file(
                old(self).prefabs@[assoc_find(old(self).prefabs@, name@)].1,
            ) ==> r is Ok,
        decreases old(self).prefabs@.len(), 0int,
    {
        let owned: String = name.to_owned();
        if let Some(i) = assoc_idx(&self.graphs, &owned) {
            proof {
                lemma_assoc_find(self.graphs@, owned@);
                assert(self.graphs@[i as int].1.wf());
            }
            return Ok(self.graphs[i].1.clone());
        }
        if list_has(&self.compiling, &owned) {
            return Err(
                CompileError::ModelError {
                    error: ModelError::RecursiveUsage,
                    model: owned,
                    origin,
                },
            );
        }
        match origin {
            ast::UseOrigin::Local => {},
            other => {
                return Err(
                    CompileError::ModelError {
                        error: ModelError::ModelNotFound,
                        model: owned,
                        origin: other,
                    },
                );
            },
        }
        let pi = match assoc_idx(&self.prefabs, &owned) {
            Some(pi) => pi,
            None => {
                return Err(
                    CompileError::ModelError {
                        error: ModelError::ModelNotFound,
                        model: owned,
                        origin: ast::UseOrigin::Local,
                    },
                );
            },
        };
        self.compiling.push(owned.clone());
        let entry = self.prefabs.remove(pi);
        proof {
            assert(distinct_str_keys(self.prefabs@)) by {
                assert forall|a: int, b: int|
                    0 <= a < b < self.prefabs@.len() implies (#[trigger] self.prefabs@[a]).0@ != (
                #[trigger] self.prefabs@[b]).0@ by {
                    if a < pi {
                        if b < pi {
                            assert(old(self).prefabs@[a].0@ != old(self).prefabs@[b].0@);
                        } else {
                            assert(old(self).prefabs@[a].0@ != old(self).prefabs@[b + 1].0@);
                        }
                    } else {
                        assert(old(self).prefabs@[a + 1].0@ != old(self).prefabs@[b + 1].0@);
                    }
                }
            }
        }
        let ghost guard0 = old(self).compiling@;
        let ghost pushed = self.compiling@;
        let result = compile_file(self, &entry.1);
        // the recursion guard is released on every path, error included
        proof {
            assert(self.compiling@ == pushed);
            assert(pushed =~= guard0.push(owned));
            assert forall|j: int| 0 <= j < guard0.len() implies (#[trigger] guard0[j])@
                != owned@ by {
                if guard0[j]@ == owned@ {
                    assert(old(self).guarded(name@));
                }
            }
        }
        list_remove(&mut self.compiling, &owned);
        proof {
            assert(pushed[guard0.len() as int]@ == owned@);
            assert forall|j: int| 0 <= j < guard0.len() implies (#[trigger] pushed[j])@
                != owned@ by {
                assert(pushed[j] == guard0[j]);
            }
            assert(self.compiling@ =~= guard0);
        }
        match result {
            Ok(g) => {
                let out = g.clone();
                graphs_set(&mut self.graphs, owned, g);
                Ok(out)
            },
            Err(e) => {
                proof {
                    match &e {
                        CompileError::ModelError { error: ModelError::ModelNotFound, model, .. } => {
                            let m = model@;
                            if old(self).guarded(m) {
                                let w = choose|w: int|
                                    0 <= w < guard0.len() && (#[trigger] guard0[w])@ == m;
                                assert(pushed[w]@ == m);
                            }
                        },
                        _ => {},
                    }
                }
                Err(e)
            },
        }
    }

    /// Compile one already-declared file and cache the result under its
    /// model's name.
    pub fn compile_file(&mut self, file: &ast::File) -> (r: Result<Graph, CompileError>)
        requires
            old(self).wf(),
        ensures
            final(self).wf(),
            final(self).compiling@ == old(self).compiling@,
            r matches Ok(g) ==> g.wf(),
            r is Ok ==> final(self).cached(file.model.name@),
            // the compiled graph is cached under the model's name, equal to
            // what is returned
            r matches Ok(g) ==> graph_eqv(
                g,
                final(self).graphs@[assoc_find(final(self).graphs@, file.model.name@)].1,
            ),
            // a plain file of one literal-shaped input line is owed success
            crate::compile::plain_file(*file) ==> r is Ok,
        decreases old(self).prefabs@.len(), 2int,
    {
        let result = compile_file(self, file);
        match result {
            Ok(g) => {
                let out = g.clone();
                graphs_set(&mut self.graphs, file.model.name.clone(), g);
                Ok(out)
            },
            Err(e) => Err(e),
        }
    }
}

/// Compile one declared file: bring every `use`d model in through the
/// registry, then elaborate the file's own model against them.
pub fn compile_file(root: &mut GraphRoot, file: &ast::File) -> (r: Result<Graph, CompileError>)
    requires
        old(root).wf(),
    ensures
        final(root).wf(),
        final(root).prefabs@.len() <= old(root).prefabs@.len(),
        final(root).compiling@ == old(root).compiling@,
        r matches Ok(g) ==> g.wf(),
        r matches Err(
            CompileError::ModelError { error: ModelError::ModelNotFound, model, .. },
        ) ==> !old(root).guarded(model@),
        // a plain file of one literal-shaped input line is owed success
        crate::compile::plain_file(*file) ==> r is Ok,
    decreases old(root).prefabs@.len(), 1int,
{
    let mut graph = Graph::new(file.model.is_extern);
    let mut i: usize = 0;
    while i < file.uses.len()
        invariant
            i <= file.uses@.len(),
            root.wf(),
            graph.wf(),
            root.prefabs@.len() <= old(root).prefabs@.len(),
            root.compiling@ == old(root).compiling@,
            file.uses@.len() == 0 ==> graph.graphs@.len() == 0,
        decreases file.uses@.len() - i,
    {
        let u = &file.uses[i];
        let used = match root.find_graph(u.model.as_str(), u.origin.clone()) {
            Ok(g) => g,
            Err(e) => {
                return Err(e);
            },
        };
        graph.add_graph(u.model.clone(), used);
        i = i + 1;
    }
    match compile_model(&file.model, &graph) {
        Ok(p) => Ok(p.1),
        Err(e) => Err(e),
    }
}

} // verus!
