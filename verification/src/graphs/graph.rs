//! The elaborated model and the graph elaborator.

use vstd::prelude::*;

use crate::algebra::{Expr, Sym};
use crate::ast;
use crate::error::{CompileError, GraphError, NonExternModelError};
use crate::graphs::id::{GraphId, GraphIdArg};
use crate::graphs::node::{node_eqv, node_wf, Node};
use crate::graphs::shape::{
    camel_of, Dim, DimKey, DimV, FitState, Shape, ShapeState, ShapeV, Shapes, ShapesV,
};
use crate::graphs::variable::{ValueType, Variable};

verus! {

/// An elaborated model: its parameters with their aliases, the symbolic
/// key-bindings, the `use`d sub-models by name, the node chain in id order,
/// the inference mode, and the extern flag.
#[derive(Debug)]
pub struct Graph {
    pub variables: Vec<(String, Variable)>,
    pub variable_aliases: Vec<(String, String)>,
    pub keys: Vec<(DimKey, Expr)>,
    pub graphs: Vec<(String, Graph)>,
    pub nodes: Vec<(GraphId, Node)>,
    pub shape_state: ShapeState,
    pub is_extern: bool,
}

/// The key-bindings as pairs of a key and an expression view.
pub open spec fn keys_v(s: Seq<(DimKey, Expr)>) -> Seq<(DimKey, crate::algebra::ExprV)> {
    s.map_values(|e: (DimKey, Expr)| (e.0, e.1@))
}

/// Structural equivalence of graphs, field by field, sub-models compared
/// recursively.
pub open spec fn graph_eqv(a: Graph, b: Graph) -> bool
    decreases a,
{
    &&& a.variables@ == b.variables@
    &&& a.variable_aliases@ == b.variable_aliases@
    &&& keys_v(a.keys@) == keys_v(b.keys@)
    &&& a.nodes@.len() == b.nodes@.len()
    &&& (forall|i: int|
        0 <= i < a.nodes@.len() ==> (#[trigger] a.nodes@[i]).0 == b.nodes@[i].0 && node_eqv(
            a.nodes@[i].1,
            b.nodes@[i].1,
        ))
    &&& a.graphs@.len() == b.graphs@.len()
    &&& (forall|i: int|
        0 <= i < a.graphs@.len() ==> (#[trigger] a.graphs@[i]).0 == b.graphs@[i].0 && graph_eqv(
            a.graphs@[i].1,
            b.graphs@[i].1,
        ))
    &&& a.shape_state == b.shape_state
    &&& a.is_extern == b.is_extern
}

/// String-keyed association entries have pairwise distinct keys.
pub open spec fn distinct_str_keys<T>(s: Seq<(String, T)>) -> bool {
    forall|i: int, j: int| 0 <= i < j < s.len() ==> (#[trigger] s[i]).0@ != (#[trigger] s[j]).0@
}

/// Key-bindings have pairwise distinct keys and well-formed expressions.
pub open spec fn keys_wf(s: Seq<(DimKey, Expr)>) -> bool {
    &&& forall|i: int, j: int|
        0 <= i < j < s.len() ==> (#[trigger] s[i]).0.kv() != (#[trigger] s[j]).0.kv()
    &&& forall|i: int| 0 <= i < s.len() ==> (#[trigger] s[i]).1.wf()
}

impl Graph {
    /// Deep well-formedness: distinct association keys, well-formed
    /// bindings and shapes, and a node chain whose first id is the input
    /// sentinel and where each id validates as successor of its predecessor.
    pub open spec fn wf(self) -> bool
        decreases self,
    {
        &&& distinct_str_keys(self.variables@)
        &&& distinct_str_keys(self.variable_aliases@)
        &&& distinct_str_keys(self.graphs@)
        &&& keys_wf(self.keys@)
        &&& self.nodes@.len() > 0 ==> self.nodes@[0].0 == GraphId::spec_input()
        &&& forall|i: int|
            1 <= i < self.nodes@.len() ==> (#[trigger] self.nodes@[i]).0.spec_validate(
                self.nodes@[i - 1].0,
            )
        &&& forall|i: int| 0 <= i < self.nodes@.len() ==> node_wf((#[trigger] self.nodes@[i]).1)
        &&& forall|i: int| 0 <= i < self.graphs@.len() ==> (#[trigger] self.graphs@[i]).1.wf()
    }

    /// A fresh graph with no content.
    pub(crate) fn new(is_extern: bool) -> (r: Self)
        ensures
            r.variables@.len() == 0,
            r.variable_aliases@.len() == 0,
            r.keys@.len() == 0,
            r.graphs@.len() == 0,
            r.nodes@.len() == 0,
            r.shape_state == ShapeState::Fixed(FitState::Weak),
            r.is_extern == is_extern,
            r.wf(),
    {
        Graph {
            variables: Vec::new(),
            variable_aliases: Vec::new(),
            keys: Vec::new(),
            graphs: Vec::new(),
            nodes: Vec::new(),
            shape_state: ShapeState::Fixed(FitState::Weak),
            is_extern,
        }
    }

    /// A fresh child graph inheriting the parent's registered sub-models.
    pub(crate) fn new_child(&self) -> (r: Self)
        ensures
            r.variables@.len() == 0,
            r.variable_aliases@.len() == 0,
            r.keys@.len() == 0,
            r.graphs@.len() == self.graphs@.len(),
            forall|i: int|
                0 <= i < r.graphs@.len() ==> (#[trigger] r.graphs@[i]).0 == self.graphs@[i].0
                    && graph_eqv(r.graphs@[i].1, self.graphs@[i].1),
            r.nodes@.len() == 0,
            r.shape_state == ShapeState::Fixed(FitState::Weak),
            r.is_extern == false,
            self.wf() ==> r.wf(),
    {
        Graph {
            variables: Vec::new(),
            variable_aliases: Vec::new(),
            keys: Vec::new(),
            graphs: clone_graphs(&self.graphs),
            nodes: Vec::new(),
            shape_state: ShapeState::Fixed(FitState::Weak),
            is_extern: false,
        }
    }

    pub fn is_extern(&self) -> (r: bool)
        ensures
            r == self.is_extern,
    {
        self.is_extern
    }

    /// The model's parameters, keyed by canonical name.
    pub fn get_variables(&self) -> (r: &Vec<(String, Variable)>)
        ensures
            r == &self.variables,
    {
        &self.variables
    }

    /// The node chain, in id order.
    pub fn get_nodes(&self) -> (r: &Vec<(GraphId, Node)>)
        ensures
            r == &self.nodes,
    {
        &self.nodes
    }
}

/// Clone a named-graph list, preserving names, equivalence, and
/// well-formedness.
pub(crate) fn clone_graphs(gs: &Vec<(String, Graph)>) -> (r: Vec<(String, Graph)>)
    ensures
        r@.len() == gs@.len(),
        forall|i: int|
            0 <= i < r@.len() ==> (#[trigger] r@[i]).0 == gs@[i].0 && graph_eqv(
                r@[i].1,
                gs@[i].1,
            ) && (gs@[i].1.wf() ==> r@[i].1.wf()),
    decreases gs,
{
    let mut r: Vec<(String, Graph)> = Vec::new();
    let mut i: usize = 0;
    while i < gs.len()
        invariant
            i <= gs@.len(),
            r@.len() == i,
            forall|k: int|
                0 <= k < i ==> (#[trigger] r@[k]).0 == gs@[k].0 && graph_eqv(r@[k].1, gs@[k].1)
                    && (gs@[k].1.wf() ==> r@[k].1.wf()),
        decreases gs@.len() - i,
    {
        let e = &gs[i];
        r.push((e.0.clone(), e.1.clone()));
        i = i + 1;
    }
    r
}

impl Clone for Graph {
    fn clone(&self) -> (r: Self)
        ensures
            graph_eqv(r, *self),
            self.wf() ==> r.wf(),
        decreases self,
    {
        // variables
        let mut variables: Vec<(String, Variable)> = Vec::new();
        let mut i: usize = 0;
        while i < self.variables.len()
            invariant
                i <= self.variables@.len(),
                variables@.len() == i,
                forall|k: int| 0 <= k < i ==> #[trigger] variables@[k] == self.variables@[k],
            decreases self.variables@.len() - i,
        {
            let e = &self.variables[i];
            variables.push((e.0.clone(), e.1.clone()));
            i = i + 1;
        }
        // aliases
        let mut variable_aliases: Vec<(String, String)> = Vec::new();
        let mut j: usize = 0;
        while j < self.variable_aliases.len()
            invariant
                j <= self.variable_aliases@.len(),
                variable_aliases@.len() == j,
                forall|k: int|
                    0 <= k < j ==> #[trigger] variable_aliases@[k] == self.variable_aliases@[k],
            decreases self.variable_aliases@.len() - j,
        {
            let e = &self.variable_aliases[j];
            variable_aliases.push((e.0.clone(), e.1.clone()));
            j = j + 1;
        }
        // key-bindings
        let mut keys: Vec<(DimKey, Expr)> = Vec::new();
        let mut k: usize = 0;
        while k < self.keys.len()
            invariant
                k <= self.keys@.len(),
                keys@.len() == k,
                forall|k2: int|
                    0 <= k2 < k ==> (#[trigger] keys@[k2]).0 == self.keys@[k2].0 && keys@[k2].1@
                        == self.keys@[k2].1@ && (self.keys@[k2].1.wf() ==> keys@[k2].1.wf()),
            decreases self.keys@.len() - k,
        {
            let e = &self.keys[k];
            keys.push((e.0.clone(), e.1.clone()));
            k = k + 1;
        }
        // nodes
        let mut nodes: Vec<(GraphId, Node)> = Vec::new();
        let mut n: usize = 0;
        while n < self.nodes.len()
            invariant
                n <= self.nodes@.len(),
                nodes@.len() == n,
                forall|k2: int|
                    0 <= k2 < n ==> (#[trigger] nodes@[k2]).0 == self.nodes@[k2].0 && node_eqv(
                        nodes@[k2].1,
                        self.nodes@[k2].1,
                    ) && (node_wf(self.nodes@[k2].1) ==> node_wf(nodes@[k2].1)),
            decreases self.nodes@.len() - n,
        {
            let e = &self.nodes[n];
            nodes.push((e.0, e.1.clone()));
            n = n + 1;
        }
        let r = Graph {
            variables,
            variable_aliases,
            keys,
            graphs: clone_graphs(&self.graphs),
            nodes,
            shape_state: self.shape_state,
            is_extern: self.is_extern,
        };
        proof {
            assert(r.variables@ =~= self.variables@);
            assert(r.variable_aliases@ =~= self.variable_aliases@);
            assert(keys_v(r.keys@) =~= keys_v(self.keys@));
        }
        r
    }
}



/// The node chain of a well-formed graph is strictly increasing in the
/// lexicographic order of ids: every node's id validates as a successor of
/// its predecessor's, so all ids are pairwise distinct and the first node,
/// when any, is the input sentinel.
pub proof fn lemma_node_chain(g: Graph)
    requires
        g.wf(),
    ensures
        forall|i: int, j: int|
            0 <= i < j < g.nodes@.len() ==> (#[trigger] g.nodes@[i]).0.spec_lt(
                (#[trigger] g.nodes@[j]).0,
            ),
        forall|i: int, j: int|
            0 <= i < j < g.nodes@.len() ==> (#[trigger] g.nodes@[i]).0 != (
            #[trigger] g.nodes@[j]).0,
        g.nodes@.len() > 0 ==> g.nodes@[0].0 == GraphId::spec_input(),
{
    assert forall|i: int, j: int|
        0 <= i < j < g.nodes@.len() implies (#[trigger] g.nodes@[i]).0.spec_lt(
        (#[trigger] g.nodes@[j]).0,
    ) by {
        lemma_chain_lt(g, i, j);
    }
}

/// Strict order between any two chained ids, by induction on the gap.
proof fn lemma_chain_lt(g: Graph, i: int, j: int)
    requires
        g.wf(),
        0 <= i < j < g.nodes@.len(),
    ensures
        g.nodes@[i].0.spec_lt(g.nodes@[j].0),
    decreases j - i,
{
    if j == i + 1 {
        assert(g.nodes@[j].0.spec_validate(g.nodes@[j - 1].0));
        g.nodes@[j].0.lemma_validate_increases(g.nodes@[i].0);
    } else {
        lemma_chain_lt(g, i, j - 1);
        assert(g.nodes@[j].0.spec_validate(g.nodes@[j - 1].0));
        g.nodes@[j].0.lemma_validate_increases(g.nodes@[j - 1].0);
    }
}

/// First index of `k` among string-keyed entries, or `-1`.
pub open spec fn assoc_find<T>(s: Seq<(String, T)>, k: Seq<char>) -> int
    decreases s.len(),
{
    if s.len() == 0 {
        -1
    } else if s.first().0@ == k {
        0
    } else {
        let r = assoc_find(s.drop_first(), k);
        if r == -1 {
            -1
        } else {
            r + 1
        }
    }
}

pub proof fn lemma_assoc_find<T>(s: Seq<(String, T)>, k: Seq<char>)
    ensures
        assoc_find(s, k) == -1 ==> forall|i: int| 0 <= i < s.len() ==> (#[trigger] s[i]).0@ != k,
        assoc_find(s, k) != -1 ==> 0 <= assoc_find(s, k) < s.len() && s[assoc_find(s, k)].0@ == k
            && forall|i: int| 0 <= i < assoc_find(s, k) ==> (#[trigger] s[i]).0@ != k,
    decreases s.len(),
{
    if s.len() == 0 {
    } else if s.first().0@ == k {
    } else {
        lemma_assoc_find(s.drop_first(), k);
        assert forall|i: int| 1 <= i < s.len() implies s[i] == s.drop_first()[i - 1] by {}
    }
}

/// Under distinct keys, an entry is found exactly at its own index.
pub proof fn lemma_assoc_find_at<T>(s: Seq<(String, T)>, j: int)
    requires
        distinct_str_keys(s),
        0 <= j < s.len(),
    ensures
        assoc_find(s, s[j].0@) == j,
{
    lemma_assoc_find(s, s[j].0@);
    let f = assoc_find(s, s[j].0@);
    if f == -1 {
        assert(s[j].0@ != s[j].0@);
    } else {
        if f < j {
            assert(s[f].0@ != s[j].0@);
        }
        if f > j {
            assert(s[j].0@ != s[j].0@);
        }
    }
}

/// Scan string-keyed entries for the first entry named `key`.
pub(crate) fn assoc_idx<T>(v: &Vec<(String, T)>, key: &String) -> (r: Option<usize>)
    ensures
        r matches Some(i) ==> i < v@.len() && assoc_find(v@, key@) == i,
        r is None ==> assoc_find(v@, key@) == -1,
{
    let mut i: usize = 0;
    while i < v.len()
        invariant
            i <= v@.len(),
            forall|j: int| 0 <= j < i ==> (#[trigger] v@[j]).0@ != key@,
        decreases v@.len() - i,
    {
        if v[i].0 == *key {
            proof {
                lemma_assoc_find(v@, key@);
                if assoc_find(v@, key@) == -1 {
                    assert(v@[i as int].0@ != key@);
                }
                let f = assoc_find(v@, key@);
                if f < i {
                    assert(v@[f].0@ != key@);
                }
                if f > i {
                    assert(v@[i as int].0@ != key@);
                }
            }
            return Some(i);
        }
        i = i + 1;
    }
    proof {
        lemma_assoc_find(v@, key@);
        if assoc_find(v@, key@) != -1 {
            assert(v@[assoc_find(v@, key@)].0@ != key@);
        }
    }
    None
}

/// First index of a key among the bindings, or `-1`.
pub open spec fn key_find(s: Seq<(DimKey, Expr)>, k: (bool, Seq<char>, bool)) -> int
    decreases s.len(),
{
    if s.len() == 0 {
        -1
    } else if s.first().0.kv() == k {
        0
    } else {
        let r = key_find(s.drop_first(), k);
        if r == -1 {
            -1
        } else {
            r + 1
        }
    }
}

pub proof fn lemma_key_find(s: Seq<(DimKey, Expr)>, k: (bool, Seq<char>, bool))
    ensures
        key_find(s, k) == -1 ==> forall|i: int|
            0 <= i < s.len() ==> (#[trigger] s[i]).0.kv() != k,
        key_find(s, k) != -1 ==> 0 <= key_find(s, k) < s.len() && s[key_find(s, k)].0.kv() == k
            && forall|i: int| 0 <= i < key_find(s, k) ==> (#[trigger] s[i]).0.kv() != k,
    decreases s.len(),
{
    if s.len() == 0 {
    } else if s.first().0.kv() == k {
    } else {
        lemma_key_find(s.drop_first(), k);
        assert forall|i: int| 1 <= i < s.len() implies s[i] == s.drop_first()[i - 1] by {}
    }
}

/// Scan the bindings for a key.
pub(crate) fn key_idx(v: &Vec<(DimKey, Expr)>, key: &DimKey) -> (r: Option<usize>)
    ensures
        r matches Some(i) ==> i < v@.len() && key_find(v@, key.kv()) == i,
        r is None ==> key_find(v@, key.kv()) == -1,
{
    let mut i: usize = 0;
    while i < v.len()
        invariant
            i <= v@.len(),
            forall|j: int| 0 <= j < i ==> (#[trigger] v@[j]).0.kv() != key.kv(),
        decreases v@.len() - i,
    {
        if v[i].0.key_eq(key) {
            proof {
                lemma_key_find(v@, key.kv());
                let f = key_find(v@, key.kv());
                if f == -1 {
                    assert(v@[i as int].0.kv() != key.kv());
                }
                if 0 <= f < i {
                    assert(v@[f].0.kv() != key.kv());
                }
                if f > i {
                    assert(v@[i as int].0.kv() != key.kv());
                }
            }
            return Some(i);
        }
        i = i + 1;
    }
    proof {
        lemma_key_find(v@, key.kv());
        if key_find(v@, key.kv()) != -1 {
            assert(v@[key_find(v@, key.kv())].0.kv() != key.kv());
        }
    }
    None
}

/// Whether the bindings hold the key.
pub open spec fn keys_has(s: Seq<(DimKey, Expr)>, k: (bool, Seq<char>, bool)) -> bool {
    key_find(s, k) >= 0
}

/// Insert or replace one binding, keeping keys distinct and expressions
/// well-formed.
pub(crate) fn keys_insert(keys: &mut Vec<(DimKey, Expr)>, key: DimKey, value: Expr)
    requires
        keys_wf(old(keys)@),
        value.wf(),
    ensures
        keys_wf(final(keys)@),
        keys_has(final(keys)@, key.kv()),
        ({
            let f = key_find(final(keys)@, key.kv());
            final(keys)@[f].1@ == value@
        }),
        forall|k2: (bool, Seq<char>, bool)|
            k2 != key.kv() ==> #[trigger] key_find(final(keys)@, k2) == key_find(old(keys)@, k2),
        forall|k2: (bool, Seq<char>, bool)|
            k2 != key.kv() && key_find(old(keys)@, k2) >= 0 ==> (#[trigger] final(keys)@[key_find(
                old(keys)@,
                k2,
            )].1)@ == old(keys)@[key_find(old(keys)@, k2)].1@,
    {
        let ghost gkey = key;
        let ghost gvalue = value;
        let r = key_idx(keys, &key);
        match r {
            Some(i) => {
                let _ = keys.remove(i);
                keys.insert(i, (key, value));
                proof {
                    assert(keys@ =~= old(keys)@.update(i as int, (gkey, gvalue)));
                    lemma_keys_update(old(keys)@, keys@, i as int, gkey, gvalue);
                }
            },
            None => {
                keys.push((key, value));
                proof {
                    assert(keys@ =~= old(keys)@.push((gkey, gvalue)));
                    lemma_keys_push(old(keys)@, keys@, gkey, gvalue);
                }
            },
        }
    }

/// Replacing the entry at the key's own first index keeps all other
/// lookups and leaves the bindings well-formed.
proof fn lemma_keys_update(
    olds: Seq<(DimKey, Expr)>,
    news: Seq<(DimKey, Expr)>,
    i: int,
    key: DimKey,
    value: Expr,
)
    requires
        keys_wf(olds),
        value.wf(),
        0 <= i < olds.len(),
        key_find(olds, key.kv()) == i,
        news == olds.update(i, (key, value)),
    ensures
        keys_wf(news),
        keys_has(news, key.kv()),
        news[key_find(news, key.kv())].1@ == value@,
        forall|k2: (bool, Seq<char>, bool)|
            k2 != key.kv() ==> #[trigger] key_find(news, k2) == key_find(olds, k2),
        forall|k2: (bool, Seq<char>, bool)|
            k2 != key.kv() && key_find(olds, k2) >= 0 ==> (#[trigger] news[key_find(
                olds,
                k2,
            )].1)@ == olds[key_find(olds, k2)].1@,
{
    lemma_key_find(olds, key.kv());
    assert(olds[i].0.kv() == key.kv());
    assert(keys_wf(news)) by {
        assert forall|a: int, b: int| 0 <= a < b < news.len() implies (#[trigger] news[a]).0.kv()
            != (#[trigger] news[b]).0.kv() by {
            assert(olds[a].0.kv() != olds[b].0.kv());
        }
        assert forall|a: int| 0 <= a < news.len() implies (#[trigger] news[a]).1.wf() by {
            assert(olds[a].1.wf());
        }
    }
    assert forall|k2: (bool, Seq<char>, bool)| true implies #[trigger] key_find(news, k2) == (
    if k2 == key.kv() {
        i
    } else {
        key_find(olds, k2)
    }) by {
        lemma_key_find_update(olds, news, i, key, value, k2);
    }
    assert(key_find(news, key.kv()) == i);
    assert(news[i] == (key, value));
    assert forall|k2: (bool, Seq<char>, bool)|
        k2 != key.kv() && key_find(olds, k2) >= 0 implies (#[trigger] news[key_find(
        olds,
        k2,
    )].1)@ == olds[key_find(olds, k2)].1@ by {
        lemma_key_find(olds, k2);
        assert(olds[key_find(olds, k2)].0.kv() == k2);
        assert(key_find(olds, k2) != i);
    }
}

/// How one replaced entry moves first-match lookups.
proof fn lemma_key_find_update(
    olds: Seq<(DimKey, Expr)>,
    news: Seq<(DimKey, Expr)>,
    i: int,
    key: DimKey,
    value: Expr,
    k2: (bool, Seq<char>, bool),
)
    requires
        keys_wf(olds),
        0 <= i < olds.len(),
        olds[i].0.kv() == key.kv(),
        key_find(olds, key.kv()) == i,
        news == olds.update(i, (key, value)),
    ensures
        key_find(news, k2) == (if k2 == key.kv() {
            i
        } else {
            key_find(olds, k2)
        }),
    decreases olds.len(),
{
    lemma_key_find(olds, k2);
    lemma_key_find(news, k2);
    assert(news.len() == olds.len());
    assert forall|a: int| 0 <= a < news.len() implies (#[trigger] news[a]).0.kv() == olds[a].0.kv()
        by {}
    if k2 == key.kv() {
        let f = key_find(news, k2);
        if f == -1 {
            assert(news[i].0.kv() != k2);
        } else {
            if f < i {
                assert(olds[f].0.kv() != k2);
                assert(news[f].0.kv() == k2);
            }
            if f > i {
                assert(news[i].0.kv() != k2);
            }
        }
    } else {
        let fo = key_find(olds, k2);
        let fn2 = key_find(news, k2);
        if fo == -1 {
            if fn2 != -1 {
                assert(olds[fn2].0.kv() != k2);
                assert(news[fn2].0.kv() == k2);
            }
        } else {
            assert(olds[fo].0.kv() == k2);
            assert(news[fo].0.kv() == k2);
            if fn2 == -1 {
                assert(news[fo].0.kv() != k2);
            } else {
                if fn2 < fo {
                    assert(olds[fn2].0.kv() != k2);
                }
                if fn2 > fo {
                    assert(news[fo].0.kv() != k2);
                }
            }
        }
    }
}

/// Pushing a fresh key keeps all other lookups and well-formedness.
proof fn lemma_keys_push(
    olds: Seq<(DimKey, Expr)>,
    news: Seq<(DimKey, Expr)>,
    key: DimKey,
    value: Expr,
)
    requires
        keys_wf(olds),
        value.wf(),
        key_find(olds, key.kv()) == -1,
        news == olds.push((key, value)),
    ensures
        keys_wf(news),
        keys_has(news, key.kv()),
        news[key_find(news, key.kv())].1@ == value@,
        forall|k2: (bool, Seq<char>, bool)|
            k2 != key.kv() ==> #[trigger] key_find(news, k2) == key_find(olds, k2),
        forall|k2: (bool, Seq<char>, bool)|
            k2 != key.kv() && key_find(olds, k2) >= 0 ==> (#[trigger] news[key_find(
                olds,
                k2,
            )].1)@ == olds[key_find(olds, k2)].1@,
{
    lemma_key_find(olds, key.kv());
    assert(keys_wf(news)) by {
        assert forall|a: int, b: int| 0 <= a < b < news.len() implies (#[trigger] news[a]).0.kv()
            != (#[trigger] news[b]).0.kv() by {
            if b == news.len() - 1 {
                assert(olds[a].0.kv() != key.kv());
            } else {
                assert(olds[a].0.kv() != olds[b].0.kv());
            }
        }
        assert forall|a: int| 0 <= a < news.len() implies (#[trigger] news[a]).1.wf() by {
            if a < news.len() - 1 {
                assert(olds[a].1.wf());
            }
        }
    }
    assert forall|k2: (bool, Seq<char>, bool)| true implies #[trigger] key_find(news, k2) == (
    if k2 == key.kv() {
        olds.len() as int
    } else {
        key_find(olds, k2)
    }) by {
        lemma_key_find_push(olds, news, key, value, k2);
    }
    assert(keys_has(news, key.kv()));
    assert(key_find(news, key.kv()) == olds.len());
    assert(news[olds.len() as int] == (key, value));
    assert forall|k2: (bool, Seq<char>, bool)|
        k2 != key.kv() && key_find(olds, k2) >= 0 implies (#[trigger] news[key_find(
        olds,
        k2,
    )].1)@ == olds[key_find(olds, k2)].1@ by {
        lemma_key_find(olds, k2);
        assert(news[key_find(olds, k2)] == olds[key_find(olds, k2)]);
    }
}

/// How one pushed entry moves first-match lookups.
proof fn lemma_key_find_push(
    olds: Seq<(DimKey, Expr)>,
    news: Seq<(DimKey, Expr)>,
    key: DimKey,
    value: Expr,
    k2: (bool, Seq<char>, bool),
)
    requires
        key_find(olds, key.kv()) == -1,
        news == olds.push((key, value)),
    ensures
        key_find(news, k2) == (if k2 == key.kv() {
            olds.len() as int
        } else {
            key_find(olds, k2)
        }),
{
    lemma_key_find(olds, k2);
    lemma_key_find(news, k2);
    lemma_key_find(olds, key.kv());
    let fo = key_find(olds, k2);
    let fn2 = key_find(news, k2);
    assert(news.len() == olds.len() + 1);
    assert forall|a: int| 0 <= a < olds.len() implies (#[trigger] news[a]) == olds[a] by {}
    assert(news[olds.len() as int].0.kv() == key.kv());
    if k2 == key.kv() {
        if fn2 == -1 {
            assert(news[olds.len() as int].0.kv() != k2);
        } else if fn2 < olds.len() {
            assert(olds[fn2].0.kv() == k2);
            assert(olds[fn2].0.kv() != key.kv());
        }
    } else {
        if fo == -1 {
            if fn2 != -1 {
                if fn2 < olds.len() {
                    assert(olds[fn2].0.kv() != k2);
                    assert(news[fn2].0.kv() == k2);
                } else {
                    assert(news[fn2].0.kv() == key.kv());
                }
            }
        } else {
            assert(news[fo].0.kv() == k2);
            if fn2 == -1 {
                assert(news[fo].0.kv() != k2);
            } else {
                if fn2 < fo {
                    assert(olds[fn2].0.kv() != k2);
                }
                if fn2 > fo {
                    assert(news[fo].0.kv() != k2);
                }
            }
        }
    }
}


/// Insert or replace one string-keyed entry, keeping keys distinct.
pub(crate) fn assoc_set<T>(v: &mut Vec<(String, T)>, key: String, val: T)
    requires
        distinct_str_keys(old(v)@),
    ensures
        distinct_str_keys(final(v)@),
        assoc_find(old(v)@, key@) >= 0 ==> final(v)@ == old(v)@.update(
            assoc_find(old(v)@, key@),
            (key, val),
        ),
        assoc_find(old(v)@, key@) < 0 ==> final(v)@ == old(v)@.push((key, val)),
        assoc_find(final(v)@, key@) >= 0,
{
    let ghost gk = key;
    let ghost gv = val;
    let r = assoc_idx(v, &key);
    match r {
        Some(i) => {
            proof {
                lemma_assoc_find(old(v)@, key@);
            }
            let _ = v.remove(i);
            v.insert(i, (key, val));
            proof {
                assert(v@ =~= old(v)@.update(i as int, (gk, gv)));
                assert(v@[i as int].0@ == gk@);
                assert(distinct_str_keys(v@)) by {
                    assert forall|a: int, b: int| 0 <= a < b < v@.len() implies (#[trigger] v@[
                        a
                    ]).0@ != (#[trigger] v@[b]).0@ by {
                        assert(old(v)@[a].0@ != old(v)@[b].0@);
                        assert(old(v)@[i as int].0@ == gk@);
                    }
                }
                lemma_assoc_find(v@, gk@);
                if assoc_find(v@, gk@) == -1 {
                    assert(v@[i as int].0@ != gk@);
                }
            }
        },
        None => {
            proof {
                lemma_assoc_find(old(v)@, key@);
            }
            v.push((key, val));
            proof {
                assert(v@ =~= old(v)@.push((gk, gv)));
                assert(distinct_str_keys(v@)) by {
                    assert forall|a: int, b: int| 0 <= a < b < v@.len() implies (#[trigger] v@[
                        a
                    ]).0@ != (#[trigger] v@[b]).0@ by {
                        if b < v@.len() - 1 {
                            assert(old(v)@[a].0@ != old(v)@[b].0@);
                        } else {
                            assert(old(v)@[a].0@ != gk@);
                        }
                    }
                }
                lemma_assoc_find(v@, gk@);
                if assoc_find(v@, gk@) == -1 {
                    assert(v@[v@.len() - 1].0@ != gk@);
                }
            }
        },
    }
}


/// First-match lookup depends on the key strings alone.
pub proof fn lemma_assoc_find_same_keys<T>(s1: Seq<(String, T)>, s2: Seq<(String, T)>, k: Seq<char>)
    requires
        s1.len() == s2.len(),
        forall|i: int| 0 <= i < s1.len() ==> (#[trigger] s1[i]).0@ == (#[trigger] s2[i]).0@,
    ensures
        assoc_find(s1, k) == assoc_find(s2, k),
    decreases s1.len(),
{
    if s1.len() > 0 {
        assert(s1[0].0@ == s2[0].0@);
        assert forall|i: int|
            0 <= i < s1.drop_first().len() implies (#[trigger] s1.drop_first()[i]).0@ == (
        #[trigger] s2.drop_first()[i]).0@ by {
            assert(s1.drop_first()[i] == s1[i + 1]);
            assert(s2.drop_first()[i] == s2[i + 1]);
        }
        lemma_assoc_find_same_keys(s1.drop_first(), s2.drop_first(), k);
    }
}

impl Graph {
    /// A variable with this canonical name exists.
    pub open spec fn has_var(self, name: Seq<char>) -> bool {
        assoc_find(self.variables@, name) >= 0
    }

    /// A node with this id exists.
    pub open spec fn has_node(self, id: GraphId) -> bool {
        exists|i: int| 0 <= i < self.nodes@.len() && (#[trigger] self.nodes@[i]).0 == id
    }

    /// This id is recorded, and nothing recorded after it carries the same
    /// node number: it is the most recent id of that number.
    pub open spec fn latest_of_node(self, id: GraphId) -> bool {
        exists|i: int|
            0 <= i < self.nodes@.len() && (#[trigger] self.nodes@[i]).0 == id && (forall|j: int|
                i < j < self.nodes@.len() ==> (#[trigger] self.nodes@[j]).0.node != id.node)
    }

    /// Bind one key; values above the coefficient range stay unbound so the
    /// dimension keeps its symbolic form.
    fn bind_uint(&mut self, name: &String, value: u64)
        requires
            keys_wf(old(self).keys@),
        ensures
            keys_wf(final(self).keys@),
            value <= 0x7fff_ffff_ffff_ffff ==> ({
                let kf = key_find(final(self).keys@, (true, name@, false));
                kf >= 0 && final(self).keys@[kf].1@ == (
                    crate::algebra::const_terms(value as int),
                    crate::algebra::one_terms(),
                )
            }),
            value > 0x7fff_ffff_ffff_ffff ==> final(self).keys@ == old(self).keys@,
            final(self).variables == old(self).variables,
            final(self).variable_aliases == old(self).variable_aliases,
            final(self).graphs == old(self).graphs,
            final(self).nodes == old(self).nodes,
            final(self).shape_state == old(self).shape_state,
            final(self).is_extern == old(self).is_extern,
    {
        if value <= 0x7fff_ffff_ffff_ffff {
            let key = DimKey::Variable(name.clone());
            proof {
                assert(key.kv() == (true, name@, false));
            }
            keys_insert(&mut self.keys, key, Expr::from_u64(value));
        }
    }

    /// Register a declared parameter.  A redefinition updates the stored
    /// value through the type check; a fresh declaration records the
    /// variable, its alias, and, for an unsigned value, its key-binding.
    pub(crate) fn add_variable(&mut self, alias: Option<String>, variable: Variable) -> (r:
        Result<(), GraphError>)
        requires
            old(self).wf(),
        ensures
            final(self).wf(),
            final(self).nodes == old(self).nodes,
            final(self).graphs == old(self).graphs,
            final(self).shape_state == old(self).shape_state,
            final(self).is_extern == old(self).is_extern,
            r is Err ==> r matches Err(GraphError::DifferentVariableType { .. }),
            r is Ok ==> final(self).has_var(variable.description@),
            ({
                let desc = variable.description@;
                let f = assoc_find(old(self).variables@, desc);
                &&& f < 0 ==> {
                    &&& r is Ok
                    &&& final(self).variables@.len() == old(self).variables@.len() + 1
                    &&& final(self).variables@.last().0@ == desc
                    &&& final(self).variables@.last().1 == variable
                    &&& forall|k: int|
                        0 <= k < old(self).variables@.len()
                            ==> #[trigger] final(self).variables@[k] == old(self).variables@[k]
                    &&& (alias matches Some(a) ==> ({
                        let af = assoc_find(final(self).variable_aliases@, a@);
                        af >= 0 && final(self).variable_aliases@[af].1@ == desc
                    }))
                }
                &&& f >= 0 ==> {
                    &&& (variable.value is None ==> r is Ok
                        && final(self).variables@ == old(self).variables@)
                    &&& (variable.value matches Some(v) ==> {
                        &&& (r is Ok <==> (old(self).variables@[f].1.ty == variable.ty
                            || old(self).variables@[f].1.ty == ValueType::Required))
                        &&& (r is Ok ==> final(self).variables@[f].1.value == Some(v)
                            && final(self).variables@[f].1.ty == variable.ty)
                    })
                }
                &&& (variable.value matches Some(crate::ast::Value::UInt(u)) ==> (u
                    <= 0x7fff_ffff_ffff_ffff ==> ({
                    let kf = key_find(final(self).keys@, (true, desc, false));
                    kf >= 0 && final(self).keys@[kf].1@ == (
                        crate::algebra::const_terms(u as int),
                        crate::algebra::one_terms(),
                    )
                })))
            }),
    {
        let uint = match &variable.value {
            Some(crate::ast::Value::UInt(v)) => Some(*v),
            _ => None,
        };
        match assoc_idx(&self.variables, &variable.description) {
            Some(_) => {
                proof {
                    lemma_assoc_find(self.variables@, variable.description@);
                }
                if let Some(v) = uint {
                    self.bind_uint(&variable.description, v);
                }
                match &variable.value {
                    Some(val) => {
                        let reg = match &alias {
                            Some(a) => Some(a.clone()),
                            None => None,
                        };
                        let res = self.update_variable(
                            Some(variable.description.clone()),
                            reg,
                            val.clone(),
                            variable.ty,
                        );
                        if let Err(e) = res {
                            return Err(e);
                        }
                        proof {
                            lemma_assoc_find_same_keys(
                                self.variables@,
                                old(self).variables@,
                                variable.description@,
                            );
                        }
                        Ok(())
                    },
                    None => Ok(()),
                }
            },
            None => {
                if let Some(a) = &alias {
                    assoc_set(&mut self.variable_aliases, a.clone(), variable.description.clone());
                    proof {
                        let aset = self.variable_aliases@;
                        let pre = old(self).variable_aliases@;
                        let j = assoc_find(pre, a@);
                        if j >= 0 {
                            lemma_assoc_find(pre, a@);
                            lemma_assoc_find_at(aset, j);
                        } else {
                            lemma_assoc_find_at(aset, pre.len() as int);
                        }
                    }
                }
                if let Some(v) = uint {
                    self.bind_uint(&variable.description, v);
                }
                assoc_set(&mut self.variables, variable.description.clone(), variable.clone());
                proof {
                    lemma_assoc_find(self.variables@, variable.description@);
                    if assoc_find(self.variables@, variable.description@) < 0 {
                        assert(self.variables@.last().0@ != variable.description@);
                    }
                }
                Ok(())
            },
        }
    }

    /// The canonical name a variable update addresses: the given name, else
    /// the alias's mapping, else the alias itself.
    pub open spec fn resolve_target(self, name: Option<String>, alias: Option<String>) -> Seq<
        char,
    > {
        match name {
            Some(n) => n@,
            None => match alias {
                Some(a) => {
                    let f = assoc_find(self.variable_aliases@, a@);
                    if f >= 0 {
                        self.variable_aliases@[f].1@
                    } else {
                        a@
                    }
                },
                None => Seq::empty(),
            },
        }
    }

    /// Bind a value into an existing variable, found by canonical name, or
    /// else through the alias map, or else under the alias itself.  On
    /// success the value is stored, a new alias is registered, and an
    /// unsigned value enters the key-bindings.
    pub(crate) fn update_variable(
        &mut self,
        name: Option<String>,
        alias: Option<String>,
        value: crate::ast::Value,
        ty: ValueType,
    ) -> (r: Result<(), GraphError>)
        requires
            old(self).wf(),
            name is Some || alias is Some,
        ensures
            final(self).wf(),
            final(self).nodes == old(self).nodes,
            final(self).graphs == old(self).graphs,
            final(self).shape_state == old(self).shape_state,
            final(self).is_extern == old(self).is_extern,
            r is Err ==> (r matches Err(GraphError::NoSuchVariable { .. }) || r matches Err(
                GraphError::DifferentVariableType { .. },
            )),
            final(self).variables@.len() == old(self).variables@.len(),
            forall|k: int|
                0 <= k < final(self).variables@.len() ==> (#[trigger] final(self).variables@[
                    k
                ]).0@ == old(self).variables@[k].0@,
            ({
                let t = old(self).resolve_target(name, alias);
                let f = assoc_find(old(self).variables@, t);
                &&& ((r matches Err(GraphError::NoSuchVariable { .. })) <==> f < 0)
                &&& (r matches Err(GraphError::NoSuchVariable { name: n2 }) ==> n2@ == t)
                &&& f >= 0 ==> ({
                    let v0 = old(self).variables@[f].1;
                    &&& (r is Ok <==> (v0.ty == ty || v0.ty == ValueType::Required))
                    &&& r is Ok ==> final(self).variables@[f].1 == (Variable {
                        description: v0.description,
                        ty,
                        value: Some(value),
                    })
                    &&& r is Ok ==> forall|k: int|
                        0 <= k < final(self).variables@.len() && k != f
                            ==> #[trigger] final(self).variables@[k] == old(self).variables@[k]
                    &&& (value matches crate::ast::Value::UInt(u) ==> (r is Ok && u
                        <= 0x7fff_ffff_ffff_ffff ==> ({
                        let kf = key_find(final(self).keys@, (true, t, false));
                        kf >= 0 && final(self).keys@[kf].1@ == (
                            crate::algebra::const_terms(u as int),
                            crate::algebra::one_terms(),
                        )
                    })))
                })
                &&& (alias matches Some(a) ==> (r is Ok && name is Some ==> ({
                    let af = assoc_find(final(self).variable_aliases@, a@);
                    af >= 0 && final(self).variable_aliases@[af].1@ == t
                })))
            }),
            r is Err ==> final(self).variables@ == old(self).variables@ && final(self).keys
                == old(self).keys && final(self).variable_aliases == old(self).variable_aliases,
            !(value matches crate::ast::Value::UInt(..)) ==> final(self).keys == old(self).keys,
            name is None ==> final(self).variable_aliases == old(self).variable_aliases,
    {
        // resolve the target's canonical name
        let (target, reg_alias): (String, Option<String>) = match (&name, &alias) {
            (Some(n), Some(a)) => (n.clone(), Some(a.clone())),
            (Some(n), None) => (n.clone(), None),
            (None, Some(a)) => {
                match assoc_idx(&self.variable_aliases, a) {
                    Some(i) => {
                        proof {
                            lemma_assoc_find(self.variable_aliases@, a@);
                        }
                        (self.variable_aliases[i].1.clone(), None)
                    },
                    None => (a.clone(), None),
                }
            },
            (None, None) => {
                proof {
                    assert(false);
                }
                return Err(GraphError::NoSuchVariable { name: String::new() });
            },
        };
        proof {
            assert(target@ == old(self).resolve_target(name, alias));
        }
        match assoc_idx(&self.variables, &target) {
            Some(i) => {
                proof {
                    lemma_assoc_find(self.variables@, target@);
                }
                let ghost oldvars = self.variables@;
                let mut entry = self.variables.remove(i);
                let res = entry.1.update(value, ty);
                match res {
                    Ok(()) => {
                        let ghost gentry = entry;
                        self.variables.insert(i, entry);
                        proof {
                            assert(self.variables@ =~= oldvars.update(i as int, gentry));
                            assert(distinct_str_keys(self.variables@)) by {
                                assert forall|a2: int, b2: int|
                                    0 <= a2 < b2 < self.variables@.len() implies (
                                #[trigger] self.variables@[a2]).0@ != (#[trigger] self.variables@[
                                    b2
                                ]).0@ by {
                                    assert(oldvars[a2].0@ != oldvars[b2].0@);
                                    assert(gentry.0@ == oldvars[i as int].0@);
                                }
                            }
                        }
                        if let Some(al) = reg_alias {
                            assoc_set(&mut self.variable_aliases, al, target.clone());
                        }
                        let uint = match &self.variables[i].1.value {
                            Some(crate::ast::Value::UInt(v)) => Some(*v),
                            _ => None,
                        };
                        if let Some(v) = uint {
                            self.bind_uint(&target, v);
                        }
                        proof {
                            assert(self.variables@[i as int].1.ty == ty);
                            assert(self.variables@[i as int].1.value == Some(value));
                            let t = old(self).resolve_target(name, alias);
                            assert(t == target@);
                            if name is Some {
                                if let Some(a) = alias {
                                    let af = assoc_find(self.variable_aliases@, a@);
                                    let aset = self.variable_aliases@;
                                    let pre = old(self).variable_aliases@;
                                    let j = assoc_find(pre, a@);
                                    if j >= 0 {
                                        lemma_assoc_find(pre, a@);
                                        assert(aset[j] == (aset[j].0, aset[j].1));
                                        lemma_assoc_find_at(aset, j);
                                        assert(aset[j].0@ == a@ && aset[j].1@ == t);
                                    } else {
                                        lemma_assoc_find_at(aset, pre.len() as int);
                                        assert(aset[pre.len() as int].0@ == a@ && aset[
                                            pre.len() as int
                                        ].1@ == t);
                                    }
                                }
                            }
                        }
                        Ok(())
                    },
                    Err(e) => {
                        self.variables.insert(i, entry);
                        proof {
                            assert(self.variables@ =~= oldvars);
                        }
                        Err(e)
                    },
                }
            },
            None => Err(GraphError::NoSuchVariable { name: target }),
        }
    }

    /// Register a compiled sub-model under its name.
    pub(crate) fn add_graph(&mut self, name: String, graph: Graph)
        requires
            old(self).wf(),
            graph.wf(),
        ensures
            final(self).wf(),
            final(self).nodes == old(self).nodes,
            final(self).variables == old(self).variables,
            final(self).variable_aliases == old(self).variable_aliases,
            final(self).keys == old(self).keys,
            final(self).shape_state == old(self).shape_state,
            final(self).is_extern == old(self).is_extern,
            assoc_find(final(self).graphs@, name@) >= 0,
    {
        graphs_set(&mut self.graphs, name, graph);
    }

    /// Look a registered sub-model up by name, yielding a structurally
    /// equivalent copy.
    pub(crate) fn find_graph(&self, name: &String) -> (r: Option<Graph>)
        requires
            self.wf(),
        ensures
            r is Some <==> assoc_find(self.graphs@, name@) >= 0,
            r matches Some(g) ==> g.wf() && graph_eqv(
                g,
                self.graphs@[assoc_find(self.graphs@, name@)].1,
            ),
    {
        match assoc_idx(&self.graphs, name) {
            Some(i) => {
                proof {
                    lemma_assoc_find(self.graphs@, name@);
                }
                Some(self.graphs[i].1.clone())
            },
            None => None,
        }
    }

    /// The id of the last node.
    pub(crate) fn get_last_node_id(&self) -> (r: GraphId)
        requires
            self.nodes@.len() > 0,
        ensures
            r == self.nodes@.last().0,
    {
        self.nodes[self.nodes.len() - 1].0
    }

    /// The name of the last node.
    pub(crate) fn get_last_node_name(&self) -> (r: &String)
        requires
            self.nodes@.len() > 0,
        ensures
            r == &self.nodes@.last().1.name,
    {
        &self.nodes[self.nodes.len() - 1].1.name
    }

    /// The shapes of the first node.
    pub(crate) fn get_first_shapes(&self) -> (r: &Shapes)
        requires
            self.nodes@.len() > 0,
        ensures
            r == &self.nodes@[0].1.shapes,
    {
        &self.nodes[0].1.shapes
    }

    /// The most recently recorded id whose node number is `node`.
    pub(crate) fn get_last_specific_node_id(&self, node: u64, query_id: &GraphId) -> (r: Result<
        GraphId,
        GraphError,
    >)
        ensures
            r matches Ok(id) ==> self.has_node(id) && id.node == node,
            // the answer is the most recent such id: nothing after it in the
            // chain carries the same node number
            r matches Ok(id) ==> self.latest_of_node(id),
            r is Err <==> (forall|i: int|
                0 <= i < self.nodes@.len() ==> (#[trigger] self.nodes@[i]).0.node != node),
            r is Err ==> r == Result::<GraphId, GraphError>::Err(
                GraphError::NoSuchNode { query_id: *query_id, node },
            ),
    {
        let mut i: usize = self.nodes.len();
        while i > 0
            invariant
                i <= self.nodes@.len(),
                forall|j: int| i <= j < self.nodes@.len() ==> (#[trigger] self.nodes@[j]).0.node
                    != node,
            decreases i,
        {
            i = i - 1;
            if self.nodes[i].0.node == node {
                proof {
                    let w = i as int;
                    assert(self.nodes@[w].0 == self.nodes@[w].0);
                    assert(self.latest_of_node(self.nodes@[w].0));
                }
                return Ok(self.nodes[i].0);
            }
        }
        Err(GraphError::NoSuchNode { query_id: *query_id, node })
    }

    /// Find a node by id.
    pub(crate) fn node_idx(&self, id: &GraphId) -> (r: Option<usize>)
        ensures
            r matches Some(i) ==> i < self.nodes@.len() && self.nodes@[i as int].0 == *id
                && node_find(self.nodes@, *id) == i,
            r is None ==> !self.has_node(*id),
    {
        let mut i: usize = 0;
        while i < self.nodes.len()
            invariant
                i <= self.nodes@.len(),
                forall|j: int| 0 <= j < i ==> (#[trigger] self.nodes@[j]).0 != *id,
            decreases self.nodes@.len() - i,
        {
            if self.nodes[i].0 == *id {
                proof {
                    lemma_node_find(self.nodes@, *id);
                    let f = node_find(self.nodes@, *id);
                    if f == -1 {
                        assert(self.nodes@[i as int].0 != *id);
                    }
                    if 0 <= f < i {
                        assert(self.nodes@[f].0 != *id);
                    }
                    if f > i {
                        assert(self.nodes@[i as int].0 != *id);
                    }
                }
                return Some(i);
            }
            i = i + 1;
        }
        proof {
            if self.has_node(*id) {
                let w = choose|w: int|
                    0 <= w < self.nodes@.len() && (#[trigger] self.nodes@[w]).0 == *id;
                assert(self.nodes@[w].0 != *id);
            }
        }
        None
    }

    /// Replace the last node's shapes.
    #[verifier::rlimit(100)]
    pub(crate) fn set_last_shapes(&mut self, shapes: Shapes)
        requires
            old(self).wf(),
            old(self).nodes@.len() > 0,
            shapes.wf(),
        ensures
            final(self).wf(),
            final(self).nodes@.len() == old(self).nodes@.len(),
            final(self).nodes@.last().1.shapes == shapes,
            final(self).nodes@.last().0 == old(self).nodes@.last().0,
            forall|i: int|
                0 <= i < final(self).nodes@.len() - 1 ==> #[trigger] final(self).nodes@[i] == old(
                    self,
                ).nodes@[i],
            final(self).variables == old(self).variables,
            final(self).variable_aliases == old(self).variable_aliases,
            final(self).keys == old(self).keys,
            final(self).graphs == old(self).graphs,
            final(self).shape_state == old(self).shape_state,
            final(self).is_extern == old(self).is_extern,
    {
        let ghost oldnodes = self.nodes@;
        let mut entry = match self.nodes.pop() {
            Some(e) => e,
            None => {
                proof {
                    assert(false);
                }
                unreached()
            },
        };
        entry.1.shapes = shapes;
        let ghost gentry = entry;
        self.nodes.push(entry);
        proof {
            let i = oldnodes.len() - 1;
            assert(self.nodes@ =~= oldnodes.update(i as int, gentry));
            assert(final(self).wf()) by {
                assert forall|k: int|
                    0 <= k < self.nodes@.len() implies node_wf(
                    (#[trigger] self.nodes@[k]).1,
                ) by {
                    assert(node_wf(oldnodes[k].1));
                }
                assert forall|k: int|
                    1 <= k < self.nodes@.len() implies (#[trigger] self.nodes@[k]).0.spec_validate(
                    self.nodes@[k - 1].0,
                ) by {
                    assert(oldnodes[k].0.spec_validate(oldnodes[k - 1].0));
                }
            }
        }
    }
}


/// Insert or replace one named sub-model, keeping names distinct and every
/// entry well-formed.
pub(crate) fn graphs_set(v: &mut Vec<(String, Graph)>, key: String, val: Graph)
    requires
        distinct_str_keys(old(v)@),
        val.wf(),
        forall|i: int| 0 <= i < old(v)@.len() ==> (#[trigger] old(v)@[i]).1.wf(),
    ensures
        distinct_str_keys(final(v)@),
        assoc_find(final(v)@, key@) >= 0,
        final(v)@[assoc_find(final(v)@, key@)].1 == val,
        forall|i: int| 0 <= i < final(v)@.len() ==> (#[trigger] final(v)@[i]).1.wf(),
{
    let ghost gk = key;
    let ghost gv = val;
    let r = assoc_idx(v, &key);
    match r {
        Some(i) => {
            proof {
                lemma_assoc_find(old(v)@, key@);
            }
            let _ = v.remove(i);
            v.insert(i, (key, val));
            proof {
                assert(v@ =~= old(v)@.update(i as int, (gk, gv)));
                assert(v@[i as int].0@ == gk@);
                assert(distinct_str_keys(v@)) by {
                    assert forall|a: int, b: int| 0 <= a < b < v@.len() implies (#[trigger] v@[
                        a
                    ]).0@ != (#[trigger] v@[b]).0@ by {
                        assert(old(v)@[a].0@ != old(v)@[b].0@);
                        assert(old(v)@[i as int].0@ == gk@);
                    }
                }
                lemma_assoc_find(v@, gk@);
                let f = assoc_find(v@, gk@);
                if f < 0 {
                    assert(v@[i as int].0@ != gk@);
                }
                if 0 <= f < i {
                    assert(v@[f] == old(v)@[f]);
                    lemma_assoc_find(old(v)@, gk@);
                    assert(old(v)@[f].0@ != gk@);
                }
                if f > i {
                    assert(v@[i as int].0@ != gk@);
                }
                assert(f == i);
                assert(v@[f].1 == gv);
                assert forall|a: int| 0 <= a < v@.len() implies (#[trigger] v@[a]).1.wf() by {
                    if a == i {
                        assert(v@[a].1 == gv);
                    } else {
                        assert(v@[a] == old(v)@[a]);
                        assert(old(v)@[a].1.wf());
                    }
                }
            }
        },
        None => {
            proof {
                lemma_assoc_find(old(v)@, key@);
            }
            v.push((key, val));
            proof {
                assert(v@ =~= old(v)@.push((gk, gv)));
                assert(distinct_str_keys(v@)) by {
                    assert forall|a: int, b: int| 0 <= a < b < v@.len() implies (#[trigger] v@[
                        a
                    ]).0@ != (#[trigger] v@[b]).0@ by {
                        if b < v@.len() - 1 {
                            assert(old(v)@[a].0@ != old(v)@[b].0@);
                        } else {
                            assert(old(v)@[a].0@ != gk@);
                        }
                    }
                }
                lemma_assoc_find(v@, gk@);
                let f = assoc_find(v@, gk@);
                if f < 0 {
                    assert(v@[v@.len() - 1].0@ != gk@);
                }
                if 0 <= f < v@.len() - 1 {
                    assert(v@[f] == old(v)@[f]);
                    lemma_assoc_find(old(v)@, gk@);
                    assert(old(v)@[f].0@ != gk@);
                }
                assert(f == v@.len() - 1);
                assert(v@[f].1 == gv);
                assert forall|a: int| 0 <= a < v@.len() implies (#[trigger] v@[a]).1.wf() by {
                    if a < v@.len() - 1 {
                        assert(v@[a] == old(v)@[a]);
                        assert(old(v)@[a].1.wf());
                    } else {
                        assert(v@[a].1 == gv);
                    }
                }
            }
        },
    }
}


/// One symbol's substitution under a binding list: its binding's view, or
/// the symbol itself where none is bound.
pub open spec fn key_subst_sp(env: Seq<(Sym, Expr)>, s: crate::algebra::SymV) -> crate::algebra::ExprV {
    match crate::algebra::env_lookup(env, s) {
        Some(b) => b@,
        None => (crate::algebra::symbol_terms(s), crate::algebra::one_terms()),
    }
}

/// One substitution pass over a dimension's expression form.
pub open spec fn dim_subst_sp(env: Seq<(Sym, Expr)>, d: Dim) -> Option<crate::algebra::ExprV> {
    match d {
        Dim::Key(k) => Some(key_subst_sp(env, k.sym_v())),
        Dim::Expr(e) => crate::algebra::subst_expr_sp(env, e),
    }
}

/// The one-pass evaluation of a dimension under a binding list, to the
/// algebra's normal form: a local placeholder stays itself, anything else is
/// substituted once and normalized; nothing is answered where a coefficient
/// leaves the executable range.
pub open spec fn eval_dim_sp(env: Seq<(Sym, Expr)>, d: Dim) -> Option<DimV> {
    if d matches Dim::Key(DimKey::Placeholder(_, false)) {
        Some(d@)
    } else {
        match dim_subst_sp(env, d) {
            Some(ev) => if crate::algebra::poly_fits(ev.0) && crate::algebra::poly_fits(ev.1) {
                Some(
                    DimV::Expr(
                        (crate::algebra::norm_terms(ev.0), crate::algebra::norm_terms(ev.1)),
                    ),
                )
            } else {
                None
            },
            None => None,
        }
    }
}

/// Equality of two evaluated dimensions, as the checked comparison decides
/// it: keys by kind, name and input flag; expressions by cross-multiplied
/// equivalence; undecided where a coefficient product leaves the range.
pub open spec fn dims_eq_sp(a: DimV, b: DimV) -> Option<bool> {
    match (a, b) {
        (DimV::Key(x), DimV::Key(y)) => Some(x == y),
        (DimV::Expr(x), DimV::Expr(y)) => if crate::algebra::prods_ok(x.0, y.1)
            && crate::algebra::prods_ok(y.0, x.1) {
            Some(crate::algebra::expr_equiv(x, y))
        } else {
            None
        },
        _ => Some(false),
    }
}

/// A binding list mirrors the key-bindings: same length, symbol views and
/// expression views in step, all expressions well-formed.
pub open spec fn env_matches(env: Seq<(Sym, Expr)>, keys: Seq<(DimKey, Expr)>) -> bool {
    &&& env.len() == keys.len()
    &&& forall|i: int|
        0 <= i < env.len() ==> (#[trigger] env[i]).0@ == keys[i].0.sym_v() && env[i].1@ == keys[
            i
        ].1@ && env[i].1.wf()
}

impl Graph {
    /// The key-bindings as a symbol-keyed substitution list.
    pub(crate) fn keys_env(&self) -> (r: Vec<(Sym, Expr)>)
        requires
            keys_wf(self.keys@),
        ensures
            crate::algebra::env_wf(r@),
            env_matches(r@, self.keys@),
    {
        let mut r: Vec<(Sym, Expr)> = Vec::new();
        let mut i: usize = 0;
        while i < self.keys.len()
            invariant
                i <= self.keys@.len(),
                keys_wf(self.keys@),
                r@.len() == i,
                forall|k: int|
                    0 <= k < i ==> (#[trigger] r@[k]).0@ == self.keys@[k].0.sym_v() && r@[k].1@
                        == self.keys@[k].1@ && r@[k].1.wf(),
            decreases self.keys@.len() - i,
        {
            let e = &self.keys[i];
            proof {
                assert(self.keys@[i as int].1.wf());
            }
            r.push((e.0.sym(), e.1.clone()));
            i = i + 1;
        }
        r
    }

    /// One substitution pass over a dimension, to the algebra's normal form.
    /// A local (non-input) placeholder stays itself; anything else becomes
    /// an expression with the current bindings substituted once.  Fails
    /// exactly when a coefficient leaves the executable range.
    pub(crate) fn eval_dim(&self, dim: &Dim) -> (r: Option<Dim>)
        requires
            keys_wf(self.keys@),
            dim.wf(),
        ensures
            r matches Some(d) ==> d.wf(),
            dim matches Dim::Key(k) ==> ((!k.kv().0 && !k.kv().2) ==> {
                &&& r matches Some(d)
                &&& d@ == dim@
            }),
            // the answer is the one-pass evaluation under any binding list
            // that mirrors the keys
            forall|env2: Seq<(Sym, Expr)>|
                #[trigger] env_matches(env2, self.keys@) ==> ((r is Some <==> eval_dim_sp(
                    env2,
                    *dim,
                ) is Some) && (r matches Some(d) ==> Some(d@) == eval_dim_sp(env2, *dim))),
    {
        match dim {
            Dim::Key(DimKey::Placeholder(_, false)) => Some(dim.clone()),
            _ => {
                let env = self.keys_env();
                let e = dim.to_expr();
                let res = match crate::algebra::eval_once(&env, &e) {
                    Some(x) => match x.normalize() {
                        Some(n) => Some(Dim::Expr(n)),
                        None => None,
                    },
                    None => None,
                };
                proof {
                    assert forall|env2: Seq<(Sym, Expr)>|
                        #[trigger] env_matches(env2, self.keys@) implies ((res is Some
                        <==> eval_dim_sp(env2, *dim) is Some) && (res matches Some(d)
                        ==> Some(d@) == eval_dim_sp(env2, *dim))) by {
                        assert(crate::algebra::env_view_eq(env2, env@));
                        match dim {
                            Dim::Expr(e0) => {
                                crate::algebra::lemma_subst_expr_congr(env2, env@, *e0, e);
                                assert(dim_subst_sp(env2, *dim) == crate::algebra::subst_expr_sp(
                                    env@,
                                    e,
                                ));
                            },
                            Dim::Key(k) => {
                                crate::algebra::lemma_env_lookup_congr(env2, env@, k.sym_v());
                                crate::algebra::lemma_subst_symbol(env@, e, k.sym_v());
                                assert(dim_subst_sp(env2, *dim) == Some(
                                    key_subst_sp(env2, k.sym_v()),
                                ));
                                assert(key_subst_sp(env2, k.sym_v()) == key_subst_sp(
                                    env@,
                                    k.sym_v(),
                                ));
                                assert(Some(key_subst_sp(env@, k.sym_v()))
                                    == crate::algebra::subst_expr_sp(env@, e));
                            },
                        }
                    }
                }
                res
            },
        }
    }

    /// One substitution pass for the output listing: any dimension becomes
    /// an expression; where the range does not suffice the symbolic form is
    /// kept unevaluated.
    pub(crate) fn eval_dim_for_output(&self, dim: &Dim) -> (r: Dim)
        requires
            keys_wf(self.keys@),
            dim.wf(),
        ensures
            r.wf(),
            r is Expr,
    {
        let env = self.keys_env();
        let e = dim.to_expr();
        match crate::algebra::eval_once(&env, &e) {
            Some(x) => match x.normalize() {
                Some(n) => Dim::Expr(n),
                None => Dim::Expr(e),
            },
            None => Dim::Expr(e),
        }
    }

    /// Resolve a semantic name to a dimension: an already-known input or
    /// local placeholder, else a model variable of unsigned type, else, when
    /// the mode allows it, a freshly coined placeholder; otherwise the shape
    /// must have been fully given.
    pub(crate) fn find_var(&mut self, var: String, is_new_var_created: &mut bool) -> (r: Result<
        Dim,
        GraphError,
    >)
        requires
            old(self).wf(),
            old(self).nodes@.len() > 0,
        ensures
            final(self).wf(),
            final(self).nodes == old(self).nodes,
            final(self).graphs == old(self).graphs,
            final(self).shape_state == old(self).shape_state,
            final(self).is_extern == old(self).is_extern,
            r matches Ok(d) ==> d matches Dim::Key(..),
            r is Err ==> (r matches Err(GraphError::FullShapeRequired { .. }) || r matches Err(
                GraphError::DifferentVariableType { .. },
            )),
            keys_has(old(self).keys@, (false, var@, true)) ==> {
                &&& r matches Ok(d)
                &&& d@ == DimV::Key((false, var@, true))
            },
            !keys_has(old(self).keys@, (false, var@, true)) && keys_has(
                old(self).keys@,
                (false, var@, false),
            ) ==> {
                &&& r matches Ok(d)
                &&& d@ == DimV::Key((false, var@, false))
            },
            (r matches Err(GraphError::FullShapeRequired { .. })) ==> !old(
                self,
            ).shape_state.spec_new_var_available(),
            ({
                let hit_in = keys_has(old(self).keys@, (false, var@, true));
                let hit_loc = keys_has(old(self).keys@, (false, var@, false));
                let af = assoc_find(old(self).variable_aliases@, var@);
                let avn = if af >= 0 {
                    old(self).variable_aliases@[af].1@
                } else {
                    var@
                };
                let vf = assoc_find(old(self).variables@, avn);
                let coined = !hit_in && !hit_loc && vf < 0 && old(
                    self,
                ).shape_state.spec_new_var_available();
                &&& (!hit_in && !hit_loc && vf >= 0 ==> ({
                    let v0 = old(self).variables@[vf].1;
                    &&& (r is Ok <==> (v0.ty == ValueType::UInt || v0.ty == ValueType::Required))
                    &&& (r matches Ok(d) ==> d@ == DimV::Key((true, avn, false)))
                    &&& (r is Err ==> r matches Err(GraphError::DifferentVariableType { .. }))
                    &&& final(self).keys == old(self).keys
                }))
                &&& (!hit_in && !hit_loc && vf < 0 ==> {
                    &&& old(self).shape_state.spec_new_var_available() ==> {
                        &&& r matches Ok(d)
                        &&& d@ == DimV::Key(
                            (false, avn, old(self).nodes@.last().0.node == 0),
                        )
                        // a fresh placeholder is bound to its own symbol, so
                        // later evaluation keeps it symbolic
                        &&& ({
                            let f = key_find(
                                final(self).keys@,
                                (false, avn, old(self).nodes@.last().0.node == 0),
                            );
                            f >= 0 && final(self).keys@[f].1@ == (
                                crate::algebra::symbol_terms((false, camel_of(avn))),
                                crate::algebra::one_terms(),
                            )
                        })
                    }
                    &&& !old(self).shape_state.spec_new_var_available() ==> r == Result::<
                        Dim,
                        GraphError,
                    >::Err(GraphError::FullShapeRequired { id: old(self).nodes@.last().0 })
                })
                &&& *final(is_new_var_created) == (*old(is_new_var_created) || coined)
            }),
    {
        let key = DimKey::Placeholder(var.clone(), true);
        if let Some(_) = key_idx(&self.keys, &key) {
            proof {
                lemma_key_find(self.keys@, key.kv());
            }
            return Ok(Dim::Key(key));
        }
        let key = DimKey::Placeholder(var.clone(), false);
        if let Some(_) = key_idx(&self.keys, &key) {
            proof {
                lemma_key_find(self.keys@, key.kv());
            }
            return Ok(Dim::Key(key));
        }
        let mut resolved: String = var.clone();
        if let Some(i) = assoc_idx(&self.variable_aliases, &resolved) {
            proof {
                lemma_assoc_find(self.variable_aliases@, resolved@);
            }
            resolved = self.variable_aliases[i].1.clone();
        }
        match assoc_idx(&self.variables, &resolved) {
            Some(i) => {
                proof {
                    lemma_assoc_find(self.variables@, resolved@);
                }
                let ghost vars0 = self.variables@;
                let mut entry = self.variables.remove(i);
                let res = entry.1.expect_or_default(ValueType::UInt);
                let ghost gentry = entry;
                self.variables.insert(i, entry);
                proof {
                    assert(self.variables@ =~= vars0.update(i as int, gentry));
                    assert(distinct_str_keys(self.variables@)) by {
                        assert forall|a2: int, b2: int|
                            0 <= a2 < b2 < self.variables@.len() implies (
                        #[trigger] self.variables@[a2]).0@ != (#[trigger] self.variables@[
                            b2
                        ]).0@ by {
                            assert(vars0[a2].0@ != vars0[b2].0@);
                            assert(gentry.0@ == vars0[i as int].0@);
                        }
                    }
                }
                match res {
                    Ok(()) => Ok(Dim::Key(DimKey::Variable(resolved))),
                    Err(e) => Err(e),
                }
            },
            None => {
                if self.shape_state.is_new_var_available() {
                    *is_new_var_created = true;
                    let is_input = self.get_last_node_id().node == 0;
                    let key = DimKey::Placeholder(resolved, is_input);
                    let value = key.to_expr();
                    keys_insert(&mut self.keys, key.clone(), value);
                    Ok(Dim::Key(key))
                } else {
                    Err(GraphError::FullShapeRequired { id: self.get_last_node_id() })
                }
            },
        }
    }

    /// Unify a sub-graph's expected dimension with the caller's ground one.
    /// An unbound placeholder is bound to the ground; two placeholders unify
    /// when they share the name, or are both input placeholders; two
    /// expressions must evaluate equal under the current bindings.
    pub(crate) fn update_dim(
        &mut self,
        id: GraphId,
        arg: u64,
        dim: &Dim,
        ground: &Dim,
        axis: usize,
    ) -> (r: Result<Dim, GraphError>)
        requires
            old(self).wf(),
            dim.wf(),
            ground.wf(),
        ensures
            final(self).wf(),
            final(self).nodes == old(self).nodes,
            final(self).graphs == old(self).graphs,
            final(self).variables == old(self).variables,
            final(self).variable_aliases == old(self).variable_aliases,
            final(self).shape_state == old(self).shape_state,
            final(self).is_extern == old(self).is_extern,
            r matches Ok(d) ==> d.wf(),
            r is Err ==> (r matches Err(GraphError::DifferentDimension { .. }) || r matches Err(
                GraphError::CannotEstimateShape { .. },
            ) || r matches Err(GraphError::NumericOverflow { .. })),
            // no failed unification disturbs the established bindings
            r is Err ==> final(self).keys == old(self).keys,
            // bindings only grow: what was bound stays bound, and every key
            // but the expected placeholder's own keeps its value
            forall|k2: (bool, Seq<char>, bool)|
                #[trigger] keys_has(old(self).keys@, k2) ==> keys_has(final(self).keys@, k2),
            forall|k2: (bool, Seq<char>, bool)|
                #[trigger] keys_has(old(self).keys@, k2) && !(dim matches Dim::Key(
                    DimKey::Placeholder(ph, b),
                ) && k2 == (false, ph@, *b)) ==> final(self).keys@[key_find(
                    final(self).keys@,
                    k2,
                )].1@ == old(self).keys@[key_find(old(self).keys@, k2)].1@,
            dim matches Dim::Key(DimKey::Placeholder(ph, b)) ==> (r is Ok && !(ground matches
                Dim::Key(DimKey::Placeholder(..))) ==> keys_has(
                final(self).keys@,
                (false, ph@, *b),
            )),
            // a placeholder without a contradicting prior binding unifies
            // exactly as the rules say
            dim matches Dim::Key(DimKey::Placeholder(ph, b)) ==> (({
                let f = key_find(old(self).keys@, (false, ph@, *b));
                ||| f < 0
                ||| ({
                    let bv = old(self).keys@[f].1;
                    let own = (
                        crate::algebra::symbol_terms((false, camel_of(ph@))),
                        crate::algebra::one_terms(),
                    );
                    let gv = ground.to_expr_v();
                    &&& crate::algebra::prods_ok(bv@.0, own.1)
                    &&& crate::algebra::prods_ok(own.0, bv@.1)
                    &&& (crate::algebra::expr_equiv(bv@, own) || (crate::algebra::prods_ok(
                        bv@.0,
                        gv.1,
                    ) && crate::algebra::prods_ok(gv.0, bv@.1) && crate::algebra::expr_equiv(
                        bv@,
                        gv,
                    )))
                })
            }) ==> {
                &&& ground matches Dim::Key(DimKey::Placeholder(g, gb)) ==> {
                    &&& g@ == ph@ ==> {
                        &&& r matches Ok(d)
                        &&& d@ == DimV::Key((false, g@, *gb))
                        &&& final(self).keys == old(self).keys
                    }
                    &&& g@ != ph@ && *b && *gb ==> {
                        &&& r matches Ok(d)
                        &&& d@ == DimV::Expr(
                            (
                                crate::algebra::symbol_terms((false, camel_of(g@))),
                                crate::algebra::one_terms(),
                            ),
                        )
                        &&& ({
                            let f = key_find(final(self).keys@, (false, ph@, *b));
                            f >= 0 && final(self).keys@[f].1@ == (
                                crate::algebra::symbol_terms((false, camel_of(g@))),
                                crate::algebra::one_terms(),
                            )
                        })
                    }
                    &&& g@ != ph@ && !(*b && *gb) ==> r == Result::<Dim, GraphError>::Err(
                        GraphError::CannotEstimateShape { id, arg, axis },
                    )
                }
                &&& !(ground matches Dim::Key(DimKey::Placeholder(..))) ==> {
                    &&& r matches Ok(d)
                    &&& d@ == DimV::Expr(ground.to_expr_v())
                    &&& ({
                        let f = key_find(final(self).keys@, (false, ph@, *b));
                        f >= 0 && final(self).keys@[f].1@ == ground.to_expr_v()
                    })
                }
            }),
            // a bound placeholder contradicting the ground is rejected with
            // the stored expectation and the offending value
            dim matches Dim::Key(DimKey::Placeholder(ph, b)) ==> (keys_has(
                old(self).keys@,
                (false, ph@, *b),
            ) ==> ({
                let bv = old(self).keys@[key_find(old(self).keys@, (false, ph@, *b))].1;
                let own = (
                    crate::algebra::symbol_terms((false, camel_of(ph@))),
                    crate::algebra::one_terms(),
                );
                let gv = ground.to_expr_v();
                crate::algebra::prods_ok(bv@.0, own.1) && crate::algebra::prods_ok(own.0, bv@.1)
                    && crate::algebra::prods_ok(bv@.0, gv.1) && crate::algebra::prods_ok(
                    gv.0,
                    bv@.1,
                ) && !crate::algebra::expr_equiv(bv@, own) && !crate::algebra::expr_equiv(
                    bv@,
                    gv,
                ) ==> {
                    &&& r matches Err(
                        GraphError::DifferentDimension {
                            id: ei,
                            arg: ea,
                            axis: ax,
                            expected,
                            given,
                        },
                    )
                    &&& ei == id
                    &&& ea == arg
                    &&& ax == axis
                    &&& expected@ == DimV::Expr(bv@)
                    &&& given@ == ground@
                }
            })),
            // anything else must equal the ground under the bindings, and
            // the ground itself is what comes back
            !(dim matches Dim::Key(DimKey::Placeholder(..))) ==> {
                &&& (r matches Ok(d) ==> d@ == ground@)
                &&& final(self).keys == old(self).keys
            },
            // one evaluation pass of each side decides: equal forms answer
            // the ground, unequal ones report both evaluated forms, and a
            // coefficient out of range is an overflow
            !(dim matches Dim::Key(DimKey::Placeholder(..))) ==> (forall|env: Seq<(Sym, Expr)>|
                #[trigger] env_matches(env, old(self).keys@) ==> ({
                    let de = eval_dim_sp(env, *dim);
                    let ge = eval_dim_sp(env, *ground);
                    &&& ((de is None || ge is None) ==> r matches Err(
                        GraphError::NumericOverflow { .. },
                    ))
                    &&& (de matches Some(dv) ==> (ge matches Some(gv) ==> ({
                        let eq = dims_eq_sp(dv, gv);
                        &&& (eq == Some(true) ==> (r matches Ok(d2) && d2@ == ground@))
                        &&& (eq == Some(false) ==> (r matches Err(
                            GraphError::DifferentDimension {
                                id: ei,
                                arg: ea,
                                axis: ax,
                                expected,
                                given,
                            },
                        ) && ei == id && ea == arg && ax == axis && expected@ == dv && given@
                            == gv))
                        &&& (eq is None ==> r matches Err(GraphError::NumericOverflow { .. }))
                    })))
                })),
    {
        match dim {
            Dim::Key(DimKey::Placeholder(ph, ph_is_input)) => {
                let key = DimKey::Placeholder(ph.clone(), *ph_is_input);
                if let Some(i) = key_idx(&self.keys, &key) {
                    proof {
                        lemma_key_find(self.keys@, key.kv());
                        assert(self.keys@[i as int].1.wf());
                    }
                    let bound = self.keys[i].1.clone();
                    let own = key.to_expr();
                    let gexp = ground.to_expr();
                    let same_own = match bound.eq_checked(&own) {
                        Some(v) => v,
                        None => {
                            return Err(GraphError::NumericOverflow { id, arg });
                        },
                    };
                    if !same_own {
                        let same_ground = match bound.eq_checked(&gexp) {
                            Some(v) => v,
                            None => {
                                return Err(GraphError::NumericOverflow { id, arg });
                            },
                        };
                        if !same_ground {
                            return Err(
                                GraphError::DifferentDimension {
                                    id,
                                    arg,
                                    axis,
                                    expected: Dim::Expr(bound),
                                    given: ground.clone(),
                                },
                            );
                        }
                    }
                }
                match ground {
                    Dim::Key(DimKey::Placeholder(g, g_is_input)) => {
                        if *ph == *g {
                            Ok(Dim::Key(DimKey::Placeholder(g.clone(), *g_is_input)))
                        } else if *ph_is_input && *g_is_input {
                            let gkey = DimKey::Placeholder(g.clone(), *ph_is_input);
                            let gexpr = gkey.to_expr();
                            keys_insert(&mut self.keys, key, gexpr.clone());
                            Ok(Dim::Expr(gexpr))
                        } else {
                            Err(GraphError::CannotEstimateShape { id, arg, axis })
                        }
                    },
                    _ => {
                        let gexpr = ground.to_expr();
                        keys_insert(&mut self.keys, key, gexpr.clone());
                        Ok(Dim::Expr(gexpr))
                    },
                }
            },
            _ => {
                let d_eval = match self.eval_dim(dim) {
                    Some(d) => d,
                    None => {
                        return Err(GraphError::NumericOverflow { id, arg });
                    },
                };
                let g_eval = match self.eval_dim(ground) {
                    Some(d) => d,
                    None => {
                        return Err(GraphError::NumericOverflow { id, arg });
                    },
                };
                let eq = d_eval.dim_eq_checked(&g_eval);
                proof {
                    assert forall|env: Seq<(Sym, Expr)>|
                        #[trigger] env_matches(env, old(self).keys@) implies eval_dim_sp(
                        env,
                        *dim,
                    ) == Some(d_eval@) && eval_dim_sp(env, *ground) == Some(g_eval@) && eq
                        == dims_eq_sp(d_eval@, g_eval@) by {
                        assert(env_matches(env, self.keys@));
                        match (&d_eval, &g_eval) {
                            (Dim::Key(a), Dim::Key(b)) => {
                                assert(eq == Some(a.kv() == b.kv()));
                            },
                            (Dim::Expr(a), Dim::Expr(b)) => {},
                            _ => {},
                        }
                    }
                }
                let same = match eq {
                    Some(v) => v,
                    None => {
                        return Err(GraphError::NumericOverflow { id, arg });
                    },
                };
                if same {
                    Ok(ground.clone())
                } else {
                    Err(
                        GraphError::DifferentDimension {
                            id,
                            arg,
                            axis,
                            expected: d_eval,
                            given: g_eval,
                        },
                    )
                }
            },
        }
    }
}


/// Whether this argument is the `transform` keyword.
pub open spec fn is_transform_arg(a: ast::GraphPassArg) -> bool {
    a matches ast::GraphPassArg::Keyword { name, .. } && name@ == "transform"@
}

/// First index of the `transform` keyword among the arguments, or `-1`.
pub open spec fn transform_find(s: Seq<ast::GraphPassArg>) -> int
    decreases s.len(),
{
    if s.len() == 0 {
        -1
    } else if is_transform_arg(s.first()) {
        0
    } else {
        let r = transform_find(s.drop_first());
        if r == -1 {
            -1
        } else {
            r + 1
        }
    }
}

pub proof fn lemma_transform_find(s: Seq<ast::GraphPassArg>)
    ensures
        transform_find(s) == -1 ==> forall|i: int|
            0 <= i < s.len() ==> !is_transform_arg(#[trigger] s[i]),
        transform_find(s) != -1 ==> 0 <= transform_find(s) < s.len() && is_transform_arg(
            s[transform_find(s)],
        ) && forall|i: int| 0 <= i < transform_find(s) ==> !is_transform_arg(#[trigger] s[i]),
    decreases s.len(),
{
    if s.len() == 0 {
    } else if is_transform_arg(s.first()) {
    } else {
        lemma_transform_find(s.drop_first());
        assert forall|i: int| 1 <= i < s.len() implies s[i] == s.drop_first()[i - 1] by {}
    }
}

/// Read the optional boolean `transform` keyword of an intrinsic node: the
/// first such keyword decides, a missing one means false, a value of
/// another type fails.
pub(crate) fn get_flag(args: &Vec<ast::GraphPassArg>) -> (r: Result<bool, GraphError>)
    ensures
        transform_find(args@) < 0 ==> r == Result::<bool, GraphError>::Ok(false),
        transform_find(args@) >= 0 ==> {
            let a = args@[transform_find(args@)];
            &&& (a matches ast::GraphPassArg::Keyword { value: crate::ast::Value::Bool(v), .. }
                ==> r == Result::<bool, GraphError>::Ok(v))
            &&& (!(a matches ast::GraphPassArg::Keyword {
                value: crate::ast::Value::Bool(..),
                ..
            }) ==> r matches Err(
                GraphError::DifferentVariableType { expected: ValueType::Bool, .. },
            ))
        },
        r is Err ==> r matches Err(
            GraphError::DifferentVariableType { expected: ValueType::Bool, .. },
        ),
{
    let mut i: usize = 0;
    while i < args.len()
        invariant
            i <= args@.len(),
            forall|k: int| 0 <= k < i ==> !is_transform_arg(#[trigger] args@[k]),
        decreases args@.len() - i,
    {
        if args[i].is_named("transform") {
            proof {
                lemma_transform_find(args@);
                let f = transform_find(args@);
                if f < 0 {
                    assert(!is_transform_arg(args@[i as int]));
                }
                if 0 <= f < i {
                    assert(!is_transform_arg(args@[f]));
                }
                if f > i {
                    assert(!is_transform_arg(args@[i as int]));
                }
                assert(transform_find(args@) == i as int);
            }
            match &args[i] {
                ast::GraphPassArg::Keyword { name, value } => {
                    match value {
                        crate::ast::Value::Bool(v) => {
                            return Ok(*v);
                        },
                        other => {
                            return Err(
                                GraphError::DifferentVariableType {
                                    variable: name.clone(),
                                    expected: ValueType::Bool,
                                    given: Some(other.clone()),
                                },
                            );
                        },
                    }
                },
                _ => {
                    proof {
                        assert(false);
                    }
                },
            }
        }
        i = i + 1;
    }
    proof {
        lemma_transform_find(args@);
        if transform_find(args@) >= 0 {
            assert(!is_transform_arg(args@[transform_find(args@)]));
        }
    }
    Ok(false)
}

/// Every output slot's shape is known with every dim listed.
pub open spec fn fully_fixed(s: Shapes) -> bool {
    s matches Shapes::Fixed(es) && forall|i: int|
        0 <= i < es@.len() ==> (#[trigger] es@[i]).1 matches Shape::Fixed(..)
}

/// First index of this id in the node chain, or `-1`.
pub open spec fn node_find(nodes: Seq<(GraphId, Node)>, id: GraphId) -> int
    decreases nodes.len(),
{
    if nodes.len() == 0 {
        -1
    } else if nodes.first().0 == id {
        0
    } else {
        let r = node_find(nodes.drop_first(), id);
        if r == -1 {
            -1
        } else {
            r + 1
        }
    }
}

pub proof fn lemma_node_find(nodes: Seq<(GraphId, Node)>, id: GraphId)
    ensures
        node_find(nodes, id) == -1 ==> forall|i: int|
            0 <= i < nodes.len() ==> (#[trigger] nodes[i]).0 != id,
        node_find(nodes, id) != -1 ==> 0 <= node_find(nodes, id) < nodes.len() && nodes[node_find(
            nodes,
            id,
        )].0 == id && forall|i: int|
            0 <= i < node_find(nodes, id) ==> (#[trigger] nodes[i]).0 != id,
    decreases nodes.len(),
{
    if nodes.len() == 0 {
    } else if nodes.first().0 == id {
    } else {
        lemma_node_find(nodes.drop_first(), id);
        assert forall|i: int| 1 <= i < nodes.len() implies nodes[i] == nodes.drop_first()[i
            - 1] by {}
    }
}

/// Two predicates that agree on a sequence's elements filter it alike.
pub proof fn lemma_filter_agree<A>(s: Seq<A>, p: spec_fn(A) -> bool, q: spec_fn(A) -> bool)
    requires
        forall|i: int| 0 <= i < s.len() ==> p(#[trigger] s[i]) == q(s[i]),
    ensures
        s.filter(p) == s.filter(q),
    decreases s.len(),
{
    reveal(Seq::filter);
    if s.len() > 0 {
        lemma_filter_agree(s.drop_last(), p, q);
        assert(forall|i: int| 0 <= i < s.len() - 1 ==> #[trigger] s.drop_last()[i] == s[i]);
        assert(s.last() == s[s.len() - 1]);
    }
}

/// The slot entries one input edge selects: the slots of its node's bundle
/// whose key is the requested one, in order.  An unknown bundle yields none.
pub open spec fn sel_entries(g: Graph, ia: GraphIdArg) -> Seq<(u64, ShapeV)> {
    match g.nodes@[node_find(g.nodes@, ia.id)].1.shapes {
        Shapes::Dynamic => Seq::empty(),
        Shapes::Fixed(es) => es@.map_values(|e: (u64, Shape)| (e.0, e.1@)).filter(
            |e: (u64, ShapeV)| ia.arg == Some(e.0),
        ),
    }
}

/// Whether this edge's node carries a known bundle.
pub open spec fn sel_known(g: Graph, ia: GraphIdArg) -> bool {
    g.nodes@[node_find(g.nodes@, ia.id)].1.shapes matches Shapes::Fixed(..)
}

/// The selections of several edges, flattened in order.
pub open spec fn sel_concat(g: Graph, v: Seq<GraphIdArg>) -> Seq<(u64, ShapeV)>
    decreases v.len(),
{
    if v.len() == 0 {
        Seq::empty()
    } else {
        sel_concat(g, v.drop_last()) + sel_entries(g, v.last())
    }
}

/// `s` is the bundle these input edges select from the graph: the last
/// node's own bundle without edges; one node's bundle, or its one requested
/// slot, for one edge; the contiguously renumbered concatenation of the
/// selected slots for several edges.
pub open spec fn selects(g: Graph, v: Seq<GraphIdArg>, s: Shapes) -> bool {
    &&& (v.len() == 0 ==> s@ == g.nodes@.last().1.shapes@)
    &&& (v.len() == 1 && v[0].arg is None ==> exists|i: int|
        0 <= i < g.nodes@.len() && (#[trigger] g.nodes@[i]).0 == v[0].id && s@ == g.nodes@[
            i
        ].1.shapes@)
    &&& (v.len() == 1 && v[0].arg is Some ==> {
        &&& (sel_known(g, v[0]) ==> (s matches Shapes::Fixed(rs) && ({
            let cs = sel_entries(g, v[0]);
            &&& rs@.len() == cs.len()
            &&& forall|t: int|
                0 <= t < rs@.len() ==> (#[trigger] rs@[t]).0 == cs[t].0 && rs@[t].1@ == cs[t].1
        })))
        &&& (!sel_known(g, v[0]) ==> s is Dynamic)
    })
    &&& (v.len() > 1 ==> {
        &&& ((forall|k: int| 0 <= k < v.len() ==> sel_known(g, #[trigger] v[k])) && sel_concat(
            g,
            v,
        ).len() <= u64::MAX ==> (s matches Shapes::Fixed(rs) && ({
            let cs = sel_concat(g, v);
            &&& rs@.len() == cs.len()
            &&& forall|t: int|
                0 <= t < rs@.len() ==> (#[trigger] rs@[t]).0 == t && rs@[t].1@ == cs[t].1
        })))
        &&& ((exists|k: int| 0 <= k < v.len() && !sel_known(g, #[trigger] v[k])) ==> s
            is Dynamic)
    })
}

/// The bundle view these edges select, where one is pinned: several edges
/// whose renumbered selection would leave the slot-number range pin none.
pub open spec fn selected_of(g: Graph, v: Seq<GraphIdArg>) -> Option<ShapesV> {
    if v.len() == 0 {
        Some(g.nodes@.last().1.shapes@)
    } else if v.len() == 1 && v[0].arg is None {
        if node_find(g.nodes@, v[0].id) >= 0 {
            Some(g.nodes@[node_find(g.nodes@, v[0].id)].1.shapes@)
        } else {
            None
        }
    } else if v.len() == 1 {
        if sel_known(g, v[0]) {
            Some(ShapesV::Fixed(sel_entries(g, v[0])))
        } else {
            Some(ShapesV::Dynamic)
        }
    } else if forall|k: int| 0 <= k < v.len() ==> sel_known(g, #[trigger] v[k]) {
        if sel_concat(g, v).len() <= u64::MAX {
            Some(
                ShapesV::Fixed(
                    Seq::new(sel_concat(g, v).len(), |t: int| (t as u64, sel_concat(g, v)[t].1)),
                ),
            )
        } else {
            None
        }
    } else {
        Some(ShapesV::Dynamic)
    }
}

/// A selected bundle has the pinned view, where one is pinned.
pub proof fn lemma_selects_functional(g: Graph, v: Seq<GraphIdArg>, s: Shapes)
    requires
        g.wf(),
        g.nodes@.len() > 0,
        selects(g, v, s),
    ensures
        selected_of(g, v) matches Some(sv) ==> sv == s@,
{
    if v.len() == 1 && v[0].arg is None {
        if node_find(g.nodes@, v[0].id) >= 0 {
            lemma_node_chain(g);
            lemma_node_find(g.nodes@, v[0].id);
            let w = choose|i: int|
                0 <= i < g.nodes@.len() && (#[trigger] g.nodes@[i]).0 == v[0].id && s@
                    == g.nodes@[i].1.shapes@;
            assert(g.nodes@[node_find(g.nodes@, v[0].id)].0 == v[0].id);
            assert(w == node_find(g.nodes@, v[0].id));
        }
    } else if v.len() == 1 {
        if sel_known(g, v[0]) {
            match s {
                Shapes::Fixed(rs) => {
                    assert(rs@.map_values(|e: (u64, Shape)| (e.0, e.1@)) =~= sel_entries(
                        g,
                        v[0],
                    ));
                },
                _ => {},
            }
        }
    } else if v.len() > 1 {
        if (forall|k: int| 0 <= k < v.len() ==> sel_known(g, #[trigger] v[k])) && sel_concat(
            g,
            v,
        ).len() <= u64::MAX {
            match s {
                Shapes::Fixed(rs) => {
                    let cs = sel_concat(g, v);
                    assert(rs@.map_values(|e: (u64, Shape)| (e.0, e.1@)) =~= Seq::new(
                        cs.len(),
                        |t: int| (t as u64, cs[t].1),
                    ));
                },
                _ => {},
            }
        }
    }
}

/// The one-pass evaluation cannot tell structurally equal dimensions apart.
pub proof fn lemma_eval_dim_struct(env: Seq<(Sym, Expr)>, a: Dim, b: Dim)
    requires
        crate::graphs::shape::dim_struct_eq(a, b),
    ensures
        eval_dim_sp(env, a) == eval_dim_sp(env, b),
{
    match (a, b) {
        (Dim::Expr(x), Dim::Expr(y)) => {
            assert(crate::algebra::env_view_eq(env, env));
            crate::algebra::lemma_subst_expr_congr(env, env, x, y);
        },
        _ => {},
    }
}

/// What `index_args` answers for one edge's slot list is exactly the edge's
/// selection.
pub proof fn lemma_index_is_sel(g: Graph, ia: GraphIdArg, s: Shapes, args: Seq<u64>, out: Shapes)
    requires
        0 <= node_find(g.nodes@, ia.id) < g.nodes@.len(),
        g.nodes@[node_find(g.nodes@, ia.id)].1.shapes == s,
        ia.arg matches Some(a) && args == seq![a],
        s is Dynamic ==> out is Dynamic,
        s matches Shapes::Fixed(es) ==> (out matches Shapes::Fixed(rs) && rs@.map_values(
            |e: (u64, Shape)| (e.0, e.1@),
        ) == es@.map_values(|e: (u64, Shape)| (e.0, e.1@)).filter(
            |e: (u64, ShapeV)| args.contains(e.0),
        )),
    ensures
        sel_known(g, ia) ==> (out matches Shapes::Fixed(rs) && ({
            let cs = sel_entries(g, ia);
            &&& rs@.len() == cs.len()
            &&& forall|t: int|
                0 <= t < rs@.len() ==> (#[trigger] rs@[t]).0 == cs[t].0 && rs@[t].1@ == cs[t].1
        })),
        !sel_known(g, ia) ==> out is Dynamic,
{
    match s {
        Shapes::Dynamic => {
            assert(!sel_known(g, ia));
        },
        Shapes::Fixed(es) => {
            assert(sel_known(g, ia));
            let ev = es@.map_values(|e: (u64, Shape)| (e.0, e.1@));
            let p = |e: (u64, ShapeV)| args.contains(e.0);
            let q = |e: (u64, ShapeV)| ia.arg == Some(e.0);
            let a = ia.arg->Some_0;
            assert forall|t: int| 0 <= t < ev.len() implies p(#[trigger] ev[t]) == q(ev[t]) by {
                if args.contains(ev[t].0) {
                    let w = choose|w: int| 0 <= w < args.len() && args[w] == ev[t].0;
                    assert(args[0] == a);
                    assert(args[w] == ev[t].0);
                }
                if ia.arg == Some(ev[t].0) {
                    assert(args[0] == ev[t].0);
                }
            }
            lemma_filter_agree(ev, p, q);
            match out {
                Shapes::Fixed(rs) => {
                    let rv = rs@.map_values(|e: (u64, Shape)| (e.0, e.1@));
                    let cs = sel_entries(g, ia);
                    assert(rv == cs);
                    assert forall|t: int|
                        0 <= t < rs@.len() implies (#[trigger] rs@[t]).0 == cs[t].0 && rs@[t].1@
                        == cs[t].1 by {
                        assert(rv[t] == (rs@[t].0, rs@[t].1@));
                    }
                },
                _ => {
                    assert(false);
                },
            }
        },
    }
}

/// A prefix of the edges selects no more entries than all of them.
pub proof fn lemma_sel_concat_prefix(g: Graph, v: Seq<GraphIdArg>, i: int)
    requires
        0 <= i <= v.len(),
    ensures
        sel_concat(g, v.subrange(0, i)).len() <= sel_concat(g, v).len(),
    decreases v.len() - i,
{
    if i == v.len() {
        assert(v.subrange(0, i) =~= v);
    } else {
        lemma_sel_concat_prefix(g, v, i + 1);
        assert(v.subrange(0, i + 1).drop_last() =~= v.subrange(0, i));
        assert(v.subrange(0, i + 1).last() == v[i]);
    }
}

impl Graph {
    /// The shapes feeding the next node: the selected upstream outputs when
    /// explicit inputs are given, else the last node's own bundle; several
    /// inputs concatenate.
    pub(crate) fn get_last_shapes(&self, inputs: Option<&Vec<GraphIdArg>>) -> (r: Shapes)
        requires
            self.wf(),
            self.nodes@.len() > 0,
            inputs matches Some(v) ==> (forall|i: int|
                0 <= i < v@.len() ==> self.has_node((#[trigger] v@[i]).id)) && (v@.len() > 1
                ==> forall|i: int| 0 <= i < v@.len() ==> (#[trigger] v@[i]).arg is Some),
        ensures
            r.wf(),
            (inputs is None) ==> r@ == self.nodes@.last().1.shapes@ && crate::graphs::shape::shapes_struct_eq(
                r,
                self.nodes@.last().1.shapes,
            ),
            // the answer is the bundle the edges select
            inputs matches Some(v) ==> selects(*self, v@, r),
    {
        let last_i = self.nodes.len() - 1;
        proof {
            assert(node_wf(self.nodes@[last_i as int].1));
        }
        match inputs {
            None => self.nodes[last_i].1.shapes.clone(),
            Some(v) => {
                if v.len() == 0 {
                    self.nodes[last_i].1.shapes.clone()
                } else if v.len() == 1 {
                    let ia = &v[0];
                    proof {
                        assert(v@[0].id == ia.id);
                        assert(self.has_node(v@[0].id));
                    }
                    match &ia.arg {
                        Some(arg) => {
                            let ni = match self.node_idx(&ia.id) {
                                Some(ni) => ni,
                                None => {
                                    proof {
                                        assert(false);
                                    }
                                    unreached()
                                },
                            };
                            let mut sel: Vec<u64> = Vec::new();
                            sel.push(*arg);
                            proof {
                                assert(node_wf(self.nodes@[ni as int].1));
                            }
                            let out = self.nodes[ni].1.shapes.index_args(&sel);
                            proof {
                                lemma_index_is_sel(
                                    *self,
                                    v@[0],
                                    self.nodes@[ni as int].1.shapes,
                                    sel@,
                                    out,
                                );
                            }
                            out
                        },
                        None => {
                            let ni = match self.node_idx(&ia.id) {
                                Some(ni) => ni,
                                None => {
                                    proof {
                                        assert(false);
                                    }
                                    unreached()
                                },
                            };
                            proof {
                                assert(node_wf(self.nodes@[ni as int].1));
                            }
                            self.nodes[ni].1.shapes.clone()
                        },
                    }
                } else {
                    let mut acc = Shapes::Fixed(Vec::new());
                    let mut i: usize = 0;
                    proof {
                        assert(v@.subrange(0, 0) =~= Seq::<GraphIdArg>::empty());
                    }
                    while i < v.len()
                        invariant
                            i <= v@.len(),
                            self.wf(),
                            acc.wf(),
                            v@.len() > 1,
                            forall|k: int|
                                0 <= k < v@.len() ==> self.has_node((#[trigger] v@[k]).id),
                            forall|k: int|
                                0 <= k < v@.len() ==> (#[trigger] v@[k]).arg is Some,
                            (forall|k: int|
                                0 <= k < i ==> sel_known(*self, #[trigger] v@[k])) && sel_concat(
                                *self,
                                v@,
                            ).len() <= u64::MAX ==> (acc matches Shapes::Fixed(av) && ({
                                let cs = sel_concat(*self, v@.subrange(0, i as int));
                                &&& av@.len() == cs.len()
                                &&& forall|t: int|
                                    0 <= t < av@.len() ==> (#[trigger] av@[t]).0 == t && av@[
                                        t
                                    ].1@ == cs[t].1
                            })),
                            (exists|k: int| 0 <= k < i && !sel_known(*self, #[trigger] v@[k]))
                                ==> acc is Dynamic,
                        decreases v@.len() - i,
                    {
                        let ia = &v[i];
                        proof {
                            assert(v@[i as int].id == ia.id);
                            assert(self.has_node(v@[i as int].id));
                            assert(v@[i as int].arg is Some);
                        }
                        let ni = match self.node_idx(&ia.id) {
                            Some(ni) => ni,
                            None => {
                                proof {
                                    assert(false);
                                }
                                unreached()
                            },
                        };
                        let arg = match &ia.arg {
                            Some(a) => *a,
                            None => {
                                proof {
                                    assert(false);
                                }
                                unreached()
                            },
                        };
                        let mut sel: Vec<u64> = Vec::new();
                        sel.push(arg);
                        proof {
                            assert(node_wf(self.nodes@[ni as int].1));
                        }
                        let part = self.nodes[ni].1.shapes.index_args(&sel);
                        proof {
                            assert(sel@ =~= seq![arg]);
                            lemma_index_is_sel(
                                *self,
                                v@[i as int],
                                self.nodes@[ni as int].1.shapes,
                                sel@,
                                part,
                            );
                        }
                        let ghost apre = acc;
                        acc = acc.append(&part);
                        proof {
                            assert(v@.subrange(0, i + 1).drop_last() =~= v@.subrange(
                                0,
                                i as int,
                            ));
                            assert(v@.subrange(0, i + 1).last() == v@[i as int]);
                            if (forall|k: int|
                                0 <= k < i + 1 ==> sel_known(*self, #[trigger] v@[k]))
                                && sel_concat(*self, v@).len() <= u64::MAX {
                                lemma_sel_concat_prefix(*self, v@, i + 1);
                                let cs0 = sel_concat(*self, v@.subrange(0, i as int));
                                let se = sel_entries(*self, v@[i as int]);
                                let cs1 = sel_concat(*self, v@.subrange(0, i + 1));
                                assert(cs1 == cs0 + se);
                                match (&apre, &part, &acc) {
                                    (Shapes::Fixed(av0), Shapes::Fixed(bv), Shapes::Fixed(
                                        av1,
                                    )) => {
                                        assert(av1@.len() == cs1.len());
                                        assert forall|t: int|
                                            0 <= t < av1@.len() implies (#[trigger] av1@[t]).0
                                            == t && av1@[t].1@ == cs1[t].1 by {
                                            if t < av0@.len() {
                                                assert(av1@[t].0 == av0@[t].0 && av1@[t].1@
                                                    == av0@[t].1@);
                                                assert(cs1[t] == cs0[t]);
                                            } else {
                                                let k2 = t - av0@.len();
                                                assert(av1@[av0@.len() + k2].0 == av0@.len()
                                                    + k2 && av1@[av0@.len() + k2].1@ == bv@[
                                                    k2
                                                ].1@);
                                                assert(bv@[k2].0 == se[k2].0 && bv@[k2].1@
                                                    == se[k2].1);
                                                assert(cs1[t] == se[k2]);
                                            }
                                        }
                                    },
                                    _ => {
                                        assert(false);
                                    },
                                }
                            }
                        }
                        i = i + 1;
                    }
                    proof {
                        assert(v@.subrange(0, v@.len() as int) =~= v@);
                    }
                    acc
                }
            },
        }
    }

    /// Promote a sub-model's declared input shapes into this graph: rename
    /// remaining placeholders, register them as local variables, and set
    /// them as the last node's shapes.
    pub(crate) fn set_last_shapes_from_child(&mut self, shapes: Shapes, id: GraphId) -> (r:
        Result<Shapes, GraphError>)
        requires
            old(self).wf(),
            old(self).nodes@.len() > 0,
            shapes.wf(),
        ensures
            final(self).wf(),
            final(self).nodes@.len() == old(self).nodes@.len(),
            forall|k: int|
                0 <= k < final(self).nodes@.len() ==> (#[trigger] final(self).nodes@[k]).0 == old(
                    self,
                ).nodes@[k].0,
            final(self).is_extern == old(self).is_extern,
            final(self).shape_state == old(self).shape_state,
            r matches Ok(s) ==> s.wf(),
            shapes is Dynamic ==> r == Result::<Shapes, GraphError>::Err(
                GraphError::FullShapeRequired { id },
            ),
            r is Err ==> (r matches Err(GraphError::FullShapeRequired { .. }) || r matches Err(
                GraphError::DifferentVariableType { .. },
            )),
            // the promoted bundle is the declared one with its placeholders
            // archived, and it becomes the last node's shapes
            shapes matches Shapes::Fixed(entries) ==> (r matches Ok(s) ==> ({
                let ev = entries@.map_values(|e: (u64, Shape)| (e.0, e.1@));
                &&& s matches Shapes::Fixed(rs)
                &&& rs@.len() == entries@.len()
                &&& forall|k: int|
                    0 <= k < rs@.len() ==> (#[trigger] rs@[k]).0 == entries@[k].0 && rs@[k].1@
                        == crate::graphs::shape::shape_arch(ev[k].1, id.node as nat)
                &&& final(self).nodes@.last().1.shapes@ == s@
            })),
    {
        match shapes {
            Shapes::Dynamic => Err(GraphError::FullShapeRequired { id }),
            Shapes::Fixed(_) => {
                let (renamed, names) = shapes.try_archive_placeholders(id);
                let mut i: usize = 0;
                let mut ignored = false;
                while i < names.len()
                    invariant
                        i <= names@.len(),
                        self.wf(),
                        self.nodes@.len() == old(self).nodes@.len(),
                        forall|k: int|
                            0 <= k < self.nodes@.len() ==> (#[trigger] self.nodes@[k]).0 == old(
                                self,
                            ).nodes@[k].0,
                        self.nodes@.len() > 0,
                        self.is_extern == old(self).is_extern,
                        self.shape_state == old(self).shape_state,
                        shapes matches Shapes::Fixed(..),
                    decreases names@.len() - i,
                {
                    let res = self.find_var(names[i].clone(), &mut ignored);
                    if let Err(e) = res {
                        return Err(e);
                    }
                    i = i + 1;
                }
                let out = renamed.clone();
                let ghost gren = renamed;
                let ghost pre = self.nodes@;
                self.set_last_shapes(renamed);
                proof {
                    assert(out@ == gren@);
                    match (&out, &gren) {
                        (Shapes::Fixed(rs), Shapes::Fixed(rr)) => {
                            assert(rs@.map_values(|e: (u64, Shape)| (e.0, e.1@))
                                == rr@.map_values(|e: (u64, Shape)| (e.0, e.1@)));
                            assert forall|k: int| 0 <= k < rs@.len() implies (#[trigger] rs@[
                                k
                            ]).0 == rr@[k].0 && rs@[k].1@ == rr@[k].1@ by {
                                assert(rs@.map_values(|e: (u64, Shape)| (e.0, e.1@))[k] == (
                                rs@[k].0, rs@[k].1@));
                                assert(rr@.map_values(|e: (u64, Shape)| (e.0, e.1@))[k] == (
                                rr@[k].0, rr@[k].1@));
                            }
                        },
                        _ => {},
                    }
                }
                proof {
                    assert forall|k: int|
                        0 <= k < self.nodes@.len() implies (#[trigger] self.nodes@[k]).0 == old(
                        self,
                    ).nodes@[k].0 by {
                        if k < self.nodes@.len() - 1 {
                            assert(self.nodes@[k] == pre[k]);
                        } else {
                            assert(self.nodes@.last().0 == pre.last().0);
                        }
                    }
                }
                Ok(out)
            },
        }
    }

    /// Every declared dim of the slot is a literal in coefficient range, so
    /// its conversion cannot fail.
    pub open spec fn literal_slot(sh: ast::Shape) -> bool {
        forall|d: int|
            0 <= d < sh.0@.len() ==> ((#[trigger] sh.0@[d]) matches ast::Dim::Fixed(n) ==> n
                <= 0x7fff_ffff_ffff_ffff) && !((sh.0@[d]) matches ast::Dim::Semantic(..)) && !((
            sh.0@[d]) matches ast::Dim::Expr { .. })
    }

    /// The converted dim repeats a declared literal.
    pub open spec fn lit_dim(decl: ast::Dim, d: Dim) -> bool {
        decl matches ast::Dim::Fixed(n) ==> d@ == DimV::Expr(
            (crate::algebra::const_terms(n as int), crate::algebra::one_terms()),
        )
    }

    /// The converted shape repeats the declared literals, dim for dim.
    pub open spec fn literal_slot_recorded(decl: ast::Shape, sh: Shape) -> bool {
        match sh {
            Shape::Fixed(ds) => ds@.len() == decl.0@.len() && (forall|d2: int|
                0 <= d2 < ds@.len() ==> Self::lit_dim(#[trigger] decl.0@[d2], ds@[d2])),
            _ => false,
        }
    }

    /// Every declared slot sits at its own index and holds literals alone.
    pub open spec fn all_literal_decl(shapes: ast::Shapes) -> bool {
        forall|i: int|
            0 <= i < shapes.0@.len() ==> (#[trigger] shapes.0@[i]).0 == i && Self::literal_slot(
                shapes.0@[i].1,
            )
    }

    /// Elaborate the declared output shapes of the last node: each slot must
    /// sit at its own index, the dims are converted, a transforming node
    /// compares products, the result is unified against the previous shapes
    /// and recorded, and the mode settles on fixed.
    pub(crate) fn adjust_shapes(&mut self, shapes: &ast::Shapes) -> (r: Result<(), CompileError>)
        requires
            old(self).wf(),
            old(self).nodes@.len() > 0,
        ensures
            final(self).wf(),
            final(self).nodes@.len() == old(self).nodes@.len(),
            forall|k: int|
                0 <= k < final(self).nodes@.len() ==> (#[trigger] final(self).nodes@[k]).0 == old(
                    self,
                ).nodes@[k].0,
            final(self).is_extern == old(self).is_extern,
            r is Ok ==> (forall|i: int|
                0 <= i < shapes.0@.len() ==> (#[trigger] shapes.0@[i]).0 == i),
            r is Ok ==> final(self).shape_state matches ShapeState::Fixed(..),
            shapes.0@.len() > 0 && shapes.0@[0].0 != 0 ==> (r matches Err(
                CompileError::GraphError { error: GraphError::UnvalidNodeArg { .. }, .. },
            )),
            (r matches Err(CompileError::GraphError { error: GraphError::UnvalidNodeArg { .. }, .. }))
                ==> exists|i: int| 0 <= i < shapes.0@.len() && (#[trigger] shapes.0@[i]).0 != i,
            // a misplaced slot behind literal-only slots is always caught
            (exists|m: int|
                0 <= m < shapes.0@.len() && (#[trigger] shapes.0@[m]).0 != m && (forall|k: int|
                    0 <= k < m ==> (#[trigger] shapes.0@[k]).0 == k && Self::literal_slot(
                        shapes.0@[k].1,
                    ))) ==> r matches Err(
                CompileError::GraphError { error: GraphError::UnvalidNodeArg { .. }, .. },
            ),
            // a misplaced slot is reported as the first one, with its data
            (r matches Err(
                CompileError::GraphError {
                    error: GraphError::UnvalidNodeArg { id: eid, arg, given },
                    ..
                },
            ) ==> {
                &&& eid == old(self).nodes@.last().0
                &&& 0 <= arg < shapes.0@.len()
                &&& shapes.0@[arg as int].0 == given
                &&& given != arg
                &&& forall|k: int| 0 <= k < arg ==> (#[trigger] shapes.0@[k]).0 == k
            }),
            // on failure nothing of the node chain changes
            r is Err ==> final(self).nodes == old(self).nodes,
            r is Err ==> !(r matches Err(CompileError::ModelError { .. })),
            // on success the last node carries the declared slot structure
            r is Ok ==> ({
                let lv = final(self).nodes@.last().1.shapes@;
                &&& lv matches ShapesV::Fixed(es)
                &&& es.len() == shapes.0@.len()
                &&& forall|k: int|
                    0 <= k < es.len() ==> (#[trigger] es[k]).0 == k && (es[k].1 matches
                    ShapeV::Fixed(ds) && ds.len() == shapes.0@[k].1.0@.len())
            }),
            // an all-literal in-order declaration coins no placeholder: the
            // mode settles on fully fixed
            r is Ok && Self::all_literal_decl(*shapes) ==> final(self).shape_state
                == ShapeState::Fixed(FitState::Full),
            // over a still unknown previous bundle such a declaration is
            // accepted outright and recorded literal for literal
            Self::all_literal_decl(*shapes) && old(self).shape_state != ShapeState::Transform
                && old(self).nodes@.last().1.shapes is Dynamic ==> {
                &&& r is Ok
                &&& (final(self).nodes@.last().1.shapes matches Shapes::Fixed(conv)
                    && conv@.len() == shapes.0@.len() && (forall|k: int|
                    0 <= k < conv@.len() ==> (#[trigger] conv@[k]).0 == k
                        && Self::literal_slot_recorded(shapes.0@[k].1, conv@[k].1)))
            },
            // a transforming node is gated by the slots' products, never by
            // their ranks
            old(self).shape_state == ShapeState::Transform ==> !(r matches Err(
                CompileError::GraphError { error: GraphError::DifferentRank { .. }, .. },
            )),
            // and on success every recorded slot's product is defined
            old(self).shape_state == ShapeState::Transform && r is Ok ==> (final(self).nodes@.last().1.shapes matches Shapes::Fixed(conv)
                ==> (forall|k: int|
                0 <= k < conv@.len() ==> ((#[trigger] conv@[k]).1 matches Shape::Fixed(ds)
                    ==> crate::graphs::shape::dims_product_sp(ds@) is Some))),
    {
        let ghost gdecl = shapes.0@;
        let decl = &shapes.0;
        proof {
            assert(gdecl == shapes.0@);
        }
        let mut is_new_var_created = false;
        let mut converted: Vec<(u64, Shape)> = Vec::new();
        let mut i: usize = 0;
        while i < decl.len()
            invariant
                i <= decl@.len(),
                self.wf(),
                self.nodes == old(self).nodes,
                self.nodes@.len() > 0,
                self.is_extern == old(self).is_extern,
                self.shape_state == old(self).shape_state,
                converted@.len() == i,
                decl@ == gdecl,
                gdecl == shapes.0@,
                forall|k: int| 0 <= k < i ==> (#[trigger] gdecl[k]).0 == k,
                forall|k: int|
                    0 <= k < i ==> (#[trigger] converted@[k]).0 == k && (converted@[k].1 matches
                    Shape::Fixed(ds) && ds@.len() == gdecl[k].1.0@.len()),
                forall|k: int| 0 <= k < i ==> (#[trigger] converted@[k]).1.wf(),
                Self::all_literal_decl(*shapes) ==> is_new_var_created == false,
                Self::all_literal_decl(*shapes) ==> (forall|k: int|
                    0 <= k < i ==> Self::literal_slot_recorded(
                        gdecl[k].1,
                        (#[trigger] converted@[k]).1,
                    )),
            decreases decl@.len() - i,
        {
            let arg_ground = i as u64;
            let e = &decl[i];
            if arg_ground != e.0 {
                proof {
                    assert(0 <= i < gdecl.len() && gdecl[i as int].0 != i);
                    assert(exists|ii: int| 0 <= ii < gdecl.len() && (#[trigger] gdecl[ii]).0 != ii);
                    if Self::all_literal_decl(*shapes) {
                        assert(gdecl[i as int].0 == i);
                        assert(false);
                    }
                }
                return Err(
                    CompileError::GraphError {
                        error: GraphError::UnvalidNodeArg {
                            id: self.get_last_node_id(),
                            arg: arg_ground,
                            given: e.0,
                        },
                        model: self.get_last_node_name().clone(),
                    },
                );
            }
            proof {
                assert(gdecl[i as int].0 == i as u64);
            }
            // convert the declared dims of this slot
            let mut dims: Vec<Dim> = Vec::new();
            let mut j: usize = 0;
            let dl = &e.1;
            while j < dl.0.len()
                invariant
                    j <= dl.0@.len(),
                    self.wf(),
                    self.nodes == old(self).nodes,
                    self.nodes@.len() > 0,
                    self.is_extern == old(self).is_extern,
                    self.shape_state == old(self).shape_state,
                    i < decl@.len(),
                    decl@ == gdecl,
                    gdecl == shapes.0@,
                    gdecl[i as int].0 == i as u64,
                    forall|k: int| 0 <= k < i ==> (#[trigger] gdecl[k]).0 == k,
                    dims@.len() == j,
                    j <= dl.0@.len(),
                    dl == &gdecl[i as int].1,
                    forall|k: int| 0 <= k < j ==> (#[trigger] dims@[k]).wf(),
                    Self::all_literal_decl(*shapes) ==> is_new_var_created == false,
                    Self::all_literal_decl(*shapes) ==> (forall|d2: int|
                        0 <= d2 < j ==> Self::lit_dim(#[trigger] dl.0@[d2], dims@[d2])),
                decreases dl.0@.len() - j,
            {
                let d = match self.convert_dim(&dl.0[j], arg_ground, &mut is_new_var_created) {
                    Ok(d) => d,
                    Err(error) => {
                        proof {
                            if shapes.0@.len() > 0 {
                                assert(shapes.0@[0].0 == 0);
                            }
                            if Self::all_literal_decl(*shapes) {
                                assert(Self::literal_slot(gdecl[i as int].1));
                                match dl.0@[j as int] {
                                    ast::Dim::Fixed(n) => {
                                        assert(n <= 0x7fff_ffff_ffff_ffff);
                                    },
                                    ast::Dim::Semantic(_) => {
                                        assert(!(dl.0@[j as int] matches ast::Dim::Semantic(..)));
                                    },
                                    ast::Dim::Expr { .. } => {
                                        assert(!(dl.0@[j as int] matches ast::Dim::Expr { .. }));
                                    },
                                }
                                assert(false);
                            }
                        }
                        let model = self.get_last_node_name().clone();
                        return Err(CompileError::GraphError { error, model });
                    },
                };
                dims.push(d);
                j = j + 1;
            }
            converted.push((arg_ground, Shape::Fixed(dims)));
            i = i + 1;
        }
        proof {
            assert(forall|k: int| 0 <= k < gdecl.len() ==> (#[trigger] gdecl[k]).0 == k);
        }
        let shapes_new = Shapes::Fixed(converted);
        let shapes_to = shapes_new.clone();
        let ghost gto = shapes_to;
        let id = self.get_last_node_id();
        let model = self.get_last_node_name().clone();
        let last_shapes_raw = self.get_last_shapes(None);

        let (cmp_new, cmp_last) = if self.shape_state == ShapeState::Transform {
            let a = match shapes_new.product() {
                Some(p) => p,
                None => {
                    return Err(
                        CompileError::GraphError {
                            error: GraphError::NumericOverflow { id, arg: 0 },
                            model,
                        },
                    );
                },
            };
            let b = match last_shapes_raw.product() {
                Some(p) => p,
                None => {
                    return Err(
                        CompileError::GraphError {
                            error: GraphError::NumericOverflow { id, arg: 0 },
                            model,
                        },
                    );
                },
            };
            (a, b)
        } else {
            (shapes_new, last_shapes_raw)
        };

        match cmp_new.validate_args_rank(&cmp_last, &id) {
            Ok(true) => {
                // unify slot by slot, axis by axis
                let new_entries = cmp_new.unwrap_shapes();
                let last_entries = cmp_last.unwrap_shapes();
                let mut k: usize = 0;
                while k < last_entries.len() && k < new_entries.len()
                    invariant
                        self.wf(),
                        self.nodes == old(self).nodes,
                        self.nodes@.len() > 0,
                        self.is_extern == old(self).is_extern,
                        gdecl == shapes.0@,
                        self.shape_state == old(self).shape_state,
                        !(Self::all_literal_decl(*shapes) && old(self).shape_state
                            != ShapeState::Transform && old(self).nodes@.last().1.shapes
                            is Dynamic),
                        forall|k2: int| 0 <= k2 < gdecl.len() ==> (#[trigger] gdecl[k2]).0 == k2,
                        forall|k2: int|
                            0 <= k2 < last_entries@.len() ==> (#[trigger] last_entries@[
                                k2
                            ]).1.wf(),
                        forall|k2: int|
                            0 <= k2 < new_entries@.len() ==> (#[trigger] new_entries@[k2]).1.wf(),
                    decreases last_entries@.len() - k,
                {
                    let arg = last_entries[k].0;
                    let last_shape = &last_entries[k].1;
                    let new_shape = &new_entries[k].1;
                    match (last_shape, new_shape) {
                        (Shape::Fixed(last_dims), Shape::Fixed(new_dims)) => {
                            let mut axis: usize = 0;
                            while axis < last_dims.len() && axis < new_dims.len()
                                invariant
                                    self.wf(),
                                    self.nodes == old(self).nodes,
                                    self.nodes@.len() > 0,
                                    self.is_extern == old(self).is_extern,
                                    gdecl == shapes.0@,
                                    self.shape_state == old(self).shape_state,
                                    !(Self::all_literal_decl(*shapes) && old(self).shape_state
                                        != ShapeState::Transform && old(
                                        self,
                                    ).nodes@.last().1.shapes is Dynamic),
                                    forall|k2: int|
                                        0 <= k2 < gdecl.len() ==> (#[trigger] gdecl[k2]).0 == k2,
                                    forall|k2: int|
                                        0 <= k2 < last_dims@.len() ==> (#[trigger] last_dims@[
                                            k2
                                        ]).wf(),
                                    forall|k2: int|
                                        0 <= k2 < new_dims@.len() ==> (#[trigger] new_dims@[
                                            k2
                                        ]).wf(),
                                decreases last_dims@.len() - axis,
                            {
                                let ld = &last_dims[axis];
                                let nd = &new_dims[axis];
                                let res = self.update_dim(id, arg, ld, nd, axis);
                                if let Err(error) = res {
                                    return Err(CompileError::GraphError { error, model });
                                }
                                axis = axis + 1;
                            }
                        },
                        _ => {},
                    }
                    k = k + 1;
                }
            },
            Ok(false) => {},
            Err(error) => {
                proof {
                    if old(self).shape_state == ShapeState::Transform {
                        // both compared bundles hold rank-one products, so
                        // the failure can only concern the slot sets
                        crate::graphs::shape::lemma_args_rank_v(cmp_new, cmp_last);
                        match (&cmp_new, &cmp_last) {
                            (Shapes::Fixed(xs), Shapes::Fixed(ys)) => {
                                let xv = xs@.map_values(|e2: (u64, Shape)| (e2.0, e2.1@));
                                let yv = ys@.map_values(|e2: (u64, Shape)| (e2.0, e2.1@));
                                assert forall|i2: int|
                                    0 <= i2 < xv.len() && i2 < yv.len() implies !crate::graphs::shape::pair_rank_err(
                                    #[trigger] xv[i2],
                                    yv[i2],
                                ) by {
                                    assert(xv[i2] == (xs@[i2].0, xs@[i2].1@));
                                    assert(yv[i2] == (ys@[i2].0, ys@[i2].1@));
                                    assert(converted@[i2].1 matches Shape::Fixed(..));
                                }
                                if cmp_new.spec_keys() == cmp_last.spec_keys() {
                                    assert(false);
                                }
                            },
                            _ => {
                                assert(false);
                            },
                        }
                    }
                }
                return Err(CompileError::GraphError { error, model });
            },
        }
        self.set_last_shapes(shapes_to);
        self.shape_state = ShapeState::Fixed(
            if is_new_var_created {
                FitState::Weak
            } else {
                FitState::Full
            },
        );
        proof {
            match &gto {
                Shapes::Fixed(conv) => {
                    assert forall|k: int|
                        0 <= k < conv@.len() implies (#[trigger] conv@[k]).0 == converted@[k].0
                        && conv@[k].1@ == converted@[k].1@ by {
                        assert(conv@.map_values(|e2: (u64, Shape)| (e2.0, e2.1@))[k] == (
                        conv@[k].0, conv@[k].1@));
                        assert(converted@.map_values(|e2: (u64, Shape)| (e2.0, e2.1@))[k] == (
                        converted@[k].0, converted@[k].1@));
                    }
                    if Self::all_literal_decl(*shapes) {
                        assert forall|k: int|
                            0 <= k < conv@.len() implies Self::literal_slot_recorded(
                            gdecl[k].1,
                            (#[trigger] conv@[k]).1,
                        ) by {
                            match (conv@[k].1, converted@[k].1) {
                                (Shape::Fixed(ds), Shape::Fixed(cs)) => {
                                    assert(ds@.map_values(|d3: Dim| d3@) == cs@.map_values(
                                        |d3: Dim| d3@,
                                    ));
                                    assert forall|d3: int|
                                        0 <= d3 < ds@.len() implies (#[trigger] ds@[d3])@ == cs@[
                                        d3
                                    ]@ by {
                                        assert(ds@.map_values(|d4: Dim| d4@)[d3] == ds@[d3]@);
                                        assert(cs@.map_values(|d4: Dim| d4@)[d3] == cs@[d3]@);
                                    }
                                },
                                _ => {},
                            }
                        }
                    }
                    if old(self).shape_state == ShapeState::Transform {
                        assert forall|k: int|
                            0 <= k < conv@.len() implies ((#[trigger] conv@[k]).1 matches
                        Shape::Fixed(ds) ==> crate::graphs::shape::dims_product_sp(ds@)
                            is Some) by {
                            match &cmp_new {
                                Shapes::Fixed(ars) => {
                                    if k < ars@.len() {
                                        assert(ars@[k].0 == converted@[k].0);
                                    }
                                },
                                _ => {},
                            }
                            match (conv@[k].1, converted@[k].1) {
                                (Shape::Fixed(ds), Shape::Fixed(cs)) => {
                                    assert forall|d3: int|
                                        0 <= d3 < ds@.len() implies (#[trigger] ds@[d3])@ == cs@[
                                        d3
                                    ]@ by {
                                        assert(ds@.map_values(|d4: Dim| d4@)[d3] == ds@[d3]@);
                                        assert(cs@.map_values(|d4: Dim| d4@)[d3] == cs@[d3]@);
                                        assert(ds@.map_values(|d4: Dim| d4@) == cs@.map_values(
                                            |d4: Dim| d4@,
                                        ));
                                    }
                                    crate::graphs::shape::lemma_dims_product_view(ds@, cs@);
                                },
                                _ => {},
                            }
                        }
                    }
                },
                _ => {},
            }
        }
        Ok(())
    }

    /// Ensure the graph is finished: the sub-model table is cleared and the
    /// mode must have settled on fully fixed shapes.
    pub(crate) fn finalize(&mut self) -> (r: Result<(), CompileError>)
        requires
            old(self).wf(),
        ensures
            final(self).wf(),
            final(self).graphs@.len() == 0,
            final(self).nodes == old(self).nodes,
            final(self).variables == old(self).variables,
            final(self).variable_aliases == old(self).variable_aliases,
            final(self).keys == old(self).keys,
            final(self).is_extern == old(self).is_extern,
            final(self).shape_state == old(self).shape_state,
            r is Ok <==> old(self).shape_state == ShapeState::Fixed(FitState::Full),
            old(self).nodes@.len() > 0 && !(r is Ok) ==> {
                &&& r matches Err(
                    CompileError::GraphError { error: GraphError::FullShapeRequired { id }, model },
                )
                &&& id == old(self).nodes@.last().0
                &&& model@ == old(self).nodes@.last().1.name@
            },
            r is Err ==> r matches Err(
                CompileError::GraphError { error: GraphError::FullShapeRequired { .. }, .. },
            ),
            r is Err ==> !(r matches Err(CompileError::ModelError { .. })),
    {
        self.graphs = Vec::new();
        if self.shape_state == ShapeState::Fixed(FitState::Full) {
            Ok(())
        } else {
            let (id, model) = if self.nodes.len() > 0 {
                (self.get_last_node_id(), self.get_last_node_name().clone())
            } else {
                (GraphId::new_input(), String::new())
            };
            Err(CompileError::GraphError { error: GraphError::FullShapeRequired { id }, model })
        }
    }

    /// Every node's fully known shapes, each dim carried to an expression by
    /// one substitution pass through the key-bindings.  Nodes with any
    /// unknown shape are left out.
    pub fn get_shapes(&self) -> (r: Vec<(GraphId, Vec<Vec<Dim>>)>)
        requires
            self.wf(),
        ensures
            r@.len() <= self.nodes@.len(),
            forall|k: int|
                0 <= k < r@.len() ==> self.has_node((#[trigger] r@[k]).0),
            forall|k: int, a: int, d: int|
                0 <= k < r@.len() && 0 <= a < r@[k].1@.len() && 0 <= d < r@[k].1@[a]@.len()
                    ==> (#[trigger] r@[k].1@[a]@[d]) is Expr,
            forall|i: int|
                0 <= i < self.nodes@.len() && fully_fixed((#[trigger] self.nodes@[i]).1.shapes)
                    ==> exists|k: int| 0 <= k < r@.len() && (#[trigger] r@[k]).0 == self.nodes@[
                    i
                ].0,
    {
        let mut r: Vec<(GraphId, Vec<Vec<Dim>>)> = Vec::new();
        let mut i: usize = 0;
        while i < self.nodes.len()
            invariant
                i <= self.nodes@.len(),
                self.wf(),
                r@.len() <= i,
                forall|k: int|
                    0 <= k < r@.len() ==> self.has_node((#[trigger] r@[k]).0),
                forall|k: int, a: int, d: int|
                    0 <= k < r@.len() && 0 <= a < r@[k].1@.len() && 0 <= d < r@[k].1@[a]@.len()
                        ==> (#[trigger] r@[k].1@[a]@[d]) is Expr,
                forall|i2: int|
                    0 <= i2 < i && fully_fixed((#[trigger] self.nodes@[i2]).1.shapes) ==> exists|
                        k: int,
                    | 0 <= k < r@.len() && (#[trigger] r@[k]).0 == self.nodes@[i2].0,
            decreases self.nodes@.len() - i,
        {
            let node = &self.nodes[i];
            proof {
                assert(node_wf(self.nodes@[i as int].1));
            }
            match &node.1.shapes {
                Shapes::Fixed(entries) => {
                    let mut per_arg: Vec<Vec<Dim>> = Vec::new();
                    let mut a: usize = 0;
                    let mut all_fixed = true;
                    while a < entries.len() && all_fixed
                        invariant
                            a <= entries@.len(),
                            self.wf(),
                            i < self.nodes@.len(),
                            self.nodes@[i as int].1.shapes matches Shapes::Fixed(e2) && e2@
                                == entries@,
                            forall|k2: int|
                                0 <= k2 < entries@.len() ==> (#[trigger] entries@[k2]).1.wf(),
                            forall|k2: int, d: int|
                                0 <= k2 < per_arg@.len() && 0 <= d < per_arg@[k2]@.len() ==> (
                                #[trigger] per_arg@[k2]@[d]) is Expr,
                            !all_fixed ==> exists|a2: int|
                                0 <= a2 < entries@.len() && !((#[trigger] entries@[a2]).1 matches
                                Shape::Fixed(..)),
                        decreases entries@.len() - a + (if all_fixed { 1int } else { 0int }),
                    {
                        match &entries[a].1 {
                            Shape::Fixed(dims) => {
                                let mut out: Vec<Dim> = Vec::new();
                                let mut d: usize = 0;
                                while d < dims.len()
                                    invariant
                                        d <= dims@.len(),
                                        self.wf(),
                                        forall|k2: int|
                                            0 <= k2 < dims@.len() ==> (#[trigger] dims@[
                                                k2
                                            ]).wf(),
                                        forall|k2: int|
                                            0 <= k2 < out@.len() ==> (#[trigger] out@[k2])
                                                is Expr,
                                    decreases dims@.len() - d,
                                {
                                    out.push(self.eval_dim_for_output(&dims[d]));
                                    d = d + 1;
                                }
                                per_arg.push(out);
                                a = a + 1;
                            },
                            Shape::Dynamic => {
                                proof {
                                    assert(!(entries@[a as int].1 matches Shape::Fixed(..)));
                                }
                                all_fixed = false;
                            },
                        }
                    }
                    if all_fixed {
                        let ghost gid = node.0;
                        let ghost rpre = r@;
                        r.push((node.0, per_arg));
                        proof {
                            assert(self.nodes@[i as int].0 == gid);
                            assert(r@[rpre.len() as int].0 == gid);
                            assert forall|i2: int|
                                0 <= i2 < i + 1 && fully_fixed(
                                (#[trigger] self.nodes@[i2]).1.shapes,
                            ) implies exists|k: int|
                                0 <= k < r@.len() && (#[trigger] r@[k]).0 == self.nodes@[i2].0 by {
                                if i2 < i {
                                    let k0 = choose|k0: int|
                                        0 <= k0 < rpre.len() && (#[trigger] rpre[k0]).0
                                            == self.nodes@[i2].0;
                                    assert(r@[k0] == rpre[k0]);
                                } else {
                                    assert(r@[rpre.len() as int].0 == self.nodes@[i2].0);
                                }
                            }
                        }
                    } else {
                        proof {
                            assert(!fully_fixed(self.nodes@[i as int].1.shapes));
                        }
                    }
                },
                Shapes::Dynamic => {
                    proof {
                        assert(!fully_fixed(self.nodes@[i as int].1.shapes));
                    }
                },
            }
            i = i + 1;
        }
        r
    }
}


impl Graph {
    /// Convert one declared dimension: a literal becomes a constant
    /// expression, a name resolves through `find_var`, an arithmetic node
    /// recurses; a divisor that evaluates to zero fails, and any value
    /// beyond the coefficient range fails as overflow.
    pub(crate) fn convert_dim(
        &mut self,
        dim: &ast::Dim,
        arg: u64,
        is_new_var_created: &mut bool,
    ) -> (r: Result<Dim, GraphError>)
        requires
            old(self).wf(),
            old(self).nodes@.len() > 0,
        ensures
            final(self).wf(),
            final(self).nodes == old(self).nodes,
            final(self).graphs == old(self).graphs,
            final(self).shape_state == old(self).shape_state,
            final(self).is_extern == old(self).is_extern,
            r matches Ok(d) ==> d.wf(),
            r is Err ==> (r matches Err(GraphError::FullShapeRequired { .. }) || r matches Err(
                GraphError::DifferentVariableType { .. },
            ) || r matches Err(GraphError::DivideByZero { .. }) || r matches Err(
                GraphError::NumericOverflow { .. },
            )),
            dim matches ast::Dim::Fixed(n) ==> (n <= 0x7fff_ffff_ffff_ffff ==> (r matches Ok(d)
                && d@ == DimV::Expr(
                (crate::algebra::const_terms(n as int), crate::algebra::one_terms()),
            ))),
            // a literal coins nothing and leaves the graph as it was
            dim matches ast::Dim::Fixed(..) ==> (*final(is_new_var_created) == *old(
                is_new_var_created,
            ) && final(self).keys == old(self).keys && final(self).variables == old(
                self,
            ).variables),
            dim matches ast::Dim::Fixed(n) ==> (n > 0x7fff_ffff_ffff_ffff ==> r == Result::<
                Dim,
                GraphError,
            >::Err(GraphError::NumericOverflow { id: old(self).nodes@.last().0, arg })),
            // a name already known as a placeholder resolves to that key
            dim matches ast::Dim::Semantic(v) ==> (keys_has(old(self).keys@, (false, v@, true))
                ==> {
                &&& r matches Ok(d)
                &&& d@ == DimV::Key((false, v@, true))
            }),
            dim matches ast::Dim::Semantic(v) ==> (!keys_has(old(self).keys@, (false, v@, true))
                && keys_has(old(self).keys@, (false, v@, false)) ==> {
                &&& r matches Ok(d)
                &&& d@ == DimV::Key((false, v@, false))
            }),
            // a divisor that means zero fails as division by zero
            dim matches ast::Dim::Expr { lhs, rhs, op: ast::DimOp::Div } ==> ((**lhs) matches
                ast::Dim::Fixed(nl) ==> ((**rhs) matches ast::Dim::Fixed(z) ==> (nl
                <= 0x7fff_ffff_ffff_ffff && z == 0 ==> r == Result::<Dim, GraphError>::Err(
                GraphError::DivideByZero { id: old(self).nodes@.last().0, arg },
            )))),
        decreases dim,
    {
        match dim {
            ast::Dim::Fixed(n) => {
                if *n <= 0x7fff_ffff_ffff_ffff {
                    Ok(Dim::Expr(Expr::from_u64(*n)))
                } else {
                    Err(GraphError::NumericOverflow { id: self.get_last_node_id(), arg })
                }
            },
            ast::Dim::Semantic(var) => self.find_var(var.clone(), is_new_var_created),
            ast::Dim::Expr { lhs, rhs, op } => {
                let l = match self.convert_dim(&**lhs, arg, is_new_var_created) {
                    Ok(d) => d,
                    Err(e) => {
                        return Err(e);
                    },
                };
                let r2 = match self.convert_dim(&**rhs, arg, is_new_var_created) {
                    Ok(d) => d,
                    Err(e) => {
                        return Err(e);
                    },
                };
                match op {
                    ast::DimOp::Add => match l.add(&r2) {
                        Some(d) => Ok(d),
                        None => Err(
                            GraphError::NumericOverflow { id: self.get_last_node_id(), arg },
                        ),
                    },
                    ast::DimOp::Sub => match l.sub(&r2) {
                        Some(d) => Ok(d),
                        None => Err(
                            GraphError::NumericOverflow { id: self.get_last_node_id(), arg },
                        ),
                    },
                    ast::DimOp::Mul => match l.mul(&r2) {
                        Some(d) => Ok(d),
                        None => Err(
                            GraphError::NumericOverflow { id: self.get_last_node_id(), arg },
                        ),
                    },
                    ast::DimOp::Div => {
                        // a divisor that already means zero fails at once
                        let r_raw = r2.to_expr();
                        proof {
                            let ct = crate::algebra::const_terms(0);
                            assert(ct.len() == 1);
                            assert(ct.last() == (0int, Map::<crate::algebra::SymV, nat>::empty()));
                            assert(ct.drop_last() =~= Seq::<crate::algebra::TermV>::empty());
                            assert(crate::algebra::poly_sem(ct.drop_last()) == Map::<
                                crate::algebra::MonoV,
                                int,
                            >::empty());
                            assert(crate::algebra::poly_sem(ct) == crate::algebra::poly_bump(
                                crate::algebra::poly_sem(ct.drop_last()),
                                ct.last().1,
                                ct.last().0,
                            ));
                            assert(crate::algebra::poly_sem(ct) =~= Map::<
                                crate::algebra::MonoV,
                                int,
                            >::empty());
                        }
                        if r_raw.is_zero() {
                            return Err(
                                GraphError::DivideByZero { id: self.get_last_node_id(), arg },
                            );
                        }
                        let r_eval = match self.eval_dim(&r2) {
                            Some(d) => d,
                            None => {
                                return Err(
                                    GraphError::NumericOverflow {
                                        id: self.get_last_node_id(),
                                        arg,
                                    },
                                );
                            },
                        };
                        if let Dim::Expr(re) = &r_eval {
                            if re.is_zero() {
                                return Err(
                                    GraphError::DivideByZero {
                                        id: self.get_last_node_id(),
                                        arg,
                                    },
                                );
                            }
                        }
                        match l.div(&r2) {
                            Some(d) => Ok(d),
                            None => Err(
                                GraphError::NumericOverflow { id: self.get_last_node_id(), arg },
                            ),
                        }
                    },
                }
            },
        }
    }
}



/// The positional input edges an argument list requests, flattened in
/// order.
pub open spec fn node_args_flat(args: Seq<ast::GraphPassArg>) -> Seq<ast::NodeArg>
    decreases args.len(),
{
    if args.len() == 0 {
        Seq::empty()
    } else {
        node_args_flat(args.drop_last()) + (match args.last() {
            ast::GraphPassArg::NodeArg(list) => list@,
            _ => Seq::empty(),
        })
    }
}

impl Graph {
    /// Unify the caller's incoming shapes with the sub-graph's declared
    /// input shapes.  A validated match binds the sub-graph's placeholders
    /// and re-evaluates its output shapes into the caller's symbol space; a
    /// fully unknown input passes the incoming shapes through; empty inputs
    /// on the first node promote the sub-graph's declared shapes into this
    /// graph; anything else cannot be estimated.
    pub(crate) fn apply_shapes_as_input(
        &mut self,
        target: &mut Graph,
        inputs: &Vec<GraphIdArg>,
        id: GraphId,
    ) -> (r: Result<Shapes, GraphError>)
        requires
            old(self).wf(),
            old(target).wf(),
            old(self).nodes@.len() > 0,
            forall|i: int| 0 <= i < inputs@.len() ==> old(self).has_node((#[trigger] inputs@[i]).id),
            inputs@.len() > 1 ==> forall|i: int|
                0 <= i < inputs@.len() ==> (#[trigger] inputs@[i]).arg is Some,
        ensures
            final(self).wf(),
            final(target).wf(),
            final(self).nodes@.len() == old(self).nodes@.len(),
            forall|k: int|
                0 <= k < final(self).nodes@.len() ==> (#[trigger] final(self).nodes@[k]).0 == old(
                    self,
                ).nodes@[k].0,
            final(self).is_extern == old(self).is_extern,
            final(self).shape_state == old(self).shape_state,
            r matches Ok(s) ==> s.wf(),
            old(target).nodes@.len() == 0 ==> r == Result::<Shapes, GraphError>::Err(
                GraphError::InputNodeNotFound,
            ),
            r is Err ==> !(r matches Err(GraphError::NoSuchNode { .. })),
            final(target).variables == old(target).variables,
            final(target).variable_aliases == old(target).variable_aliases,
            // the unification binds keys of the sub-graph and touches nothing
            // else of it
            final(target).nodes == old(target).nodes,
            final(target).graphs == old(target).graphs,
            final(target).is_extern == old(target).is_extern,
            final(target).shape_state == old(target).shape_state,
            // a fully unknown expected input passes the incoming shapes through
            old(target).nodes@.len() > 0 && old(target).nodes@[0].1.shapes is Dynamic ==> {
                &&& r is Ok
                &&& (inputs@.len() == 0 ==> (r matches Ok(s2) && s2@ == old(
                    self,
                ).nodes@.last().1.shapes@))
            },
            // what the rank comparison of the expected input bundle against
            // the selected incoming one decides, it decides entirely
            old(target).nodes@.len() > 0 ==> (selected_of(*old(self), inputs@) matches Some(sv)
                ==> ({
                let tf = old(target).nodes@[0].1.shapes;
                &&& (crate::graphs::shape::args_rank_err_v(tf@, sv) ==> (r matches Err(e2) && (
                e2 matches GraphError::DifferentArgs { .. } || e2 matches GraphError::DifferentRank {
                    ..
                })))
                &&& (!crate::graphs::shape::args_rank_err_v(tf@, sv)
                    && !crate::graphs::shape::args_rank_true_v(tf@, sv) ==> {
                    // a fully unknown expected bundle passes the incoming
                    // one through unchanged
                    &&& (tf is Dynamic ==> (r matches Ok(s2) && s2@ == sv))
                    // a bare first node takes the declared bundle, archived,
                    // as this graph's own shapes
                    &&& (!(tf is Dynamic) && inputs@.len() == 0 && id == GraphId::spec_first()
                        ==> {
                        &&& (r matches Err(e2) ==> (e2 matches GraphError::FullShapeRequired {
                            ..
                        } || e2 matches GraphError::DifferentVariableType { .. }))
                        &&& (tf matches Shapes::Fixed(entries) ==> (r matches Ok(s2) ==> ({
                            let ev = entries@.map_values(|e: (u64, Shape)| (e.0, e.1@));
                            &&& s2 matches Shapes::Fixed(rs)
                            &&& rs@.len() == entries@.len()
                            &&& (forall|k: int|
                                0 <= k < rs@.len() ==> (#[trigger] rs@[k]).0 == entries@[k].0
                                    && rs@[k].1@ == crate::graphs::shape::shape_arch(
                                    ev[k].1,
                                    id.node as nat,
                                ))
                            &&& final(self).nodes@.last().1.shapes@ == s2@
                        })))
                    })
                    // anything else cannot be estimated
                    &&& (!(tf is Dynamic) && !(inputs@.len() == 0 && id
                        == GraphId::spec_first()) ==> r == Result::<Shapes, GraphError>::Err(
                        GraphError::CannotEstimateShape { id, arg: 0, axis: 0 },
                    ))
                })
                // a validated match answers the sub-graph's own output
                // bundle, re-evaluated under its updated bindings, the
                // remaining placeholders renamed into this node's space
                &&& (crate::graphs::shape::args_rank_true_v(tf@, sv) ==> (r matches Ok(s2) ==> (
                old(target).nodes@.last().1.shapes matches Shapes::Fixed(oentries) ==> (forall|
                    env: Seq<(Sym, Expr)>,
                |
                    #[trigger] env_matches(env, final(target).keys@) ==> ({
                        &&& s2 matches Shapes::Fixed(rs)
                        &&& rs@.len() == oentries@.len()
                        &&& (forall|k: int|
                            0 <= k < rs@.len() ==> (#[trigger] rs@[k]).0 == oentries@[k].0 && (
                            match oentries@[k].1 {
                                Shape::Dynamic => rs@[k].1@ == ShapeV::Dynamic,
                                Shape::Fixed(ds) => (rs@[k].1@ matches ShapeV::Fixed(ovs)
                                    && ovs.len() == ds@.len() && (forall|d2: int|
                                    0 <= d2 < ovs.len() ==> eval_dim_sp(env, ds@[d2]) is Some
                                        && #[trigger] ovs[d2]
                                        == crate::graphs::shape::dim_arch(
                                        eval_dim_sp(env, ds@[d2])->Some_0,
                                        id.node as nat,
                                    ))),
                            }))
                    })))))
            })),
    {
        let shapes = self.get_last_shapes(Some(inputs));
        proof {
            lemma_selects_functional(*self, inputs@, shapes);
        }
        if target.nodes.len() == 0 {
            return Err(GraphError::InputNodeNotFound);
        }
        let target_shapes = target.get_first_shapes().clone();
        proof {
            assert(node_wf(target.nodes@[0].1));
            crate::graphs::shape::lemma_args_rank_v(target_shapes, shapes);
        }
        match target_shapes.validate_args_rank(&shapes, &id) {
            Err(e) => Err(e),
            Ok(false) => {
                if let Shapes::Dynamic = target_shapes {
                    Ok(shapes)
                } else if inputs.len() == 0 && id.is_first() {
                    self.set_last_shapes_from_child(target_shapes, id)
                } else {
                    Err(GraphError::CannotEstimateShape { id, arg: 0, axis: 0 })
                }
            },
            Ok(true) => {
                let tentries = target_shapes.unwrap_shapes();
                let sentries = shapes.unwrap_shapes();
                let mut out1: Vec<(u64, Shape)> = Vec::new();
                let mut k: usize = 0;
                while k < tentries.len() && k < sentries.len()
                    invariant
                        self.wf(),
                        target.wf(),
                        target.nodes@.len() > 0,
                        old(target).nodes@.len() > 0,
                        !(old(target).nodes@[0].1.shapes is Dynamic),
                        (selected_of(*old(self), inputs@) matches Some(sv2)
                            ==> crate::graphs::shape::args_rank_true_v(
                            old(target).nodes@[0].1.shapes@,
                            sv2,
                        ) && !crate::graphs::shape::args_rank_err_v(
                            old(target).nodes@[0].1.shapes@,
                            sv2,
                        )),
                        target.variables == old(target).variables,
                        target.variable_aliases == old(target).variable_aliases,
                        target.nodes == old(target).nodes,
                        target.graphs == old(target).graphs,
                        target.is_extern == old(target).is_extern,
                        target.shape_state == old(target).shape_state,
                        self.nodes@.len() == old(self).nodes@.len(),
                        self.is_extern == old(self).is_extern,
                        self.shape_state == old(self).shape_state,
                        forall|k2: int|
                            0 <= k2 < tentries@.len() ==> (#[trigger] tentries@[k2]).1.wf(),
                        forall|k2: int|
                            0 <= k2 < sentries@.len() ==> (#[trigger] sentries@[k2]).1.wf(),
                        forall|k2: int| 0 <= k2 < out1@.len() ==> (#[trigger] out1@[k2]).1.wf(),
                    decreases tentries@.len() - k,
                {
                    let arg = sentries[k].0;
                    let sshape = &sentries[k].1;
                    let tshape = &tentries[k].1;
                    match (tshape, sshape) {
                        (Shape::Fixed(tdims), Shape::Fixed(sdims)) => {
                            let mut dims: Vec<Dim> = Vec::new();
                            let mut axis: usize = 0;
                            while axis < tdims.len() && axis < sdims.len()
                                invariant
                                    self.wf(),
                                    target.wf(),
                                    target.nodes@.len() > 0,
                                    old(target).nodes@.len() > 0,
                                    !(old(target).nodes@[0].1.shapes is Dynamic),
                                    (selected_of(*old(self), inputs@) matches Some(sv2)
                                        ==> crate::graphs::shape::args_rank_true_v(
                                        old(target).nodes@[0].1.shapes@,
                                        sv2,
                                    ) && !crate::graphs::shape::args_rank_err_v(
                                        old(target).nodes@[0].1.shapes@,
                                        sv2,
                                    )),
                                    target.variables == old(target).variables,
                                    target.variable_aliases == old(target).variable_aliases,
                                    target.nodes == old(target).nodes,
                                    target.graphs == old(target).graphs,
                                    target.is_extern == old(target).is_extern,
                                    target.shape_state == old(target).shape_state,
                                    self.nodes@.len() == old(self).nodes@.len(),
                                    self.is_extern == old(self).is_extern,
                                    self.shape_state == old(self).shape_state,
                                    forall|k2: int|
                                        0 <= k2 < tdims@.len() ==> (#[trigger] tdims@[k2]).wf(),
                                    forall|k2: int|
                                        0 <= k2 < sdims@.len() ==> (#[trigger] sdims@[k2]).wf(),
                                    forall|k2: int|
                                        0 <= k2 < dims@.len() ==> (#[trigger] dims@[k2]).wf(),
                                decreases tdims@.len() - axis,
                            {
                                let td = &tdims[axis];
                                let sd = &sdims[axis];
                                let d = match target.update_dim(id, arg, td, sd, axis) {
                                    Ok(d) => d,
                                    Err(e) => {
                                        return Err(e);
                                    },
                                };
                                dims.push(d);
                                axis = axis + 1;
                            }
                            out1.push((arg, Shape::Fixed(dims)));
                        },
                        _ => {
                            out1.push((arg, sshape.clone()));
                        },
                    }
                    k = k + 1;
                }
                let mid = Shapes::Fixed(out1);
                // re-evaluate the sub-graph's output shapes under its updated
                // bindings
                let ghost gkeys2 = target.keys@;
                let tlast = target.get_last_shapes(None);
                let out = match &tlast {
                    Shapes::Dynamic => mid,
                    Shapes::Fixed(entries) => {
                        let mut out2: Vec<(u64, Shape)> = Vec::new();
                        let mut k2: usize = 0;
                        while k2 < entries.len()
                            invariant
                                k2 <= entries@.len(),
                                self.wf(),
                                target.wf(),
                                old(target).nodes@.len() > 0,
                                !(old(target).nodes@[0].1.shapes is Dynamic),
                                (selected_of(*old(self), inputs@) matches Some(sv2)
                                    ==> crate::graphs::shape::args_rank_true_v(
                                    old(target).nodes@[0].1.shapes@,
                                    sv2,
                                ) && !crate::graphs::shape::args_rank_err_v(
                                    old(target).nodes@[0].1.shapes@,
                                    sv2,
                                )),
                                target.variables == old(target).variables,
                                target.variable_aliases == old(target).variable_aliases,
                                target.nodes == old(target).nodes,
                                target.graphs == old(target).graphs,
                                target.is_extern == old(target).is_extern,
                                target.shape_state == old(target).shape_state,
                                target.keys@ == gkeys2,
                                self.nodes@.len() == old(self).nodes@.len(),
                                self.is_extern == old(self).is_extern,
                                self.shape_state == old(self).shape_state,
                                forall|k3: int|
                                    0 <= k3 < entries@.len() ==> (#[trigger] entries@[
                                        k3
                                    ]).1.wf(),
                                forall|k3: int|
                                    0 <= k3 < out2@.len() ==> (#[trigger] out2@[k3]).1.wf(),
                                out2@.len() == k2,
                                forall|k3: int|
                                    0 <= k3 < out2@.len() ==> (#[trigger] out2@[k3]).0
                                        == entries@[k3].0 && (match entries@[k3].1 {
                                        Shape::Dynamic => out2@[k3].1 is Dynamic,
                                        Shape::Fixed(ds) => (out2@[k3].1 matches Shape::Fixed(os)
                                            && os@.len() == ds@.len() && (forall|
                                            env: Seq<(Sym, Expr)>,
                                            d2: int,
                                        |
                                            #[trigger] env_matches(env, gkeys2) && 0 <= d2
                                                < os@.len() ==> eval_dim_sp(env, ds@[d2]) == Some(
                                                (#[trigger] os@[d2])@,
                                            ))),
                                    }),
                            decreases entries@.len() - k2,
                        {
                            let e = &entries[k2];
                            match &e.1 {
                                Shape::Fixed(dims) => {
                                    let mut ev: Vec<Dim> = Vec::new();
                                    let mut d: usize = 0;
                                    while d < dims.len()
                                        invariant
                                            d <= dims@.len(),
                                            self.wf(),
                                            target.wf(),
                                            old(target).nodes@.len() > 0,
                                            !(old(target).nodes@[0].1.shapes is Dynamic),
                                            (selected_of(*old(self), inputs@) matches Some(sv2)
                                                ==> crate::graphs::shape::args_rank_true_v(
                                                old(target).nodes@[0].1.shapes@,
                                                sv2,
                                            ) && !crate::graphs::shape::args_rank_err_v(
                                                old(target).nodes@[0].1.shapes@,
                                                sv2,
                                            )),
                                            target.variables == old(target).variables,
                                            target.variable_aliases == old(target).variable_aliases,
                                            target.nodes == old(target).nodes,
                                            target.graphs == old(target).graphs,
                                            target.is_extern == old(target).is_extern,
                                            target.shape_state == old(target).shape_state,
                                            target.keys@ == gkeys2,
                                            self.nodes@.len() == old(self).nodes@.len(),
                                            self.is_extern == old(self).is_extern,
                                            self.shape_state == old(self).shape_state,
                                            forall|k3: int|
                                                0 <= k3 < dims@.len() ==> (#[trigger] dims@[
                                                    k3
                                                ]).wf(),
                                            forall|k3: int|
                                                0 <= k3 < ev@.len() ==> (#[trigger] ev@[
                                                    k3
                                                ]).wf(),
                                            ev@.len() == d,
                                            forall|env: Seq<(Sym, Expr)>, d2: int|
                                                #[trigger] env_matches(env, gkeys2) && 0 <= d2
                                                    < ev@.len() ==> eval_dim_sp(env, dims@[d2])
                                                    == Some((#[trigger] ev@[d2])@),
                                        decreases dims@.len() - d,
                                    {
                                        let de = match target.eval_dim(&dims[d]) {
                                            Some(x) => x,
                                            None => {
                                                return Err(
                                                    GraphError::NumericOverflow { id, arg: e.0 },
                                                );
                                            },
                                        };
                                        ev.push(de);
                                        d = d + 1;
                                    }
                                    out2.push((e.0, Shape::Fixed(ev)));
                                },
                                Shape::Dynamic => {
                                    out2.push((e.0, Shape::Dynamic));
                                },
                            }
                            k2 = k2 + 1;
                        }
                        Shapes::Fixed(out2)
                    },
                };
                // rename the remaining placeholders into this node's space
                let (archived, _names) = out.try_archive_placeholders(id);
                proof {
                    let olast = old(target).nodes@.last().1.shapes;
                    assert(crate::graphs::shape::shapes_struct_eq(tlast, olast));
                    match (&tlast, &out, &archived) {
                        (Shapes::Fixed(entries), Shapes::Fixed(ov), Shapes::Fixed(rs)) => {
                            match olast {
                                Shapes::Fixed(oentries) => {
                                    let ovv = ov@.map_values(|e: (u64, Shape)| (e.0, e.1@));
                                    assert forall|env: Seq<(Sym, Expr)>, k: int|
                                        #[trigger] env_matches(env, gkeys2) && 0 <= k
                                            < rs@.len() implies ((#[trigger] rs@[k]).0
                                        == oentries@[k].0 && (match oentries@[k].1 {
                                        Shape::Dynamic => rs@[k].1@ == ShapeV::Dynamic,
                                        Shape::Fixed(ds) => (rs@[k].1@ matches ShapeV::Fixed(ovs)
                                            && ovs.len() == ds@.len() && (forall|d2: int|
                                            0 <= d2 < ovs.len() ==> eval_dim_sp(env, ds@[d2])
                                                is Some && #[trigger] ovs[d2]
                                                == crate::graphs::shape::dim_arch(
                                                eval_dim_sp(env, ds@[d2])->Some_0,
                                                id.node as nat,
                                            ))),
                                    })) by {
                                        assert(rs@[k].1@ == crate::graphs::shape::shape_arch(
                                            ovv[k].1,
                                            id.node as nat,
                                        ));
                                        assert(ovv[k] == (ov@[k].0, ov@[k].1@));
                                        match oentries@[k].1 {
                                            Shape::Dynamic => {},
                                            Shape::Fixed(dso) => {
                                                match entries@[k].1 {
                                                    Shape::Fixed(dst) => {
                                                        match ov@[k].1 {
                                                            Shape::Fixed(os) => {
                                                                assert forall|d2: int|
                                                                    0 <= d2 < os@.len() implies
                                                                eval_dim_sp(env, dso@[d2]) == Some(
                                                                    (#[trigger] os@[d2])@,
                                                                ) by {
                                                                    assert(crate::graphs::shape::dim_struct_eq(
                                                                        dst@[d2],
                                                                        dso@[d2],
                                                                    ));
                                                                    lemma_eval_dim_struct(
                                                                        env,
                                                                        dst@[d2],
                                                                        dso@[d2],
                                                                    );
                                                                }
                                                                assert(rs@[k].1@
                                                                    == crate::graphs::shape::shape_arch(
                                                                    ShapeV::Fixed(
                                                                        os@.map_values(
                                                                            |d3: Dim| d3@,
                                                                        ),
                                                                    ),
                                                                    id.node as nat,
                                                                ));
                                                            },
                                                            _ => {
                                                                assert(false);
                                                            },
                                                        }
                                                    },
                                                    _ => {
                                                        assert(false);
                                                    },
                                                }
                                            },
                                        }
                                    }
                                },
                                _ => {},
                            }
                        },
                        _ => {},
                    }
                }
                Ok(archived)
            },
        }
    }

    /// Attach a resolved sub-model call: apply positional and keyword
    /// arguments, unify shapes, and inherit the sub-graph's mode.
    pub(crate) fn attach_model(
        &mut self,
        id: GraphId,
        model_name: String,
        mut graph: Graph,
        args: &Vec<ast::GraphPassArg>,
    ) -> (r: Result<Node, CompileError>)
        requires
            old(self).wf(),
            graph.wf(),
            old(self).nodes@.len() > 0,
        ensures
            final(self).wf(),
            final(self).nodes@.len() == old(self).nodes@.len(),
            forall|k: int|
                0 <= k < final(self).nodes@.len() ==> (#[trigger] final(self).nodes@[k]).0 == old(
                    self,
                ).nodes@[k].0,
            final(self).is_extern == old(self).is_extern,
            r matches Ok(n) ==> node_wf(n),
            r is Err ==> !(r matches Err(CompileError::ModelError { .. })),
            // the node carries the model's name and the sub-graph whose mode
            // this graph inherits
            r matches Ok(n) ==> {
                &&& n.name@ == model_name@
                &&& n.graph matches Some(g)
                &&& final(self).shape_state == g.shape_state
            },
            // positional edges: one per requested (node, arg) pair, in
            // order, each to the latest node of that number; none on a
            // repetition
            r matches Ok(n) ==> {
                &&& (id.repeat != 0 ==> n.inputs@.len() == 0)
                &&& (id.repeat == 0 ==> n.inputs@.len() == node_args_flat(args@).len() && forall|
                    k: int,
                |
                    0 <= k < n.inputs@.len() ==> (#[trigger] n.inputs@[k]).arg == Some(
                        node_args_flat(args@)[k].arg,
                    ) && n.inputs@[k].id.node == node_args_flat(args@)[k].node)
            },
            // each positional edge names the most recent recorded id of its
            // requested node number
            r matches Ok(n) ==> (forall|k: int|
                0 <= k < n.inputs@.len() ==> old(self).latest_of_node(
                    (#[trigger] n.inputs@[k]).id,
                )),
            // the node carries the given sub-graph elaborated in place: its
            // node chain, sub-models, aliases and extern flag are untouched,
            // only its variables and key-bindings were updated
            r matches Ok(n) ==> (n.graph matches Some(g2) ==> {
                &&& g2.nodes == graph.nodes
                &&& g2.graphs == graph.graphs
                &&& g2.variable_aliases == graph.variable_aliases
                &&& g2.is_extern == graph.is_extern
                &&& g2.shape_state == graph.shape_state
            }),
            // a missing upstream node is reported as such
            r matches Err(
                CompileError::GraphError { error: GraphError::NoSuchNode { query_id, node }, .. },
            ) ==> query_id == id && (forall|k: int|
                0 <= k < old(self).nodes@.len() ==> (#[trigger] old(self).nodes@[k]).0.node
                    != node),
            // success is owed when there are no arguments to apply and the
            // sub-model accepts any input
            args@.len() == 0 && graph.nodes@.len() > 0 && graph.nodes@[0].1.shapes is Dynamic
                ==> r is Ok,
            // a lone keyword argument is bound into the sub-model's variables
            args@.len() == 1 ==> (args@[0] matches ast::GraphPassArg::Keyword {
                name: kn,
                value: kv,
            } ==> (r matches Ok(n) ==> (n.graph matches Some(g2) && ({
                let t = graph.resolve_target(None, Some(kn));
                let f = assoc_find(graph.variables@, t);
                &&& f >= 0
                &&& g2.variables@[f].1.value == Some(kv)
                &&& g2.variables@[f].1.ty == crate::graphs::variable::spec_value_type(
                    Some(kv),
                    false,
                )
            })))),
    {
        let ghost g0 = graph;
        let mut inputs: Vec<GraphIdArg> = Vec::new();
        let mut i: usize = 0;
        while i < args.len()
            invariant
                i <= args@.len(),
                self.wf(),
                graph.wf(),
                self.nodes == old(self).nodes,
                self.shape_state == old(self).shape_state,
                self.is_extern == old(self).is_extern,
                self.graphs == old(self).graphs,
                forall|k: int|
                    0 <= k < inputs@.len() ==> self.has_node((#[trigger] inputs@[k]).id)
                        && inputs@[k].arg is Some && self.latest_of_node(inputs@[k].id),
                graph.nodes == g0.nodes,
                graph.graphs == g0.graphs,
                graph.variable_aliases == g0.variable_aliases,
                graph.is_extern == g0.is_extern,
                graph.shape_state == g0.shape_state,
                args@.len() == 0 ==> graph == g0 && inputs@.len() == 0,
                args@.len() == 1 && i == 0 ==> graph == g0,
                args@.len() == 1 && i == 1 ==> (args@[0] matches ast::GraphPassArg::Keyword {
                    name: kn,
                    value: kv,
                } ==> ({
                    let t = g0.resolve_target(None, Some(kn));
                    let f = assoc_find(g0.variables@, t);
                    &&& f >= 0
                    &&& graph.variables@[f].1.value == Some(kv)
                    &&& graph.variables@[f].1.ty == crate::graphs::variable::spec_value_type(
                        Some(kv),
                        false,
                    )
                })),
                id.repeat != 0 ==> inputs@.len() == 0,
                id.repeat == 0 ==> ({
                    let flat = node_args_flat(args@.subrange(0, i as int));
                    &&& inputs@.len() == flat.len()
                    &&& forall|k: int|
                        0 <= k < inputs@.len() ==> (#[trigger] inputs@[k]).arg == Some(
                            flat[k].arg,
                        ) && inputs@[k].id.node == flat[k].node
                }),
            decreases args@.len() - i,
        {
            let ghost prefix = args@.subrange(0, i as int);
            proof {
                assert(args@.subrange(0, i + 1).drop_last() =~= prefix);
                assert(args@.subrange(0, i + 1).last() == args@[i as int]);
            }
            match &args[i] {
                ast::GraphPassArg::NodeArg(list) => {
                    if id.repeat == 0 {
                        let mut j: usize = 0;
                        while j < list.len()
                            invariant
                                j <= list@.len(),
                                self.wf(),
                                graph.wf(),
                                self.nodes == old(self).nodes,
                                self.shape_state == old(self).shape_state,
                                self.is_extern == old(self).is_extern,
                                self.graphs == old(self).graphs,
                                id.repeat == 0,
                                i < args@.len(),
                                prefix == args@.subrange(0, i as int),
                                args@[i as int] matches ast::GraphPassArg::NodeArg(l2) && l2@
                                    == list@,
                                forall|k: int|
                                    0 <= k < inputs@.len() ==> self.has_node(
                                        (#[trigger] inputs@[k]).id,
                                    ) && inputs@[k].arg is Some && self.latest_of_node(
                                        inputs@[k].id,
                                    ),
                                graph.nodes == g0.nodes,
                                graph.graphs == g0.graphs,
                                graph.variable_aliases == g0.variable_aliases,
                                graph.is_extern == g0.is_extern,
                                graph.shape_state == g0.shape_state,
                                ({
                                    let flat = node_args_flat(prefix) + list@.subrange(
                                        0,
                                        j as int,
                                    );
                                    &&& inputs@.len() == flat.len()
                                    &&& forall|k: int|
                                        0 <= k < inputs@.len() ==> (#[trigger] inputs@[k]).arg
                                            == Some(flat[k].arg) && inputs@[k].id.node == flat[
                                            k
                                        ].node
                                }),
                            decreases list@.len() - j,
                        {
                            let a = &list[j];
                            proof {
                                let f0 = node_args_flat(prefix) + list@.subrange(0, j as int);
                                let f1 = node_args_flat(prefix) + list@.subrange(0, j + 1);
                                assert(f1 =~= f0.push(list@[j as int]));
                            }
                            match self.get_last_specific_node_id(a.node, &id) {
                                Ok(arg_id) => {
                                    inputs.push(GraphIdArg { id: arg_id, arg: Some(a.arg) });
                                },
                                Err(error) => {
                                    return Err(
                                        CompileError::GraphError { error, model: model_name },
                                    );
                                },
                            }
                            j = j + 1;
                        }
                        proof {
                            assert(list@.subrange(0, list@.len() as int) =~= list@);
                            assert(node_args_flat(args@.subrange(0, i + 1)) =~= node_args_flat(
                                prefix,
                            ) + list@);
                        }
                    }
                },
                ast::GraphPassArg::Keyword { name, value } => {
                    let ty = ValueType::new(Some(value), false);
                    let res = graph.update_variable(None, Some(name.clone()), value.clone(), ty);
                    if let Err(error) = res {
                        return Err(CompileError::GraphError { error, model: model_name });
                    }
                    proof {
                        assert(node_args_flat(args@.subrange(0, i + 1)) =~= node_args_flat(
                            prefix,
                        ));
                    }
                },
            }
            i = i + 1;
        }
        proof {
            assert(args@.subrange(0, args@.len() as int) =~= args@);
        }
        let shapes = match self.apply_shapes_as_input(&mut graph, &inputs, id) {
            Ok(s) => s,
            Err(error) => {
                return Err(CompileError::GraphError { error, model: model_name });
            },
        };
        self.shape_state = graph.shape_state;
        Ok(Node { name: model_name, graph: Some(graph), inputs, shapes })
    }

    /// Attach one node.  The first node must be the input sentinel; each
    /// later id must validate as successor of the last; the name selects an
    /// intrinsic or a sub-model call; the default input edge is the previous
    /// node.  On success exactly one node with this id is appended.
    #[verifier::rlimit(100)]
    pub(crate) fn attach(
        &mut self,
        id: GraphId,
        name: String,
        graph: Option<Graph>,
        args: &Vec<ast::GraphPassArg>,
    ) -> (r: Result<(), CompileError>)
        requires
            old(self).wf(),
            graph matches Some(g) ==> g.wf(),
        ensures
            final(self).wf(),
            final(self).is_extern == old(self).is_extern,
            old(self).nodes@.len() == 0 && id != GraphId::spec_input() ==> {
                &&& r matches Err(
                    CompileError::GraphError { error: GraphError::FirstNodeNotFound, model },
                )
                &&& model@ == name@
            },
            old(self).nodes@.len() > 0 && !id.spec_validate(old(self).nodes@.last().0) ==> {
                &&& r matches Err(
                    CompileError::GraphError {
                        error: GraphError::UnvalidNodeId { last, id: eid },
                        ..
                    },
                )
                &&& last == old(self).nodes@.last().0
                &&& eid == id
            },
            r is Ok ==> {
                &&& final(self).nodes@.len() == old(self).nodes@.len() + 1
                &&& final(self).nodes@.last().0 == id
                &&& forall|k: int|
                    0 <= k < old(self).nodes@.len() ==> (#[trigger] final(self).nodes@[k]).0
                        == old(self).nodes@[k].0
            },
            r is Err ==> final(self).nodes@.len() == old(self).nodes@.len(),
            r is Err ==> !(r matches Err(CompileError::ModelError { .. })),
            r is Ok && name@ == "fixed"@ ==> final(self).shape_state == ShapeState::Required(
                FitState::Weak,
            ),
            r is Ok && name@ == "identity"@ ==> final(self).shape_state == ShapeState::Fixed(
                FitState::Full,
            ),
            r is Ok && name@ != "dynamic"@ && name@ != "fixed"@ && name@ != "identity"@ && id
                == GraphId::spec_input() ==> final(self).shape_state == ShapeState::Required(
                FitState::Weak,
            ) && final(self).nodes@.last().1.shapes is Dynamic,
            // success is owed for the intrinsics and the input declaration
            ({
                let ok_id = (old(self).nodes@.len() == 0 && id == GraphId::spec_input()) || (old(
                    self,
                ).nodes@.len() > 0 && id.spec_validate(old(self).nodes@.last().0));
                &&& (ok_id && name@ == "identity"@ && old(self).nodes@.len() > 0 ==> {
                    &&& r is Ok
                    &&& final(self).nodes@.last().1.name@ == name@
                    &&& final(self).nodes@.last().1.graph is None
                    &&& final(self).nodes@.last().1.shapes@ == old(self).nodes@.last().1.shapes@
                })
                &&& (ok_id && name@ == "dynamic"@ && transform_find(args@) < 0 ==> {
                    &&& (old(self).nodes@.len() == 0 ==> r is Ok && final(self).shape_state
                        == ShapeState::Required(FitState::Full))
                    &&& (old(self).nodes@.len() > 0 ==> {
                        &&& r matches Err(
                            CompileError::GraphError {
                                error: GraphError::FullShapeRequired { id: e3 },
                                ..
                            },
                        )
                        &&& e3 == id
                    })
                })
                &&& (ok_id && name@ == "dynamic"@ && transform_find(args@) >= 0 ==> ({
                    let a = args@[transform_find(args@)];
                    // a true flag turns the mode to transform; an explicit
                    // false one means the same as an absent flag; any other
                    // value is of the wrong type
                    &&& (a matches ast::GraphPassArg::Keyword {
                        value: crate::ast::Value::Bool(true),
                        ..
                    } ==> r is Ok && final(self).shape_state == ShapeState::Transform)
                    &&& (a matches ast::GraphPassArg::Keyword {
                        value: crate::ast::Value::Bool(false),
                        ..
                    } ==> {
                        &&& (old(self).nodes@.len() == 0 ==> r is Ok && final(self).shape_state
                            == ShapeState::Required(FitState::Full))
                        &&& (old(self).nodes@.len() > 0 ==> r matches Err(
                            CompileError::GraphError {
                                error: GraphError::FullShapeRequired { .. },
                                ..
                            },
                        ))
                    })
                    &&& (!(a matches ast::GraphPassArg::Keyword {
                        value: crate::ast::Value::Bool(..),
                        ..
                    }) ==> r matches Err(
                        CompileError::GraphError {
                            error: GraphError::DifferentVariableType {
                                expected: ValueType::Bool,
                                ..
                            },
                            ..
                        },
                    ))
                }))
                // `identity` at the very start has no node to copy from
                &&& (ok_id && name@ == "identity"@ && old(self).nodes@.len() == 0 ==> r matches
                    Err(
                    CompileError::GraphError { error: GraphError::InputNodeNotFound, .. },
                ))
                &&& (ok_id && name@ == "fixed"@ && old(self).shape_state != ShapeState::Transform
                    ==> {
                    &&& r is Ok
                    &&& final(self).nodes@.last().1.name@ == name@
                    &&& final(self).nodes@.last().1.graph is None
                    &&& final(self).nodes@.last().1.shapes is Dynamic
                })
                &&& (ok_id && name@ == "fixed"@ && old(self).shape_state == ShapeState::Transform
                    ==> {
                    &&& r matches Err(
                        CompileError::GraphError {
                            error: GraphError::ShapeNotDefined { id: e2 },
                            ..
                        },
                    )
                    &&& e2 == id
                })
                &&& (ok_id && name@ != "dynamic"@ && name@ != "fixed"@ && name@ != "identity"@
                    && id == GraphId::spec_input() ==> {
                    &&& r is Ok
                    &&& final(self).nodes@.last().1.name@ == name@
                    &&& final(self).nodes@.last().1.graph is None
                })
                &&& (ok_id && name@ != "dynamic"@ && name@ != "fixed"@ && name@ != "identity"@
                    && id != GraphId::spec_input() && !(graph is Some) && assoc_find(
                    old(self).graphs@,
                    name@,
                ) < 0 ==> {
                    &&& r matches Err(
                        CompileError::NonExternModelError {
                            error: NonExternModelError::ModelNotFound,
                            model,
                        },
                    )
                    &&& model@ == name@
                })
            }),
            // the appended node is named after the pass, but for the blank
            // `dynamic` intrinsic
            r is Ok && name@ != "dynamic"@ ==> final(self).nodes@.last().1.name@ == name@,
            r is Ok && name@ == "dynamic"@ ==> final(self).nodes@.last().1.name@ == Seq::<
                char,
            >::empty(),
            // a sub-model call records the resolved sub-graph and inherits
            // its mode
            r is Ok && name@ != "dynamic"@ && name@ != "fixed"@ && name@ != "identity"@ && id
                != GraphId::spec_input() ==> (final(self).nodes@.last().1.graph matches Some(g2)
                && final(self).shape_state == g2.shape_state),
            // the input sentinel has no predecessor: its edge list is empty
            r is Ok && old(self).nodes@.len() == 0 ==> final(self).nodes@.last().1.inputs@.len()
                == 0,
            // any node that gathered no positional edges chains to the
            // previous node by default
            r is Ok && old(self).nodes@.len() > 0 ==> final(self).nodes@.last().1.inputs@.len()
                > 0,
            r is Ok && old(self).nodes@.len() > 0 && (id.repeat != 0 || node_args_flat(
                args@,
            ).len() == 0) ==> final(self).nodes@.last().1.inputs@ == seq![
                GraphIdArg { id: old(self).nodes@.last().0, arg: None },
            ],
            // a sub-model call gathers one edge per requested (node, arg)
            // pair, in order, each to the most recent node of that number
            r is Ok && name@ != "dynamic"@ && name@ != "fixed"@ && name@ != "identity"@ && id
                != GraphId::spec_input() && id.repeat == 0 && node_args_flat(args@).len() > 0
                ==> ({
                let ins = final(self).nodes@.last().1.inputs@;
                &&& ins.len() == node_args_flat(args@).len()
                &&& forall|k: int|
                    0 <= k < ins.len() ==> (#[trigger] ins[k]).arg == Some(
                        node_args_flat(args@)[k].arg,
                    ) && ins[k].id.node == node_args_flat(args@)[k].node && old(
                        self,
                    ).latest_of_node(ins[k].id)
            }),
            // the attached sub-graph is the inline one when given, else a
            // copy of the registered one: its node chain, sub-models,
            // aliases, extern flag and mode come from that source, only its
            // variables and key-bindings were elaborated
            r is Ok && name@ != "dynamic"@ && name@ != "fixed"@ && name@ != "identity"@ && id
                != GraphId::spec_input() ==> (final(self).nodes@.last().1.graph matches Some(g2)
                && {
                &&& (graph matches Some(src) ==> {
                    &&& g2.nodes == src.nodes
                    &&& g2.graphs == src.graphs
                    &&& g2.variable_aliases == src.variable_aliases
                    &&& g2.is_extern == src.is_extern
                    &&& g2.shape_state == src.shape_state
                })
                &&& (graph is None ==> ({
                    let f = assoc_find(old(self).graphs@, name@);
                    let src = old(self).graphs@[f].1;
                    &&& f >= 0
                    &&& g2.nodes@.len() == src.nodes@.len()
                    &&& (forall|k: int|
                        0 <= k < g2.nodes@.len() ==> (#[trigger] g2.nodes@[k]).0 == src.nodes@[
                            k
                        ].0 && node_eqv(g2.nodes@[k].1, src.nodes@[k].1))
                    &&& g2.is_extern == src.is_extern
                    &&& g2.shape_state == src.shape_state
                    &&& g2.variable_aliases@ == src.variable_aliases@
                }))
            }),
    {
        proof {
            reveal_strlit("dynamic");
            reveal_strlit("fixed");
            reveal_strlit("identity");
            assert(("fixed"@).len() != ("dynamic"@).len());
            assert(("identity"@).len() != ("dynamic"@).len());
            assert(("identity"@).len() != ("fixed"@).len());
        }
        let last_id: Option<GraphId> = if self.nodes.len() == 0 {
            if id.is_input() {
                None
            } else {
                return Err(
                    CompileError::GraphError { error: GraphError::FirstNodeNotFound, model: name.clone() },
                );
            }
        } else {
            Some(self.get_last_node_id())
        };
        if let Some(last) = last_id {
            if !id.validate(&last) {
                return Err(
                    CompileError::GraphError {
                        error: GraphError::UnvalidNodeId { last, id },
                        model: name.clone(),
                    },
                );
            }
        }
        let dyn_name: String = "dynamic".to_owned();
        let fixed_name: String = "fixed".to_owned();
        let ident_name: String = "identity".to_owned();
        let mut node: Node;
        if name == dyn_name {
            match get_flag(args) {
                Ok(true) => {
                    self.shape_state = ShapeState::Transform;
                    node = Node::default();
                },
                Ok(false) => {
                    if self.nodes.len() == 0 {
                        self.shape_state = ShapeState::Required(FitState::Full);
                        node = Node::default();
                    } else {
                        return Err(
                            CompileError::GraphError {
                                error: GraphError::FullShapeRequired { id },
                                model: name.clone(),
                            },
                        );
                    }
                },
                Err(error) => {
                    return Err(CompileError::GraphError { error, model: name.clone() });
                },
            }
        } else if name == fixed_name {
            match self.shape_state {
                ShapeState::Transform => {
                    return Err(
                        CompileError::GraphError {
                            error: GraphError::ShapeNotDefined { id },
                            model: name.clone(),
                        },
                    );
                },
                _ => {
                    self.shape_state = ShapeState::Required(FitState::Weak);
                },
            }
            node = Node { name: name.clone(), graph: None, inputs: Vec::new(), shapes: Shapes::Dynamic };
        } else if name == ident_name {
            if self.nodes.len() > 0 {
                self.shape_state = ShapeState::Fixed(FitState::Full);
                let shapes = self.get_last_shapes(None);
                node = Node { name: name.clone(), graph: None, inputs: Vec::new(), shapes };
            } else {
                return Err(
                    CompileError::GraphError {
                        error: GraphError::InputNodeNotFound,
                        model: name.clone(),
                    },
                );
            }
        } else if id.is_input() {
            self.shape_state = ShapeState::Required(FitState::Weak);
            node = Node { name: name.clone(), graph: None, inputs: Vec::new(), shapes: Shapes::Dynamic };
        } else {
            let resolved = match graph {
                Some(g) => Some(g),
                None => self.find_graph(&name),
            };
            match resolved {
                Some(g) => {
                    node = match self.attach_model(id, name.clone(), g, args) {
                        Ok(n) => n,
                        Err(e) => {
                            return Err(e);
                        },
                    };
                },
                None => {
                    return Err(
                        CompileError::NonExternModelError {
                            error: NonExternModelError::ModelNotFound,
                            model: name.clone(),
                        },
                    );
                },
            }
        }
        if node.inputs.len() == 0 {
            if let Some(last) = last_id {
                node.inputs.push(GraphIdArg::with_id(last));
            }
        }
        proof {
            assert(node_wf(node));
        }
        proof {
            reveal_strlit("dynamic");
            reveal_strlit("fixed");
            reveal_strlit("identity");
            assert(("fixed"@).len() != ("dynamic"@).len());
            assert(("identity"@).len() != ("dynamic"@).len());
            assert(("identity"@).len() != ("fixed"@).len());
            if name@ == "fixed"@ {
                assert(self.shape_state == ShapeState::Required(FitState::Weak));
            }
            if name@ == "identity"@ {
                assert(self.shape_state == ShapeState::Fixed(FitState::Full));
            }
        }
        self.nodes.push((id, node));
        proof {
            assert(self.wf()) by {
                assert forall|k: int|
                    1 <= k < self.nodes@.len() implies (#[trigger] self.nodes@[k]).0.spec_validate(
                    self.nodes@[k - 1].0,
                ) by {
                    if k < self.nodes@.len() - 1 {
                        assert(old(self).nodes@[k].0.spec_validate(old(self).nodes@[k - 1].0));
                    }
                }
                assert forall|k: int|
                    0 <= k < self.nodes@.len() implies node_wf(
                    (#[trigger] self.nodes@[k]).1,
                ) by {
                    if k < self.nodes@.len() - 1 {
                        assert(node_wf(old(self).nodes@[k].1));
                    }
                }
            }
        }
        Ok(())
    }
}

} // verus!
