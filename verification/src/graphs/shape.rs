//! Dimensions, shapes, shape bundles, and the shape-state machine.

use vstd::prelude::*;

use crate::algebra::{
    one_terms, symbol_terms, ExprV, Expr, Mono, Sym, SymV, Term,
};
use crate::error::GraphError;
use crate::graphs::id::GraphId;

verus! {

/// Whether fresh placeholders may be coined while dims are converted.
#[derive(Copy, Clone, Debug, PartialEq, Eq, Structural)]
pub enum FitState {
    /// Any dim can get new variables.
    Weak,
    /// Any dim should be deduced immediately.
    Full,
}

/// The per-graph inference mode.
#[derive(Copy, Clone, Debug, PartialEq, Eq, Structural)]
pub enum ShapeState {
    Fixed(FitState),
    Required(FitState),
    Transform,
}

impl Default for ShapeState {
    /// The initial mode: dims determinate, fresh placeholders not allowed.
    fn default() -> (r: Self)
        ensures
            r == ShapeState::Fixed(FitState::Weak),
    {
        ShapeState::Fixed(FitState::Weak)
    }
}

impl ShapeState {
    /// The allowance for coining fresh placeholders in each mode.
    pub open spec fn spec_new_var_available(self) -> bool {
        match self {
            ShapeState::Fixed(FitState::Weak) => false,
            ShapeState::Fixed(FitState::Full) => true,
            ShapeState::Required(FitState::Weak) => true,
            ShapeState::Required(FitState::Full) => false,
            ShapeState::Transform => true,
        }
    }

    pub fn is_new_var_available(&self) -> (r: bool)
        ensures
            r == self.spec_new_var_available(),
    {
        match self {
            ShapeState::Fixed(FitState::Weak) => false,
            ShapeState::Fixed(FitState::Full) => true,
            ShapeState::Required(FitState::Weak) => true,
            ShapeState::Required(FitState::Full) => false,
            ShapeState::Transform => true,
        }
    }
}

/// The canonical (upper-camel-case) form of a name, as the outside case
/// conversion computes it; a pure function of the characters alone.
pub uninterp spec fn camel_of(s: Seq<char>) -> Seq<char>;

/// Relies on heck's upper-camel-case conversion: the result depends on the
/// input characters alone.
#[verifier::external_body]
fn camel(s: &str) -> (r: String)
    ensures
        r@ == camel_of(s@),
{
    heck::ToUpperCamelCase::to_upper_camel_case(s)
}

/// The decimal digits of `n`, most significant first.
pub open spec fn dec_of(n: nat) -> Seq<char>
    decreases n,
{
    let d = digit_char((n % 10) as nat);
    if n < 10 {
        seq![d]
    } else {
        dec_of((n / 10) as nat).push(d)
    }
}

/// The character of one decimal digit.
pub open spec fn digit_char(d: nat) -> char {
    if d == 0 {
        '0'
    } else if d == 1 {
        '1'
    } else if d == 2 {
        '2'
    } else if d == 3 {
        '3'
    } else if d == 4 {
        '4'
    } else if d == 5 {
        '5'
    } else if d == 6 {
        '6'
    } else if d == 7 {
        '7'
    } else if d == 8 {
        '8'
    } else {
        '9'
    }
}

/// One decimal digit as a string slice.
fn digit_str(d: u64) -> (r: &'static str)
    requires
        d < 10,
    ensures
        r@ == seq![digit_char(d as nat)],
{
    let r: &'static str = if d == 0 {
        "0"
    } else if d == 1 {
        "1"
    } else if d == 2 {
        "2"
    } else if d == 3 {
        "3"
    } else if d == 4 {
        "4"
    } else if d == 5 {
        "5"
    } else if d == 6 {
        "6"
    } else if d == 7 {
        "7"
    } else if d == 8 {
        "8"
    } else {
        "9"
    };
    proof {
        reveal_strlit("0");
        reveal_strlit("1");
        reveal_strlit("2");
        reveal_strlit("3");
        reveal_strlit("4");
        reveal_strlit("5");
        reveal_strlit("6");
        reveal_strlit("7");
        reveal_strlit("8");
        reveal_strlit("9");
        assert(r@ =~= seq![digit_char(d as nat)]);
    }
    r
}

/// `n` in decimal.
pub fn u64_dec(n: u64) -> (r: String)
    ensures
        r@ == dec_of(n as nat),
    decreases n,
{
    let d = digit_str(n % 10);
    if n < 10 {
        let r = d.to_owned();
        proof {
            assert(r@ =~= dec_of(n as nat));
        }
        r
    } else {
        let mut r = u64_dec(n / 10);
        r.append(d);
        proof {
            assert(r@ =~= dec_of(n as nat));
        }
        r
    }
}

/// A symbolic dimension key: a model variable referenced by canonical name,
/// or a placeholder; `is_input` marks placeholders introduced at the graph's
/// input boundary, eligible for cross-graph unification.
#[derive(Debug, PartialEq, Eq, Hash)]
pub enum DimKey {
    Variable(String),
    Placeholder(String, bool),
}

impl Clone for DimKey {
    fn clone(&self) -> (r: Self)
        ensures
            r == *self,
    {
        match self {
            DimKey::Variable(n) => DimKey::Variable(n.clone()),
            DimKey::Placeholder(n, b) => DimKey::Placeholder(n.clone(), *b),
        }
    }
}

impl DimKey {
    /// The key as a plain triple: kind, raw name, input flag.
    pub open spec fn kv(self) -> (bool, Seq<char>, bool) {
        match self {
            DimKey::Variable(n) => (true, n@, false),
            DimKey::Placeholder(n, b) => (false, n@, b),
        }
    }

    /// The algebra symbol of the key: a pure function of the kind and the
    /// name alone; the input flag does not enter.
    pub open spec fn sym_v(self) -> SymV {
        match self {
            DimKey::Variable(n) => (true, camel_of(n@)),
            DimKey::Placeholder(n, _) => (false, camel_of(n@)),
        }
    }

    /// Two placeholders of the same name share one algebra symbol whatever
    /// their input flags: the symbol depends on the kind and name alone.
    pub proof fn lemma_symbol_determinism(name: String, b1: bool, b2: bool)
        ensures
            DimKey::Placeholder(name, b1).sym_v() == DimKey::Placeholder(name, b2).sym_v(),
    {
    }

    pub fn key_eq(&self, other: &DimKey) -> (r: bool)
        ensures
            r == (self.kv() == other.kv()),
    {
        let r = match (self, other) {
            (DimKey::Variable(a), DimKey::Variable(b)) => (*a) == (*b),
            (DimKey::Placeholder(a, ab), DimKey::Placeholder(b, bb)) => (*a) == (*b) && (*ab)
                == (*bb),
            _ => false,
        };
        proof {
            if self.kv() == other.kv() {
                assert(self.kv().0 == other.kv().0 && self.kv().1 == other.kv().1 && self.kv().2
                    == other.kv().2);
            }
        }
        r
    }

    /// The raw name inside the key.
    pub fn into_name(self) -> (r: String)
        ensures
            r@ == self.kv().1,
    {
        match self {
            DimKey::Variable(var) => var,
            DimKey::Placeholder(ph, _) => ph,
        }
    }

    /// The algebra symbol, canonicalized by the outside case conversion.
    pub fn sym(&self) -> (r: Sym)
        ensures
            r@ == self.sym_v(),
    {
        match self {
            DimKey::Variable(n) => Sym::new(true, camel(n.as_str())),
            DimKey::Placeholder(n, _) => Sym::new(false, camel(n.as_str())),
        }
    }

    /// The key as a single-symbol expression.
    pub fn to_expr(&self) -> (r: Expr)
        ensures
            r@.0 == symbol_terms(self.sym_v()),
            r@.1 == one_terms(),
            r.wf(),
            crate::algebra::single_symbol_expr(r, self.sym_v()),
    {
        Expr::symbol(self.sym())
    }
}

/// Dimensions of the same shape: equal keys, or expressions the
/// substitution pass cannot tell apart.
pub open spec fn dim_struct_eq(a: Dim, b: Dim) -> bool {
    match (a, b) {
        (Dim::Key(x), Dim::Key(y)) => x == y,
        (Dim::Expr(x), Dim::Expr(y)) => x@ == y@ && crate::algebra::expr_struct_eq(x, y),
        _ => false,
    }
}

/// Shapes of the same shape, dim by dim.
pub open spec fn shape_struct_eq(a: Shape, b: Shape) -> bool {
    match (a, b) {
        (Shape::Dynamic, Shape::Dynamic) => true,
        (Shape::Fixed(x), Shape::Fixed(y)) => x@.len() == y@.len() && forall|i: int|
            0 <= i < x@.len() ==> dim_struct_eq(#[trigger] x@[i], y@[i]),
        _ => false,
    }
}

/// Bundles of the same shape, slot by slot.
pub open spec fn shapes_struct_eq(a: Shapes, b: Shapes) -> bool {
    match (a, b) {
        (Shapes::Dynamic, Shapes::Dynamic) => true,
        (Shapes::Fixed(x), Shapes::Fixed(y)) => x@.len() == y@.len() && forall|i: int|
            0 <= i < x@.len() ==> (#[trigger] x@[i]).0 == y@[i].0 && shape_struct_eq(
                x@[i].1,
                y@[i].1,
            ),
        _ => false,
    }
}

/// A single tensor dimension: a symbolic key, or an expression of the
/// algebra.
#[derive(Debug, PartialEq)]
pub enum Dim {
    Key(DimKey),
    Expr(Expr),
}

/// The mathematical content of a dimension.
pub enum DimV {
    Key((bool, Seq<char>, bool)),
    Expr(ExprV),
}

impl View for Dim {
    type V = DimV;

    open spec fn view(&self) -> DimV {
        match self {
            Dim::Key(k) => DimV::Key(k.kv()),
            Dim::Expr(e) => DimV::Expr(e@),
        }
    }
}

impl Dim {
    pub open spec fn wf(self) -> bool {
        match self {
            Dim::Key(_) => true,
            Dim::Expr(e) => e.wf(),
        }
    }

    /// The expression view of the dimension.
    pub open spec fn to_expr_v(self) -> ExprV {
        match self {
            Dim::Key(k) => (symbol_terms(k.sym_v()), one_terms()),
            Dim::Expr(e) => e@,
        }
    }

    /// The dimension as an expression of the algebra.
    pub fn to_expr(&self) -> (r: Expr)
        requires
            self.wf(),
        ensures
            r@ == self.to_expr_v(),
            r.wf(),
            self matches Dim::Key(k) ==> crate::algebra::single_symbol_expr(r, k.sym_v()),
            self matches Dim::Expr(e) ==> crate::algebra::expr_struct_eq(r, *e),
    {
        match self {
            Dim::Key(key) => key.to_expr(),
            Dim::Expr(expr) => expr.clone(),
        }
    }

}

impl DimKey {
    /// Recover the key of a dimension that is exactly one symbol: a single
    /// term with coefficient one, one first-power factor, denominator one.
    /// A variable symbol yields a `Variable` key, a placeholder symbol an
    /// input `Placeholder`; the name is the canonicalized one.
    pub fn try_from_expr(d: &Dim) -> (r: Option<DimKey>)
        ensures
            r matches Some(k) ==> (d@ matches DimV::Expr(e) && e.0.len() == 1 && e.0[0].0 == 1),
    {
        match d {
            Dim::Expr(e) => {
                if e.den.terms.len() == 1 && e.den.terms[0].coeff == 1 && e.den.terms[0]
                    .mono.factors.len() == 0 && e.num.terms.len() == 1 && e.num.terms[0].coeff
                    == 1 && e.num.terms[0].mono.factors.len() == 1 && e.num.terms[0]
                    .mono.factors[0].1 == 1 {
                    let s = &e.num.terms[0].mono.factors[0].0;
                    proof {
                        assert(e@.0[0] == e.num.terms@[0]@);
                    }
                    if s.is_var {
                        Some(DimKey::Variable(s.name.clone()))
                    } else {
                        Some(DimKey::Placeholder(s.name.clone(), true))
                    }
                } else {
                    None
                }
            },
            _ => None,
        }
    }
}

impl Clone for Dim {
    fn clone(&self) -> (r: Self)
        ensures
            r@ == self@,
            self.wf() ==> r.wf(),
            dim_struct_eq(r, *self),
    {
        match self {
            Dim::Key(k) => Dim::Key(k.clone()),
            Dim::Expr(e) => Dim::Expr(e.clone()),
        }
    }
}


/// A per-argument shape: unknown rank, or an ordered dim list.
#[derive(Debug, PartialEq)]
pub enum Shape {
    Dynamic,
    Fixed(Vec<Dim>),
}

/// The mathematical content of a shape.
pub enum ShapeV {
    Dynamic,
    Fixed(Seq<DimV>),
}

impl View for Shape {
    type V = ShapeV;

    open spec fn view(&self) -> ShapeV {
        match self {
            Shape::Dynamic => ShapeV::Dynamic,
            Shape::Fixed(dims) => ShapeV::Fixed(dims@.map_values(|d: Dim| d@)),
        }
    }
}

impl Shape {
    pub open spec fn wf(self) -> bool {
        match self {
            Shape::Dynamic => true,
            Shape::Fixed(dims) => forall|i: int|
                0 <= i < dims@.len() ==> (#[trigger] dims@[i]).wf(),
        }
    }
}

impl Clone for Shape {
    fn clone(&self) -> (r: Self)
        ensures
            r@ == self@,
            self.wf() ==> r.wf(),
            shape_struct_eq(r, *self),
    {
        match self {
            Shape::Dynamic => Shape::Dynamic,
            Shape::Fixed(dims) => {
                let mut v: Vec<Dim> = Vec::new();
                let mut i: usize = 0;
                while i < dims.len()
                    invariant
                        i <= dims@.len(),
                        v@.len() == i,
                        forall|k: int|
                            0 <= k < i ==> (#[trigger] v@[k])@ == dims@[k]@ && (dims@[k].wf()
                                ==> v@[k].wf()) && dim_struct_eq(v@[k], dims@[k]),
                    decreases dims@.len() - i,
                {
                    v.push(dims[i].clone());
                    i = i + 1;
                }
                let r = Shape::Fixed(v);
                proof {
                    assert(v@.map_values(|d: Dim| d@) =~= dims@.map_values(|d: Dim| d@));
                }
                r
            },
        }
    }
}

/// The product form of a dim list: the expressions multiplied left to
/// right onto one.
pub open spec fn dims_product_sp(ds: Seq<Dim>) -> Option<ExprV>
    decreases ds.len(),
{
    if ds.len() == 0 {
        Some((one_terms(), one_terms()))
    } else {
        match dims_product_sp(ds.drop_last()) {
            Some(p) => crate::algebra::mul_sp(p, ds.last().to_expr_v()),
            None => None,
        }
    }
}

/// The product form reads the dims through their views alone.
pub proof fn lemma_dims_product_view(a: Seq<Dim>, b: Seq<Dim>)
    requires
        a.len() == b.len(),
        forall|i: int| 0 <= i < a.len() ==> (#[trigger] a[i])@ == b[i]@,
    ensures
        dims_product_sp(a) == dims_product_sp(b),
    decreases a.len(),
{
    if a.len() > 0 {
        assert forall|i: int| 0 <= i < a.drop_last().len() implies (#[trigger] a.drop_last()[
            i
        ])@ == b.drop_last()[i]@ by {
            assert(a.drop_last()[i] == a[i]);
            assert(b.drop_last()[i] == b[i]);
        }
        lemma_dims_product_view(a.drop_last(), b.drop_last());
        assert(a.last()@ == b.last()@);
        assert(a.last().to_expr_v() == b.last().to_expr_v()) by {
            match (a.last(), b.last()) {
                (Dim::Key(x), Dim::Key(y)) => {
                    assert(x.kv() == y.kv());
                    match (x, y) {
                        (DimKey::Variable(n1), DimKey::Variable(n2)) => {
                            assert(n1@ == n2@);
                        },
                        (DimKey::Placeholder(n1, _), DimKey::Placeholder(n2, _)) => {
                            assert(n1@ == n2@);
                        },
                        _ => {},
                    }
                },
                _ => {},
            }
        }
    }
}

/// A defined product has every prefix defined.
pub proof fn lemma_dims_product_prefix(ds: Seq<Dim>, i: int)
    requires
        0 <= i <= ds.len(),
        dims_product_sp(ds) is Some,
    ensures
        dims_product_sp(ds.subrange(0, i)) is Some,
    decreases ds.len(),
{
    if i == ds.len() {
        assert(ds.subrange(0, i) =~= ds);
    } else {
        assert(ds.drop_last() =~= ds.subrange(0, ds.len() - 1));
        assert(dims_product_sp(ds.drop_last()) is Some);
        lemma_dims_product_prefix(ds.drop_last(), i);
        assert(ds.drop_last().subrange(0, i) =~= ds.subrange(0, i));
    }
}

impl Shape {
    /// Collapse a fixed shape to the single product of its dims; unknown
    /// rank stays unknown.  Fails exactly when a coefficient product of the
    /// fold leaves the executable range.
    pub fn product(&self) -> (r: Option<Shape>)
        requires
            self.wf(),
        ensures
            self is Dynamic ==> r == Some(Shape::Dynamic),
            self matches Shape::Fixed(dims) ==> (r is Some <==> dims_product_sp(dims@) is Some),
            self matches Shape::Fixed(dims) ==> (r matches Some(p) ==> {
                &&& p matches Shape::Fixed(rd)
                &&& rd@.len() == 1
                &&& rd@[0] matches Dim::Expr(e)
                &&& Some(e@) == dims_product_sp(dims@)
                &&& e.wf()
            }),
    {
        match self {
            Shape::Dynamic => Some(Shape::Dynamic),
            Shape::Fixed(dims) => {
                let mut acc = Expr::one();
                let mut i: usize = 0;
                proof {
                    assert(dims@.subrange(0, 0) =~= Seq::<Dim>::empty());
                }
                while i < dims.len()
                    invariant
                        i <= dims@.len(),
                        self matches Shape::Fixed(d2) && d2@ == dims@,
                        self.wf(),
                        acc.wf(),
                        dims_product_sp(dims@.subrange(0, i as int)) == Some(acc@),
                    decreases dims@.len() - i,
                {
                    let d = &dims[i];
                    proof {
                        assert(dims@[i as int].wf());
                        assert(dims@.subrange(0, i + 1).drop_last() =~= dims@.subrange(
                            0,
                            i as int,
                        ));
                        assert(dims@.subrange(0, i + 1).last() == dims@[i as int]);
                    }
                    let de = d.to_expr();
                    let next = match acc.mul_checked(&de) {
                        Some(x) => x,
                        None => {
                            proof {
                                assert(dims_product_sp(dims@.subrange(0, i + 1)) is None);
                                if dims_product_sp(dims@) is Some {
                                    lemma_dims_product_prefix(dims@, i + 1);
                                }
                            }
                            return None;
                        },
                    };
                    acc = next;
                    i = i + 1;
                }
                proof {
                    assert(dims@.subrange(0, dims@.len() as int) =~= dims@);
                }
                let mut rd: Vec<Dim> = Vec::new();
                rd.push(Dim::Expr(acc));
                Some(Shape::Fixed(rd))
            },
        }
    }

    /// Compare ranks.  Two fixed shapes of one rank answer true; differing
    /// ranks fail; an unknown rank answers false.
    pub fn validate_rank(&self, last: &Self, id: &GraphId, arg: &u64) -> (r: Result<
        bool,
        GraphError,
    >)
        ensures
            self matches Shape::Fixed(a) ==> (last matches Shape::Fixed(b) ==> (a@.len()
                == b@.len() ==> r == Result::<bool, GraphError>::Ok(true))),
            self matches Shape::Fixed(a) ==> (last matches Shape::Fixed(b) ==> (a@.len()
                != b@.len() ==> r == Result::<bool, GraphError>::Err(
                GraphError::DifferentRank {
                    id: *id,
                    arg: *arg,
                    last_rank: b@.len() as usize,
                    rank: a@.len() as usize,
                },
            ))),
            (self is Dynamic || last is Dynamic) ==> r == Result::<bool, GraphError>::Ok(false),
    {
        match (self, last) {
            (Shape::Fixed(dims), Shape::Fixed(last_dims)) => {
                let rank = dims.len();
                let last_rank = last_dims.len();
                if rank == last_rank {
                    Ok(true)
                } else {
                    Err(GraphError::DifferentRank { id: *id, arg: *arg, last_rank, rank })
                }
            },
            _ => Ok(false),
        }
    }

    /// The dims of a fixed shape.
    pub fn unwrap_dims(&self) -> (r: &Vec<Dim>)
        requires
            self matches Shape::Fixed(..),
        ensures
            self matches Shape::Fixed(dims) && r == dims,
    {
        match self {
            Shape::Fixed(dims) => dims,
            _ => unreached(),
        }
    }
}

/// A shape bundle: unknown, or shapes keyed by argument slot in ascending
/// slot order.
#[derive(Debug, PartialEq)]
pub enum Shapes {
    Dynamic,
    Fixed(Vec<(u64, Shape)>),
}

/// The mathematical content of a bundle.
pub enum ShapesV {
    Dynamic,
    Fixed(Seq<(u64, ShapeV)>),
}

impl View for Shapes {
    type V = ShapesV;

    open spec fn view(&self) -> ShapesV {
        match self {
            Shapes::Dynamic => ShapesV::Dynamic,
            Shapes::Fixed(entries) => ShapesV::Fixed(
                entries@.map_values(|e: (u64, Shape)| (e.0, e.1@)),
            ),
        }
    }
}

impl Shapes {
    pub open spec fn wf(self) -> bool {
        match self {
            Shapes::Dynamic => true,
            Shapes::Fixed(entries) => forall|i: int|
                0 <= i < entries@.len() ==> (#[trigger] entries@[i]).1.wf(),
        }
    }

    /// The slot numbers of a fixed bundle, in order.
    pub open spec fn spec_keys(self) -> Seq<u64> {
        match self {
            Shapes::Dynamic => Seq::empty(),
            Shapes::Fixed(entries) => entries@.map_values(|e: (u64, Shape)| e.0),
        }
    }
}

impl Clone for Shapes {
    fn clone(&self) -> (r: Self)
        ensures
            r@ == self@,
            self.wf() ==> r.wf(),
            shapes_struct_eq(r, *self),
    {
        match self {
            Shapes::Dynamic => Shapes::Dynamic,
            Shapes::Fixed(entries) => {
                let mut v: Vec<(u64, Shape)> = Vec::new();
                let mut i: usize = 0;
                while i < entries.len()
                    invariant
                        i <= entries@.len(),
                        v@.len() == i,
                        forall|k: int|
                            0 <= k < i ==> (#[trigger] v@[k]).0 == entries@[k].0 && v@[k].1@
                                == entries@[k].1@ && (entries@[k].1.wf() ==> v@[k].1.wf())
                                && shape_struct_eq(v@[k].1, entries@[k].1),
                    decreases entries@.len() - i,
                {
                    let e = &entries[i];
                    v.push((e.0, e.1.clone()));
                    i = i + 1;
                }
                let r = Shapes::Fixed(v);
                proof {
                    assert(v@.map_values(|e: (u64, Shape)| (e.0, e.1@)) =~= entries@.map_values(
                        |e: (u64, Shape)| (e.0, e.1@),
                    ));
                }
                r
            },
        }
    }
}


/// Rank agreement of one slot pair fails: both fixed, different ranks.
pub open spec fn pair_rank_err(a: (u64, ShapeV), b: (u64, ShapeV)) -> bool {
    a.1 matches ShapeV::Fixed(x) && b.1 matches ShapeV::Fixed(y) && x.len() != y.len()
}

/// Rank agreement of one slot pair holds definitely: both fixed, one rank.
pub open spec fn pair_rank_true(a: (u64, ShapeV), b: (u64, ShapeV)) -> bool {
    a.1 matches ShapeV::Fixed(x) && b.1 matches ShapeV::Fixed(y) && x.len() == y.len()
}

/// Both bundles are known with the same slot keys and every slot pair
/// definitely rank-checked.
pub open spec fn args_rank_true(a: Shapes, b: Shapes) -> bool {
    match (a, b) {
        (Shapes::Fixed(x), Shapes::Fixed(y)) => {
            let xv = x@.map_values(|e: (u64, Shape)| (e.0, e.1@));
            let yv = y@.map_values(|e: (u64, Shape)| (e.0, e.1@));
            a.spec_keys() == b.spec_keys() && forall|i: int|
                0 <= i < xv.len() ==> pair_rank_true(#[trigger] xv[i], yv[i])
        },
        _ => false,
    }
}

/// The slot numbers of a known bundle view, in order.
pub open spec fn keys_of_v(x: Seq<(u64, ShapeV)>) -> Seq<u64> {
    x.map_values(|e: (u64, ShapeV)| e.0)
}

/// `args_rank_true`, over the bundles' views.
pub open spec fn args_rank_true_v(a: ShapesV, b: ShapesV) -> bool {
    match (a, b) {
        (ShapesV::Fixed(x), ShapesV::Fixed(y)) => keys_of_v(x) == keys_of_v(y) && forall|i: int|
            0 <= i < x.len() ==> pair_rank_true(#[trigger] x[i], y[i]),
        _ => false,
    }
}

/// `args_rank_err`, over the bundles' views.
pub open spec fn args_rank_err_v(a: ShapesV, b: ShapesV) -> bool {
    match (a, b) {
        (ShapesV::Fixed(x), ShapesV::Fixed(y)) => keys_of_v(x) != keys_of_v(y) || exists|i: int|
            0 <= i < x.len() && i < y.len() && pair_rank_err(#[trigger] x[i], y[i]),
        _ => false,
    }
}

/// The rank agreement of two bundles is decided by their views.
pub proof fn lemma_args_rank_v(a: Shapes, b: Shapes)
    ensures
        args_rank_true(a, b) == args_rank_true_v(a@, b@),
        args_rank_err(a, b) == args_rank_err_v(a@, b@),
{
    match (a, b) {
        (Shapes::Fixed(x), Shapes::Fixed(y)) => {
            let xv = x@.map_values(|e: (u64, Shape)| (e.0, e.1@));
            let yv = y@.map_values(|e: (u64, Shape)| (e.0, e.1@));
            assert(a.spec_keys() =~= keys_of_v(xv));
            assert(b.spec_keys() =~= keys_of_v(yv));
        },
        _ => {},
    }
}

/// Both bundles are known and differ in slot keys, or some slot pair of
/// fixed shapes differs in rank.
pub open spec fn args_rank_err(a: Shapes, b: Shapes) -> bool {
    match (a, b) {
        (Shapes::Fixed(x), Shapes::Fixed(y)) => {
            let xv = x@.map_values(|e: (u64, Shape)| (e.0, e.1@));
            let yv = y@.map_values(|e: (u64, Shape)| (e.0, e.1@));
            a.spec_keys() != b.spec_keys() || exists|i: int|
                0 <= i < xv.len() && i < yv.len() && pair_rank_err(#[trigger] xv[i], yv[i])
        },
        _ => false,
    }
}

impl Shapes {
    /// Collapse every slot's shape to its product.
    pub fn product(&self) -> (r: Option<Shapes>)
        requires
            self.wf(),
        ensures
            self is Dynamic ==> r == Some(Shapes::Dynamic),
            self matches Shapes::Fixed(entries) ==> (r matches Some(p) ==> {
                &&& p matches Shapes::Fixed(rs)
                &&& rs@.len() == entries@.len()
                &&& forall|i: int|
                    0 <= i < rs@.len() ==> (#[trigger] rs@[i]).0 == entries@[i].0 && {
                        &&& rs@[i].1.wf()
                        &&& entries@[i].1 is Dynamic ==> rs@[i].1 is Dynamic
                        &&& entries@[i].1 matches Shape::Fixed(ds) ==> {
                            &&& rs@[i].1 matches Shape::Fixed(rd)
                            &&& rd@.len() == 1
                            &&& rd@[0] matches Dim::Expr(e)
                            &&& Some(e@) == dims_product_sp(ds@)
                        }
                    }
            }),
    {
        match self {
            Shapes::Dynamic => Some(Shapes::Dynamic),
            Shapes::Fixed(entries) => {
                let mut rs: Vec<(u64, Shape)> = Vec::new();
                let mut i: usize = 0;
                while i < entries.len()
                    invariant
                        i <= entries@.len(),
                        self matches Shapes::Fixed(e2) && e2@ == entries@,
                        self.wf(),
                        rs@.len() == i,
                        forall|k: int|
                            0 <= k < i ==> (#[trigger] rs@[k]).0 == entries@[k].0 && {
                                &&& rs@[k].1.wf()
                                &&& entries@[k].1 is Dynamic ==> rs@[k].1 is Dynamic
                                &&& entries@[k].1 matches Shape::Fixed(ds) ==> {
                                    &&& rs@[k].1 matches Shape::Fixed(rd)
                                    &&& rd@.len() == 1
                                    &&& rd@[0] matches Dim::Expr(e)
                                    &&& Some(e@) == dims_product_sp(ds@)
                                }
                            },
                    decreases entries@.len() - i,
                {
                    let e = &entries[i];
                    proof {
                        assert(entries@[i as int].1.wf());
                    }
                    let p = match e.1.product() {
                        Some(p) => p,
                        None => {
                            return None;
                        },
                    };
                    rs.push((e.0, p));
                    i = i + 1;
                }
                Some(Shapes::Fixed(rs))
            },
        }
    }

    /// Compare two bundles slot by slot.  Differing slot sets fail; a pair
    /// of fixed shapes with differing ranks fails; otherwise the answer says
    /// whether every pair was definitely rank-checked.
    pub fn validate_args_rank(&self, last: &Self, id: &GraphId) -> (r: Result<bool, GraphError>)
        ensures
            (self is Dynamic || last is Dynamic) ==> r == Result::<bool, GraphError>::Ok(false),
            r == Result::<bool, GraphError>::Ok(true) <==> args_rank_true(*self, *last),
            r is Err <==> args_rank_err(*self, *last),
            self matches Shapes::Fixed(a) ==> (last matches Shapes::Fixed(b) ==> {
                &&& self.spec_keys() != last.spec_keys() ==> (r matches Err(
                    GraphError::DifferentArgs { id: eid, last_args, args },
                ) && eid == *id && last_args@ == last.spec_keys() && args@ == self.spec_keys())
                &&& self.spec_keys() == last.spec_keys() ==> {
                    let av = a@.map_values(|e: (u64, Shape)| (e.0, e.1@));
                    let bv = b@.map_values(|e: (u64, Shape)| (e.0, e.1@));
                    &&& (forall|i: int| 0 <= i < av.len() ==> !pair_rank_err(#[trigger] av[i], bv[i]))
                        ==> r == Result::<bool, GraphError>::Ok(
                        forall|i: int| 0 <= i < av.len() ==> pair_rank_true(#[trigger] av[i], bv[i]),
                    )
                    &&& (exists|i: int| 0 <= i < av.len() && pair_rank_err(#[trigger] av[i], bv[i]))
                        ==> r matches Err(GraphError::DifferentRank { .. })
                }
            }),
    {
        match (self, last) {
            (Shapes::Fixed(shapes), Shapes::Fixed(last_shapes)) => {
                let ghost av = shapes@.map_values(|e: (u64, Shape)| (e.0, e.1@));
                let ghost bv = last_shapes@.map_values(|e: (u64, Shape)| (e.0, e.1@));
                // collect the two key lists
                let mut args: Vec<u64> = Vec::new();
                let mut i: usize = 0;
                while i < shapes.len()
                    invariant
                        i <= shapes@.len(),
                        args@.len() == i,
                        forall|k: int| 0 <= k < i ==> args@[k] == (#[trigger] shapes@[k]).0,
                    decreases shapes@.len() - i,
                {
                    args.push(shapes[i].0);
                    i = i + 1;
                }
                let mut last_args: Vec<u64> = Vec::new();
                let mut j: usize = 0;
                while j < last_shapes.len()
                    invariant
                        j <= last_shapes@.len(),
                        last_args@.len() == j,
                        forall|k: int| 0 <= k < j ==> last_args@[k] == (#[trigger] last_shapes@[k]).0,
                    decreases last_shapes@.len() - j,
                {
                    last_args.push(last_shapes[j].0);
                    j = j + 1;
                }
                proof {
                    assert(args@ =~= self.spec_keys());
                    assert(last_args@ =~= last.spec_keys());
                }
                // the slot sets must agree
                let mut same = args.len() == last_args.len();
                let mut k: usize = 0;
                while k < args.len() && same
                    invariant
                        k <= args@.len(),
                        same ==> args@.len() == last_args@.len() && (forall|k2: int|
                            0 <= k2 < k ==> args@[k2] == last_args@[k2]),
                        !same ==> args@ != last_args@,
                    decreases args@.len() - k + (if same { 1int } else { 0int }),
                {
                    if args[k] != last_args[k] {
                        same = false;
                    } else {
                        k = k + 1;
                    }
                }
                proof {
                    if same {
                        assert(args@ =~= last_args@);
                    }
                }
                if !same {
                    return Err(GraphError::DifferentArgs { id: *id, last_args, args });
                }
                // rank-check every pair
                let mut all = true;
                let mut i2: usize = 0;
                while i2 < shapes.len()
                    invariant
                        i2 <= shapes@.len(),
                        shapes@.len() == last_shapes@.len(),
                        self matches Shapes::Fixed(s2) && s2@ == shapes@,
                        last matches Shapes::Fixed(l2) && l2@ == last_shapes@,
                        self.spec_keys() == last.spec_keys(),
                        av == shapes@.map_values(|e: (u64, Shape)| (e.0, e.1@)),
                        bv == last_shapes@.map_values(|e: (u64, Shape)| (e.0, e.1@)),
                        forall|k2: int| 0 <= k2 < i2 ==> !pair_rank_err(#[trigger] av[k2], bv[k2]),
                        all == (forall|k2: int|
                            0 <= k2 < i2 ==> pair_rank_true(#[trigger] av[k2], bv[k2])),
                    decreases shapes@.len() - i2,
                {
                    let pa = &shapes[i2];
                    let pb = &last_shapes[i2];
                    proof {
                        assert(av[i2 as int] == (shapes@[i2 as int].0, shapes@[i2 as int].1@));
                        assert(bv[i2 as int] == (last_shapes@[i2 as int].0, last_shapes@[
                            i2 as int
                        ].1@));
                    }
                    match pa.1.validate_rank(&pb.1, id, &pa.0) {
                        Ok(v) => {
                            all = all && v;
                        },
                        Err(e) => {
                            proof {
                                assert(pair_rank_err(av[i2 as int], bv[i2 as int]));
                                assert(e matches GraphError::DifferentRank { .. });
                            }
                            return Err(e);
                        },
                    }
                    i2 = i2 + 1;
                }
                Ok(all)
            },
            _ => Ok(false),
        }
    }

    /// The entries of a fixed bundle.
    pub fn unwrap_shapes(&self) -> (r: &Vec<(u64, Shape)>)
        requires
            self matches Shapes::Fixed(..),
        ensures
            self matches Shapes::Fixed(entries) && r == entries,
    {
        match self {
            Shapes::Fixed(shapes) => shapes,
            _ => unreached(),
        }
    }

    /// Select the slots listed in `args`, keeping their keys and order.
    pub fn index_args(&self, args: &Vec<u64>) -> (r: Shapes)
        ensures
            self is Dynamic ==> r is Dynamic,
            self matches Shapes::Fixed(entries) ==> (r matches Shapes::Fixed(rs) && {
                let pred = |e: (u64, ShapeV)| args@.contains(e.0);
                rs@.map_values(|e: (u64, Shape)| (e.0, e.1@)) == entries@.map_values(
                    |e: (u64, Shape)| (e.0, e.1@),
                ).filter(pred)
            }),
            self.wf() ==> r.wf(),
    {
        match self {
            Shapes::Dynamic => Shapes::Dynamic,
            Shapes::Fixed(entries) => {
                let ghost pred = |e: (u64, ShapeV)| args@.contains(e.0);
                let ghost ev = entries@.map_values(|e: (u64, Shape)| (e.0, e.1@));
                let mut rs: Vec<(u64, Shape)> = Vec::new();
                let ghost gacc: Seq<(u64, ShapeV)> = Seq::empty();
                let mut i: usize = 0;
                proof {
                    reveal(Seq::filter);
                    assert(ev.subrange(0, 0) =~= Seq::<(u64, ShapeV)>::empty());
                    assert(gacc =~= ev.subrange(0, 0).filter(pred));
                }
                while i < entries.len()
                    invariant
                        i <= entries@.len(),
                        self matches Shapes::Fixed(e2) && e2@ == entries@,
                        ev == entries@.map_values(|e: (u64, Shape)| (e.0, e.1@)),
                        gacc == ev.subrange(0, i as int).filter(pred),
                        pred == (|e: (u64, ShapeV)| args@.contains(e.0)),
                        rs@.len() == gacc.len(),
                        forall|k: int|
                            0 <= k < rs@.len() ==> ((#[trigger] rs@[k]).0, rs@[k].1@) == gacc[k]
                                && (self.wf() ==> rs@[k].1.wf()),
                    decreases entries@.len() - i,
                {
                    let e = &entries[i];
                    // membership scan
                    let mut found = false;
                    let mut j: usize = 0;
                    while j < args.len() && !found
                        invariant
                            j <= args@.len(),
                            !found ==> forall|k: int| 0 <= k < j ==> args@[k] != e.0,
                            found ==> args@.contains(e.0),
                        decreases args@.len() - j + (if found { 0int } else { 1int }),
                    {
                        if args[j] == e.0 {
                            found = true;
                        } else {
                            j = j + 1;
                        }
                    }
                    proof {
                        if !found {
                            assert(!args@.contains(e.0)) by {
                                if args@.contains(e.0) {
                                    let w = choose|w: int|
                                        0 <= w < args@.len() && args@[w] == e.0;
                                    assert(args@[w] != e.0);
                                }
                            }
                        }
                        reveal(Seq::filter);
                        let pre = ev.subrange(0, i + 1);
                        assert(pre.drop_last() =~= ev.subrange(0, i as int));
                        assert(pre.last() == ev[i as int]);
                        assert(ev[i as int] == (entries@[i as int].0, entries@[i as int].1@));
                    }
                    if found {
                        rs.push((e.0, e.1.clone()));
                        proof {
                            if self.wf() {
                                assert(entries@[i as int].1.wf());
                            }
                            gacc = gacc.push(ev[i as int]);
                        }
                    }
                    i = i + 1;
                }
                proof {
                    assert(ev.subrange(0, ev.len() as int) =~= ev);
                }
                let r = Shapes::Fixed(rs);
                proof {
                    assert(rs@.map_values(|e: (u64, Shape)| (e.0, e.1@)) =~= gacc);
                }
                r
            },
        }
    }

    /// Concatenate two fixed bundles, renumbering the second one's slots
    /// contiguously after the first; anything else collapses to unknown.
    pub fn append(&self, other: &Self) -> (r: Shapes)
        ensures
            !(self matches Shapes::Fixed(..) && other matches Shapes::Fixed(..)) ==> r
                is Dynamic,
            self matches Shapes::Fixed(a) ==> (other matches Shapes::Fixed(b) ==> (a@.len()
                + b@.len() <= u64::MAX ==> (r matches Shapes::Fixed(rs) && rs@.len() == a@.len()
                + b@.len() && (forall|k: int|
                0 <= k < a@.len() ==> (#[trigger] rs@[k]).0 == a@[k].0 && rs@[k].1@ == a@[k].1@)
                && (forall|k: int|
                0 <= k < b@.len() ==> (#[trigger] rs@[a@.len() + k]).0 == a@.len() + k && rs@[
                    a@.len() + k
                ].1@ == b@[k].1@)))),
            self.wf() && other.wf() ==> r.wf(),
    {
        match (self, other) {
            (Shapes::Fixed(shapes), Shapes::Fixed(others)) => {
                let mut rs: Vec<(u64, Shape)> = Vec::new();
                let mut i: usize = 0;
                while i < shapes.len()
                    invariant
                        i <= shapes@.len(),
                        rs@.len() == i,
                        forall|k: int|
                            0 <= k < i ==> (#[trigger] rs@[k]).0 == shapes@[k].0 && rs@[k].1@
                                == shapes@[k].1@ && (shapes@[k].1.wf() ==> rs@[k].1.wf()),
                    decreases shapes@.len() - i,
                {
                    let e = &shapes[i];
                    rs.push((e.0, e.1.clone()));
                    i = i + 1;
                }
                let bias = shapes.len();
                let mut j: usize = 0;
                while j < others.len()
                    invariant
                        bias == shapes@.len(),
                        j <= others@.len(),
                        rs@.len() == bias + j,
                        forall|k: int|
                            0 <= k < bias ==> (#[trigger] rs@[k]).0 == shapes@[k].0 && rs@[k].1@
                                == shapes@[k].1@ && (shapes@[k].1.wf() ==> rs@[k].1.wf()),
                        forall|k: int|
                            0 <= k < j ==> (bias + others@.len() <= u64::MAX ==> (#[trigger] rs@[
                                bias + k
                            ]).0 == bias + k) && rs@[bias + k].1@ == others@[k].1@ && (others@[
                                k
                            ].1.wf() ==> rs@[bias + k].1.wf()),
                    decreases others@.len() - j,
                {
                    let e = &others[j];
                    let key: u64 = match (bias as u64).checked_add(j as u64) {
                        Some(k) => k,
                        None => u64::MAX,
                    };
                    rs.push((key, e.1.clone()));
                    j = j + 1;
                }
                let r = Shapes::Fixed(rs);
                proof {
                    if self.wf() && other.wf() {
                        assert forall|k: int| 0 <= k < rs@.len() implies (#[trigger] rs@[k]).1.wf()
                            by {
                            if k < shapes@.len() {
                                assert(shapes@[k].1.wf());
                            } else {
                                let k2 = k - shapes@.len();
                                assert(others@[k2].1.wf());
                                assert(rs@[bias as int + k2].1.wf());
                                assert(bias as int + k2 == k);
                            }
                        }
                    }
                }
                r
            },
            _ => Shapes::Dynamic,
        }
    }
}


/// The archived name of a placeholder found at node `node`.
pub open spec fn archive_name_v(node: nat, name: Seq<char>) -> Seq<char> {
    "_node_"@ + dec_of(node) + "_"@ + name
}

/// Renaming of one dimension: placeholders get archived names, everything
/// else stays.
pub open spec fn dim_arch(d: DimV, node: nat) -> DimV {
    match d {
        DimV::Key(k) => if !k.0 {
            DimV::Key((false, archive_name_v(node, k.1), k.2))
        } else {
            d
        },
        _ => d,
    }
}

/// The archived names one dimension yields.
pub open spec fn dim_ph_names(d: DimV, node: nat) -> Seq<Seq<char>> {
    match d {
        DimV::Key(k) => if !k.0 {
            seq![archive_name_v(node, k.1)]
        } else {
            Seq::empty()
        },
        _ => Seq::empty(),
    }
}

/// The archived names of a dim list, in order.
pub open spec fn dims_ph_names(ds: Seq<DimV>, node: nat) -> Seq<Seq<char>>
    decreases ds.len(),
{
    if ds.len() == 0 {
        Seq::empty()
    } else {
        dims_ph_names(ds.drop_last(), node) + dim_ph_names(ds.last(), node)
    }
}

/// Renaming of one shape.
pub open spec fn shape_arch(sv: ShapeV, node: nat) -> ShapeV {
    match sv {
        ShapeV::Dynamic => ShapeV::Dynamic,
        ShapeV::Fixed(ds) => ShapeV::Fixed(ds.map_values(|d: DimV| dim_arch(d, node))),
    }
}

/// The archived names of one shape.
pub open spec fn shape_ph_names(sv: ShapeV, node: nat) -> Seq<Seq<char>> {
    match sv {
        ShapeV::Dynamic => Seq::empty(),
        ShapeV::Fixed(ds) => dims_ph_names(ds, node),
    }
}

/// The archived names of a bundle's entries, in slot order.
pub open spec fn entries_ph_names(es: Seq<(u64, ShapeV)>, node: nat) -> Seq<Seq<char>>
    decreases es.len(),
{
    if es.len() == 0 {
        Seq::empty()
    } else {
        entries_ph_names(es.drop_last(), node) + shape_ph_names(es.last().1, node)
    }
}

/// The views of a string list.
pub open spec fn strseq(s: Seq<String>) -> Seq<Seq<char>> {
    s.map_values(|x: String| x@)
}

/// Build the archived name of a placeholder.
fn archive_name(node: u64, name: &str) -> (r: String)
    ensures
        r@ == archive_name_v(node as nat, name@),
{
    let mut r: String = "_node_".to_owned();
    let dec = u64_dec(node);
    r.append(dec.as_str());
    r.append("_");
    r.append(name);
    proof {
        assert(r@ =~= archive_name_v(node as nat, name@));
    }
    r
}

impl Shape {
    /// Rename every placeholder dim of this shape, pushing the new names.
    fn archive(&self, node: u64, names: &mut Vec<String>) -> (r: Shape)
        ensures
            r@ == shape_arch(self@, node as nat),
            self.wf() ==> r.wf(),
            strseq(final(names)@) == strseq(old(names)@) + shape_ph_names(self@, node as nat),
    {
        match self {
            Shape::Dynamic => {
                proof {
                    assert(strseq(names@) =~= strseq(names@) + shape_ph_names(
                        self@,
                        node as nat,
                    ));
                }
                Shape::Dynamic
            },
            Shape::Fixed(dims) => {
                let ghost dv = dims@.map_values(|d: Dim| d@);
                let ghost names0 = names@;
                let mut rd: Vec<Dim> = Vec::new();
                let mut i: usize = 0;
                proof {
                    assert(dv.subrange(0, 0) =~= Seq::<DimV>::empty());
                    assert(strseq(names@) =~= strseq(names0) + dims_ph_names(
                        dv.subrange(0, 0),
                        node as nat,
                    ));
                }
                while i < dims.len()
                    invariant
                        i <= dims@.len(),
                        dv == dims@.map_values(|d: Dim| d@),
                        self matches Shape::Fixed(d2) && d2@ == dims@,
                        rd@.len() == i,
                        forall|k: int|
                            0 <= k < i ==> (#[trigger] rd@[k])@ == dim_arch(dv[k], node as nat)
                                && (dims@[k].wf() ==> rd@[k].wf()),
                        strseq(names@) == strseq(names0) + dims_ph_names(
                            dv.subrange(0, i as int),
                            node as nat,
                        ),
                    decreases dims@.len() - i,
                {
                    let d = &dims[i];
                    proof {
                        assert(dv[i as int] == dims@[i as int]@);
                        assert(dv.subrange(0, i + 1).drop_last() =~= dv.subrange(0, i as int));
                        assert(dv.subrange(0, i + 1).last() == dv[i as int]);
                    }
                    let ghost names_pre = names@;
                    let nd = match d {
                        Dim::Key(DimKey::Placeholder(ph, b)) => {
                            let nn = archive_name(node, ph.as_str());
                            names.push(nn.clone());
                            Dim::Key(DimKey::Placeholder(nn, *b))
                        },
                        _ => d.clone(),
                    };
                    proof {
                        assert(nd@ == dim_arch(dv[i as int], node as nat));
                        assert(strseq(names@) =~= strseq(names_pre) + dim_ph_names(
                            dv[i as int],
                            node as nat,
                        ));
                        assert(strseq(names@) =~= strseq(names0) + dims_ph_names(
                            dv.subrange(0, i + 1),
                            node as nat,
                        ));
                    }
                    rd.push(nd);
                    i = i + 1;
                }
                let r = Shape::Fixed(rd);
                proof {
                    assert(dv.subrange(0, dv.len() as int) =~= dv);
                    assert(rd@.map_values(|d: Dim| d@) =~= dv.map_values(
                        |d: DimV| dim_arch(d, node as nat),
                    ));
                }
                r
            },
        }
    }
}

impl Shapes {
    /// Rename every placeholder of the bundle to its archived form and
    /// return the renamed bundle together with the new names, in order.
    pub fn try_archive_placeholders(&self, id: GraphId) -> (r: (Shapes, Vec<String>))
        ensures
            self is Dynamic ==> r.0 is Dynamic && r.1@.len() == 0,
            self matches Shapes::Fixed(entries) ==> {
                let ev = entries@.map_values(|e: (u64, Shape)| (e.0, e.1@));
                &&& r.0 matches Shapes::Fixed(rs)
                &&& rs@.len() == entries@.len()
                &&& forall|k: int|
                    0 <= k < rs@.len() ==> (#[trigger] rs@[k]).0 == entries@[k].0 && rs@[k].1@
                        == shape_arch(ev[k].1, id.node as nat)
                &&& strseq(r.1@) == entries_ph_names(ev, id.node as nat)
            },
            self.wf() ==> r.0.wf(),
    {
        match self {
            Shapes::Dynamic => (Shapes::Dynamic, Vec::new()),
            Shapes::Fixed(entries) => {
                let ghost ev = entries@.map_values(|e: (u64, Shape)| (e.0, e.1@));
                let mut rs: Vec<(u64, Shape)> = Vec::new();
                let mut names: Vec<String> = Vec::new();
                let mut i: usize = 0;
                proof {
                    assert(ev.subrange(0, 0) =~= Seq::<(u64, ShapeV)>::empty());
                    assert(strseq(names@) =~= entries_ph_names(
                        ev.subrange(0, 0),
                        id.node as nat,
                    ));
                }
                while i < entries.len()
                    invariant
                        i <= entries@.len(),
                        ev == entries@.map_values(|e: (u64, Shape)| (e.0, e.1@)),
                        self matches Shapes::Fixed(e2) && e2@ == entries@,
                        rs@.len() == i,
                        forall|k: int|
                            0 <= k < i ==> (#[trigger] rs@[k]).0 == entries@[k].0 && rs@[k].1@
                                == shape_arch(ev[k].1, id.node as nat) && (entries@[k].1.wf()
                                ==> rs@[k].1.wf()),
                        strseq(names@) == entries_ph_names(
                            ev.subrange(0, i as int),
                            id.node as nat,
                        ),
                    decreases entries@.len() - i,
                {
                    let e = &entries[i];
                    proof {
                        assert(ev[i as int] == (entries@[i as int].0, entries@[i as int].1@));
                        assert(ev.subrange(0, i + 1).drop_last() =~= ev.subrange(0, i as int));
                        assert(ev.subrange(0, i + 1).last() == ev[i as int]);
                    }
                    let ns = e.1.archive(id.node, &mut names);
                    rs.push((e.0, ns));
                    i = i + 1;
                    proof {
                        assert(strseq(names@) =~= entries_ph_names(
                            ev.subrange(0, i as int),
                            id.node as nat,
                        ));
                    }
                }
                proof {
                    assert(ev.subrange(0, ev.len() as int) =~= ev);
                }
                (Shapes::Fixed(rs), names)
            },
        }
    }
}


impl Dim {
    /// Sum of two dimensions as an expression.
    pub fn add(&self, rhs: &Dim) -> (r: Option<Dim>)
        requires
            self.wf(),
            rhs.wf(),
        ensures
            r matches Some(d) ==> d.wf() && (d matches Dim::Expr(e) && Some(e@)
                == crate::algebra::add_sp(self.to_expr_v(), rhs.to_expr_v())),
            r is Some <==> crate::algebra::add_sp(self.to_expr_v(), rhs.to_expr_v()) is Some,
    {
        let a = self.to_expr();
        let b = rhs.to_expr();
        match a.add_checked(&b) {
            Some(e) => Some(Dim::Expr(e)),
            None => None,
        }
    }

    /// Difference of two dimensions as an expression.
    pub fn sub(&self, rhs: &Dim) -> (r: Option<Dim>)
        requires
            self.wf(),
            rhs.wf(),
        ensures
            r matches Some(d) ==> d.wf() && d matches Dim::Expr(..),
    {
        let a = self.to_expr();
        let b = rhs.to_expr();
        match a.sub_checked(&b) {
            Some(e) => Some(Dim::Expr(e)),
            None => None,
        }
    }

    /// Product of two dimensions as an expression.
    pub fn mul(&self, rhs: &Dim) -> (r: Option<Dim>)
        requires
            self.wf(),
            rhs.wf(),
        ensures
            r matches Some(d) ==> d.wf() && (d matches Dim::Expr(e) && Some(e@)
                == crate::algebra::mul_sp(self.to_expr_v(), rhs.to_expr_v())),
            r is Some <==> crate::algebra::mul_sp(self.to_expr_v(), rhs.to_expr_v()) is Some,
    {
        let a = self.to_expr();
        let b = rhs.to_expr();
        match a.mul_checked(&b) {
            Some(e) => Some(Dim::Expr(e)),
            None => None,
        }
    }

    /// Quotient of two dimensions as an expression.
    pub fn div(&self, rhs: &Dim) -> (r: Option<Dim>)
        requires
            self.wf(),
            rhs.wf(),
        ensures
            r matches Some(d) ==> d.wf() && (d matches Dim::Expr(e) && Some(e@)
                == crate::algebra::div_sp(self.to_expr_v(), rhs.to_expr_v())),
            r is Some <==> crate::algebra::div_sp(self.to_expr_v(), rhs.to_expr_v()) is Some,
    {
        let a = self.to_expr();
        let b = rhs.to_expr();
        match a.div_checked(&b) {
            Some(e) => Some(Dim::Expr(e)),
            None => None,
        }
    }

    /// Equality of two dimensions: keys compare by kind, name and input
    /// flag; expressions compare by the algebra's cross-multiplied equality;
    /// a key never equals an expression.  Fails exactly when the needed
    /// coefficient products leave the executable range.
    pub fn dim_eq_checked(&self, other: &Dim) -> (r: Option<bool>)
        requires
            self.wf(),
            other.wf(),
        ensures
            self matches Dim::Key(a) ==> (other matches Dim::Key(b) ==> r == Some(
                a.kv() == b.kv(),
            )),
            self is Key != other is Key ==> r == Some(false),
            self matches Dim::Expr(a) ==> (other matches Dim::Expr(b) ==> (r matches Some(v)
                ==> v == crate::algebra::expr_equiv(a@, b@))),
            self matches Dim::Expr(a) ==> (other matches Dim::Expr(b) ==> (r is Some <==> (
            crate::algebra::prods_ok(a@.0, b@.1) && crate::algebra::prods_ok(b@.0, a@.1)))),
    {
        match (self, other) {
            (Dim::Key(a), Dim::Key(b)) => Some(a.key_eq(b)),
            (Dim::Expr(a), Dim::Expr(b)) => a.eq_checked(b),
            _ => Some(false),
        }
    }
}

} // verus!
