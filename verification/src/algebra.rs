//! Symbolic algebra over tensor dimensions.
//!
//! An expression is a quotient of two multivariate polynomials with integer
//! coefficients over named symbols.  Polynomials are kept as plain term
//! lists; their meaning is the finite map from monomials to summed
//! coefficients, and two expressions are equal when cross-multiplication
//! yields the same meaning.  All executable arithmetic tracks coefficient
//! ranges explicitly; the mathematical meaning is over unbounded integers.

use vstd::map::*;
use vstd::prelude::*;

verus! {

/// A named symbol of the algebra: the kind (model variable or shape
/// placeholder) and the canonicalized name.
#[derive(Debug, PartialEq)]
pub struct Sym {
    pub is_var: bool,
    pub name: String,
}

/// View of a symbol: kind and name as a character sequence.
pub type SymV = (bool, Seq<char>);

/// View of a monomial: each symbol's exponent, no zero exponents.
pub type MonoV = Map<SymV, nat>;

/// View of one polynomial term: coefficient and monomial.
pub type TermV = (int, MonoV);

/// View of a polynomial: each monomial's summed coefficient, no zeros.
pub type PolyV = Map<MonoV, int>;

impl View for Sym {
    type V = SymV;

    open spec fn view(&self) -> SymV {
        (self.is_var, self.name@)
    }
}

impl Sym {
    pub fn new(is_var: bool, name: String) -> (r: Self)
        ensures
            r@ == (is_var, name@),
    {
        Sym { is_var, name }
    }

    pub fn sym_eq(&self, other: &Sym) -> (r: bool)
        ensures
            r == (self@ == other@),
    {
        let r = self.is_var == other.is_var && self.name == other.name;
        proof {
            if self.is_var == other.is_var && self.name@ == other.name@ {
                assert(self@ == other@);
            }
        }
        r
    }
}

impl Clone for Sym {
    fn clone(&self) -> (r: Self)
        ensures
            r@ == self@,
    {
        Sym { is_var: self.is_var, name: self.name.clone() }
    }
}

/// A product of symbol powers, kept as a factor list; a symbol may occur
/// several times, the exponents then add up in the meaning.
#[derive(Debug, PartialEq)]
pub struct Mono {
    pub factors: Vec<(Sym, u32)>,
}

impl View for Mono {
    type V = Seq<(SymV, u32)>;

    open spec fn view(&self) -> Seq<(SymV, u32)> {
        self.factors@.map_values(|f: (Sym, u32)| (f.0@, f.1))
    }
}

/// The meaning of a factor list: total exponent per symbol.
pub open spec fn mono_sem(s: Seq<(SymV, u32)>) -> MonoV
    decreases s.len(),
{
    if s.len() == 0 {
        Map::empty()
    } else {
        mono_bump(mono_sem(s.drop_last()), s.last().0, s.last().1 as nat)
    }
}

/// Add `e` to the exponent of `k`.
pub open spec fn mono_bump(m: MonoV, k: SymV, e: nat) -> MonoV {
    if e == 0 {
        m
    } else if m.contains_key(k) {
        m.insert(k, (m[k] + e) as nat)
    } else {
        m.insert(k, e)
    }
}

/// One polynomial term.
#[derive(Debug, PartialEq)]
pub struct Term {
    pub coeff: i64,
    pub mono: Mono,
}

impl View for Term {
    type V = TermV;

    open spec fn view(&self) -> TermV {
        (self.coeff as int, mono_sem(self.mono@))
    }
}

/// A polynomial: a plain list of terms; the meaning sums equal monomials.
#[derive(Debug, PartialEq)]
pub struct Poly {
    pub terms: Vec<Term>,
}

impl View for Poly {
    type V = Seq<TermV>;

    open spec fn view(&self) -> Seq<TermV> {
        self.terms@.map_values(|t: Term| t@)
    }
}

/// Add `c` to the coefficient of monomial `k`, dropping a zero sum.
pub open spec fn poly_bump(m: PolyV, k: MonoV, c: int) -> PolyV {
    let v = (if m.contains_key(k) {
        m[k]
    } else {
        0
    }) + c;
    if v == 0 {
        m.remove(k)
    } else {
        m.insert(k, v)
    }
}

/// The meaning of a term list: summed coefficient per monomial, no zeros.
pub open spec fn poly_sem(s: Seq<TermV>) -> PolyV
    decreases s.len(),
{
    if s.len() == 0 {
        Map::empty()
    } else {
        poly_bump(poly_sem(s.drop_last()), s.last().1, s.last().0)
    }
}

/// Largest executable coefficient magnitude.  The range is symmetric so that
/// negation never fails.
pub open spec fn coeff_ok(c: int) -> bool {
    -0x7fff_ffff_ffff_ffff <= c <= 0x7fff_ffff_ffff_ffff
}

/// All coefficients of a term list are in executable range.
pub open spec fn poly_wf(s: Seq<TermV>) -> bool {
    forall|i: int| 0 <= i < s.len() ==> coeff_ok(#[trigger] s[i].0)
}

/// A symbolic dimension expression: a quotient of two polynomials.
#[derive(Debug, PartialEq)]
pub struct Expr {
    pub num: Poly,
    pub den: Poly,
}

/// View of an expression: numerator and denominator term lists.
pub type ExprV = (Seq<TermV>, Seq<TermV>);

impl View for Expr {
    type V = ExprV;

    open spec fn view(&self) -> ExprV {
        (self.num@, self.den@)
    }
}

impl Expr {
    pub open spec fn wf(self) -> bool {
        poly_wf(self@.0) && poly_wf(self@.1)
    }

    /// Meaning of the numerator.
    pub open spec fn nsem(self) -> PolyV {
        poly_sem(self@.0)
    }

    /// Meaning of the denominator.
    pub open spec fn dsem(self) -> PolyV {
        poly_sem(self@.1)
    }
}

/// The view of the constant-one term list: a single term, coefficient 1,
/// empty monomial.
pub open spec fn one_terms() -> Seq<TermV> {
    seq![(1int, Map::<SymV, nat>::empty())]
}

/// The view of a single-term list with the given coefficient.
pub open spec fn const_terms(c: int) -> Seq<TermV> {
    seq![(c, Map::<SymV, nat>::empty())]
}

/// The view of a single-symbol term list: coefficient 1, exponent 1.
pub open spec fn symbol_terms(s: SymV) -> Seq<TermV> {
    seq![(1int, Map::<SymV, nat>::empty().insert(s, 1nat))]
}

impl Clone for Mono {
    fn clone(&self) -> (r: Self)
        ensures
            r@ == self@,
    {
        let mut factors: Vec<(Sym, u32)> = Vec::new();
        let mut i: usize = 0;
        while i < self.factors.len()
            invariant
                i <= self.factors.len(),
                factors@.len() == i,
                forall|k: int|
                    0 <= k < i ==> (#[trigger] factors@[k]).0@ == self.factors@[k].0@
                        && factors@[k].1 == self.factors@[k].1,
            decreases self.factors.len() - i,
        {
            let f = &self.factors[i];
            factors.push((f.0.clone(), f.1));
            i = i + 1;
        }
        let r = Mono { factors };
        proof {
            assert(r@ =~~= self@);
        }
        r
    }
}

impl Clone for Term {
    fn clone(&self) -> (r: Self)
        ensures
            r@ == self@,
            r.coeff == self.coeff,
            r.mono@ == self.mono@,
    {
        Term { coeff: self.coeff, mono: self.mono.clone() }
    }
}

impl Clone for Poly {
    fn clone(&self) -> (r: Self)
        ensures
            r@ == self@,
            poly_struct_eq(r.terms@, self.terms@),
    {
        let mut terms: Vec<Term> = Vec::new();
        let mut i: usize = 0;
        while i < self.terms.len()
            invariant
                i <= self.terms.len(),
                terms@.len() == i,
                forall|k: int|
                    0 <= k < i ==> (#[trigger] terms@[k])@ == self.terms@[k]@ && terms@[k].coeff
                        == self.terms@[k].coeff && terms@[k].mono@ == self.terms@[k].mono@,
            decreases self.terms.len() - i,
        {
            terms.push(self.terms[i].clone());
            i = i + 1;
        }
        let r = Poly { terms };
        proof {
            assert(r@ =~~= self@);
        }
        r
    }
}

impl Clone for Expr {
    fn clone(&self) -> (r: Self)
        ensures
            r@ == self@,
            expr_struct_eq(r, *self),
    {
        let r = Expr { num: self.num.clone(), den: self.den.clone() };
        proof {
            assert(r@ =~~= self@);
        }
        r
    }
}

impl Poly {
    /// The constant-one polynomial.
    pub fn one() -> (r: Self)
        ensures
            r@ == one_terms(),
            poly_wf(r@),
            r.terms@.len() == 1,
            r.terms@[0].coeff == 1,
            r.terms@[0].mono@ == Seq::<(SymV, u32)>::empty(),
    {
        let mut terms: Vec<Term> = Vec::new();
        terms.push(Term { coeff: 1, mono: Mono { factors: Vec::new() } });
        let r = Poly { terms };
        proof {
            assert(mono_sem(Seq::<(SymV, u32)>::empty()) =~= Map::<SymV, nat>::empty());
            assert(r@ =~~= one_terms());
        }
        r
    }

    /// A constant polynomial.
    pub fn constant(c: i64) -> (r: Self)
        requires
            coeff_ok(c as int),
        ensures
            r@ == const_terms(c as int),
            poly_wf(r@),
    {
        let mut terms: Vec<Term> = Vec::new();
        terms.push(Term { coeff: c, mono: Mono { factors: Vec::new() } });
        let r = Poly { terms };
        proof {
            assert(mono_sem(Seq::<(SymV, u32)>::empty()) =~= Map::<SymV, nat>::empty());
            assert(r@ =~~= const_terms(c as int));
        }
        r
    }
}

impl Expr {
    /// The constant one.
    pub fn one() -> (r: Self)
        ensures
            r@.0 == one_terms(),
            r@.1 == one_terms(),
            r.wf(),
    {
        Expr { num: Poly::one(), den: Poly::one() }
    }

    /// An unsigned constant; the value must be in coefficient range.
    pub fn from_u64(c: u64) -> (r: Self)
        requires
            c <= 0x7fff_ffff_ffff_ffff,
        ensures
            r@.0 == const_terms(c as int),
            r@.1 == one_terms(),
            r.wf(),
    {
        Expr { num: Poly::constant(c as i64), den: Poly::one() }
    }

    /// A single symbol.
    pub fn symbol(s: Sym) -> (r: Self)
        ensures
            r@.0 == symbol_terms(s@),
            r@.1 == one_terms(),
            r.wf(),
            single_symbol_expr(r, s@),
    {
        let mut factors: Vec<(Sym, u32)> = Vec::new();
        let ghost sv = s@;
        factors.push((s, 1));
        let mut terms: Vec<Term> = Vec::new();
        terms.push(Term { coeff: 1, mono: Mono { factors } });
        let r = Expr { num: Poly { terms }, den: Poly::one() };
        proof {
            let fs = seq![(sv, 1u32)];
            assert(r.num.terms@[0].mono@ =~~= fs);
            assert(fs.drop_last() =~= Seq::<(SymV, u32)>::empty());
            assert(mono_sem(fs.drop_last()) =~= Map::<SymV, nat>::empty());
            assert(mono_sem(fs) =~= Map::<SymV, nat>::empty().insert(sv, 1nat));
            assert(r@.0 =~~= symbol_terms(sv));
        }
        r
    }
}


/// Coefficient of `k` in `m`, zero when absent.
pub open spec fn getc(m: PolyV, k: MonoV) -> int {
    if m.contains_key(k) {
        m[k]
    } else {
        0
    }
}

/// Exponent of `k` in `m`, zero when absent.
pub open spec fn gete(m: MonoV, k: SymV) -> nat {
    if m.contains_key(k) {
        m[k]
    } else {
        0
    }
}

/// Product of two monomials: exponents add.
pub open spec fn mono_mul(x: MonoV, y: MonoV) -> MonoV {
    Map::new(
        |k: SymV| x.contains_key(k) || y.contains_key(k),
        |k: SymV| (gete(x, k) + gete(y, k)) as nat,
    )
}

/// Product of two terms: coefficients multiply, monomials add.
pub open spec fn tv_mul(a: TermV, b: TermV) -> TermV {
    (a.0 * b.0, mono_mul(a.1, b.1))
}

/// One term times a term list.
pub open spec fn tvs_scale(t: TermV, s: Seq<TermV>) -> Seq<TermV> {
    s.map_values(|u: TermV| tv_mul(t, u))
}

/// Product of two term lists: all pairwise products, row by row.
pub open spec fn tvs_mul(a: Seq<TermV>, b: Seq<TermV>) -> Seq<TermV>
    decreases a.len(),
{
    if a.len() == 0 {
        Seq::empty()
    } else {
        tvs_mul(a.drop_last(), b) + tvs_scale(a.last(), b)
    }
}

/// Negation of a term list.
pub open spec fn tvs_neg(s: Seq<TermV>) -> Seq<TermV> {
    s.map_values(|t: TermV| (-t.0, t.1))
}

/// Every pairwise coefficient product is in executable range.
pub open spec fn prods_ok(a: Seq<TermV>, b: Seq<TermV>) -> bool {
    forall|i: int, j: int|
        0 <= i < a.len() && 0 <= j < b.len() ==> coeff_ok(#[trigger] (a[i].0 * b[j].0))
}

/// The meaning of concatenated factor lists is the monomial product of the
/// two meanings.
pub proof fn lemma_mono_sem_concat(x: Seq<(SymV, u32)>, y: Seq<(SymV, u32)>)
    ensures
        mono_sem(x + y) == mono_mul(mono_sem(x), mono_sem(y)),
    decreases y.len(),
{
    if y.len() == 0 {
        assert(x + y =~= x);
        assert(mono_mul(mono_sem(x), mono_sem(y)) =~= mono_sem(x));
    } else {
        let y1 = y.drop_last();
        lemma_mono_sem_concat(x, y1);
        assert((x + y).drop_last() =~= x + y1);
        assert((x + y).last() == y.last());
        assert(mono_bump(mono_mul(mono_sem(x), mono_sem(y1)), y.last().0, y.last().1 as nat)
            =~= mono_mul(mono_sem(x), mono_bump(mono_sem(y1), y.last().0, y.last().1 as nat)));
    }
}

impl Mono {
    /// Concatenation of factor lists: the executable monomial product.
    pub fn concat(&self, other: &Mono) -> (r: Mono)
        ensures
            r@ == self@ + other@,
    {
        let mut factors: Vec<(Sym, u32)> = Vec::new();
        let mut i: usize = 0;
        while i < self.factors.len()
            invariant
                i <= self.factors.len(),
                factors@.len() == i,
                forall|k: int|
                    0 <= k < i ==> (#[trigger] factors@[k]).0@ == self.factors@[k].0@
                        && factors@[k].1 == self.factors@[k].1,
            decreases self.factors.len() - i,
        {
            let f = &self.factors[i];
            factors.push((f.0.clone(), f.1));
            i = i + 1;
        }
        let n = self.factors.len();
        let mut j: usize = 0;
        while j < other.factors.len()
            invariant
                n == self.factors@.len(),
                j <= other.factors.len(),
                factors@.len() == n + j,
                forall|k: int|
                    0 <= k < n ==> (#[trigger] factors@[k]).0@ == self.factors@[k].0@
                        && factors@[k].1 == self.factors@[k].1,
                forall|k: int|
                    0 <= k < j ==> (#[trigger] factors@[n + k]).0@ == other.factors@[k].0@
                        && factors@[n + k].1 == other.factors@[k].1,
            decreases other.factors.len() - j,
        {
            let f = &other.factors[j];
            factors.push((f.0.clone(), f.1));
            j = j + 1;
        }
        let r = Mono { factors };
        proof {
            let n2 = self.factors@.len() as int;
            assert(self@.len() == n2 && other@.len() == other.factors@.len());
            assert(r@.len() == (self@ + other@).len());
            assert forall|k: int| 0 <= k < r@.len() implies r@[k] == (self@ + other@)[k] by {
                assert(r@[k] == (r.factors@[k].0@, r.factors@[k].1));
                if k < n2 {
                    assert((self@ + other@)[k] == self@[k]);
                    assert(self@[k] == (self.factors@[k].0@, self.factors@[k].1));
                } else {
                    let k2 = k - n2;
                    assert((self@ + other@)[k] == other@[k2]);
                    assert(r.factors@[n2 + k2].0@ == other.factors@[k2].0@ && r.factors@[n2
                        + k2].1 == other.factors@[k2].1);
                    assert(other@[k2] == (other.factors@[k2].0@, other.factors@[k2].1));
                }
            }
            assert(r@ =~= self@ + other@);
        }
        r
    }
}

impl Poly {
    /// Concatenation of term lists: the executable polynomial sum.
    pub fn concat(&self, other: &Poly) -> (r: Poly)
        ensures
            r@ == self@ + other@,
    {
        let mut terms: Vec<Term> = Vec::new();
        let mut i: usize = 0;
        while i < self.terms.len()
            invariant
                i <= self.terms.len(),
                terms@.len() == i,
                forall|k: int| 0 <= k < i ==> (#[trigger] terms@[k])@ == self.terms@[k]@,
            decreases self.terms.len() - i,
        {
            terms.push(self.terms[i].clone());
            i = i + 1;
        }
        let n = self.terms.len();
        let mut j: usize = 0;
        while j < other.terms.len()
            invariant
                n == self.terms@.len(),
                j <= other.terms.len(),
                terms@.len() == n + j,
                forall|k: int| 0 <= k < n ==> (#[trigger] terms@[k])@ == self.terms@[k]@,
                forall|k: int| 0 <= k < j ==> (#[trigger] terms@[n + k])@ == other.terms@[k]@,
            decreases other.terms.len() - j,
        {
            terms.push(other.terms[j].clone());
            j = j + 1;
        }
        let r = Poly { terms };
        proof {
            let n2 = self.terms@.len() as int;
            assert(self@.len() == n2 && other@.len() == other.terms@.len());
            assert(r@.len() == (self@ + other@).len());
            assert forall|k: int| 0 <= k < r@.len() implies r@[k] == (self@ + other@)[k] by {
                assert(r@[k] == r.terms@[k]@);
                if k < n2 {
                    assert((self@ + other@)[k] == self@[k]);
                    assert(self@[k] == self.terms@[k]@);
                } else {
                    let k2 = k - n2;
                    assert((self@ + other@)[k] == other@[k2]);
                    assert(r.terms@[n2 + k2]@ == other.terms@[k2]@);
                    assert(other@[k2] == other.terms@[k2]@);
                }
            }
            assert(r@ =~= self@ + other@);
        }
        r
    }

    /// Negation of every coefficient; total on well-formed polynomials.
    pub fn negated(&self) -> (r: Poly)
        requires
            poly_wf(self@),
        ensures
            r@ == tvs_neg(self@),
            poly_wf(r@),
    {
        let mut terms: Vec<Term> = Vec::new();
        let mut i: usize = 0;
        while i < self.terms.len()
            invariant
                i <= self.terms.len(),
                poly_wf(self@),
                terms@.len() == i,
                forall|k: int|
                    0 <= k < i ==> (#[trigger] terms@[k])@ == (-self.terms@[k]@.0, self.terms@[k]@.1),
            decreases self.terms.len() - i,
        {
            let t = &self.terms[i];
            proof {
                assert(self@[i as int] == self.terms@[i as int]@);
                assert(coeff_ok(self@[i as int].0));
            }
            terms.push(Term { coeff: -t.coeff, mono: t.mono.clone() });
            i = i + 1;
        }
        let r = Poly { terms };
        proof {
            assert(r@ =~= tvs_neg(self@));
        }
        r
    }

    /// The executable polynomial product: every pairwise term product, row
    /// by row; fails exactly when some coefficient product leaves the
    /// executable range.
    pub fn mul_checked(&self, other: &Poly) -> (r: Option<Poly>)
        ensures
            r is Some <==> prods_ok(self@, other@),
            r matches Some(p) ==> p@ == tvs_mul(self@, other@) && poly_wf(p@),
    {
        let mut terms: Vec<Term> = Vec::new();
        let mut i: usize = 0;
        while i < self.terms.len()
            invariant
                i <= self.terms.len(),
                forall|i2: int, j2: int|
                    0 <= i2 < i && 0 <= j2 < other@.len() ==> coeff_ok(
                        #[trigger] (self@[i2].0 * other@[j2].0),
                    ),
                other@.len() == other.terms@.len(),
                terms@.len() == i * other.terms@.len(),
                forall|i2: int, j2: int|
                    0 <= i2 < i && 0 <= j2 < other.terms@.len() ==> (#[trigger] terms@[i2
                        * other.terms@.len() + j2])@ == tv_mul(self.terms@[i2]@, other.terms@[j2]@),
                forall|k: int| 0 <= k < terms@.len() ==> coeff_ok(#[trigger] terms@[k].coeff as int),
            decreases self.terms.len() - i,
        {
            let a = &self.terms[i];
            let mut j: usize = 0;
            while j < other.terms.len()
                invariant
                    i < self.terms.len(),
                    j <= other.terms.len(),
                    forall|j2: int|
                        0 <= j2 < j ==> coeff_ok(#[trigger] (self@[i as int].0 * other@[j2].0)),
                    other@.len() == other.terms@.len(),
                    terms@.len() == i * other.terms@.len() + j,
                    forall|i2: int, j2: int|
                        0 <= i2 < i && 0 <= j2 < other.terms@.len() ==> (#[trigger] terms@[i2
                            * other.terms@.len() + j2])@ == tv_mul(
                            self.terms@[i2]@,
                            other.terms@[j2]@,
                        ),
                    forall|j2: int|
                        0 <= j2 < j ==> (#[trigger] terms@[i * other.terms@.len() + j2])@
                            == tv_mul(self.terms@[i as int]@, other.terms@[j2]@),
                    forall|k: int| 0 <= k < terms@.len() ==> coeff_ok(#[trigger] terms@[k].coeff as int),
                decreases other.terms.len() - j,
            {
                let a = &self.terms[i];
                let b = &other.terms[j];
                proof {
                    assert(self@[i as int].0 == a.coeff as int);
                    assert(other@[j as int].0 == b.coeff as int);
                }
                let c = match a.coeff.checked_mul(b.coeff) {
                    Some(c) => {
                        if c == i64::MIN {
                            proof {
                                assert(!coeff_ok(self@[i as int].0 * other@[j as int].0));
                            }
                            return None;
                        }
                        c
                    },
                    None => {
                        proof {
                            assert(!coeff_ok(self@[i as int].0 * other@[j as int].0));
                        }
                        return None;
                    },
                };
                let mono = a.mono.concat(&b.mono);
                proof {
                    lemma_mono_sem_concat(a.mono@, b.mono@);
                }
                terms.push(Term { coeff: c, mono });
                j = j + 1;
                proof {
                    let li = i as int;
                    let bl = other.terms@.len() as int;
                    assert forall|i2: int, j2: int|
                        0 <= i2 < li && 0 <= j2 < bl implies (#[trigger] terms@[i2 * bl + j2])@
                        == tv_mul(self.terms@[i2]@, other.terms@[j2]@) by {
                        assert(i2 * bl + j2 < li * bl) by (nonlinear_arith)
                            requires
                                0 <= i2 < li,
                                0 <= j2 < bl,
                        ;
                        assert(li * bl <= terms@.len() - 1);
                    }
                }
            }
            proof {
                let li = i as int;
                let bl = other.terms@.len() as int;
                assert((li + 1) * bl == li * bl + bl) by (nonlinear_arith);
                assert forall|i2: int, j2: int|
                    0 <= i2 < li + 1 && 0 <= j2 < bl implies (#[trigger] terms@[i2 * bl + j2])@
                    == tv_mul(self.terms@[i2]@, other.terms@[j2]@) by {
                    if i2 == li {
                        assert(i2 * bl + j2 == li * bl + j2);
                    }
                }
            }
            i = i + 1;
        }
        let r = Poly { terms };
        proof {
            lemma_tvs_mul_flat(self@, other@);
            assert forall|k: int| 0 <= k < r@.len() implies r@[k] == tvs_mul(self@, other@)[k] by {
                let bl = other.terms@.len() as int;
                let i2 = k / bl;
                let j2 = k % bl;
                assert(bl > 0);
                assert(k == i2 * bl + j2 && 0 <= j2 < bl && 0 <= i2 < self.terms@.len())
                    by (nonlinear_arith)
                    requires
                        bl > 0,
                        0 <= k < self.terms@.len() * bl,
                        i2 == k / bl,
                        j2 == k % bl,
                ;
                assert(terms@[i2 * bl + j2]@ == tv_mul(self.terms@[i2]@, other.terms@[j2]@));
                assert(self@[i2] == self.terms@[i2]@ && other@[j2] == other.terms@[j2]@);
                assert(tvs_mul(self@, other@)[i2 * other@.len() + j2] == tv_mul(
                    self@[i2],
                    other@[j2],
                ));
            }
            assert(r@ =~= tvs_mul(self@, other@));
            assert forall|k: int| 0 <= k < r@.len() implies coeff_ok(r@[k].0) by {
                assert(r@[k].0 == terms@[k].coeff as int);
            }
        }
        Some(r)
    }
}


/// `tvs_mul` laid out flat: row `i`, column `j` sits at `i * |b| + j`.
pub proof fn lemma_tvs_mul_flat(a: Seq<TermV>, b: Seq<TermV>)
    ensures
        tvs_mul(a, b).len() == a.len() * b.len(),
        forall|i: int, j: int|
            0 <= i < a.len() && 0 <= j < b.len() ==> #[trigger] tvs_mul(a, b)[i * b.len() + j]
                == tv_mul(a[i], b[j]),
    decreases a.len(),
{
    if a.len() == 0 {
    } else {
        let a1 = a.drop_last();
        lemma_tvs_mul_flat(a1, b);
        assert(tvs_mul(a, b) == tvs_mul(a1, b) + tvs_scale(a.last(), b));
        assert((a.len() - 1) * b.len() == a1.len() * b.len()) by (nonlinear_arith)
            requires a.len() >= 1 && a1.len() == a.len() - 1;
        assert(a.len() * b.len() == a1.len() * b.len() + b.len()) by (nonlinear_arith)
            requires a1.len() == a.len() - 1;
        assert forall|i: int, j: int|
            0 <= i < a.len() && 0 <= j < b.len() implies #[trigger] tvs_mul(a, b)[i * b.len() + j]
            == tv_mul(a[i], b[j]) by {
            if i < a1.len() {
                assert(0 <= i * b.len() + j < a1.len() * b.len()) by (nonlinear_arith)
                    requires 0 <= i < a1.len() && 0 <= j < b.len();
                assert(tvs_mul(a, b)[i * b.len() + j] == tvs_mul(a1, b)[i * b.len() + j]);
            } else {
                assert(i == a1.len());
                assert(i * b.len() + j == a1.len() * b.len() + j);
                assert(tvs_mul(a, b)[a1.len() * b.len() + j] == tvs_scale(a.last(), b)[j]);
                assert(a.last() == a[i]);
            }
        }
    }
}

impl Expr {
    /// Negation: the numerator's coefficients flip.
    pub fn negated(&self) -> (r: Expr)
        requires
            self.wf(),
        ensures
            r@.0 == tvs_neg(self@.0),
            r@.1 == self@.1,
            r.wf(),
    {
        Expr { num: self.num.negated(), den: self.den.clone() }
    }

    /// Product of two expressions; fails exactly when a coefficient product
    /// leaves the executable range.
    pub fn mul_checked(&self, other: &Expr) -> (r: Option<Expr>)
        ensures
            r is Some <==> prods_ok(self@.0, other@.0) && prods_ok(self@.1, other@.1),
            r matches Some(e) ==> e@.0 == tvs_mul(self@.0, other@.0) && e@.1 == tvs_mul(
                self@.1,
                other@.1,
            ) && e.wf(),
    {
        let num = match self.num.mul_checked(&other.num) {
            Some(p) => p,
            None => {
                return None;
            },
        };
        let den = match self.den.mul_checked(&other.den) {
            Some(p) => p,
            None => {
                return None;
            },
        };
        Some(Expr { num, den })
    }

    /// Sum of two expressions over the common denominator; fails exactly
    /// when a needed coefficient product leaves the executable range.
    pub fn add_checked(&self, other: &Expr) -> (r: Option<Expr>)
        ensures
            r is Some <==> prods_ok(self@.0, other@.1) && prods_ok(other@.0, self@.1)
                && prods_ok(self@.1, other@.1),
            r matches Some(e) ==> e@.0 == tvs_mul(self@.0, other@.1) + tvs_mul(
                other@.0,
                self@.1,
            ) && e@.1 == tvs_mul(self@.1, other@.1) && e.wf(),
    {
        let n1 = match self.num.mul_checked(&other.den) {
            Some(p) => p,
            None => {
                return None;
            },
        };
        let n2 = match other.num.mul_checked(&self.den) {
            Some(p) => p,
            None => {
                return None;
            },
        };
        let den = match self.den.mul_checked(&other.den) {
            Some(p) => p,
            None => {
                return None;
            },
        };
        Some(Expr { num: n1.concat(&n2), den })
    }

    /// Difference of two expressions.
    pub fn sub_checked(&self, other: &Expr) -> (r: Option<Expr>)
        requires
            other.wf(),
        ensures
            r is Some <==> prods_ok(self@.0, other@.1) && prods_ok(tvs_neg(other@.0), self@.1)
                && prods_ok(self@.1, other@.1),
            r matches Some(e) ==> e@.0 == tvs_mul(self@.0, other@.1) + tvs_mul(
                tvs_neg(other@.0),
                self@.1,
            ) && e@.1 == tvs_mul(self@.1, other@.1) && e.wf(),
    {
        self.add_checked(&other.negated())
    }

    /// Quotient of two expressions: numerators and denominators cross.  The
    /// divisor's numerator meaning should be nonzero; a zero divisor yields
    /// an expression with a zero denominator meaning, on which equality is
    /// still deterministic but no longer discriminating.
    pub fn div_checked(&self, other: &Expr) -> (r: Option<Expr>)
        ensures
            r is Some <==> prods_ok(self@.0, other@.1) && prods_ok(self@.1, other@.0),
            r matches Some(e) ==> e@.0 == tvs_mul(self@.0, other@.1) && e@.1 == tvs_mul(
                self@.1,
                other@.0,
            ) && e.wf(),
    {
        let num = match self.num.mul_checked(&other.den) {
            Some(p) => p,
            None => {
                return None;
            },
        };
        let den = match self.den.mul_checked(&other.num) {
            Some(p) => p,
            None => {
                return None;
            },
        };
        Some(Expr { num, den })
    }
}


/// Total exponent of symbol `k` in a factor list.
pub open spec fn exp_sum(fs: Seq<(SymV, u32)>, k: SymV) -> int
    decreases fs.len(),
{
    if fs.len() == 0 {
        0
    } else {
        exp_sum(fs.drop_last(), k) + (if fs.last().0 == k {
            fs.last().1 as int
        } else {
            0
        })
    }
}

/// A symbol occurs in a factor list.
pub open spec fn sym_occurs(fs: Seq<(SymV, u32)>, k: SymV) -> bool {
    exists|i: int| 0 <= i < fs.len() && fs[i].0 == k
}

/// The monomial meaning stores exactly the positive exponent sums.
pub proof fn lemma_mono_sem_exp(fs: Seq<(SymV, u32)>, k: SymV)
    ensures
        gete(mono_sem(fs), k) == exp_sum(fs, k),
        mono_sem(fs).contains_key(k) <==> exp_sum(fs, k) > 0,
        exp_sum(fs, k) >= 0,
        sym_occurs(fs, k) || exp_sum(fs, k) == 0,
    decreases fs.len(),
{
    if fs.len() == 0 {
    } else {
        lemma_mono_sem_exp(fs.drop_last(), k);
        if sym_occurs(fs.drop_last(), k) {
            let i = choose|i: int| 0 <= i < fs.drop_last().len() && fs.drop_last()[i].0 == k;
            assert(fs[i].0 == k);
        }
        if fs.last().0 == k && fs.last().1 > 0 {
            assert(fs[fs.len() - 1].0 == k);
        }
    }
}

impl Mono {
    /// Total exponent of one symbol, summed over the factor list.
    pub fn sym_exp(&self, s: &Sym) -> (r: u128)
        ensures
            r as int == exp_sum(self@, s@),
    {
        let mut sum: u128 = 0;
        let mut i: usize = 0;
        while i < self.factors.len()
            invariant
                i <= self.factors.len(),
                sum as int == exp_sum(self@.subrange(0, i as int), s@),
                sum <= i * 0xffff_ffffu128,
            decreases self.factors.len() - i,
        {
            let f = &self.factors[i];
            proof {
                assert(self@.subrange(0, i + 1).drop_last() =~= self@.subrange(0, i as int));
                assert(self@.subrange(0, i + 1).last() == self@[i as int]);
                assert(self@[i as int] == (self.factors@[i as int].0@, self.factors@[i as int].1));
                assert((i + 1) * 0xffff_ffffu128 == i * 0xffff_ffffu128 + 0xffff_ffffu128)
                    by (nonlinear_arith);
                assert(i * 0xffff_ffffu128 <= (usize::MAX as int) * 0xffff_ffffu128)
                    by (nonlinear_arith)
                    requires
                        0 <= i <= usize::MAX as int,
                ;
            }
            if f.0.sym_eq(s) {
                sum = sum + (f.1 as u128);
            }
            i = i + 1;
        }
        proof {
            assert(self@.subrange(0, self@.len() as int) =~= self@);
        }
        sum
    }

    /// Whether two factor lists mean the same monomial.
    pub fn mono_eq(&self, other: &Mono) -> (r: bool)
        ensures
            r == (mono_sem(self@) == mono_sem(other@)),
    {
        let mut i: usize = 0;
        while i < self.factors.len()
            invariant
                i <= self.factors.len(),
                forall|k: int|
                    0 <= k < i ==> exp_sum(self@, (#[trigger] self.factors@[k]).0@) == exp_sum(
                        other@,
                        self.factors@[k].0@,
                    ),
            decreases self.factors.len() - i,
        {
            let f = &self.factors[i];
            let a = self.sym_exp(&f.0);
            let b = other.sym_exp(&f.0);
            if a != b {
                proof {
                    lemma_mono_sem_exp(self@, f.0@);
                    lemma_mono_sem_exp(other@, f.0@);
                    assert(gete(mono_sem(self@), f.0@) != gete(mono_sem(other@), f.0@));
                }
                return false;
            }
            i = i + 1;
        }
        let mut j: usize = 0;
        while j < other.factors.len()
            invariant
                j <= other.factors.len(),
                forall|k: int|
                    0 <= k < self.factors@.len() ==> exp_sum(
                        self@,
                        (#[trigger] self.factors@[k]).0@,
                    ) == exp_sum(other@, self.factors@[k].0@),
                forall|k: int|
                    0 <= k < j ==> exp_sum(self@, (#[trigger] other.factors@[k]).0@) == exp_sum(
                        other@,
                        other.factors@[k].0@,
                    ),
            decreases other.factors.len() - j,
        {
            let f = &other.factors[j];
            let a = self.sym_exp(&f.0);
            let b = other.sym_exp(&f.0);
            if a != b {
                proof {
                    lemma_mono_sem_exp(self@, f.0@);
                    lemma_mono_sem_exp(other@, f.0@);
                    assert(gete(mono_sem(self@), f.0@) != gete(mono_sem(other@), f.0@));
                }
                return false;
            }
            j = j + 1;
        }
        proof {
            assert_maps_equal!(mono_sem(self@), mono_sem(other@), k => {
                lemma_mono_sem_exp(self@, k);
                lemma_mono_sem_exp(other@, k);
                if sym_occurs(self@, k) {
                    let i0 = choose|i0: int| 0 <= i0 < self@.len() && self@[i0].0 == k;
                    assert(self@[i0] == (self.factors@[i0].0@, self.factors@[i0].1));
                    assert(exp_sum(self@, self.factors@[i0].0@) == exp_sum(
                        other@,
                        self.factors@[i0].0@,
                    ));
                } else if sym_occurs(other@, k) {
                    let i0 = choose|i0: int| 0 <= i0 < other@.len() && other@[i0].0 == k;
                    assert(other@[i0] == (other.factors@[i0].0@, other.factors@[i0].1));
                    assert(exp_sum(self@, other.factors@[i0].0@) == exp_sum(
                        other@,
                        other.factors@[i0].0@,
                    ));
                }
                assert(gete(mono_sem(self@), k) == gete(mono_sem(other@), k));
            });
        }
        true
    }
}


/// First index of `m` among the monomials of `acc`, or `-1`.
pub open spec fn find_mono(acc: Seq<TermV>, m: MonoV) -> int
    decreases acc.len(),
{
    if acc.len() == 0 {
        -1
    } else if acc.first().1 == m {
        0
    } else {
        let r = find_mono(acc.drop_first(), m);
        if r == -1 {
            -1
        } else {
            r + 1
        }
    }
}

pub proof fn lemma_find_mono(acc: Seq<TermV>, m: MonoV)
    ensures
        find_mono(acc, m) == -1 ==> forall|i: int| 0 <= i < acc.len() ==> acc[i].1 != m,
        find_mono(acc, m) != -1 ==> 0 <= find_mono(acc, m) < acc.len() && acc[find_mono(
            acc,
            m,
        )].1 == m && forall|i: int| 0 <= i < find_mono(acc, m) ==> acc[i].1 != m,
    decreases acc.len(),
{
    if acc.len() == 0 {
    } else if acc.first().1 == m {
    } else {
        lemma_find_mono(acc.drop_first(), m);
        assert forall|i: int| 1 <= i < acc.len() implies acc[i] == acc.drop_first()[i - 1] by {}
    }
}

/// One step of normalization: fold `t` into an accumulator with pairwise
/// distinct monomials.
pub open spec fn norm_insert(acc: Seq<TermV>, t: TermV) -> Seq<TermV> {
    let i = find_mono(acc, t.1);
    if i == -1 {
        if t.0 == 0 {
            acc
        } else {
            acc.push(t)
        }
    } else {
        let v = acc[i].0 + t.0;
        if v == 0 {
            acc.remove(i)
        } else {
            acc.update(i, (v, t.1))
        }
    }
}

/// The normal form of a term list: distinct monomials, nonzero summed
/// coefficients, in order of first appearance.
pub open spec fn norm_terms(s: Seq<TermV>) -> Seq<TermV>
    decreases s.len(),
{
    if s.len() == 0 {
        Seq::empty()
    } else {
        norm_insert(norm_terms(s.drop_last()), s.last())
    }
}

/// Pairwise distinct monomials and no zero coefficients.
pub open spec fn normalized(s: Seq<TermV>) -> bool {
    (forall|i: int, j: int| 0 <= i < j < s.len() ==> s[i].1 != s[j].1) && (forall|i: int|
        0 <= i < s.len() ==> (#[trigger] s[i]).0 != 0)
}

/// Pointwise sum of two polynomial meanings.
pub open spec fn padd(x: PolyV, y: PolyV) -> PolyV {
    Map::new(
        |k: MonoV| getc(x, k) + getc(y, k) != 0,
        |k: MonoV| getc(x, k) + getc(y, k),
    )
}

/// Pointwise negation of a polynomial meaning.
pub open spec fn pneg(x: PolyV) -> PolyV {
    Map::new(|k: MonoV| x.contains_key(k), |k: MonoV| -x[k])
}

pub proof fn lemma_bump_comm(m: PolyV, k1: MonoV, c1: int, k2: MonoV, c2: int)
    ensures
        poly_bump(poly_bump(m, k1, c1), k2, c2) == poly_bump(poly_bump(m, k2, c2), k1, c1),
{
    assert(poly_bump(poly_bump(m, k1, c1), k2, c2) =~= poly_bump(poly_bump(m, k2, c2), k1, c1));
}

pub proof fn lemma_bump_bump(m: PolyV, k: MonoV, c1: int, c2: int)
    ensures
        poly_bump(poly_bump(m, k, c1), k, c2) == poly_bump(m, k, c1 + c2),
{
    assert(poly_bump(poly_bump(m, k, c1), k, c2) =~= poly_bump(m, k, c1 + c2));
}

/// A monomial that no term of `s` carries is absent from the meaning.
pub proof fn lemma_sem_no_key(s: Seq<TermV>, k: MonoV)
    requires
        forall|i: int| 0 <= i < s.len() ==> (#[trigger] s[i]).1 != k,
    ensures
        !poly_sem(s).contains_key(k),
    decreases s.len(),
{
    if s.len() > 0 {
        assert(s[s.len() - 1].1 != k);
        lemma_sem_no_key(s.drop_last(), k);
    }
}

/// The meaning never stores a zero coefficient.
pub proof fn lemma_sem_values(s: Seq<TermV>)
    ensures
        forall|k: MonoV| #[trigger] poly_sem(s).contains_key(k) ==> poly_sem(s)[k] != 0,
    decreases s.len(),
{
    if s.len() > 0 {
        lemma_sem_values(s.drop_last());
        let m0 = poly_sem(s.drop_last());
        let k0 = s.last().1;
        let c0 = s.last().0;
        assert forall|k: MonoV| #[trigger] poly_sem(s).contains_key(k) implies poly_sem(s)[k]
            != 0 by {
            if k == k0 {
                assert(poly_sem(s) == poly_bump(m0, k0, c0));
            } else {
                assert(poly_sem(s)[k] == m0[k]);
            }
        }
    }
}

/// The meaning may be computed with any one term pulled out last.
pub proof fn lemma_sem_pull(s: Seq<TermV>, i: int)
    requires
        0 <= i < s.len(),
    ensures
        poly_sem(s) == poly_bump(poly_sem(s.remove(i)), s[i].1, s[i].0),
    decreases s.len(),
{
    if i == s.len() - 1 {
        assert(s.remove(i) =~= s.drop_last());
    } else {
        lemma_sem_pull(s.drop_last(), i);
        assert(s.remove(i).drop_last() =~= s.drop_last().remove(i));
        assert(s.remove(i).last() == s.last());
        lemma_bump_comm(
            poly_sem(s.drop_last().remove(i)),
            s[i].1,
            s[i].0,
            s.last().1,
            s.last().0,
        );
    }
}

/// `norm_insert` preserves normalization and folds as one `poly_bump`.
pub proof fn lemma_norm_insert(acc: Seq<TermV>, t: TermV)
    requires
        normalized(acc),
    ensures
        normalized(norm_insert(acc, t)),
        poly_sem(norm_insert(acc, t)) == poly_bump(poly_sem(acc), t.1, t.0),
{
    lemma_find_mono(acc, t.1);
    let i = find_mono(acc, t.1);
    if i == -1 {
        lemma_sem_no_key(acc, t.1);
        if t.0 == 0 {
            assert(poly_sem(acc) =~= poly_bump(poly_sem(acc), t.1, t.0));
        } else {
            assert(acc.push(t).drop_last() =~= acc);
            assert(normalized(acc.push(t))) by {
                assert forall|i2: int, j2: int|
                    0 <= i2 < j2 < acc.push(t).len() implies acc.push(t)[i2].1 != acc.push(
                    t,
                )[j2].1 by {
                    if j2 < acc.len() {
                    } else {
                        assert(acc.push(t)[i2] == acc[i2]);
                    }
                }
            }
        }
    } else {
        let v = acc[i].0 + t.0;
        lemma_sem_pull(acc, i);
        assert(forall|k: int|
            0 <= k < acc.remove(i).len() ==> (#[trigger] acc.remove(i)[k]).1 != t.1);
        lemma_sem_no_key(acc.remove(i), t.1);
        lemma_bump_bump(poly_sem(acc.remove(i)), t.1, acc[i].0, t.0);
        if v == 0 {
            assert(poly_bump(poly_sem(acc.remove(i)), t.1, v) =~= poly_sem(acc.remove(i)));
            assert(normalized(acc.remove(i)));
        } else {
            let u = acc.update(i, (v, t.1));
            assert(u.remove(i) =~= acc.remove(i));
            lemma_sem_pull(u, i);
            assert(normalized(u));
        }
    }
}

/// Normalization preserves the meaning and yields a normalized list.
pub proof fn lemma_norm_terms(s: Seq<TermV>)
    ensures
        normalized(norm_terms(s)),
        poly_sem(norm_terms(s)) == poly_sem(s),
    decreases s.len(),
{
    if s.len() > 0 {
        lemma_norm_terms(s.drop_last());
        lemma_norm_insert(norm_terms(s.drop_last()), s.last());
    }
}

/// A normalized list means the empty map exactly when it is empty.
pub proof fn lemma_normalized_empty(s: Seq<TermV>)
    requires
        normalized(s),
    ensures
        (poly_sem(s) == Map::<MonoV, int>::empty()) <==> s.len() == 0,
{
    if s.len() > 0 {
        let k = s.last().1;
        assert(forall|i: int| 0 <= i < s.drop_last().len() ==> (#[trigger] s.drop_last()[i]).1 != k);
        lemma_sem_no_key(s.drop_last(), k);
        assert(poly_sem(s).contains_key(k));
        assert(poly_sem(s) != Map::<MonoV, int>::empty()) by {
            if poly_sem(s) == Map::<MonoV, int>::empty() {
                assert(Map::<MonoV, int>::empty().contains_key(k));
            }
        }
    } else {
        assert(poly_sem(s) =~= Map::<MonoV, int>::empty());
    }
}

/// The meaning of a concatenation is the pointwise sum of the meanings.
pub proof fn lemma_sem_concat(a: Seq<TermV>, b: Seq<TermV>)
    ensures
        poly_sem(a + b) == padd(poly_sem(a), poly_sem(b)),
    decreases b.len(),
{
    lemma_sem_values(a);
    if b.len() == 0 {
        assert(a + b =~= a);
        assert(padd(poly_sem(a), poly_sem(b)) =~= poly_sem(a));
    } else {
        lemma_sem_concat(a, b.drop_last());
        assert((a + b).drop_last() =~= a + b.drop_last());
        assert((a + b).last() == b.last());
        assert(poly_bump(padd(poly_sem(a), poly_sem(b.drop_last())), b.last().1, b.last().0)
            =~= padd(poly_sem(a), poly_bump(poly_sem(b.drop_last()), b.last().1, b.last().0)));
    }
}

/// The meaning of a negated list is the pointwise negation.
pub proof fn lemma_sem_neg(s: Seq<TermV>)
    ensures
        poly_sem(tvs_neg(s)) == pneg(poly_sem(s)),
    decreases s.len(),
{
    if s.len() == 0 {
        assert(tvs_neg(s) =~= Seq::<TermV>::empty());
        assert(pneg(poly_sem(s)) =~= Map::<MonoV, int>::empty());
    } else {
        lemma_sem_neg(s.drop_last());
        assert(tvs_neg(s).drop_last() =~= tvs_neg(s.drop_last()));
        assert(tvs_neg(s).last() == (-s.last().0, s.last().1));
        assert(poly_bump(pneg(poly_sem(s.drop_last())), s.last().1, -s.last().0) =~= pneg(
            poly_bump(poly_sem(s.drop_last()), s.last().1, s.last().0),
        ));
    }
}

/// Two meanings agree exactly when their pointwise difference vanishes.
pub proof fn lemma_eq_by_zero(x: PolyV, y: PolyV)
    requires
        forall|k: MonoV| #[trigger] x.contains_key(k) ==> x[k] != 0,
        forall|k: MonoV| #[trigger] y.contains_key(k) ==> y[k] != 0,
    ensures
        (padd(x, pneg(y)) == Map::<MonoV, int>::empty()) <==> x == y,
{
    if padd(x, pneg(y)) == Map::<MonoV, int>::empty() {
        assert forall|k: MonoV| getc(x, k) == getc(y, k) by {
            if getc(x, k) != getc(y, k) {
                assert(padd(x, pneg(y)).contains_key(k));
                assert(Map::<MonoV, int>::empty().contains_key(k));
            }
        }
        assert(x =~= y) by {
            assert forall|k: MonoV| x.contains_key(k) == y.contains_key(k) by {
                assert(getc(x, k) == getc(y, k));
            }
            assert forall|k: MonoV| x.contains_key(k) implies x[k] == y[k] by {
                assert(getc(x, k) == getc(y, k));
            }
        }
    }
    if x == y {
        assert(padd(x, pneg(y)) =~= Map::<MonoV, int>::empty());
    }
}

/// Scratch term with a wide coefficient, used while normalizing.
pub(crate) struct BigTerm {
    pub(crate) coeff: i128,
    pub(crate) mono: Mono,
}

impl BigTerm {
    pub(crate) open spec fn view(&self) -> TermV {
        (self.coeff as int, mono_sem(self.mono@))
    }
}

impl Poly {
    /// Normalize into wide-coefficient terms; never overflows because every
    /// intermediate magnitude is at most `len * i64::MAX`.
    pub(crate) fn accumulate(&self) -> (r: Vec<BigTerm>)
        requires
            poly_wf(self@),
        ensures
            r@.map_values(|b: BigTerm| b.view()) == norm_terms(self@),
            normalized(norm_terms(self@)),
            forall|k: int|
                0 <= k < r@.len() ==> -(self@.len() * 0x7fff_ffff_ffff_ffffi128) <= (#[trigger] r@[
                    k
                ]).coeff <= self@.len() * 0x7fff_ffff_ffff_ffffi128,
    {
        let big: i128 = 0x7fff_ffff_ffff_ffffi128;
        let mut acc: Vec<BigTerm> = Vec::new();
        let ghost mut gn: Seq<TermV> = Seq::empty();
        let mut i: usize = 0;
        proof {
            assert(self@.subrange(0, 0) =~= Seq::<TermV>::empty());
            lemma_norm_terms(self@.subrange(0, 0));
        }
        while i < self.terms.len()
            invariant
                i <= self.terms.len(),
                poly_wf(self@),
                big == 0x7fff_ffff_ffff_ffffi128,
                gn == norm_terms(self@.subrange(0, i as int)),
                normalized(gn),
                acc@.len() == gn.len(),
                forall|k: int| 0 <= k < acc@.len() ==> (#[trigger] acc@[k]).view() == gn[k],
                forall|k: int|
                    0 <= k < acc@.len() ==> -(i * big) <= (#[trigger] acc@[k]).coeff <= i * big,
            decreases self.terms.len() - i,
        {
            let t = &self.terms[i];
            let ghost tv = self.terms@[i as int]@;
            proof {
                assert(self@[i as int] == tv);
                assert(coeff_ok(tv.0));
                lemma_find_mono(gn, tv.1);
            }
            // scan for a term with the same monomial
            let mut j: usize = 0;
            let mut found: bool = false;
            while j < acc.len() && !found
                invariant
                    j <= acc@.len(),
                    acc@.len() == gn.len(),
                    tv.1 == mono_sem(t.mono@),
                    forall|k: int| 0 <= k < acc@.len() ==> (#[trigger] acc@[k]).view() == gn[k],
                    !found ==> forall|k: int| 0 <= k < j ==> (#[trigger] gn[k]).1 != tv.1,
                    found ==> j < acc@.len() && gn[j as int].1 == tv.1 && (forall|k: int|
                        0 <= k < j ==> (#[trigger] gn[k]).1 != tv.1),
                decreases acc@.len() - j + (if found { 0int } else { 1int }),
            {
                let same = acc[j].mono.mono_eq(&t.mono);
                proof {
                    assert(acc@[j as int].view() == gn[j as int]);
                    assert(gn[j as int].1 == mono_sem(acc@[j as int].mono@));
                    assert(tv.1 == mono_sem(t.mono@));
                }
                if same {
                    found = true;
                } else {
                    j = j + 1;
                }
            }
            proof {
                if found {
                    assert(find_mono(gn, tv.1) == j as int);
                } else {
                    assert(find_mono(gn, tv.1) == -1);
                }
            }
            if !found {
                if t.coeff != 0 {
                    acc.push(BigTerm { coeff: t.coeff as i128, mono: t.mono.clone() });
                    proof {
                        assert((i + 1) * big == i * big + big) by (nonlinear_arith);
                        assert(i * big >= 0) by (nonlinear_arith)
                            requires
                                i >= 0 && big > 0,
                        ;
                    }
                } else {
                    proof {
                        assert((i + 1) * big >= i * big) by (nonlinear_arith)
                            requires
                                big > 0,
                        ;
                    }
                }
            } else {
                let sum = {
                    proof {
                        assert(-(i * big) <= acc@[j as int].coeff <= i * big);
                        assert((i + 1) * big == i * big + big) by (nonlinear_arith);
                    }
                    acc[j].coeff + (t.coeff as i128)
                };
                let old_t = acc.remove(j);
                if sum != 0 {
                    acc.insert(j, BigTerm { coeff: sum, mono: old_t.mono });
                } else {
                    proof {
                        assert((i + 1) * big >= i * big) by (nonlinear_arith)
                            requires
                                big > 0,
                        ;
                    }
                }
            }
            proof {
                lemma_norm_insert(gn, tv);
                gn = norm_insert(gn, tv);
                assert(self@.subrange(0, i + 1).drop_last() =~= self@.subrange(0, i as int));
                assert(self@.subrange(0, i + 1).last() == tv);
            }
            i = i + 1;
        }
        proof {
            assert(self@.subrange(0, self@.len() as int) =~= self@);
            lemma_norm_terms(self@);
            assert(acc@.map_values(|b: BigTerm| b.view()) =~= gn);
        }
        acc
    }

    /// Whether this polynomial means zero.
    pub fn sem_zero(&self) -> (r: bool)
        requires
            poly_wf(self@),
        ensures
            r == (poly_sem(self@) == Map::<MonoV, int>::empty()),
    {
        let acc = self.accumulate();
        proof {
            lemma_norm_terms(self@);
            lemma_normalized_empty(norm_terms(self@));
        }
        acc.len() == 0
    }
}

/// Cross-multiplied equality of two expression views: the meanings of
/// `x.num * y.den` and `y.num * x.den` agree.
pub open spec fn expr_equiv(x: ExprV, y: ExprV) -> bool {
    poly_sem(tvs_mul(x.0, y.1)) == poly_sem(tvs_mul(y.0, x.1))
}

impl Expr {
    /// Whether this expression means zero: its numerator does.
    pub fn is_zero(&self) -> (r: bool)
        requires
            self.wf(),
        ensures
            r == (poly_sem(self@.0) == Map::<MonoV, int>::empty()),
    {
        self.num.sem_zero()
    }

    /// Equality after simplification, by cross-multiplication; fails exactly
    /// when a needed coefficient product leaves the executable range.
    pub fn eq_checked(&self, other: &Expr) -> (r: Option<bool>)
        requires
            self.wf(),
            other.wf(),
        ensures
            r is Some <==> prods_ok(self@.0, other@.1) && prods_ok(other@.0, self@.1),
            r matches Some(b) ==> b == expr_equiv(self@, other@),
    {
        let p1 = match self.num.mul_checked(&other.den) {
            Some(p) => p,
            None => {
                return None;
            },
        };
        let p2 = match other.num.mul_checked(&self.den) {
            Some(p) => p,
            None => {
                return None;
            },
        };
        let diff = p1.concat(&p2.negated());
        proof {
            assert(poly_wf(diff@));
            lemma_sem_concat(p1@, tvs_neg(p2@));
            lemma_sem_neg(p2@);
            lemma_sem_values(p1@);
            lemma_sem_values(p2@);
            lemma_eq_by_zero(poly_sem(p1@), poly_sem(p2@));
        }
        let r = diff.sem_zero();
        Some(r)
    }
}


/// Seq-level product form, when every coefficient product fits.
pub open spec fn mul_sp(x: ExprV, y: ExprV) -> Option<ExprV> {
    if prods_ok(x.0, y.0) && prods_ok(x.1, y.1) {
        Some((tvs_mul(x.0, y.0), tvs_mul(x.1, y.1)))
    } else {
        None
    }
}

/// Seq-level sum form over the common denominator.
pub open spec fn add_sp(x: ExprV, y: ExprV) -> Option<ExprV> {
    if prods_ok(x.0, y.1) && prods_ok(y.0, x.1) && prods_ok(x.1, y.1) {
        Some((tvs_mul(x.0, y.1) + tvs_mul(y.0, x.1), tvs_mul(x.1, y.1)))
    } else {
        None
    }
}

/// Seq-level quotient form.
pub open spec fn div_sp(x: ExprV, y: ExprV) -> Option<ExprV> {
    if prods_ok(x.0, y.1) && prods_ok(x.1, y.0) {
        Some((tvs_mul(x.0, y.1), tvs_mul(x.1, y.0)))
    } else {
        None
    }
}

/// Seq-level power form.
pub open spec fn pow_sp(b: ExprV, e: nat) -> Option<ExprV>
    decreases e,
{
    if e == 0 {
        Some((one_terms(), one_terms()))
    } else {
        match pow_sp(b, (e - 1) as nat) {
            Some(p) => mul_sp(p, b),
            None => None,
        }
    }
}

/// First binding of symbol `s`, scanning the list in order.
pub open spec fn env_lookup(env: Seq<(Sym, Expr)>, s: SymV) -> Option<Expr>
    decreases env.len(),
{
    if env.len() == 0 {
        None
    } else if env.first().0@ == s {
        Some(env.first().1)
    } else {
        env_lookup(env.drop_first(), s)
    }
}

/// All replacement expressions of the binding list are well-formed.
pub open spec fn env_wf(env: Seq<(Sym, Expr)>) -> bool {
    forall|i: int| 0 <= i < env.len() ==> (#[trigger] env[i]).1.wf()
}

/// Substitution into one factor: the binding raised to the exponent, or the
/// factor itself as an expression when the symbol is unbound.
pub open spec fn subst_factor_sp(env: Seq<(Sym, Expr)>, f: (SymV, u32)) -> Option<ExprV> {
    match env_lookup(env, f.0) {
        Some(b) => pow_sp(b@, f.1 as nat),
        None => Some(
            (seq![(1int, mono_bump(Map::<SymV, nat>::empty(), f.0, f.1 as nat))], one_terms()),
        ),
    }
}

/// Substitution into a factor list: the product of the substituted factors.
pub open spec fn subst_mono_sp(env: Seq<(Sym, Expr)>, fs: Seq<(SymV, u32)>) -> Option<ExprV>
    decreases fs.len(),
{
    if fs.len() == 0 {
        Some((one_terms(), one_terms()))
    } else {
        match (subst_mono_sp(env, fs.drop_last()), subst_factor_sp(env, fs.last())) {
            (Some(a), Some(b)) => mul_sp(a, b),
            _ => None,
        }
    }
}

/// Substitution into one term: the coefficient times the substituted
/// monomial.
pub open spec fn subst_term_sp(env: Seq<(Sym, Expr)>, t: Term) -> Option<ExprV> {
    match subst_mono_sp(env, t.mono@) {
        Some(m) => mul_sp((const_terms(t.coeff as int), one_terms()), m),
        None => None,
    }
}

/// Substitution into a term list: the sum of the substituted terms.
pub open spec fn subst_poly_sp(env: Seq<(Sym, Expr)>, ts: Seq<Term>) -> Option<ExprV>
    decreases ts.len(),
{
    if ts.len() == 0 {
        Some((Seq::empty(), one_terms()))
    } else {
        match (subst_poly_sp(env, ts.drop_last()), subst_term_sp(env, ts.last())) {
            (Some(a), Some(b)) => add_sp(a, b),
            _ => None,
        }
    }
}

/// One substitution pass over an expression: numerator over denominator.
pub open spec fn subst_expr_sp(env: Seq<(Sym, Expr)>, e: Expr) -> Option<ExprV> {
    match (subst_poly_sp(env, e.num.terms@), subst_poly_sp(env, e.den.terms@)) {
        (Some(n), Some(d)) => div_sp(n, d),
        _ => None,
    }
}

/// Term lists of the same shape: the substitution pass reads nothing finer
/// than each term's coefficient and factor list.
pub open spec fn poly_struct_eq(a: Seq<Term>, b: Seq<Term>) -> bool {
    a.len() == b.len() && forall|i: int|
        0 <= i < a.len() ==> (#[trigger] a[i]).coeff == b[i].coeff && a[i].mono@ == b[i].mono@
}

/// Expressions of the same shape, term by term.
pub open spec fn expr_struct_eq(a: Expr, b: Expr) -> bool {
    poly_struct_eq(a.num.terms@, b.num.terms@) && poly_struct_eq(a.den.terms@, b.den.terms@)
}

/// Exactly one term of coefficient one over one first-power symbol, divided
/// by a constant one.
pub open spec fn single_symbol_expr(e: Expr, s: SymV) -> bool {
    &&& e.num.terms@.len() == 1
    &&& e.num.terms@[0].coeff == 1
    &&& e.num.terms@[0].mono@ == seq![(s, 1u32)]
    &&& e.den.terms@.len() == 1
    &&& e.den.terms@[0].coeff == 1
    &&& e.den.terms@[0].mono@ == Seq::<(SymV, u32)>::empty()
}

/// Binding lists that agree symbol by symbol and value view by value view.
pub open spec fn env_view_eq(a: Seq<(Sym, Expr)>, b: Seq<(Sym, Expr)>) -> bool {
    a.len() == b.len() && forall|i: int|
        0 <= i < a.len() ==> (#[trigger] a[i]).0@ == b[i].0@ && a[i].1@ == b[i].1@
}

/// A lookup reads the binding list through its views alone.
pub proof fn lemma_env_lookup_congr(a: Seq<(Sym, Expr)>, b: Seq<(Sym, Expr)>, s: SymV)
    requires
        env_view_eq(a, b),
    ensures
        match (env_lookup(a, s), env_lookup(b, s)) {
            (Some(x), Some(y)) => x@ == y@,
            (None, None) => true,
            _ => false,
        },
    decreases a.len(),
{
    if a.len() > 0 {
        assert(a[0].0@ == b[0].0@ && a[0].1@ == b[0].1@);
        if a.first().0@ != s {
            assert forall|i: int|
                0 <= i < a.drop_first().len() implies (#[trigger] a.drop_first()[i]).0@
                == b.drop_first()[i].0@ && a.drop_first()[i].1@ == b.drop_first()[i].1@ by {
                assert(a.drop_first()[i] == a[i + 1]);
                assert(b.drop_first()[i] == b[i + 1]);
            }
            lemma_env_lookup_congr(a.drop_first(), b.drop_first(), s);
        }
    }
}

/// Substituting into a factor list reads the bindings through their views
/// alone.
pub proof fn lemma_subst_mono_congr(
    a: Seq<(Sym, Expr)>,
    b: Seq<(Sym, Expr)>,
    fs: Seq<(SymV, u32)>,
)
    requires
        env_view_eq(a, b),
    ensures
        subst_mono_sp(a, fs) == subst_mono_sp(b, fs),
    decreases fs.len(),
{
    if fs.len() > 0 {
        lemma_subst_mono_congr(a, b, fs.drop_last());
        lemma_env_lookup_congr(a, b, fs.last().0);
    }
}

/// Substituting into a term list reads the bindings through their views and
/// the terms through their shape alone.
pub proof fn lemma_subst_poly_congr(
    a: Seq<(Sym, Expr)>,
    b: Seq<(Sym, Expr)>,
    ts: Seq<Term>,
    us: Seq<Term>,
)
    requires
        env_view_eq(a, b),
        poly_struct_eq(ts, us),
    ensures
        subst_poly_sp(a, ts) == subst_poly_sp(b, us),
    decreases ts.len(),
{
    if ts.len() > 0 {
        assert forall|i: int|
            0 <= i < ts.drop_last().len() implies (#[trigger] ts.drop_last()[i]).coeff
            == us.drop_last()[i].coeff && ts.drop_last()[i].mono@ == us.drop_last()[i].mono@ by {
            assert(ts.drop_last()[i] == ts[i]);
            assert(us.drop_last()[i] == us[i]);
            assert(ts[i].coeff == us[i].coeff && ts[i].mono@ == us[i].mono@);
        }
        lemma_subst_poly_congr(a, b, ts.drop_last(), us.drop_last());
        assert(ts.last().coeff == us.last().coeff && ts.last().mono@ == us.last().mono@);
        lemma_subst_mono_congr(a, b, ts.last().mono@);
    }
}

/// One substitution pass reads the bindings through their views and the
/// expression through its shape alone.
pub proof fn lemma_subst_expr_congr(a: Seq<(Sym, Expr)>, b: Seq<(Sym, Expr)>, e: Expr, f: Expr)
    requires
        env_view_eq(a, b),
        expr_struct_eq(e, f),
    ensures
        subst_expr_sp(a, e) == subst_expr_sp(b, f),
{
    lemma_subst_poly_congr(a, b, e.num.terms@, f.num.terms@);
    lemma_subst_poly_congr(a, b, e.den.terms@, f.den.terms@);
}

/// Substituting into a bare symbol answers its binding's view, or the symbol
/// itself where none is bound.
#[verifier::rlimit(100)]
pub proof fn lemma_subst_symbol(env: Seq<(Sym, Expr)>, e: Expr, s: SymV)
    requires
        env_wf(env),
        single_symbol_expr(e, s),
    ensures
        subst_expr_sp(env, e) == Some(
            match env_lookup(env, s) {
                Some(bx) => bx@,
                None => (symbol_terms(s), one_terms()),
            },
        ),
{
    if env_lookup(env, s) is Some {
        lemma_env_lookup_wf(env, s);
    }
    // the substituted factor
    let fv: ExprV = match env_lookup(env, s) {
        Some(bx) => bx@,
        None => (symbol_terms(s), one_terms()),
    };
    assert(poly_wf(fv.0) && poly_wf(fv.1)) by {
        match env_lookup(env, s) {
            Some(bx) => {
                assert(bx.wf());
            },
            None => {
                assert(symbol_terms(s)[0].0 == 1);
                assert(one_terms()[0].0 == 1);
            },
        }
    }
    assert(subst_factor_sp(env, (s, 1u32)) == Some(fv)) by {
        match env_lookup(env, s) {
            Some(bx) => {
                // one power of the binding is the binding itself
                assert(pow_sp(bx@, 0nat) == Some((one_terms(), one_terms())));
                assert(pow_sp(bx@, 1nat) == mul_sp((one_terms(), one_terms()), bx@));
                lemma_tvs_mul_one(bx@.0);
                lemma_tvs_mul_one(bx@.1);
                assert(mul_sp((one_terms(), one_terms()), bx@) == Some(bx@));
            },
            None => {
                assert(mono_bump(Map::<SymV, nat>::empty(), s, 1nat) =~= Map::<SymV,
                    nat,
                >::empty().insert(s, 1nat));
                assert(seq![(1int, mono_bump(Map::<SymV, nat>::empty(), s, 1nat))]
                    =~= symbol_terms(s));
            },
        }
    }
    // the single-factor monomial
    assert(subst_mono_sp(env, e.num.terms@[0].mono@) == Some(fv)) by {
        let fs = e.num.terms@[0].mono@;
        assert(fs.drop_last() =~= Seq::<(SymV, u32)>::empty());
        assert(fs.last() == (s, 1u32));
        assert(subst_mono_sp(env, fs.drop_last()) == Some((one_terms(), one_terms())));
        lemma_tvs_mul_one(fv.0);
        lemma_tvs_mul_one(fv.1);
        assert(mul_sp((one_terms(), one_terms()), fv) == Some(fv));
    }
    // the single term: a coefficient of one changes nothing
    assert(subst_term_sp(env, e.num.terms@[0]) == Some(fv)) by {
        assert(const_terms(1int) =~= one_terms());
        lemma_tvs_mul_one(fv.0);
        lemma_tvs_mul_one(fv.1);
        assert(mul_sp((one_terms(), one_terms()), fv) == Some(fv));
    }
    // the numerator list of one term
    assert(subst_poly_sp(env, e.num.terms@) == Some(fv)) by {
        let ts = e.num.terms@;
        assert(ts.drop_last() =~= Seq::<Term>::empty());
        assert(ts.last() == e.num.terms@[0]);
        assert(subst_poly_sp(env, ts.drop_last()) == Some((
            Seq::<TermV>::empty(),
            one_terms(),
        )));
        lemma_tvs_mul_one(fv.0);
        lemma_tvs_mul_one(fv.1);
        assert(tvs_mul(Seq::<TermV>::empty(), fv.1) =~= Seq::<TermV>::empty());
        assert(prods_ok(Seq::<TermV>::empty(), fv.1));
        assert(add_sp((Seq::<TermV>::empty(), one_terms()), fv) == Some(
            (tvs_mul(Seq::<TermV>::empty(), fv.1) + tvs_mul(fv.0, one_terms()), tvs_mul(
                one_terms(),
                fv.1,
            )),
        ));
        assert(tvs_mul(Seq::<TermV>::empty(), fv.1) + tvs_mul(fv.0, one_terms()) =~= fv.0);
    }
    // the denominator: a constant one substitutes to itself
    assert(subst_poly_sp(env, e.den.terms@) == Some((one_terms(), one_terms()))) by {
        let ts = e.den.terms@;
        let t = e.den.terms@[0];
        assert(t.mono@ =~= Seq::<(SymV, u32)>::empty());
        assert(subst_mono_sp(env, t.mono@) == Some((one_terms(), one_terms())));
        assert(poly_wf(one_terms())) by {
            assert(one_terms().len() == 1 && one_terms()[0].0 == 1);
        }
        lemma_tvs_mul_one(one_terms());
        assert(const_terms(1int) =~= one_terms());
        assert(mul_sp((one_terms(), one_terms()), (one_terms(), one_terms())) == Some(
            (one_terms(), one_terms()),
        ));
        assert(subst_term_sp(env, t) == Some((one_terms(), one_terms())));
        assert(ts.drop_last() =~= Seq::<Term>::empty());
        assert(ts.last() == t);
        assert(subst_poly_sp(env, ts.drop_last()) == Some((
            Seq::<TermV>::empty(),
            one_terms(),
        )));
        assert(tvs_mul(Seq::<TermV>::empty(), one_terms()) =~= Seq::<TermV>::empty());
        assert(prods_ok(Seq::<TermV>::empty(), one_terms()));
        assert(add_sp(
            (Seq::<TermV>::empty(), one_terms()),
            (one_terms(), one_terms()),
        ) == Some(
            (
                tvs_mul(Seq::<TermV>::empty(), one_terms()) + tvs_mul(one_terms(), one_terms()),
                tvs_mul(one_terms(), one_terms()),
            ),
        ));
        assert(tvs_mul(Seq::<TermV>::empty(), one_terms()) + tvs_mul(one_terms(), one_terms())
            =~= one_terms());
        assert(subst_poly_sp(env, ts) == add_sp(
            (Seq::<TermV>::empty(), one_terms()),
            (one_terms(), one_terms()),
        ));
    }
    // the quotient by one
    lemma_tvs_mul_one(fv.0);
    lemma_tvs_mul_one(fv.1);
    assert(div_sp(fv, (one_terms(), one_terms())) == Some(fv));
}

/// Multiplying by the constant-one term list changes nothing.
pub proof fn lemma_tvs_mul_one(x: Seq<TermV>)
    ensures
        tvs_mul(x, one_terms()) == x,
        tvs_mul(one_terms(), x) == x,
        poly_wf(x) ==> prods_ok(x, one_terms()),
        poly_wf(x) ==> prods_ok(one_terms(), x),
    decreases x.len(),
{
    lemma_tvs_mul_flat(x, one_terms());
    lemma_tvs_mul_flat(one_terms(), x);
    assert(one_terms().len() == 1);
    assert(one_terms()[0] == (1int, Map::<SymV, nat>::empty()));
    assert forall|k: int| 0 <= k < x.len() implies tvs_mul(x, one_terms())[k] == x[k] by {
        assert(tvs_mul(x, one_terms())[k * 1 + 0] == tv_mul(x[k], one_terms()[0]));
        assert(k * 1 + 0 == k);
        assert(mono_mul(x[k].1, Map::<SymV, nat>::empty()) =~= x[k].1);
        assert(tv_mul(x[k], (1int, Map::<SymV, nat>::empty())) == x[k]);
    }
    assert(tvs_mul(x, one_terms()) =~= x);
    assert forall|k: int| 0 <= k < x.len() implies tvs_mul(one_terms(), x)[k] == x[k] by {
        assert(tvs_mul(one_terms(), x)[0 * x.len() + k] == tv_mul(one_terms()[0], x[k]));
        assert(0 * x.len() + k == k);
        assert(mono_mul(Map::<SymV, nat>::empty(), x[k].1) =~= x[k].1);
        assert(tv_mul((1int, Map::<SymV, nat>::empty()), x[k]) == x[k]);
    }
    assert(tvs_mul(one_terms(), x) =~= x);
    if poly_wf(x) {
        assert forall|i: int, j: int|
            0 <= i < x.len() && 0 <= j < one_terms().len() implies coeff_ok(
            #[trigger] (x[i].0 * one_terms()[j].0),
        ) by {
            assert(coeff_ok(x[i].0));
            assert(x[i].0 * 1 == x[i].0);
        }
        assert forall|i: int, j: int|
            0 <= i < one_terms().len() && 0 <= j < x.len() implies coeff_ok(
            #[trigger] (one_terms()[i].0 * x[j].0),
        ) by {
            assert(coeff_ok(x[j].0));
            assert(1 * x[j].0 == x[j].0);
        }
    }
}

/// No symbol of the factor list is bound.
pub open spec fn mono_env_free(env: Seq<(Sym, Expr)>, fs: Seq<(SymV, u32)>) -> bool {
    forall|i: int| 0 <= i < fs.len() ==> env_lookup(env, (#[trigger] fs[i]).0) is None
}

/// No symbol of any term's monomial is bound.
pub open spec fn poly_env_free(env: Seq<(Sym, Expr)>, ts: Seq<Term>) -> bool {
    forall|i: int| 0 <= i < ts.len() ==> mono_env_free(env, (#[trigger] ts[i]).mono@)
}

/// No symbol of the expression is bound.
pub open spec fn expr_env_free(env: Seq<(Sym, Expr)>, e: Expr) -> bool {
    poly_env_free(env, e.num.terms@) && poly_env_free(env, e.den.terms@)
}

/// Substituting into an unbound factor list reproduces the single-term
/// expression of that monomial.
pub proof fn lemma_subst_mono_free(env: Seq<(Sym, Expr)>, fs: Seq<(SymV, u32)>)
    requires
        mono_env_free(env, fs),
    ensures
        subst_mono_sp(env, fs) == Some((seq![(1int, mono_sem(fs))], one_terms())),
    decreases fs.len(),
{
    if fs.len() == 0 {
        assert(seq![(1int, mono_sem(fs))] =~~= one_terms());
    } else {
        assert(mono_env_free(env, fs.drop_last()));
        lemma_subst_mono_free(env, fs.drop_last());
        let f = fs.last();
        assert(env_lookup(env, f.0) is None);
        let a = (seq![(1int, mono_sem(fs.drop_last()))], one_terms());
        let b = (seq![(1int, mono_bump(Map::<SymV, nat>::empty(), f.0, f.1 as nat))], one_terms());
        lemma_tvs_mul_flat(a.0, b.0);
        lemma_tvs_mul_one(one_terms());
        assert(a.0[0] == (1int, mono_sem(fs.drop_last())));
        assert(b.0[0] == (1int, mono_bump(Map::<SymV, nat>::empty(), f.0, f.1 as nat)));
        assert forall|i: int, j: int|
            0 <= i < a.0.len() && 0 <= j < b.0.len() implies coeff_ok(
            #[trigger] (a.0[i].0 * b.0[j].0),
        ) by {
            assert(a.0[i].0 == 1 && b.0[j].0 == 1);
        }
        assert(prods_ok(a.0, b.0) && prods_ok(a.1, b.1));
        assert(tvs_mul(a.0, b.0)[0int * 1 + 0] == tv_mul(a.0[0], b.0[0]));
        assert(tvs_mul(a.0, b.0).len() == 1);
        let single: Seq<(SymV, u32)> = seq![f];
        assert(single.len() == 1);
        assert(single.last() == f);
        assert(single.drop_last() =~= Seq::<(SymV, u32)>::empty());
        assert(mono_sem(single.drop_last()) == Map::<SymV, nat>::empty());
        assert(mono_sem(single) == mono_bump(Map::<SymV, nat>::empty(), f.0, f.1 as nat));
        assert(fs.drop_last() + single =~= fs);
        lemma_mono_sem_concat(fs.drop_last(), single);
        assert(mono_sem(fs) == mono_mul(mono_sem(fs.drop_last()), mono_sem(single)));
        assert(tv_mul(a.0[0], b.0[0]) == (1int, mono_sem(fs)));
        assert(tvs_mul(a.0, b.0) =~= seq![(1int, mono_sem(fs))]);
    }
}

/// Substituting into an expression none of whose symbols are bound gives
/// back exactly that expression: one substitution pass is idempotent once a
/// dimension is fully resolved.
pub proof fn lemma_subst_env_free(env: Seq<(Sym, Expr)>, e: Expr)
    requires
        e.wf(),
        expr_env_free(env, e),
    ensures
        subst_expr_sp(env, e) == Some(e@),
{
    assert(e@.0 == e.num@ && e@.1 == e.den@);
    assert forall|i: int|
        0 <= i < e.num.terms@.len() implies coeff_ok(
        (#[trigger] e.num.terms@[i]).coeff as int,
    ) by {
        assert(e.num@[i] == e.num.terms@[i]@);
        assert(coeff_ok(e.num@[i].0));
    }
    assert forall|i: int|
        0 <= i < e.den.terms@.len() implies coeff_ok(
        (#[trigger] e.den.terms@[i]).coeff as int,
    ) by {
        assert(e.den@[i] == e.den.terms@[i]@);
        assert(coeff_ok(e.den@[i].0));
    }
    lemma_subst_poly_free(env, e.num.terms@);
    lemma_subst_poly_free(env, e.den.terms@);
    let n = (e.num.terms@.map_values(|t: Term| t@), one_terms());
    let d = (e.den.terms@.map_values(|t: Term| t@), one_terms());
    lemma_tvs_mul_one(n.0);
    lemma_tvs_mul_one(d.0);
    lemma_tvs_mul_one(one_terms());
    assert(div_sp(n, d) == Some((n.0, d.0)));
}

/// Substituting into an unbound term list reproduces it over denominator
/// one.
pub proof fn lemma_subst_poly_free(env: Seq<(Sym, Expr)>, ts: Seq<Term>)
    requires
        forall|i: int| 0 <= i < ts.len() ==> coeff_ok((#[trigger] ts[i]).coeff as int),
        poly_env_free(env, ts),
    ensures
        subst_poly_sp(env, ts) == Some((ts.map_values(|t: Term| t@), one_terms())),
    decreases ts.len(),
{
    if ts.len() == 0 {
        assert(ts.map_values(|t: Term| t@) =~= Seq::<TermV>::empty());
    } else {
        assert(poly_env_free(env, ts.drop_last()));
        assert(forall|i: int|
            0 <= i < ts.drop_last().len() ==> coeff_ok((#[trigger] ts.drop_last()[i]).coeff as int));
        lemma_subst_poly_free(env, ts.drop_last());
        let t = ts.last();
        assert(mono_env_free(env, t.mono@));
        lemma_subst_mono_free(env, t.mono@);
        assert(coeff_ok(t.coeff as int));
        let c = (const_terms(t.coeff as int), one_terms());
        let m = (seq![(1int, mono_sem(t.mono@))], one_terms());
        lemma_tvs_mul_flat(c.0, m.0);
        lemma_tvs_mul_one(one_terms());
        assert(c.0.len() == 1 && m.0.len() == 1);
        assert(c.0[0] == (t.coeff as int, Map::<SymV, nat>::empty()));
        assert(m.0[0] == (1int, mono_sem(t.mono@)));
        assert forall|i: int, j: int|
            0 <= i < c.0.len() && 0 <= j < m.0.len() implies coeff_ok(
            #[trigger] (c.0[i].0 * m.0[j].0),
        ) by {
            assert(i == 0 && j == 0);
            assert(c.0[0].0 == t.coeff as int && m.0[0].0 == 1int);
            assert(c.0[i].0 * m.0[j].0 == t.coeff as int);
        }
        assert(prods_ok(c.0, m.0));
        assert(tvs_mul(c.0, m.0)[0int * 1 + 0] == tv_mul(c.0[0], m.0[0]));
        assert(tvs_mul(c.0, m.0).len() == 1);
        assert(mono_mul(Map::<SymV, nat>::empty(), mono_sem(t.mono@)) =~= mono_sem(t.mono@));
        assert(c.0[0].0 * m.0[0].0 == t.coeff as int) by (nonlinear_arith)
            requires
                c.0[0].0 == t.coeff as int,
                m.0[0].0 == 1int,
        {
        }
        assert(tv_mul(c.0[0], m.0[0]) == (t.coeff as int, mono_sem(t.mono@)));
        assert(tvs_mul(c.0, m.0) =~= seq![t@]);
        assert(subst_term_sp(env, t) == Some((seq![t@], one_terms())));
        let a = (ts.drop_last().map_values(|t2: Term| t2@), one_terms());
        let b = (seq![t@], one_terms());
        lemma_tvs_mul_one(a.0);
        lemma_tvs_mul_one(b.0);
        assert(add_sp(a, b) == Some((a.0 + b.0, tvs_mul(one_terms(), one_terms()))));
        assert(tvs_mul(one_terms(), one_terms()) == one_terms());
        assert(a.0 + b.0 =~= ts.map_values(|t2: Term| t2@));
    }
}


/// The normal form's coefficients all fit the executable range.
pub open spec fn poly_fits(s: Seq<TermV>) -> bool {
    poly_wf(norm_terms(s))
}

pub proof fn lemma_env_lookup_at(env: Seq<(Sym, Expr)>, s: SymV, j: int)
    requires
        0 <= j < env.len(),
        env[j].0@ == s,
        forall|i: int| 0 <= i < j ==> (#[trigger] env[i]).0@ != s,
    ensures
        env_lookup(env, s) == Some(env[j].1),
    decreases env.len(),
{
    if j == 0 {
    } else {
        assert(env[0].0@ != s);
        lemma_env_lookup_at(env.drop_first(), s, j - 1);
        assert(env.drop_first()[j - 1] == env[j]);
        assert forall|i: int| 0 <= i < j - 1 implies (#[trigger] env.drop_first()[i]).0@ != s by {
            assert(env.drop_first()[i] == env[i + 1]);
        }
    }
}

pub proof fn lemma_env_lookup_none(env: Seq<(Sym, Expr)>, s: SymV)
    requires
        forall|i: int| 0 <= i < env.len() ==> (#[trigger] env[i]).0@ != s,
    ensures
        env_lookup(env, s) is None,
    decreases env.len(),
{
    if env.len() > 0 {
        assert(env[0].0@ != s);
        assert forall|i: int|
            0 <= i < env.drop_first().len() implies (#[trigger] env.drop_first()[i]).0@ != s by {
            assert(env.drop_first()[i] == env[i + 1]);
        }
        lemma_env_lookup_none(env.drop_first(), s);
    }
}

/// A binding found in a well-formed binding list is well-formed.
pub proof fn lemma_env_lookup_wf(env: Seq<(Sym, Expr)>, s: SymV)
    requires
        env_wf(env),
        env_lookup(env, s) is Some,
    ensures
        env_lookup(env, s)->Some_0.wf(),
    decreases env.len(),
{
    if env.len() > 0 {
        if env.first().0@ == s {
            assert(env[0].1.wf());
        } else {
            assert forall|i: int| 0 <= i < env.drop_first().len() implies (#[trigger] env.drop_first()[
                i
            ]).1.wf() by {
                assert(env.drop_first()[i] == env[i + 1]);
            }
            lemma_env_lookup_wf(env.drop_first(), s);
        }
    }
}

/// A defined substitution has every prefix defined.
pub proof fn lemma_subst_mono_prefix(env: Seq<(Sym, Expr)>, fs: Seq<(SymV, u32)>, i: int)
    requires
        0 <= i <= fs.len(),
        subst_mono_sp(env, fs) is Some,
    ensures
        subst_mono_sp(env, fs.subrange(0, i)) is Some,
    decreases fs.len(),
{
    if i == fs.len() {
        assert(fs.subrange(0, i) =~= fs);
    } else {
        assert(fs.drop_last() =~= fs.subrange(0, fs.len() - 1));
        assert(subst_mono_sp(env, fs.drop_last()) is Some);
        lemma_subst_mono_prefix(env, fs.drop_last(), i);
        assert(fs.drop_last().subrange(0, i) =~= fs.subrange(0, i));
    }
}

/// A defined substitution has every prefix defined.
pub proof fn lemma_subst_poly_prefix(env: Seq<(Sym, Expr)>, ts: Seq<Term>, i: int)
    requires
        0 <= i <= ts.len(),
        subst_poly_sp(env, ts) is Some,
    ensures
        subst_poly_sp(env, ts.subrange(0, i)) is Some,
    decreases ts.len(),
{
    if i == ts.len() {
        assert(ts.subrange(0, i) =~= ts);
    } else {
        assert(ts.drop_last() =~= ts.subrange(0, ts.len() - 1));
        assert(subst_poly_sp(env, ts.drop_last()) is Some);
        lemma_subst_poly_prefix(env, ts.drop_last(), i);
        assert(ts.drop_last().subrange(0, i) =~= ts.subrange(0, i));
    }
}

/// A defined power has every smaller power defined.
pub proof fn lemma_pow_prefix(b: ExprV, e: nat, k: nat)
    requires
        k <= e,
        pow_sp(b, e) is Some,
    ensures
        pow_sp(b, k) is Some,
    decreases e,
{
    if k < e {
        assert(pow_sp(b, (e - 1) as nat) is Some);
        lemma_pow_prefix(b, (e - 1) as nat, k);
    }
}

impl Expr {
    /// The zero expression.
    pub fn zero() -> (r: Self)
        ensures
            r@.0 == Seq::<TermV>::empty(),
            r@.1 == one_terms(),
            r.wf(),
    {
        let r = Expr { num: Poly { terms: Vec::new() }, den: Poly::one() };
        proof {
            assert(r@.0 =~= Seq::<TermV>::empty());
        }
        r
    }

    /// A single symbol raised to a power.
    pub fn symbol_pow(s: Sym, e: u32) -> (r: Self)
        ensures
            r@.0 == seq![(1int, mono_bump(Map::<SymV, nat>::empty(), s@, e as nat))],
            r@.1 == one_terms(),
            r.wf(),
    {
        let mut factors: Vec<(Sym, u32)> = Vec::new();
        let ghost sv = s@;
        factors.push((s, e));
        let mut terms: Vec<Term> = Vec::new();
        terms.push(Term { coeff: 1, mono: Mono { factors } });
        let r = Expr { num: Poly { terms }, den: Poly::one() };
        proof {
            let fs = seq![(sv, e)];
            assert(r.num.terms@[0].mono@ =~~= fs);
            assert(fs.drop_last() =~= Seq::<(SymV, u32)>::empty());
            assert(mono_sem(fs.drop_last()) =~= Map::<SymV, nat>::empty());
            assert(fs.last() == (sv, e));
            assert(r@.0 =~~= seq![(1int, mono_bump(Map::<SymV, nat>::empty(), sv, e as nat))]);
        }
        r
    }

    /// Power by repeated multiplication; fails exactly when the seq-level
    /// power form does.
    pub fn pow_checked(&self, e: u32) -> (r: Option<Expr>)
        requires
            self.wf(),
        ensures
            r is Some <==> pow_sp(self@, e as nat) is Some,
            r matches Some(x) ==> Some(x@) == pow_sp(self@, e as nat) && x.wf(),
    {
        let mut acc = Expr::one();
        let mut k: u32 = 0;
        while k < e
            invariant
                k <= e,
                self.wf(),
                acc.wf(),
                pow_sp(self@, k as nat) == Some(acc@),
            decreases e - k,
        {
            match acc.mul_checked(self) {
                Some(x) => {
                    acc = x;
                },
                None => {
                    proof {
                        assert(pow_sp(self@, (k + 1) as nat) is None);
                        if pow_sp(self@, e as nat) is Some {
                            lemma_pow_prefix(self@, e as nat, (k + 1) as nat);
                        }
                    }
                    return None;
                },
            }
            k = k + 1;
        }
        Some(acc)
    }

    /// Normal form: like monomials combined, zero terms dropped, first
    /// appearance order kept; fails exactly when a combined coefficient
    /// leaves the executable range.
    pub fn normalize(&self) -> (r: Option<Expr>)
        requires
            self.wf(),
        ensures
            r is Some <==> poly_fits(self@.0) && poly_fits(self@.1),
            r matches Some(x) ==> x@.0 == norm_terms(self@.0) && x@.1 == norm_terms(self@.1)
                && x.wf(),
    {
        let num = match self.num.normal_terms() {
            Some(p) => p,
            None => {
                return None;
            },
        };
        let den = match self.den.normal_terms() {
            Some(p) => p,
            None => {
                return None;
            },
        };
        Some(Expr { num, den })
    }
}

impl Poly {
    /// The normal form with executable coefficients, when they fit.
    pub fn normal_terms(&self) -> (r: Option<Poly>)
        requires
            poly_wf(self@),
        ensures
            r is Some <==> poly_fits(self@),
            r matches Some(p) ==> p@ == norm_terms(self@) && poly_wf(p@),
    {
        let acc = self.accumulate();
        let mut terms: Vec<Term> = Vec::new();
        let mut i: usize = 0;
        let ghost gn = norm_terms(self@);
        proof {
            assert(acc@.map_values(|b: BigTerm| b.view()).len() == gn.len());
        }
        while i < acc.len()
            invariant
                i <= acc@.len(),
                gn == norm_terms(self@),
                acc@.map_values(|b: BigTerm| b.view()) == gn,
                terms@.len() == i,
                forall|k: int| 0 <= k < i ==> (#[trigger] terms@[k])@ == gn[k] && coeff_ok(gn[k].0),
            decreases acc@.len() - i,
        {
            let b = &acc[i];
            proof {
                assert(acc@.map_values(|b2: BigTerm| b2.view())[i as int] == acc@[i as int].view());
            }
            if b.coeff > 0x7fff_ffff_ffff_ffffi128 || b.coeff < -0x7fff_ffff_ffff_ffffi128 {
                proof {
                    assert(gn[i as int].0 == acc@[i as int].coeff as int);
                    assert(!coeff_ok(gn[i as int].0));
                }
                return None;
            }
            terms.push(Term { coeff: b.coeff as i64, mono: b.mono.clone() });
            i = i + 1;
        }
        let r = Poly { terms };
        proof {
            assert(acc@.map_values(|b: BigTerm| b.view()).len() == gn.len());
            assert(r@ =~= gn);
            assert forall|k: int| 0 <= k < gn.len() implies coeff_ok(gn[k].0) by {}
        }
        Some(r)
    }
}

/// First binding of the symbol, or nothing.
fn env_get<'a>(env: &'a Vec<(Sym, Expr)>, s: &Sym) -> (r: Option<&'a Expr>)
    ensures
        r is Some <==> env_lookup(env@, s@) is Some,
        r matches Some(x) ==> env_lookup(env@, s@) == Some(*x),
{
    let mut i: usize = 0;
    while i < env.len()
        invariant
            i <= env@.len(),
            forall|k: int| 0 <= k < i ==> (#[trigger] env@[k]).0@ != s@,
        decreases env@.len() - i,
    {
        if env[i].0.sym_eq(s) {
            proof {
                lemma_env_lookup_at(env@, s@, i as int);
            }
            return Some(&env[i].1);
        }
        i = i + 1;
    }
    proof {
        lemma_env_lookup_none(env@, s@);
    }
    None
}

/// Substitute every bound symbol of a factor list, multiplying the pieces.
fn subst_mono_exec(env: &Vec<(Sym, Expr)>, m: &Mono) -> (r: Option<Expr>)
    requires
        env_wf(env@),
    ensures
        r is Some <==> subst_mono_sp(env@, m@) is Some,
        r matches Some(x) ==> Some(x@) == subst_mono_sp(env@, m@) && x.wf(),
{
    let mut acc = Expr::one();
    let mut i: usize = 0;
    proof {
        assert(m@.subrange(0, 0) =~= Seq::<(SymV, u32)>::empty());
    }
    while i < m.factors.len()
        invariant
            i <= m.factors@.len(),
            m@.len() == m.factors@.len(),
            env_wf(env@),
            acc.wf(),
            subst_mono_sp(env@, m@.subrange(0, i as int)) == Some(acc@),
        decreases m.factors@.len() - i,
    {
        let f = &m.factors[i];
        proof {
            assert(m@[i as int] == (m.factors@[i as int].0@, m.factors@[i as int].1));
            assert(m@.subrange(0, i + 1).drop_last() =~= m@.subrange(0, i as int));
            assert(m@.subrange(0, i + 1).last() == m@[i as int]);
        }
        let fe: Option<Expr> = match env_get(env, &f.0) {
            Some(b) => {
                proof {
                    lemma_env_lookup_wf(env@, f.0@);
                }
                b.pow_checked(f.1)
            },
            None => Some(Expr::symbol_pow(f.0.clone(), f.1)),
        };
        let fx = match fe {
            Some(x) => x,
            None => {
                proof {
                    assert(subst_factor_sp(env@, m@[i as int]) is None);
                    assert(subst_mono_sp(env@, m@.subrange(0, i + 1)) is None);
                    if subst_mono_sp(env@, m@) is Some {
                        lemma_subst_mono_prefix(env@, m@, i + 1);
                    }
                }
                return None;
            },
        };
        proof {
            assert(Some(fx@) == subst_factor_sp(env@, m@[i as int]));
        }
        let next = match acc.mul_checked(&fx) {
            Some(x) => x,
            None => {
                proof {
                    assert(subst_mono_sp(env@, m@.subrange(0, i + 1)) is None);
                    if subst_mono_sp(env@, m@) is Some {
                        lemma_subst_mono_prefix(env@, m@, i + 1);
                    }
                }
                return None;
            },
        };
        acc = next;
        i = i + 1;
    }
    proof {
        assert(m@.subrange(0, m@.len() as int) =~= m@);
    }
    Some(acc)
}

/// Substitute through a term list, summing the substituted terms.
fn subst_poly_exec(env: &Vec<(Sym, Expr)>, p: &Poly) -> (r: Option<Expr>)
    requires
        env_wf(env@),
        poly_wf(p@),
    ensures
        r is Some <==> subst_poly_sp(env@, p.terms@) is Some,
        r matches Some(x) ==> Some(x@) == subst_poly_sp(env@, p.terms@) && x.wf(),
{
    let mut acc = Expr::zero();
    let mut i: usize = 0;
    proof {
        assert(p.terms@.subrange(0, 0) =~= Seq::<Term>::empty());
        assert(acc@.0 =~= Seq::<TermV>::empty());
    }
    while i < p.terms.len()
        invariant
            i <= p.terms@.len(),
            p@.len() == p.terms@.len(),
            poly_wf(p@),
            env_wf(env@),
            acc.wf(),
            subst_poly_sp(env@, p.terms@.subrange(0, i as int)) == Some(acc@),
        decreases p.terms@.len() - i,
    {
        let t = &p.terms[i];
        proof {
            assert(p@[i as int] == p.terms@[i as int]@);
            assert(coeff_ok(p@[i as int].0));
            assert(coeff_ok(t.coeff as int));
            assert(p.terms@.subrange(0, i + 1).drop_last() =~= p.terms@.subrange(0, i as int));
            assert(p.terms@.subrange(0, i + 1).last() == p.terms@[i as int]);
        }
        let me = match subst_mono_exec(env, &t.mono) {
            Some(x) => x,
            None => {
                proof {
                    assert(subst_term_sp(env@, p.terms@[i as int]) is None);
                    assert(subst_poly_sp(env@, p.terms@.subrange(0, i + 1)) is None);
                    if subst_poly_sp(env@, p.terms@) is Some {
                        lemma_subst_poly_prefix(env@, p.terms@, i + 1);
                    }
                }
                return None;
            },
        };
        let ce = Expr { num: Poly::constant(t.coeff), den: Poly::one() };
        let te = match ce.mul_checked(&me) {
            Some(x) => x,
            None => {
                proof {
                    assert(subst_term_sp(env@, p.terms@[i as int]) is None);
                    assert(subst_poly_sp(env@, p.terms@.subrange(0, i + 1)) is None);
                    if subst_poly_sp(env@, p.terms@) is Some {
                        lemma_subst_poly_prefix(env@, p.terms@, i + 1);
                    }
                }
                return None;
            },
        };
        proof {
            assert(Some(te@) == subst_term_sp(env@, p.terms@[i as int]));
        }
        let next = match acc.add_checked(&te) {
            Some(x) => x,
            None => {
                proof {
                    assert(subst_poly_sp(env@, p.terms@.subrange(0, i + 1)) is None);
                    if subst_poly_sp(env@, p.terms@) is Some {
                        lemma_subst_poly_prefix(env@, p.terms@, i + 1);
                    }
                }
                return None;
            },
        };
        acc = next;
        i = i + 1;
    }
    proof {
        assert(p.terms@.subrange(0, p.terms@.len() as int) =~= p.terms@);
    }
    Some(acc)
}

/// One substitution pass: replace every bound symbol of the expression by
/// its binding, once.  The result is exact when defined; it is always
/// defined when no symbol of the expression is bound, and then means the
/// same expression.
pub fn eval_once(env: &Vec<(Sym, Expr)>, e: &Expr) -> (r: Option<Expr>)
    requires
        env_wf(env@),
        e.wf(),
    ensures
        r is Some <==> subst_expr_sp(env@, *e) is Some,
        r matches Some(x) ==> Some(x@) == subst_expr_sp(env@, *e) && x.wf(),
{
    let n = match subst_poly_exec(env, &e.num) {
        Some(x) => x,
        None => {
            return None;
        },
    };
    let d = match subst_poly_exec(env, &e.den) {
        Some(x) => x,
        None => {
            return None;
        },
    };
    n.div_checked(&d)
}

/// Substitution is idempotent on a fully resolved expression: once a pass
/// has produced an expression none of whose symbols are still bound,
/// another pass returns exactly that expression.
pub proof fn lemma_eval_once_idempotent(env: Seq<(Sym, Expr)>, e: Expr, r: Expr)
    requires
        r.wf(),
        subst_expr_sp(env, e) == Some(r@),
        expr_env_free(env, r),
    ensures
        subst_expr_sp(env, r) == Some(r@),
{
    lemma_subst_env_free(env, r);
}

} // verus!
