use vstd::prelude::*;

verus! {

/// A lambda term whose variables are indices into the string pool of the
/// interpreter that created it.
///
/// A term carries no environment, so a term made by one interpreter is only
/// meaningful to that interpreter.
#[derive(Debug)]
pub enum Term {
    Var(usize),
    Lambda { param: usize, body: Box<Term> },
    App { left: Box<Term>, right: Box<Term> },
}

impl Term {
    /// The number of nodes of the term.
    pub open spec fn size(self) -> nat
        decreases self,
    {
        match self {
            Term::Var(_) => 1,
            Term::Lambda { body, .. } => 1 + body.size(),
            Term::App { left, right } => 1 + left.size() + right.size(),
        }
    }

    /// Every variable index in the term (bound or free, binders included) is
    /// below `n`: the term only names strings of a pool of length `n`.
    pub open spec fn names_below(self, n: nat) -> bool
        decreases self,
    {
        match self {
            Term::Var(v) => v < n,
            Term::Lambda { param, body } => param < n && body.names_below(n),
            Term::App { left, right } => left.names_below(n) && right.names_below(n),
        }
    }
}


/// `v` occurs free in `t`: some occurrence of `v` lies under no binder of `v`.
pub open spec fn occurs_free(t: Term, v: usize) -> bool
    decreases t,
{
    match t {
        Term::Var(x) => x == v,
        Term::Lambda { param, body } => param != v && occurs_free(*body, v),
        Term::App { left, right } => occurs_free(*left, v) || occurs_free(*right, v),
    }
}

/// The variables that occur free in `t`.
pub open spec fn free_vars(t: Term) -> Set<usize> {
    Set::new(|v: usize| occurs_free(t, v))
}

/// `t` is in weak head normal form: a variable, a lambda, or a variable
/// applied to any number of arguments, which are left as they are.
pub open spec fn is_whnf(t: Term) -> bool
    decreases t,
{
    match t {
        Term::App { left, .. } => !(*left is Lambda) && is_whnf(*left),
        _ => true,
    }
}

/// `λparam.body` is an eta redex: `body` applies a term in which `param`
/// does not occur free to `param` itself.
pub open spec fn is_eta_redex(param: usize, body: Term) -> bool {
    match body {
        Term::App { left, right } => *right == Term::Var(param) && !occurs_free(*left, param),
        _ => false,
    }
}

/// `t` is in beta-eta normal form: it holds no beta redex and no eta redex.
pub open spec fn is_normal(t: Term) -> bool
    decreases t,
{
    match t {
        Term::Var(_) => true,
        Term::Lambda { param, body } => is_normal(*body) && !is_eta_redex(param, *body),
        Term::App { left, right } => !(*left is Lambda) && is_normal(*left) && is_normal(*right),
    }
}

/// `s` is `t` or a term inside it.
pub open spec fn is_subterm(s: Term, t: Term) -> bool
    decreases t,
{
    s == t || match t {
        Term::Var(_) => false,
        Term::Lambda { body, .. } => is_subterm(s, *body),
        Term::App { left, right } => is_subterm(s, *left) || is_subterm(s, *right),
    }
}

/// `s` is a beta redex: a lambda applied to an argument.
pub open spec fn beta_redex(s: Term) -> bool {
    match s {
        Term::App { left, .. } => *left is Lambda,
        _ => false,
    }
}

/// `s` is an eta redex: `λx.M x` where `x` does not occur free in `M`, for any
/// term `M`.
pub open spec fn eta_redex(s: Term) -> bool {
    match s {
        Term::Lambda { param, body } => match *body {
            Term::App { left, right } => *right == Term::Var(param) && !occurs_free(*left, param),
            _ => false,
        },
        _ => false,
    }
}

/// `v` occurs in `t`, free, bound or as a binder.
pub open spec fn occurs_anywhere(t: Term, v: usize) -> bool
    decreases t,
{
    match t {
        Term::Var(x) => x == v,
        Term::Lambda { param, body } => param == v || occurs_anywhere(*body, v),
        Term::App { left, right } => occurs_anywhere(*left, v) || occurs_anywhere(*right, v),
    }
}

/// A term in normal form holds no beta redex and no eta redex anywhere.
pub proof fn lemma_normal_has_no_redex(t: Term, s: Term)
    requires
        is_normal(t),
        is_subterm(s, t),
    ensures
        !beta_redex(s),
        !eta_redex(s),
    decreases t,
{
    if s != t {
        match t {
            Term::Var(_) => {},
            Term::Lambda { body, .. } => lemma_normal_has_no_redex(*body, s),
            Term::App { left, right } => {
                if is_subterm(s, *left) {
                    lemma_normal_has_no_redex(*left, s);
                } else {
                    lemma_normal_has_no_redex(*right, s);
                }
            },
        }
    }
}

/// Renaming a binder and its bound occurrences to a name that does not occur
/// in the body gives an alpha-equivalent term.
pub proof fn lemma_alpha_eq_rename_binder(x: usize, y: usize, b: Term)
    requires
        !occurs_anywhere(b, y),
    ensures
        alpha_eq(
            Term::Lambda { param: x, body: Box::new(b) },
            Term::Lambda { param: y, body: Box::new(rename_free(b, x, y)) },
            Seq::empty(),
        ),
{
    let ps = Seq::<(usize, usize)>::empty().push((x, y));
    assert forall|v: usize| v != x && v != y implies same_var(ps, v, v) by {
        lemma_same_var_push(Seq::empty(), x, y, v, v);
    }
    lemma_same_var_push(Seq::empty(), x, y, x, y);
    lemma_alpha_eq_rename_under(b, x, y, ps);
}

/// Replaces the free occurrences of `x` in `b` by `y`.
pub open spec fn rename_free(b: Term, x: usize, y: usize) -> Term
    decreases b,
{
    match b {
        Term::Var(v) => if v == x {
            Term::Var(y)
        } else {
            b
        },
        Term::Lambda { param, body } => if param == x {
            b
        } else {
            Term::Lambda { param, body: Box::new(rename_free(*body, x, y)) }
        },
        Term::App { left, right } => Term::App {
            left: Box::new(rename_free(*left, x, y)),
            right: Box::new(rename_free(*right, x, y)),
        },
    }
}

proof fn lemma_same_var_push(qs: Seq<(usize, usize)>, p1: usize, p2: usize, v1: usize, v2: usize)
    ensures
        same_var(qs.push((p1, p2)), v1, v2) == if p1 == v1 || p2 == v2 {
            p1 == v1 && p2 == v2
        } else {
            same_var(qs, v1, v2)
        },
{
    let q = qs.push((p1, p2));
    assert(q.last() == (p1, p2));
    assert(q.drop_last() =~= qs);
}

proof fn lemma_alpha_eq_refl_except(c: Term, y: usize, qs: Seq<(usize, usize)>)
    requires
        !occurs_anywhere(c, y),
        forall|v: usize| v != y ==> same_var(qs, v, v),
    ensures
        alpha_eq(c, c, qs),
    decreases c,
{
    match c {
        Term::Var(v) => {},
        Term::Lambda { param, body } => {
            let qs2 = qs.push((param, param));
            assert forall|v: usize| v != y implies same_var(qs2, v, v) by {
                lemma_same_var_push(qs, param, param, v, v);
            }
            lemma_alpha_eq_refl_except(*body, y, qs2);
        },
        Term::App { left, right } => {
            lemma_alpha_eq_refl_except(*left, y, qs);
            lemma_alpha_eq_refl_except(*right, y, qs);
        },
    }
}

proof fn lemma_alpha_eq_rename_under(b: Term, x: usize, y: usize, ps: Seq<(usize, usize)>)
    requires
        !occurs_anywhere(b, y),
        same_var(ps, x, y),
        forall|v: usize| v != x && v != y ==> same_var(ps, v, v),
    ensures
        alpha_eq(b, rename_free(b, x, y), ps),
    decreases b,
{
    match b {
        Term::Var(v) => {},
        Term::Lambda { param, body } => {
            let ps2 = ps.push((param, param));
            assert(ps2.last() == (param, param));
            assert(ps2.drop_last() =~= ps);
            if param == x {
                assert forall|v: usize| v != y implies same_var(ps2, v, v) by {
                    lemma_same_var_push(ps, param, param, v, v);
                }
                lemma_alpha_eq_refl_except(*body, y, ps2);
            } else {
                assert forall|v: usize| v != x && v != y implies same_var(ps2, v, v) by {
                    lemma_same_var_push(ps, param, param, v, v);
                }
                lemma_same_var_push(ps, param, param, x, y);
                lemma_alpha_eq_rename_under(*body, x, y, ps2);
            }
        },
        Term::App { left, right } => {
            lemma_alpha_eq_rename_under(*left, x, y, ps);
            lemma_alpha_eq_rename_under(*right, x, y, ps);
        },
    }
}

/// Whether `v1` and `v2` stand for the same variable, given the pairs of
/// binders that enclose them, innermost last: the innermost pair that binds
/// either of them must bind both; when none does, both are free and must be
/// the same name.
pub open spec fn same_var(params: Seq<(usize, usize)>, v1: usize, v2: usize) -> bool
    decreases params.len(),
{
    if params.len() == 0 {
        v1 == v2
    } else {
        let (p1, p2) = params.last();
        if p1 == v1 || p2 == v2 {
            p1 == v1 && p2 == v2
        } else {
            same_var(params.drop_last(), v1, v2)
        }
    }
}

/// Alpha-equivalence of `x` and `y` under the enclosing binder pairs `params`.
pub open spec fn alpha_eq(x: Term, y: Term, params: Seq<(usize, usize)>) -> bool
    decreases x,
{
    match (x, y) {
        (Term::Var(v1), Term::Var(v2)) => same_var(params, v1, v2),
        (Term::Lambda { param: p1, body: b1 }, Term::Lambda { param: p2, body: b2 }) => alpha_eq(
            *b1,
            *b2,
            params.push((p1, p2)),
        ),
        (Term::App { left: l1, right: r1 }, Term::App { left: l2, right: r2 }) => alpha_eq(
            *l1,
            *l2,
            params,
        ) && alpha_eq(*r1, *r2, params),
        _ => false,
    }
}


/// The binder pairs with each pair turned around.
pub open spec fn swap_pairs(ps: Seq<(usize, usize)>) -> Seq<(usize, usize)> {
    ps.map_values(|p: (usize, usize)| (p.1, p.0))
}

/// Every pair binds the same name on both sides.
pub open spec fn diagonal(ps: Seq<(usize, usize)>) -> bool {
    forall|i: int| 0 <= i < ps.len() ==> #[trigger] ps[i].0 == ps[i].1
}

/// `qs` continues `ps`: each pair of `qs` starts with the name on which the
/// pair of `ps` at the same place ends.
pub open spec fn chained(ps: Seq<(usize, usize)>, qs: Seq<(usize, usize)>) -> bool {
    &&& ps.len() == qs.len()
    &&& forall|i: int| 0 <= i < ps.len() ==> #[trigger] ps[i].1 == qs[i].0
}

/// The pairs that go from the first names of `ps` to the second names of `qs`.
pub open spec fn compose_pairs(ps: Seq<(usize, usize)>, qs: Seq<(usize, usize)>) -> Seq<
    (usize, usize),
> {
    Seq::new(ps.len(), |i: int| (ps[i].0, qs[i].1))
}

proof fn lemma_same_var_refl(ps: Seq<(usize, usize)>, v: usize)
    requires
        diagonal(ps),
    ensures
        same_var(ps, v, v),
    decreases ps.len(),
{
    if ps.len() > 0 {
        assert(ps.last().0 == ps.last().1);
        lemma_same_var_refl(ps.drop_last(), v);
    }
}

proof fn lemma_same_var_symm(ps: Seq<(usize, usize)>, a: usize, b: usize)
    ensures
        same_var(ps, a, b) == same_var(swap_pairs(ps), b, a),
    decreases ps.len(),
{
    if ps.len() > 0 {
        assert(swap_pairs(ps).drop_last() =~= swap_pairs(ps.drop_last()));
        lemma_same_var_symm(ps.drop_last(), a, b);
    }
}

proof fn lemma_same_var_trans(ps: Seq<(usize, usize)>, qs: Seq<(usize, usize)>, a: usize, b: usize, c: usize)
    requires
        chained(ps, qs),
        same_var(ps, a, b),
        same_var(qs, b, c),
    ensures
        same_var(compose_pairs(ps, qs), a, c),
    decreases ps.len(),
{
    if ps.len() > 0 {
        let n = ps.len() - 1;
        assert(ps.last() == ps[n]);
        assert(qs.last() == qs[n]);
        assert(ps[n].1 == qs[n].0);
        let rs = compose_pairs(ps, qs);
        assert(rs.last() == (ps[n].0, qs[n].1));
        assert(rs.drop_last() =~= compose_pairs(ps.drop_last(), qs.drop_last()));
        if !(ps[n].0 == a || ps[n].1 == b) {
            assert(chained(ps.drop_last(), qs.drop_last())) by {
                assert forall|i: int| 0 <= i < ps.drop_last().len() implies #[trigger] ps.drop_last()[i].1
                    == qs.drop_last()[i].0 by {
                    assert(ps[i].1 == qs[i].0);
                }
            }
            lemma_same_var_trans(ps.drop_last(), qs.drop_last(), a, b, c);
        }
    }
}

/// Alpha-equivalence under diagonal binder pairs is reflexive.
pub proof fn lemma_alpha_eq_refl_under(t: Term, ps: Seq<(usize, usize)>)
    requires
        diagonal(ps),
    ensures
        alpha_eq(t, t, ps),
    decreases t,
{
    match t {
        Term::Var(v) => lemma_same_var_refl(ps, v),
        Term::Lambda { param, body } => {
            let qs = ps.push((param, param));
            assert(diagonal(qs)) by {
                assert forall|i: int| 0 <= i < qs.len() implies #[trigger] qs[i].0 == qs[i].1 by {
                    if i < ps.len() {
                        assert(qs[i] == ps[i]);
                    }
                }
            }
            lemma_alpha_eq_refl_under(*body, qs);
        },
        Term::App { left, right } => {
            lemma_alpha_eq_refl_under(*left, ps);
            lemma_alpha_eq_refl_under(*right, ps);
        },
    }
}

/// Swapping both terms and every binder pair keeps alpha-equivalence.
pub proof fn lemma_alpha_eq_symm_under(x: Term, y: Term, ps: Seq<(usize, usize)>)
    ensures
        alpha_eq(x, y, ps) == alpha_eq(y, x, swap_pairs(ps)),
    decreases x,
{
    match (x, y) {
        (Term::Var(a), Term::Var(b)) => lemma_same_var_symm(ps, a, b),
        (Term::Lambda { param: p1, body: b1 }, Term::Lambda { param: p2, body: b2 }) => {
            assert(swap_pairs(ps.push((p1, p2))) =~= swap_pairs(ps).push((p2, p1)));
            lemma_alpha_eq_symm_under(*b1, *b2, ps.push((p1, p2)));
        },
        (Term::App { left: l1, right: r1 }, Term::App { left: l2, right: r2 }) => {
            lemma_alpha_eq_symm_under(*l1, *l2, ps);
            lemma_alpha_eq_symm_under(*r1, *r2, ps);
        },
        _ => {},
    }
}

/// Alpha-equivalence composes along chained binder pairs.
pub proof fn lemma_alpha_eq_trans_under(
    x: Term,
    y: Term,
    z: Term,
    ps: Seq<(usize, usize)>,
    qs: Seq<(usize, usize)>,
)
    requires
        chained(ps, qs),
        alpha_eq(x, y, ps),
        alpha_eq(y, z, qs),
    ensures
        alpha_eq(x, z, compose_pairs(ps, qs)),
    decreases x,
{
    match (x, y, z) {
        (Term::Var(a), Term::Var(b), Term::Var(c)) => lemma_same_var_trans(ps, qs, a, b, c),
        (
            Term::Lambda { param: p1, body: b1 },
            Term::Lambda { param: p2, body: b2 },
            Term::Lambda { param: p3, body: b3 },
        ) => {
            let ps2 = ps.push((p1, p2));
            let qs2 = qs.push((p2, p3));
            assert(chained(ps2, qs2)) by {
                assert forall|i: int| 0 <= i < ps2.len() implies #[trigger] ps2[i].1 == qs2[i].0 by {
                    if i < ps.len() {
                        assert(ps2[i] == ps[i]);
                        assert(qs2[i] == qs[i]);
                    }
                }
            }
            assert(compose_pairs(ps2, qs2) =~= compose_pairs(ps, qs).push((p1, p3)));
            lemma_alpha_eq_trans_under(*b1, *b2, *b3, ps2, qs2);
        },
        (
            Term::App { left: l1, right: r1 },
            Term::App { left: l2, right: r2 },
            Term::App { left: l3, right: r3 },
        ) => {
            lemma_alpha_eq_trans_under(*l1, *l2, *l3, ps, qs);
            lemma_alpha_eq_trans_under(*r1, *r2, *r3, ps, qs);
        },
        _ => {},
    }
}

/// Every term is alpha-equivalent to itself.
pub proof fn lemma_alpha_eq_reflexive(t: Term)
    ensures
        alpha_eq(t, t, Seq::empty()),
{
    lemma_alpha_eq_refl_under(t, Seq::empty());
}

/// Alpha-equivalence does not depend on the order of the two terms.
pub proof fn lemma_alpha_eq_symmetric(x: Term, y: Term)
    ensures
        alpha_eq(x, y, Seq::empty()) == alpha_eq(y, x, Seq::empty()),
{
    lemma_alpha_eq_symm_under(x, y, Seq::empty());
    assert(swap_pairs(Seq::<(usize, usize)>::empty()) =~= Seq::<(usize, usize)>::empty());
}

/// A term alpha-equivalent to a second one, itself alpha-equivalent to a
/// third, is alpha-equivalent to the third.
pub proof fn lemma_alpha_eq_transitive(x: Term, y: Term, z: Term)
    requires
        alpha_eq(x, y, Seq::empty()),
        alpha_eq(y, z, Seq::empty()),
    ensures
        alpha_eq(x, z, Seq::empty()),
{
    lemma_alpha_eq_trans_under(x, y, z, Seq::empty(), Seq::empty());
    assert(compose_pairs(Seq::<(usize, usize)>::empty(), Seq::<(usize, usize)>::empty())
        =~= Seq::<(usize, usize)>::empty());
}

impl Clone for Term {
    fn clone(&self) -> (res: Self)
        ensures
            res == *self,
        decreases self,
    {
        match self {
            Term::Var(v) => Term::Var(*v),
            Term::Lambda { param, body } => Term::Lambda {
                param: *param,
                body: Box::new((**body).clone()),
            },
            Term::App { left, right } => Term::App {
                left: Box::new((**left).clone()),
                right: Box::new((**right).clone()),
            },
        }
    }
}

/// A term that the interpreter has brought to normal form.
#[derive(Debug)]
pub struct NormalizedTerm(Term);

impl View for NormalizedTerm {
    type V = Term;

    closed spec fn view(&self) -> Term {
        self.0
    }
}

impl NormalizedTerm {
    /// Wraps a term without checking that it is in normal form.
    pub fn new_unchecked(term: Term) -> (res: Self)
        ensures
            res@ == term,
    {
        Self(term)
    }

    /// Gives back the wrapped term.
    pub fn into_inner(self) -> (res: Term)
        ensures
            res == self@,
    {
        self.0
    }

    /// Borrows the wrapped term.
    pub fn as_term(&self) -> (res: &Term)
        ensures
            *res == self@,
    {
        &self.0
    }
}

impl Clone for NormalizedTerm {
    fn clone(&self) -> (res: Self)
        ensures
            res@ == self@,
    {
        NormalizedTerm(self.0.clone())
    }
}

impl core::ops::Deref for NormalizedTerm {
    type Target = Term;

    fn deref(&self) -> (res: &Term)
        ensures
            *res == self@,
    {
        &self.0
    }
}

impl AsRef<Term> for NormalizedTerm {
    fn as_ref(&self) -> (res: &Term)
        ensures
            *res == self@,
    {
        &self.0
    }
}

} // verus!
