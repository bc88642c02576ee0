use std::collections::HashSet;

use vstd::prelude::*;

use crate::error::{ErrorView, InterpreterError};
use crate::parser::{parse_term_spec, Parser};
use crate::string_pool::{intern, lemma_intern, StringPool};
use crate::term::{
    alpha_eq, beta_redex, eta_redex, free_vars, is_eta_redex, is_normal, is_subterm, is_whnf,
    lemma_normal_has_no_redex, occurs_anywhere, occurs_free, same_var,
    NormalizedTerm, Term,
};
use crate::text::{decimal, push_char, push_decimal};
use vstd::string::StringExecFns;

verus! {

broadcast use vstd::std_specs::hash::group_hash_axioms;

/// The most beta steps that reduction chains, and the deepest nesting that
/// normalisation descends into, before the interpreter gives up.
pub const REDUCTION_LIMIT: u64 = 0xffff_ffff_ffff_ffffu64;

/// The state of an interpreter: the names it knows and its renaming counter.
pub struct Env {
    pub pool: Seq<Seq<char>>,
    pub counter: usize,
}

impl Env {
    /// No name is stored twice.
    pub open spec fn valid(self) -> bool {
        self.pool.no_duplicates()
    }

    /// Every name of `t` is known to this state.
    pub open spec fn holds(self, t: Term) -> bool {
        t.names_below(self.pool.len())
    }
}

/// `e2` is a valid state that keeps every name of `e1` at its index.
pub open spec fn extends(e1: Env, e2: Env) -> bool {
    &&& e2.valid()
    &&& e1.pool.len() <= e2.pool.len()
    &&& forall|i: int| 0 <= i < e1.pool.len() ==> e2.pool[i] == e1.pool[i]
}

/// The renaming counter after one more renaming.
pub open spec fn next_counter(c: usize) -> usize {
    if c == usize::MAX {
        0
    } else {
        (c + 1) as usize
    }
}

/// The name that renaming `origin` makes: its name, `$`, and the counter.
pub open spec fn fresh_name(env: Env, origin: usize) -> Seq<char> {
    env.pool[origin as int] + seq!['$'] + decimal(env.counter as nat)
}

/// Renaming `origin`: the index of its fresh name, and the state after it.
pub open spec fn rename_spec(env: Env, origin: usize) -> (usize, Env) {
    let (i, pool) = intern(env.pool, fresh_name(env, origin));
    (i as usize, Env { pool, counter: next_counter(env.counter) })
}

/// Substitutes `pattern` for the free occurrences of `param` in `body`,
/// renaming each binder of `body` that `fv` holds (the variables free in
/// `pattern`) before going under it.
pub open spec fn subst(env: Env, param: usize, body: Term, pattern: Term, fv: Set<usize>) -> (
    Term,
    Env,
)
    decreases body.size(), 0int,
{
    match body {
        Term::Var(v) => {
            if v == param {
                (pattern, env)
            } else {
                (body, env)
            }
        },
        Term::Lambda { param: bp, body: bb } => {
            if param != bp {
                if fv.contains(bp) {
                    let (nn, env1) = rename_spec(env, bp);
                    let (rb, env2) = apply_spec(env1, bp, *bb, Term::Var(nn));
                    // Renaming keeps the size (`lemma_apply`), so this test always
                    // holds; it is what shows that the definition terminates.
                    if rb.size() == bb.size() {
                        let (nb, env3) = subst(env2, param, rb, pattern, fv);
                        (Term::Lambda { param: nn, body: Box::new(nb) }, env3)
                    } else {
                        (body, env2)
                    }
                } else {
                    let (nb, env1) = subst(env, param, *bb, pattern, fv);
                    (Term::Lambda { param: bp, body: Box::new(nb) }, env1)
                }
            } else {
                (body, env)
            }
        },
        Term::App { left, right } => {
            let (nl, env1) = subst(env, param, *left, pattern, fv);
            let (nr, env2) = subst(env1, param, *right, pattern, fv);
            (Term::App { left: Box::new(nl), right: Box::new(nr) }, env2)
        },
    }
}

/// Substitution of `pattern` for `param` in `body`; each binder of `body` that
/// is free in `pattern` is first renamed to `name$counter`.
pub open spec fn apply_spec(env: Env, param: usize, body: Term, pattern: Term) -> (Term, Env)
    decreases body.size(), 1int,
{
    subst(env, param, body, pattern, free_vars(pattern))
}

/// Reduction to weak head normal form with at most `fuel` beta steps
/// chained: the left side of an application is reduced, and when it is a
/// lambda the right side, as it stands, is substituted into its body, which
/// is reduced in turn; otherwise the application is kept with its right side
/// untouched. `None` when the chain of steps is longer than `fuel`.
pub open spec fn reduce_spec(env: Env, t: Term, fuel: nat) -> Option<(Term, Env)>
    decreases fuel, t.size(),
{
    match t {
        Term::App { left, right } => match reduce_spec(env, *left, fuel) {
            None => None,
            Some((l, env1)) => match l {
                Term::Lambda { param, body } => {
                    if fuel == 0 {
                        None
                    } else {
                        let (t2, env2) = apply_spec(env1, param, *body, *right);
                        reduce_spec(env2, t2, (fuel - 1) as nat)
                    }
                },
                _ => Some((Term::App { left: Box::new(l), right }, env1)),
            },
        },
        _ => Some((t, env)),
    }
}

/// Normalisation with at most `fuel` levels of nesting: the term is reduced,
/// then the body of a lambda, or both sides of an application, are
/// normalised, and a lambda whose normalised body is an eta redex is
/// replaced by the applied term.
pub open spec fn normalize_spec(env: Env, t: Term, fuel: nat) -> Option<(Term, Env)>
    decreases fuel,
{
    if fuel == 0 {
        None
    } else {
        match reduce_spec(env, t, fuel) {
            None => None,
            Some((r, env1)) => match r {
                Term::Var(v) => Some((Term::Var(v), env1)),
                Term::Lambda { param, body } => match normalize_spec(
                    env1,
                    *body,
                    (fuel - 1) as nat,
                ) {
                    None => None,
                    Some((nb, env2)) => {
                        if is_eta_redex(param, nb) {
                            Some((*nb->left, env2))
                        } else {
                            Some((Term::Lambda { param, body: Box::new(nb) }, env2))
                        }
                    },
                },
                Term::App { left, right } => match normalize_spec(env1, *left, (fuel - 1) as nat) {
                    None => None,
                    Some((nl, env2)) => match normalize_spec(env2, *right, (fuel - 1) as nat) {
                        None => None,
                        Some((nr, env3)) => Some(
                            (Term::App { left: Box::new(nl), right: Box::new(nr) }, env3),
                        ),
                    },
                },
            },
        }
    }
}

/// The text of a term as the interpreter prints it; `paren` asks for
/// parentheses around a lambda or an application.
pub open spec fn format_spec(pool: Seq<Seq<char>>, t: Term, paren: bool) -> Seq<char>
    decreases t,
{
    match t {
        Term::Var(i) => pool[i as int],
        Term::Lambda { param, body } => {
            let inner = seq!['λ'] + pool[param as int] + seq!['.'] + format_spec(
                pool,
                *body,
                false,
            );
            if paren {
                seq!['('] + inner + seq![')']
            } else {
                inner
            }
        },
        Term::App { left, right } => {
            let inner = format_spec(pool, *left, true) + seq![' '] + format_spec(
                pool,
                *right,
                true,
            );
            if paren {
                seq!['('] + inner + seq![')']
            } else {
                inner
            }
        },
    }
}

/// Every variable free in `to` is free in `from`.
pub open spec fn frees_no_var(from: Term, to: Term) -> bool {
    forall|v: usize| #[trigger] occurs_free(to, v) ==> occurs_free(from, v)
}

/// Running code: the counter is reset, the code is parsed with the
/// interpreter's pool, and the term is reduced.
pub open spec fn run_spec(env: Env, cs: Seq<char>) -> Result<(Term, Env), ErrorView> {
    match parse_term_spec(cs, 0, env.pool) {
        Err((e, _)) => Err(e),
        Ok((t, _, pool)) => match reduce_spec(Env { pool, counter: 0 }, t, REDUCTION_LIMIT as nat) {
            Some((r, e)) => Ok((r, e)),
            None => Err(ErrorView::ReductionLimit),
        },
    }
}

/// Normalising a term, or the error when the limit is reached.
pub open spec fn normalize_result(env: Env, t: Term) -> Result<(Term, Env), ErrorView> {
    match normalize_spec(env, t, REDUCTION_LIMIT as nat) {
        Some((n, e)) => Ok((n, e)),
        None => Err(ErrorView::ReductionLimit),
    }
}

/// Running code, then normalising what it gives.
pub open spec fn eval_spec(env: Env, cs: Seq<char>) -> Result<(Term, Env), ErrorView> {
    match run_spec(env, cs) {
        Err(e) => Err(e),
        Ok((t, e)) => normalize_result(e, t),
    }
}

/// Evaluating two pieces of code one after the other, and comparing the
/// normal forms.
pub open spec fn is_equivalent_spec(env: Env, c1: Seq<char>, c2: Seq<char>) -> Result<
    (bool, Env),
    ErrorView,
> {
    match eval_spec(env, c1) {
        Err(e) => Err(e),
        Ok((n1, e1)) => match eval_spec(e1, c2) {
            Err(e) => Err(e),
            Ok((n2, e2)) => Ok((alpha_eq(n1, n2, Seq::empty()), e2)),
        },
    }
}

// ---------------------------------------------------------------------------
// Lemmas
// ---------------------------------------------------------------------------

/// A term whose names are below `n` has its names below any larger bound.
pub proof fn lemma_names_below_mono(t: Term, n: nat, m: nat)
    requires
        t.names_below(n),
        n <= m,
    ensures
        t.names_below(m),
    decreases t,
{
    match t {
        Term::Var(_) => {},
        Term::Lambda { body, .. } => lemma_names_below_mono(*body, n, m),
        Term::App { left, right } => {
            lemma_names_below_mono(*left, n, m);
            lemma_names_below_mono(*right, n, m);
        },
    }
}

/// A state that follows one that follows `a` follows `a`.
pub proof fn lemma_extends_trans(a: Env, b: Env, c: Env)
    requires
        extends(a, b),
        extends(b, c),
    ensures
        extends(a, c),
{
}

/// Fresh names made with different counter values are different strings,
/// whatever names they were made from: the part after the last `$` is the
/// counter.
pub proof fn lemma_fresh_names_differ(e1: Env, o1: usize, e2: Env, o2: usize)
    requires
        e1.counter != e2.counter,
    ensures
        fresh_name(e1, o1) != fresh_name(e2, o2),
{
    if fresh_name(e1, o1) == fresh_name(e2, o2) {
        lemma_fresh_suffix(
            e1.pool[o1 as int],
            e1.counter as nat,
            e2.pool[o2 as int],
            e2.counter as nat,
        );
    }
}

/// In a string `w$d`, where `d` is a decimal numeral, the numeral is fixed
/// by the string: it is what follows the last `$`.
pub proof fn lemma_fresh_suffix(w1: Seq<char>, c1: nat, w2: Seq<char>, c2: nat)
    requires
        w1 + seq!['$'] + decimal(c1) == w2 + seq!['$'] + decimal(c2),
    ensures
        c1 == c2,
{
    let d1 = decimal(c1);
    let d2 = decimal(c2);
    let s1 = w1 + seq!['$'] + d1;
    let s2 = w2 + seq!['$'] + d2;
    crate::text::lemma_decimal_no_dollar(c1);
    crate::text::lemma_decimal_no_dollar(c2);
    let len = s1.len() as int;
    assert(s1.len() == s2.len());
    if d1.len() < d2.len() {
        let k = len - d1.len() - 1;
        assert(s1[k] == '$');
        assert(s2[k] == d2[k - (len - d2.len())]);
        assert(false);
    } else if d2.len() < d1.len() {
        let k = len - d2.len() - 1;
        assert(s2[k] == '$');
        assert(s1[k] == d1[k - (len - d1.len())]);
        assert(false);
    } else {
        assert(d1 =~= s1.subrange(len - d1.len(), len));
        assert(d2 =~= s2.subrange(len - d2.len(), len));
        crate::text::lemma_decimal_injective(c1, c2);
    }
}

/// Renaming keeps a valid state valid and knows the fresh name.
pub proof fn lemma_rename(env: Env, origin: usize)
    requires
        env.valid(),
    ensures
        extends(env, rename_spec(env, origin).1),
        rename_spec(env, origin).1.pool.len() <= env.pool.len() + 1,
        rename_spec(env, origin).1.pool.len() <= usize::MAX ==> rename_spec(env, origin).0
            < rename_spec(env, origin).1.pool.len() && rename_spec(env, origin).1.pool[rename_spec(
            env,
            origin,
        ).0 as int] == fresh_name(env, origin),
{
    lemma_intern(env.pool, fresh_name(env, origin));
    let p = intern(env.pool, fresh_name(env, origin)).1;
    assert forall|i: int| 0 <= i < env.pool.len() implies p[i] == env.pool[i] by {
        assert(env.pool.is_prefix_of(p));
        assert(p.subrange(0, env.pool.len() as int)[i] == p[i]);
    }
}

/// Substitution keeps the state valid; substituting a variable keeps the size
/// of the body; when the names of the body and the pattern are known, so are
/// those of the result, as long as the pool fits in memory.
pub proof fn lemma_subst(env: Env, param: usize, body: Term, pattern: Term, fv: Set<usize>)
    requires
        env.valid(),
    ensures
        extends(env, subst(env, param, body, pattern, fv).1),
        pattern is Var ==> subst(env, param, body, pattern, fv).0.size() == body.size(),
        subst(env, param, body, pattern, fv).1.pool.len() <= usize::MAX && env.holds(body)
            && env.holds(pattern) ==> subst(env, param, body, pattern, fv).1.holds(
            subst(env, param, body, pattern, fv).0,
        ),
    decreases body.size(), 0int,
{
    match body {
        Term::Var(v) => {},
        Term::Lambda { param: bp, body: bb } => {
            if param != bp {
                if fv.contains(bp) {
                    let (nn, env1) = rename_spec(env, bp);
                    lemma_rename(env, bp);
                    lemma_apply(env1, bp, *bb, Term::Var(nn));
                    let (rb, env2) = apply_spec(env1, bp, *bb, Term::Var(nn));
                    lemma_subst(env2, param, rb, pattern, fv);
                    let (nb, env3) = subst(env2, param, rb, pattern, fv);
                    if env3.pool.len() <= usize::MAX && env.holds(body) && env.holds(pattern) {
                        lemma_names_below_mono(*bb, env.pool.len(), env1.pool.len());
                        lemma_names_below_mono(pattern, env.pool.len(), env2.pool.len());
                        assert(nn < env3.pool.len());
                    }
                } else {
                    lemma_subst(env, param, *bb, pattern, fv);
                }
            }
        },
        Term::App { left, right } => {
            lemma_subst(env, param, *left, pattern, fv);
            let (nl, env1) = subst(env, param, *left, pattern, fv);
            lemma_subst(env1, param, *right, pattern, fv);
            let (nr, env2) = subst(env1, param, *right, pattern, fv);
            if env2.pool.len() <= usize::MAX && env.holds(body) && env.holds(pattern) {
                lemma_names_below_mono(*right, env.pool.len(), env1.pool.len());
                lemma_names_below_mono(pattern, env.pool.len(), env1.pool.len());
                lemma_names_below_mono(nl, env1.pool.len(), env2.pool.len());
            }
        },
    }
}

/// [`lemma_subst`] for [`apply_spec`].
pub proof fn lemma_apply(env: Env, param: usize, body: Term, pattern: Term)
    requires
        env.valid(),
    ensures
        extends(env, apply_spec(env, param, body, pattern).1),
        pattern is Var ==> apply_spec(env, param, body, pattern).0.size() == body.size(),
        apply_spec(env, param, body, pattern).1.pool.len() <= usize::MAX && env.holds(body)
            && env.holds(pattern) ==> apply_spec(env, param, body, pattern).1.holds(
            apply_spec(env, param, body, pattern).0,
        ),
    decreases body.size(), 1int,
{
    lemma_subst(env, param, body, pattern, free_vars(pattern));
}

/// What reduction gives back is in weak head normal form and the state stays valid; when the
/// names of the term are known, so are those of the result, as long as the
/// pool fits in memory.
pub proof fn lemma_reduce(env: Env, t: Term, fuel: nat)
    requires
        env.valid(),
    ensures
        reduce_spec(env, t, fuel) matches Some((r, e)) ==> extends(env, e) && is_whnf(r) && (
        e.pool.len() <= usize::MAX && env.holds(t) ==> e.holds(r)),
    decreases fuel, t.size(),
{
    match t {
        Term::App { left, right } => {
            lemma_reduce(env, *left, fuel);
            match reduce_spec(env, *left, fuel) {
                None => {},
                Some((l, env1)) => {
                    match l {
                        Term::Lambda { param, body } => {
                            if fuel > 0 {
                                lemma_apply(env1, param, *body, *right);
                                let (t2, env2) = apply_spec(env1, param, *body, *right);
                                lemma_reduce(env2, t2, (fuel - 1) as nat);
                                match reduce_spec(env2, t2, (fuel - 1) as nat) {
                                    None => {},
                                    Some((r3, env3)) => {
                                        if env3.pool.len() <= usize::MAX && env.holds(t) {
                                            lemma_names_below_mono(
                                                *right,
                                                env.pool.len(),
                                                env1.pool.len(),
                                            );
                                        }
                                    },
                                }
                            }
                        },
                        _ => {
                            if env1.pool.len() <= usize::MAX && env.holds(t) {
                                lemma_names_below_mono(*right, env.pool.len(), env1.pool.len());
                            }
                        },
                    }
                },
            }
        },
        _ => {},
    }
}

/// A term in weak head normal form reduces to itself, whatever the fuel, and leaves the state
/// as it was.
pub proof fn lemma_reduce_whnf(env: Env, t: Term, fuel: nat)
    requires
        is_whnf(t),
    ensures
        reduce_spec(env, t, fuel) == Some((t, env)),
    decreases t,
{
    match t {
        Term::App { left, right } => {
            lemma_reduce_whnf(env, *left, fuel);
        },
        _ => {},
    }
}

/// A term in normal form is in weak head normal form.
pub proof fn lemma_normal_is_whnf(t: Term)
    requires
        is_normal(t),
    ensures
        is_whnf(t),
    decreases t,
{
    match t {
        Term::App { left, right } => {
            lemma_normal_is_whnf(*left);
        },
        _ => {},
    }
}

/// What normalisation gives back is in normal form and the state stays
/// valid; when the names of the term are known, so are those of the result,
/// as long as the pool fits in memory.
pub proof fn lemma_normalize(env: Env, t: Term, fuel: nat)
    requires
        env.valid(),
    ensures
        normalize_spec(env, t, fuel) matches Some((r, e)) ==> extends(env, e) && is_normal(r) && (
        e.pool.len() <= usize::MAX && env.holds(t) ==> e.holds(r)),
    decreases fuel,
{
    if fuel > 0 {
        lemma_reduce(env, t, fuel);
        match reduce_spec(env, t, fuel) {
            None => {},
            Some((r, env1)) => match r {
                Term::Var(v) => {},
                Term::Lambda { param, body } => {
                    lemma_normalize(env1, *body, (fuel - 1) as nat);
                },
                Term::App { left, right } => {
                    lemma_normalize(env1, *left, (fuel - 1) as nat);
                    match normalize_spec(env1, *left, (fuel - 1) as nat) {
                        None => {},
                        Some((nl, env2)) => {
                            lemma_normalize(env2, *right, (fuel - 1) as nat);
                            lemma_reduce_whnf(env1, *left, (fuel - 1) as nat);
                            match normalize_spec(env2, *right, (fuel - 1) as nat) {
                                None => {},
                                Some((nr, env3)) => {
                                    if env3.pool.len() <= usize::MAX && env.holds(t) {
                                        lemma_names_below_mono(
                                            *right,
                                            env1.pool.len(),
                                            env2.pool.len(),
                                        );
                                        lemma_names_below_mono(
                                            nl,
                                            env2.pool.len(),
                                            env3.pool.len(),
                                        );
                                    }
                                },
                            }
                        },
                    }
                },
            },
        }
    }
}

/// What normalisation gives back holds no beta redex and no eta redex
/// anywhere: no lambda applied to an argument, and no `λx.M x` with `x` not
/// free in `M`, whatever the term `M`.
pub proof fn lemma_normalize_no_redex(env: Env, t: Term, fuel: nat, s: Term)
    requires
        env.valid(),
        normalize_spec(env, t, fuel) matches Some((n, _)) && is_subterm(s, n),
    ensures
        !beta_redex(s),
        !eta_redex(s),
{
    lemma_normalize(env, t, fuel);
    let (n, _) = normalize_spec(env, t, fuel).unwrap();
    lemma_normal_has_no_redex(n, s);
}

/// Textbook substitution of `n` for the free occurrences of `x` in `b`,
/// with no renaming: it is capture-free when no binder of `b` is free in `n`.
pub open spec fn plain_subst(b: Term, x: usize, n: Term) -> Term
    decreases b,
{
    match b {
        Term::Var(v) => if v == x {
            n
        } else {
            b
        },
        Term::Lambda { param, body } => if param == x {
            b
        } else {
            Term::Lambda { param, body: Box::new(plain_subst(*body, x, n)) }
        },
        Term::App { left, right } => Term::App {
            left: Box::new(plain_subst(*left, x, n)),
            right: Box::new(plain_subst(*right, x, n)),
        },
    }
}

/// No binder of `b` is in `s`.
pub open spec fn binders_avoid(b: Term, s: Set<usize>) -> bool
    decreases b,
{
    match b {
        Term::Var(_) => true,
        Term::Lambda { param, body } => !s.contains(param) && binders_avoid(*body, s),
        Term::App { left, right } => binders_avoid(*left, s) && binders_avoid(*right, s),
    }
}

/// When no binder of the body is free in the pattern, substitution renames
/// nothing: it is the textbook substitution and leaves the state unchanged.
pub proof fn lemma_subst_plain(env: Env, x: usize, b: Term, n: Term)
    requires
        binders_avoid(b, free_vars(n)),
    ensures
        subst(env, x, b, n, free_vars(n)) == (plain_subst(b, x, n), env),
    decreases b,
{
    match b {
        Term::Var(_) => {},
        Term::Lambda { param, body } => {
            lemma_subst_plain(env, x, *body, n);
        },
        Term::App { left, right } => {
            lemma_subst_plain(env, x, *left, n);
            lemma_subst_plain(env, x, *right, n);
        },
    }
}

/// The free variables of a capture-free substitution: those of the body other
/// than `x`, and, when `x` occurs free in the body, those of `n`.
pub proof fn lemma_plain_subst_free(b: Term, x: usize, n: Term, v: usize)
    requires
        binders_avoid(b, free_vars(n)),
    ensures
        occurs_free(plain_subst(b, x, n), v) <==> (occurs_free(b, v) && v != x) || (occurs_free(
            b,
            x,
        ) && occurs_free(n, v)),
    decreases b,
{
    match b {
        Term::Var(_) => {},
        Term::Lambda { param, body } => {
            lemma_plain_subst_free(*body, x, n, v);
            if occurs_free(n, v) {
                assert(free_vars(n).contains(v));
            }
        },
        Term::App { left, right } => {
            lemma_plain_subst_free(*left, x, n, v);
            lemma_plain_subst_free(*right, x, n, v);
        },
    }
}

/// `s` has the shape of a name that renaming makes once the counter has
/// reached `c`: some text, `$`, and a numeral of at least `c`.
pub open spec fn fresh_form(s: Seq<char>, c: nat) -> bool {
    exists|w: Seq<char>, k: nat| k >= c && s == w + seq!['$'] + decimal(k)
}

/// Every name that occurs in `t` is known to the state and is not of the
/// shape of a name that renaming can still make.
pub open spec fn names_fresh(env: Env, t: Term) -> bool {
    forall|i: usize|
        #[trigger] occurs_anywhere(t, i) ==> i < env.pool.len() && !fresh_form(
            env.pool[i as int],
            env.counter as nat,
        )
}

proof fn lemma_fresh_form_mono(s: Seq<char>, c: nat, c2: nat)
    requires
        c <= c2,
        fresh_form(s, c2),
    ensures
        fresh_form(s, c),
{
    let (w, k) = choose|w: Seq<char>, k: nat| k >= c2 && s == w + seq!['$'] + decimal(k);
    assert(k >= c && s == w + seq!['$'] + decimal(k));
}

proof fn lemma_occurs_free_anywhere(t: Term, v: usize)
    requires
        occurs_free(t, v),
    ensures
        occurs_anywhere(t, v),
    decreases t,
{
    match t {
        Term::Var(_) => {},
        Term::Lambda { body, .. } => lemma_occurs_free_anywhere(*body, v),
        Term::App { left, right } => {
            if occurs_free(*left, v) {
                lemma_occurs_free_anywhere(*left, v);
            } else {
                lemma_occurs_free_anywhere(*right, v);
            }
        },
    }
}

proof fn lemma_rename_var_occurs(b: Term, x: usize, y: usize, i: usize)
    ensures
        occurs_anywhere(plain_subst(b, x, Term::Var(y)), i) ==> occurs_anywhere(b, i) || i == y,
        plain_subst(b, x, Term::Var(y)).size() == b.size(),
    decreases b,
{
    match b {
        Term::Var(_) => {},
        Term::Lambda { body, .. } => lemma_rename_var_occurs(*body, x, y, i),
        Term::App { left, right } => {
            lemma_rename_var_occurs(*left, x, y, i);
            lemma_rename_var_occurs(*right, x, y, i);
        },
    }
}

proof fn lemma_avoid_absent(b: Term, y: usize)
    requires
        !occurs_anywhere(b, y),
    ensures
        binders_avoid(b, free_vars(Term::Var(y))),
    decreases b,
{
    match b {
        Term::Var(_) => {},
        Term::Lambda { param, body } => {
            assert(!free_vars(Term::Var(y)).contains(param));
            lemma_avoid_absent(*body, y);
        },
        Term::App { left, right } => {
            lemma_avoid_absent(*left, y);
            lemma_avoid_absent(*right, y);
        },
    }
}

proof fn lemma_names_fresh_later(e1: Env, e2: Env, t: Term)
    requires
        names_fresh(e1, t),
        extends(e1, e2),
        e1.counter <= e2.counter,
    ensures
        names_fresh(e2, t),
{
    assert forall|i: usize| #[trigger] occurs_anywhere(t, i) implies i < e2.pool.len() && !fresh_form(
        e2.pool[i as int],
        e2.counter as nat,
    ) by {
        if fresh_form(e2.pool[i as int], e2.counter as nat) {
            lemma_fresh_form_mono(e2.pool[i as int], e1.counter as nat, e2.counter as nat);
        }
    }
}

/// Substitution captures nothing: when the parameter occurs free in the body,
/// every variable free in the pattern is free in the result. This holds as
/// long as the names that renaming makes are new: no name in the body, the
/// pattern or the parameter has the shape `text$k` with `k` at or above the
/// counter, and the counter does not wrap. Renaming only moves the counter
/// forward, by at most the size of the body.
pub proof fn lemma_subst_captures_nothing(env: Env, param: usize, body: Term, pattern: Term)
    requires
        env.valid(),
        names_fresh(env, body),
        names_fresh(env, pattern),
        names_fresh(env, Term::Var(param)),
        env.counter + body.size() <= usize::MAX,
        subst(env, param, body, pattern, free_vars(pattern)).1.pool.len() <= usize::MAX,
    ensures
        env.counter <= subst(env, param, body, pattern, free_vars(pattern)).1.counter <= env.counter
            + body.size(),
        forall|v: usize|
            occurs_free(body, param) && occurs_free(pattern, v) ==> #[trigger] occurs_free(
                subst(env, param, body, pattern, free_vars(pattern)).0,
                v,
            ),
    decreases body.size(),
{
    let fv = free_vars(pattern);
    assert(occurs_anywhere(Term::Var(param), param));
    match body {
        Term::Var(_) => {
            assert forall|v: usize|
                occurs_free(body, param) && occurs_free(pattern, v) implies #[trigger] occurs_free(
                subst(env, param, body, pattern, fv).0,
                v,
            ) by {}
        },
        Term::Lambda { param: bp, body: bb } => {
            if param != bp {
                if fv.contains(bp) {
                    let c = env.counter;
                    let (nn, env1) = rename_spec(env, bp);
                    lemma_rename(env, bp);
                    assert(occurs_anywhere(body, bp));
                    lemma_subst(env, param, body, pattern, fv);
                    lemma_apply(env1, bp, *bb, Term::Var(nn));
                    let (rb, env2) = apply_spec(env1, bp, *bb, Term::Var(nn));
                    lemma_subst(env2, param, rb, pattern, fv);
                    assert(env1.pool.len() <= usize::MAX);
                    let w0 = env.pool[bp as int];
                    assert(env1.pool[nn as int] == w0 + seq!['$'] + decimal(c as nat));
                    assert(fresh_form(env1.pool[nn as int], c as nat));
                    // nn is a name that occurs nowhere yet
                    assert forall|i: usize|
                        occurs_anywhere(body, i) || occurs_anywhere(pattern, i) || i
                            == param implies i != nn by {
                        if occurs_anywhere(pattern, i) {
                        } else if i == param {
                        } else {
                            assert(occurs_anywhere(body, i));
                        }
                        assert(env1.pool[i as int] == env.pool[i as int]);
                    }
                    assert(!occurs_anywhere(*bb, nn)) by {
                        if occurs_anywhere(*bb, nn) {
                            assert(occurs_anywhere(body, nn));
                        }
                    }
                    lemma_avoid_absent(*bb, nn);
                    lemma_subst_plain(env1, bp, *bb, Term::Var(nn));
                    assert(rb == plain_subst(*bb, bp, Term::Var(nn)));
                    assert(env2 == env1);
                    assert(c < usize::MAX);
                    assert(env1.counter == c + 1);
                    // the renamed body, the pattern and the parameter stay fresh
                    assert(names_fresh(env1, rb)) by {
                        assert forall|i: usize| #[trigger] occurs_anywhere(rb, i) implies i
                            < env1.pool.len() && !fresh_form(
                            env1.pool[i as int],
                            env1.counter as nat,
                        ) by {
                            lemma_rename_var_occurs(*bb, bp, nn, i);
                            if i == nn {
                                if fresh_form(env1.pool[i as int], env1.counter as nat) {
                                    let (w, k) = choose|w: Seq<char>, k: nat|
                                        k >= env1.counter && env1.pool[i as int] == w + seq!['$']
                                            + decimal(k);
                                    lemma_fresh_suffix(w0, c as nat, w, k);
                                }
                            } else {
                                assert(occurs_anywhere(body, i));
                                assert(env1.pool[i as int] == env.pool[i as int]);
                                if fresh_form(env1.pool[i as int], env1.counter as nat) {
                                    lemma_fresh_form_mono(
                                        env1.pool[i as int],
                                        c as nat,
                                        env1.counter as nat,
                                    );
                                }
                            }
                        }
                    }
                    lemma_names_fresh_later(env, env1, pattern);
                    lemma_names_fresh_later(env, env1, Term::Var(param));
                    lemma_rename_var_occurs(*bb, bp, nn, 0);
                    lemma_subst_captures_nothing(env1, param, rb, pattern);
                    let (nb, env3) = subst(env1, param, rb, pattern, fv);
                    assert forall|v: usize|
                        occurs_free(body, param) && occurs_free(pattern, v) implies #[trigger] occurs_free(
                        subst(env, param, body, pattern, fv).0,
                        v,
                    ) by {
                        lemma_avoid_absent(*bb, nn);
                        lemma_plain_subst_free(*bb, bp, Term::Var(nn), param);
                        assert(occurs_free(rb, param));
                        lemma_occurs_free_anywhere(pattern, v);
                        assert(v != nn);
                        assert(occurs_free(nb, v));
                        assert(rb.size() == bb.size());
                        assert(subst(env, param, body, pattern, fv).0 == Term::Lambda {
                            param: nn,
                            body: Box::new(nb),
                        });
                    }
                } else {
                    lemma_names_fresh_sub(env, body, *bb);
                    lemma_subst_captures_nothing(env, param, *bb, pattern);
                    assert forall|v: usize|
                        occurs_free(body, param) && occurs_free(pattern, v) implies #[trigger] occurs_free(
                        subst(env, param, body, pattern, fv).0,
                        v,
                    ) by {
                        assert(fv.contains(v));
                        assert(occurs_free(*bb, param));
                        assert(occurs_free(subst(env, param, *bb, pattern, fv).0, v));
                    }
                }
            }
        },
        Term::App { left, right } => {
            lemma_subst(env, param, *left, pattern, fv);
            let (nl, env1) = subst(env, param, *left, pattern, fv);
            lemma_subst(env1, param, *right, pattern, fv);
            lemma_names_fresh_sub(env, body, *left);
            lemma_names_fresh_sub(env, body, *right);
            lemma_subst_captures_nothing(env, param, *left, pattern);
            lemma_names_fresh_later(env, env1, *right);
            lemma_names_fresh_later(env, env1, pattern);
            lemma_names_fresh_later(env, env1, Term::Var(param));
            lemma_subst_captures_nothing(env1, param, *right, pattern);
            assert forall|v: usize|
                occurs_free(body, param) && occurs_free(pattern, v) implies #[trigger] occurs_free(
                subst(env, param, body, pattern, fv).0,
                v,
            ) by {
                if occurs_free(*left, param) {
                    assert(occurs_free(nl, v));
                } else {
                    assert(occurs_free(subst(env1, param, *right, pattern, fv).0, v));
                }
            }
        },
    }
}

proof fn lemma_names_fresh_sub(env: Env, t: Term, sub: Term)
    requires
        names_fresh(env, t),
        forall|i: usize| occurs_anywhere(sub, i) ==> occurs_anywhere(t, i),
    ensures
        names_fresh(env, sub),
{
    assert forall|i: usize| #[trigger] occurs_anywhere(sub, i) implies i < env.pool.len()
        && !fresh_form(env.pool[i as int], env.counter as nat) by {
        assert(occurs_anywhere(t, i));
    }
}

/// [`lemma_subst_captures_nothing`] for [`apply_spec`], the substitution that
/// reduction performs.
pub proof fn lemma_apply_captures_nothing(env: Env, param: usize, body: Term, pattern: Term, v: usize)
    requires
        env.valid(),
        names_fresh(env, body),
        names_fresh(env, pattern),
        names_fresh(env, Term::Var(param)),
        env.counter + body.size() <= usize::MAX,
        apply_spec(env, param, body, pattern).1.pool.len() <= usize::MAX,
        occurs_free(body, param),
        occurs_free(pattern, v),
    ensures
        occurs_free(apply_spec(env, param, body, pattern).0, v),
{
    lemma_subst_captures_nothing(env, param, body, pattern);
}

/// Reducing what reduction gave back changes neither the term nor the state.
pub proof fn lemma_reduce_idempotent(env: Env, t: Term, fuel: nat, fuel2: nat)
    requires
        env.valid(),
    ensures
        reduce_spec(env, t, fuel) matches Some((r, e)) ==> reduce_spec(e, r, fuel2) == Some((r, e)),
{
    lemma_reduce(env, t, fuel);
    match reduce_spec(env, t, fuel) {
        Some((r, e)) => lemma_reduce_whnf(e, r, fuel2),
        None => {},
    }
}

/// A term in normal form normalises to itself and leaves the state as it
/// was, given fuel beyond its size.
pub proof fn lemma_normal_fixed(env: Env, t: Term, fuel: nat)
    requires
        is_normal(t),
        fuel > t.size(),
    ensures
        normalize_spec(env, t, fuel) == Some((t, env)),
    decreases t,
{
    lemma_normal_is_whnf(t);
    lemma_reduce_whnf(env, t, fuel);
    match t {
        Term::Var(_) => {},
        Term::Lambda { param, body } => {
            lemma_normal_fixed(env, *body, (fuel - 1) as nat);
        },
        Term::App { left, right } => {
            lemma_normal_fixed(env, *left, (fuel - 1) as nat);
            lemma_normal_fixed(env, *right, (fuel - 1) as nat);
        },
    }
}

/// Normalising what normalisation gave back changes neither the term nor the
/// state, given fuel beyond its size.
pub proof fn lemma_normalize_idempotent(env: Env, t: Term, fuel: nat, fuel2: nat)
    requires
        env.valid(),
    ensures
        normalize_spec(env, t, fuel) matches Some((n, e)) ==> (fuel2 > n.size() ==> normalize_spec(
            e,
            n,
            fuel2,
        ) == Some((n, e))),
{
    lemma_normalize(env, t, fuel);
    match normalize_spec(env, t, fuel) {
        Some((n, e)) => {
            if fuel2 > n.size() {
                lemma_normal_fixed(e, n, fuel2);
            }
        },
        None => {},
    }
}

/// No variable becomes free by substitution: a variable free in the result
/// is free in the body and is not the substituted one, or is free in the
/// pattern. Renaming a binder never frees a variable, whatever name it picks.
pub proof fn lemma_subst_free(env: Env, param: usize, body: Term, pattern: Term, v: usize)
    requires
        env.valid(),
    ensures
        occurs_free(subst(env, param, body, pattern, free_vars(pattern)).0, v) ==> (occurs_free(
            body,
            v,
        ) && v != param) || occurs_free(pattern, v),
    decreases body.size(), 0int,
{
    let fv = free_vars(pattern);
    match body {
        Term::Var(_) => {},
        Term::Lambda { param: bp, body: bb } => {
            if param != bp {
                if fv.contains(bp) {
                    let (nn, env1) = rename_spec(env, bp);
                    lemma_rename(env, bp);
                    lemma_apply(env1, bp, *bb, Term::Var(nn));
                    lemma_apply_free(env1, bp, *bb, Term::Var(nn), v);
                    let (rb, env2) = apply_spec(env1, bp, *bb, Term::Var(nn));
                    lemma_subst_free(env2, param, rb, pattern, v);
                } else {
                    lemma_subst_free(env, param, *bb, pattern, v);
                }
            }
        },
        Term::App { left, right } => {
            lemma_subst(env, param, *left, pattern, fv);
            lemma_subst_free(env, param, *left, pattern, v);
            let (nl, env1) = subst(env, param, *left, pattern, fv);
            lemma_subst_free(env1, param, *right, pattern, v);
        },
    }
}

/// [`lemma_subst_free`] for [`apply_spec`].
pub proof fn lemma_apply_free(env: Env, param: usize, body: Term, pattern: Term, v: usize)
    requires
        env.valid(),
    ensures
        occurs_free(apply_spec(env, param, body, pattern).0, v) ==> (occurs_free(body, v) && v
            != param) || occurs_free(pattern, v),
    decreases body.size(), 1int,
{
    lemma_subst_free(env, param, body, pattern, v);
}

/// Reduction frees no variable: a variable free in the result is free in the
/// term.
pub proof fn lemma_reduce_free(env: Env, t: Term, fuel: nat, v: usize)
    requires
        env.valid(),
    ensures
        reduce_spec(env, t, fuel) matches Some((r, e)) ==> (occurs_free(r, v) ==> occurs_free(
            t,
            v,
        )),
    decreases fuel, t.size(),
{
    match t {
        Term::App { left, right } => {
            lemma_reduce(env, *left, fuel);
            lemma_reduce_free(env, *left, fuel, v);
            match reduce_spec(env, *left, fuel) {
                None => {},
                Some((l, env1)) => {
                    match l {
                        Term::Lambda { param, body } => {
                            if fuel > 0 {
                                lemma_apply(env1, param, *body, *right);
                                lemma_apply_free(env1, param, *body, *right, v);
                                let (t2, env2) = apply_spec(env1, param, *body, *right);
                                lemma_reduce_free(env2, t2, (fuel - 1) as nat, v);
                            }
                        },
                        _ => {},
                    }
                },
            }
        },
        _ => {},
    }
}

/// Normalisation frees no variable: a variable free in the normal form is
/// free in the term. In particular a closed term normalises to a closed term.
pub proof fn lemma_normalize_free(env: Env, t: Term, fuel: nat, v: usize)
    requires
        env.valid(),
    ensures
        normalize_spec(env, t, fuel) matches Some((n, e)) ==> (occurs_free(n, v) ==> occurs_free(
            t,
            v,
        )),
    decreases fuel,
{
    if fuel > 0 {
        lemma_reduce(env, t, fuel);
        lemma_reduce_free(env, t, fuel, v);
        match reduce_spec(env, t, fuel) {
            None => {},
            Some((r, env1)) => match r {
                Term::Var(_) => {},
                Term::Lambda { param, body } => {
                    lemma_normalize_free(env1, *body, (fuel - 1) as nat, v);
                },
                Term::App { left, right } => {
                    lemma_normalize(env1, *left, (fuel - 1) as nat);
                    lemma_normalize_free(env1, *left, (fuel - 1) as nat, v);
                    match normalize_spec(env1, *left, (fuel - 1) as nat) {
                        None => {},
                        Some((nl, env2)) => {
                            lemma_normalize_free(env2, *right, (fuel - 1) as nat, v);
                        },
                    }
                },
            },
        }
    }
}

/// The free-variable set holds exactly the variables that occur free.
pub proof fn lemma_free_vars_exact(t: Term, v: usize)
    ensures
        free_vars(t).contains(v) <==> occurs_free(t, v),
{
}

// ---------------------------------------------------------------------------
// The interpreter
// ---------------------------------------------------------------------------

/// A lambda-calculus interpreter: the pool of the names it has met, and the
/// counter from which it makes fresh names.
#[derive(Debug, Clone)]
pub struct Interpreter {
    string_pool: StringPool,
    rename_counter: usize,
}

impl View for Interpreter {
    type V = Env;

    closed spec fn view(&self) -> Env {
        Env { pool: self.string_pool@, counter: self.rename_counter }
    }
}

impl Interpreter {
    /// The interpreter's own invariant: its pool holds no name twice.
    pub open spec fn wf(&self) -> bool {
        self@.valid()
    }

    proof fn lemma_view(&self)
        ensures
            self@.pool == self.string_pool@,
            self@.counter == self.rename_counter,
            self.wf() == self.string_pool.wf(),
            self@.pool.len() <= usize::MAX,
    {
        self.string_pool.lemma_len_bound();
    }

    /// The interpreter's pool holds at most `usize::MAX` names: it is a
    /// vector in memory.
    pub proof fn lemma_pool_fits(&self)
        ensures
            self@.pool.len() <= usize::MAX,
    {
        self.lemma_view();
    }

    pub fn new() -> (res: Self)
        ensures
            res@ == (Env { pool: Seq::empty(), counter: 0 }),
            res.wf(),
    {
        Self { string_pool: StringPool::new(), rename_counter: 0 }
    }

    /// The variables that occur free in `term`.
    fn free_vars(&self, term: &Term) -> (res: HashSet<usize>)
        ensures
            res@ == free_vars(*term),
    {
        let mut vars: HashSet<usize> = HashSet::new();
        let mut bound: Vec<usize> = Vec::new();
        self.free_vars_impl(term, &mut bound, &mut vars);
        proof {
            assert(vars@ =~= free_vars(*term));
        }
        vars
    }

    /// Adds to `vars` the variables that occur free in `term` and are not
    /// bound by the enclosing binders `bound`.
    fn free_vars_impl(&self, term: &Term, bound: &mut Vec<usize>, vars: &mut HashSet<usize>)
        ensures
            final(bound)@ == old(bound)@,
            final(vars)@ == old(vars)@.union(
                Set::new(|v: usize| occurs_free(*term, v) && !old(bound)@.contains(v)),
            ),
        decreases term,
    {
        match term {
            Term::Var(var_idx) => {
                if !Self::binds(bound, *var_idx) {
                    vars.insert(*var_idx);
                }
                proof {
                    assert(final(vars)@ =~= old(vars)@.union(
                        Set::new(|v: usize| occurs_free(*term, v) && !old(bound)@.contains(v)),
                    ));
                }
            },
            Term::Lambda { param, body } => {
                bound.push(*param);
                self.free_vars_impl(body, bound, vars);
                bound.pop();
                proof {
                    let b0 = old(bound)@;
                    let b1 = b0.push(*param);
                    assert(bound@ =~= b0);
                    assert forall|v: usize| #[trigger] b1.contains(v) <==> (b0.contains(v) || v
                        == *param) by {
                        if b0.contains(v) {
                            let k = choose|k: int| 0 <= k < b0.len() && b0[k] == v;
                            assert(b1[k] == v);
                        }
                        if v == *param {
                            assert(b1[b0.len() as int] == v);
                        }
                        if b1.contains(v) && v != *param {
                            let k = choose|k: int| 0 <= k < b1.len() && b1[k] == v;
                            assert(b0[k] == v);
                        }
                    }
                    assert(final(vars)@ =~= old(vars)@.union(
                        Set::new(|v: usize| occurs_free(*term, v) && !old(bound)@.contains(v)),
                    ));
                }
            },
            Term::App { left, right } => {
                self.free_vars_impl(left, bound, vars);
                self.free_vars_impl(right, bound, vars);
                proof {
                    assert(final(vars)@ =~= old(vars)@.union(
                        Set::new(|v: usize| occurs_free(*term, v) && !old(bound)@.contains(v)),
                    ));
                }
            },
        }
    }

    /// Whether `v` is among the enclosing binders.
    fn binds(bound: &Vec<usize>, v: usize) -> (res: bool)
        ensures
            res == bound@.contains(v),
    {
        let n = bound.len();
        let mut i: usize = 0;
        while i < n
            invariant
                n == bound@.len(),
                i <= n,
                forall|j: int| 0 <= j < i ==> bound@[j] != v,
            decreases n - i,
        {
            if bound[i] == v {
                proof {
                    assert(bound@[i as int] == v);
                }
                return true;
            }
            i = i + 1;
        }
        false
    }

    /// Gives `origin` a fresh name: its own name, `$` and the renaming counter.
    fn rename(&mut self, origin: usize) -> (res: usize)
        requires
            old(self).wf(),
            origin < old(self)@.pool.len(),
        ensures
            (res, final(self)@) == rename_spec(old(self)@, origin),
            final(self).wf(),
            extends(old(self)@, final(self)@),
            res < final(self)@.pool.len(),
    {
        let mut new_name = String::new();
        new_name.append(self.string_pool.get_str(origin));
        push_char(&mut new_name, '$');
        push_decimal(&mut new_name, self.rename_counter);
        proof {
            assert(new_name@ =~= fresh_name(old(self)@, origin));
        }
        self.rename_counter = self.rename_counter.wrapping_add(1);
        let res = self.string_pool.get_index(new_name.as_str());
        proof {
            lemma_rename(old(self)@, origin);
            self.lemma_view();
        }
        res
    }

    /// Substitutes `pattern` for `param` in `body`, avoiding capture.
    fn apply(&mut self, param: usize, body: Term, pattern: &Term) -> (res: Term)
        requires
            old(self).wf(),
            old(self)@.holds(body),
            old(self)@.holds(*pattern),
        ensures
            (res, final(self)@) == apply_spec(old(self)@, param, body, *pattern),
            final(self).wf(),
            extends(old(self)@, final(self)@),
            final(self)@.holds(res),
        decreases body.size(), 1int,
    {
        let free_vars = self.free_vars(pattern);
        proof {
            lemma_apply(self@, param, body, *pattern);
        }
        self.apply_impl(param, body, pattern, &free_vars)
    }

    fn apply_impl(&mut self, param: usize, body: Term, pattern: &Term, free_vars: &HashSet<usize>) -> (res: Term)
        requires
            old(self).wf(),
            old(self)@.holds(body),
            old(self)@.holds(*pattern),
        ensures
            (res, final(self)@) == subst(old(self)@, param, body, *pattern, free_vars@),
            final(self).wf(),
            extends(old(self)@, final(self)@),
            final(self)@.holds(res),
        decreases body.size(), 0int,
    {
        proof {
            lemma_subst(self@, param, body, *pattern, free_vars@);
            self.lemma_view();
        }
        let ghost env0 = self@;
        match body {
            Term::Var(var_idx) => {
                if var_idx == param {
                    pattern.clone()
                } else {
                    Term::Var(var_idx)
                }
            },
            Term::Lambda { param: body_param, body: body_body } => {
                if param != body_param {
                    if free_vars.contains(&body_param) {
                        let new_name = self.rename(body_param);
                        proof {
                            lemma_rename(env0, body_param);
                            self.lemma_view();
                            lemma_names_below_mono(*body_body, env0.pool.len(), self@.pool.len());
                        }
                        let ghost env1 = self@;
                        let renamed_body = self.apply(body_param, *body_body, &Term::Var(new_name));
                        proof {
                            lemma_apply(env1, body_param, *body_body, Term::Var(new_name));
                            self.lemma_view();
                            lemma_names_below_mono(*pattern, env0.pool.len(), self@.pool.len());
                        }
                        let new_body = self.apply_impl(param, renamed_body, pattern, free_vars);
                        proof {
                            self.lemma_view();
                        }
                        Term::Lambda { param: new_name, body: Box::new(new_body) }
                    } else {
                        let new_body = self.apply_impl(param, *body_body, pattern, free_vars);
                        Term::Lambda { param: body_param, body: Box::new(new_body) }
                    }
                } else {
                    Term::Lambda { param: body_param, body: body_body }
                }
            },
            Term::App { left, right } => {
                proof {
                    lemma_subst(env0, param, *left, *pattern, free_vars@);
                }
                let new_left = self.apply_impl(param, *left, pattern, free_vars);
                proof {
                    self.lemma_view();
                    lemma_names_below_mono(*right, env0.pool.len(), self@.pool.len());
                    lemma_names_below_mono(*pattern, env0.pool.len(), self@.pool.len());
                }
                let ghost env1 = self@;
                proof {
                    lemma_subst(env1, param, *right, *pattern, free_vars@);
                }
                let new_right = self.apply_impl(param, *right, pattern, free_vars);
                proof {
                    self.lemma_view();
                    lemma_names_below_mono(new_left, env1.pool.len(), self@.pool.len());
                }
                Term::App { left: Box::new(new_left), right: Box::new(new_right) }
            },
        }
    }

    /// Parses `code` and reduces it to weak head normal form: the head of the
    /// term is reduced, an applied lambda takes its argument unevaluated, and
    /// neither the arguments of a variable head nor anything under a lambda
    /// is reduced. The renaming counter starts again from zero.
    pub fn run(&mut self, code: &str) -> (res: Result<Term, InterpreterError>)
        requires
            old(self).wf(),
        ensures
            final(self).wf(),
            match run_spec(old(self)@, code@) {
                Ok((t, e)) => res == Ok::<Term, InterpreterError>(t) && final(self)@ == e,
                Err(e) => res matches Err(x) && x@ == e,
            },
            parse_term_spec(code@, 0, old(self)@.pool) matches Err((_, p)) ==> final(self)@ == (
            Env { pool: p, counter: 0 }),
            res matches Ok(t) ==> final(self)@.holds(t) && is_whnf(t),
            res matches Ok(t) ==> parse_term_spec(code@, 0, old(self)@.pool) is Ok && frees_no_var(
                parse_term_spec(code@, 0, old(self)@.pool)->Ok_0.0,
                t,
            ),
    {
        self.rename_counter = 0;
        let mut parser = Parser::new(code);
        let term = match parser.parse_term(&mut self.string_pool) {
            Ok(t) => t,
            Err(e) => return Err(e),
        };
        proof {
            self.lemma_view();
        }
        let ghost env1 = self@;
        let ghost t0 = term;
        proof {
            match reduce_spec(env1, t0, REDUCTION_LIMIT as nat) {
                Some((r, e)) => {
                    assert forall|v: usize| #[trigger] occurs_free(r, v) implies occurs_free(t0, v) by {
                        lemma_reduce_free(env1, t0, REDUCTION_LIMIT as nat, v);
                    }
                },
                None => {},
            }
        }
        match self.reduce(term, REDUCTION_LIMIT) {
            Some(t) => Ok(t),
            None => Err(InterpreterError::ReductionLimit),
        }
    }

    /// Reduces `term` to weak head normal form with at most `fuel` chained
    /// beta steps.
    fn reduce(&mut self, term: Term, fuel: u64) -> (res: Option<Term>)
        requires
            old(self).wf(),
            old(self)@.holds(term),
        ensures
            match reduce_spec(old(self)@, term, fuel as nat) {
                Some((t, e)) => res == Some(t) && final(self)@ == e,
                None => res is None,
            },
            final(self).wf(),
            extends(old(self)@, final(self)@),
            res matches Some(t) ==> final(self)@.holds(t) && is_whnf(t),
        decreases fuel, term.size(),
    {
        proof {
            lemma_reduce(self@, term, fuel as nat);
        }
        let ghost env0 = self@;
        let ghost term0 = term;
        let mut cur = term;
        let mut f = fuel;
        #[verifier::loop_isolation(false)]
        loop
            invariant
                self.wf(),
                self@.holds(cur),
                extends(env0, self@),
                reduce_spec(self@, cur, f as nat) == reduce_spec(env0, term0, fuel as nat),
                f <= fuel,
                f < fuel || cur == term0,
                env0.valid(),
                env0.holds(term0),
                reduce_spec(env0, term0, fuel as nat) matches Some((r, e)) ==> extends(env0, e)
                    && is_whnf(r) && (e.pool.len() <= usize::MAX ==> e.holds(r)),
            decreases f,
        {
            match cur {
                Term::App { left, right } => {
                    let ghost env1 = self@;
                    proof {
                        lemma_reduce(env1, *left, f as nat);
                    }
                    let l = match self.reduce(*left, f) {
                        Some(l) => l,
                        None => {
                            proof {
                                lemma_extends_trans(env0, env1, self@);
                            }
                            return None;
                        },
                    };
                    proof {
                        lemma_extends_trans(env0, env1, self@);
                        self.lemma_view();
                        lemma_names_below_mono(*right, env1.pool.len(), self@.pool.len());
                    }
                    match l {
                        Term::Lambda { param, body } => {
                            if f == 0 {
                                return None;
                            }
                            let ghost env2 = self@;
                            proof {
                                lemma_apply(env2, param, *body, *right);
                            }
                            cur = self.apply(param, *body, &*right);
                            f = f - 1;
                            proof {
                                lemma_extends_trans(env0, env2, self@);
                            }
                        },
                        _ => {
                            return Some(Term::App { left: Box::new(l), right });
                        },
                    }
                },
                other => {
                    proof {
                        self.lemma_view();
                    }
                    return Some(other);
                },
            }
        }
    }

    /// Normalises `term`, descending at most `fuel` levels.
    fn normalize_fuel(&mut self, term: Term, fuel: u64) -> (res: Option<Term>)
        requires
            old(self).wf(),
            old(self)@.holds(term),
        ensures
            match normalize_spec(old(self)@, term, fuel as nat) {
                Some((t, e)) => res == Some(t) && final(self)@ == e,
                None => res is None,
            },
            final(self).wf(),
            extends(old(self)@, final(self)@),
            res matches Some(t) ==> final(self)@.holds(t) && is_normal(t),
        decreases fuel,
    {
        proof {
            lemma_normalize(self@, term, fuel as nat);
        }
        let ghost env0 = self@;
        if fuel == 0 {
            return None;
        }
        let reduced = match self.reduce(term, fuel) {
            Some(t) => t,
            None => return None,
        };
        let ghost env1 = self@;
        match reduced {
            Term::Var(v) => Some(Term::Var(v)),
            Term::Lambda { param, body } => {
                let new_body = match self.normalize_fuel(*body, fuel - 1) {
                    Some(b) => b,
                    None => return None,
                };
                proof {
                    self.lemma_view();
                }
                let is_eta = match &new_body {
                    Term::App { left, right } => match &**right {
                        Term::Var(v) => *v == param && !self.free_vars(&**left).contains(v),
                        _ => false,
                    },
                    _ => false,
                };
                if is_eta {
                    match new_body {
                        Term::App { left, .. } => Some(*left),
                        _ => None,
                    }
                } else {
                    Some(Term::Lambda { param, body: Box::new(new_body) })
                }
            },
            Term::App { left, right } => {
                let new_left = match self.normalize_fuel(*left, fuel - 1) {
                    Some(t) => t,
                    None => return None,
                };
                let ghost env2 = self@;
                proof {
                    self.lemma_view();
                    lemma_names_below_mono(*right, env1.pool.len(), env2.pool.len());
                }
                let new_right = match self.normalize_fuel(*right, fuel - 1) {
                    Some(t) => t,
                    None => return None,
                };
                proof {
                    self.lemma_view();
                    lemma_names_below_mono(new_left, env2.pool.len(), self@.pool.len());
                }
                Some(Term::App { left: Box::new(new_left), right: Box::new(new_right) })
            },
        }
    }

    /// Brings `term` to beta-eta normal form, reducing under lambdas and
    /// replacing `λx.f x` by `f` where `x` does not occur free in `f`.
    pub fn normalize(&mut self, term: Term) -> (res: Result<NormalizedTerm, InterpreterError>)
        requires
            old(self).wf(),
            old(self)@.holds(term),
        ensures
            match normalize_spec(old(self)@, term, REDUCTION_LIMIT as nat) {
                Some((t, e)) => res matches Ok(n) && n@ == t && final(self)@ == e,
                None => res matches Err(InterpreterError::ReductionLimit),
            },
            final(self).wf(),
            extends(old(self)@, final(self)@),
            res matches Ok(n) ==> final(self)@.holds(n@) && is_normal(n@),
            res matches Ok(n) ==> frees_no_var(term, n@),
            res matches Ok(n) ==> forall|s: Term| #[trigger] is_subterm(s, n@) ==> !beta_redex(s)
                && !eta_redex(s),
            res matches Ok(n) ==> (n@.size() < REDUCTION_LIMIT ==> normalize_spec(
                final(self)@,
                n@,
                REDUCTION_LIMIT as nat,
            ) == Some((n@, final(self)@))),
    {
        proof {
            lemma_normalize(old(self)@, term, REDUCTION_LIMIT as nat);
            match normalize_spec(old(self)@, term, REDUCTION_LIMIT as nat) {
                Some((n, e)) => {
                    assert forall|s: Term| #[trigger] is_subterm(s, n) implies !beta_redex(s)
                        && !eta_redex(s) by {
                        lemma_normal_has_no_redex(n, s);
                    }
                },
                None => {},
            }
            lemma_normalize_idempotent(old(self)@, term, REDUCTION_LIMIT as nat, REDUCTION_LIMIT as nat);
            match normalize_spec(old(self)@, term, REDUCTION_LIMIT as nat) {
                Some((n, e)) => {
                    assert forall|v: usize| #[trigger] occurs_free(n, v) implies occurs_free(term, v) by {
                        lemma_normalize_free(old(self)@, term, REDUCTION_LIMIT as nat, v);
                    }
                },
                None => {},
            }
        }
        match self.normalize_fuel(term, REDUCTION_LIMIT) {
            Some(t) => Ok(NormalizedTerm::new_unchecked(t)),
            None => Err(InterpreterError::ReductionLimit),
        }
    }

    /// Whether two normalised terms are alpha-equivalent.
    pub fn equivalent(x: &NormalizedTerm, y: &NormalizedTerm) -> (res: bool)
        ensures
            res == alpha_eq(x@, y@, Seq::empty()),
    {
        let mut params: Vec<(usize, usize)> = Vec::new();
        Self::equivalent_impl(x.as_term(), y.as_term(), &mut params)
    }

    fn equivalent_impl(x: &Term, y: &Term, params: &mut Vec<(usize, usize)>) -> (res: bool)
        ensures
            res == alpha_eq(*x, *y, old(params)@),
            final(params)@ == old(params)@,
        decreases x,
    {
        match (x, y) {
            (Term::Var(v1), Term::Var(v2)) => {
                let mut i = params.len();
                proof {
                    assert(params@.take(i as int) =~= params@);
                }
                while i > 0
                    invariant
                        i <= params@.len(),
                        params@ == old(params)@,
                        *x == Term::Var(*v1),
                        *y == Term::Var(*v2),
                        same_var(params@.take(i as int), *v1, *v2) == same_var(params@, *v1, *v2),
                    decreases i,
                {
                    proof {
                        assert(params@.take(i as int).drop_last() =~= params@.take(i - 1));
                    }
                    let (p1, p2) = params[i - 1];
                    proof {
                        assert(params@.take(i as int).last() == params@[i - 1]);
                    }
                    if p1 == *v1 || p2 == *v2 {
                        return p1 == *v1 && p2 == *v2;
                    }
                    i = i - 1;
                }
                proof {
                    assert(params@.take(0) =~= Seq::<(usize, usize)>::empty());
                }
                *v1 == *v2
            },
            (Term::Lambda { param: p1, body: b1 }, Term::Lambda { param: p2, body: b2 }) => {
                params.push((*p1, *p2));
                let res = Self::equivalent_impl(b1, b2, params);
                params.pop();
                proof {
                    assert(params@ =~= old(params)@);
                }
                res
            },
            (Term::App { left: l1, right: r1 }, Term::App { left: l2, right: r2 }) => {
                Self::equivalent_impl(l1, l2, params) && Self::equivalent_impl(r1, r2, params)
            },
            _ => false,
        }
    }

    /// The text of `term`, with the names it holds.
    pub fn format_term(&self, term: &Term) -> (res: String)
        requires
            self@.holds(*term),
        ensures
            res@ == format_spec(self@.pool, *term, false),
    {
        let mut s = String::new();
        self.format_term_impl(term, false, &mut s);
        s
    }

    fn format_term_impl(&self, term: &Term, paren: bool, s: &mut String)
        requires
            self@.holds(*term),
        ensures
            final(s)@ == old(s)@ + format_spec(self@.pool, *term, paren),
        decreases term,
    {
        match term {
            Term::Var(string_idx) => {
                s.append(self.string_pool.get_str(*string_idx));
            },
            Term::Lambda { param, body } => {
                if paren {
                    push_char(s, '(');
                }
                push_char(s, 'λ');
                s.append(self.string_pool.get_str(*param));
                push_char(s, '.');
                self.format_term_impl(body, false, s);
                if paren {
                    push_char(s, ')');
                }
            },
            Term::App { left, right } => {
                if paren {
                    push_char(s, '(');
                }
                self.format_term_impl(left, true, s);
                push_char(s, ' ');
                self.format_term_impl(right, true, s);
                if paren {
                    push_char(s, ')');
                }
            },
        }
        proof {
            assert(final(s)@ =~= old(s)@ + format_spec(self@.pool, *term, paren));
        }
    }
}

/// Evaluates two pieces of code to normal form and tells whether the results
/// are alpha-equivalent.
pub fn is_equivalent(interpreter: &mut Interpreter, code1: &str, code2: &str) -> (res: Result<
    bool,
    InterpreterError,
>)
    requires
        old(interpreter).wf(),
    ensures
        final(interpreter).wf(),
        match is_equivalent_spec(old(interpreter)@, code1@, code2@) {
            Ok((b, e)) => res == Ok::<bool, InterpreterError>(b) && final(interpreter)@ == e,
            Err(e) => res matches Err(x) && x@ == e,
        },
{
    let t1 = match interpreter.run(code1) {
        Ok(t) => t,
        Err(e) => return Err(e),
    };
    let t1 = match interpreter.normalize(t1) {
        Ok(t) => t,
        Err(e) => return Err(e),
    };
    let t2 = match interpreter.run(code2) {
        Ok(t) => t,
        Err(e) => return Err(e),
    };
    let t2 = match interpreter.normalize(t2) {
        Ok(t) => t,
        Err(e) => return Err(e),
    };
    Ok(Interpreter::equivalent(&t1, &t2))
}

} // verus!
