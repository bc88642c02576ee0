//! Running or evaluating the same code again, once the names it needs are
//! interned, gives the same term and leaves the interpreter as it was.

use vstd::prelude::*;

use crate::interpreter::{
    apply_spec, eval_spec, extends, fresh_name, is_equivalent_spec, lemma_apply,
    lemma_names_below_mono, lemma_normalize, lemma_reduce, lemma_rename, lemma_subst,
    normalize_spec, reduce_spec, rename_spec, run_spec, subst, Env,
    REDUCTION_LIMIT,
};
use crate::lexer::{lemma_scan, scan, TokenKind};
use crate::parser::{
    atom_start, lemma_parse_app, lemma_parse_app_rest, lemma_parse_atom, parse_app_rest_spec,
    parse_app_spec, parse_atom_spec, parse_term_spec, pool_extends,
};
use crate::string_pool::intern;
use crate::term::{free_vars, lemma_alpha_eq_reflexive, Term};

verus! {

/// `p` is a prefix of `u`.
pub open spec fn within(p: Seq<Seq<char>>, u: Seq<Seq<char>>) -> bool {
    &&& p.len() <= u.len()
    &&& forall|i: int| 0 <= i < p.len() ==> p[i] == u[i]
}

/// Two states with the same counter whose pools are prefixes of `u`, the
/// second at least as long as the first.
pub open spec fn sim(a: Env, b: Env, u: Seq<Seq<char>>) -> bool {
    &&& a.counter == b.counter
    &&& within(a.pool, u)
    &&& within(b.pool, u)
    &&& a.pool.len() <= b.pool.len()
    &&& u.no_duplicates()
    &&& u.len() <= usize::MAX
}

proof fn lemma_within_extends(e1: Env, e2: Env, u: Seq<Seq<char>>)
    requires
        extends(e1, e2),
        within(e2.pool, u),
    ensures
        within(e1.pool, u),
{
}

proof fn lemma_intern_sim(pa: Seq<Seq<char>>, pb: Seq<Seq<char>>, u: Seq<Seq<char>>, s: Seq<char>)
    requires
        within(pa, u),
        within(pb, u),
        pa.len() <= pb.len(),
        u.no_duplicates(),
        within(intern(pa, s).1, u),
    ensures
        intern(pb, s).0 == intern(pa, s).0,
        within(intern(pb, s).1, u),
        intern(pa, s).1.len() <= intern(pb, s).1.len(),
{
    if pa.contains(s) {
        let i = pa.index_of(s);
        assert(pa[i] == s);
        assert(pb[i] == u[i]);
        assert(pb.contains(s));
        let j = pb.index_of(s);
        assert(pb[j] == s);
        assert(u[i] == u[j]);
    } else {
        let m = pa.len() as int;
        assert(intern(pa, s).1[m] == s);
        assert(u[m] == s);
        if pb.len() > m {
            assert(pb[m] == s);
            assert(pb.contains(s));
            let j = pb.index_of(s);
            assert(pb[j] == s);
            assert(u[j] == u[m]);
        } else {
            assert(pb =~= pa);
        }
    }
}

proof fn lemma_rename_sim(a: Env, b: Env, u: Seq<Seq<char>>, origin: usize)
    requires
        sim(a, b, u),
        origin < a.pool.len(),
        within(rename_spec(a, origin).1.pool, u),
    ensures
        rename_spec(b, origin).0 == rename_spec(a, origin).0,
        sim(rename_spec(a, origin).1, rename_spec(b, origin).1, u),
{
    assert(a.pool[origin as int] == b.pool[origin as int]);
    assert(fresh_name(a, origin) == fresh_name(b, origin));
    lemma_intern_sim(a.pool, b.pool, u, fresh_name(a, origin));
}

proof fn lemma_subst_sim(
    a: Env,
    b: Env,
    u: Seq<Seq<char>>,
    param: usize,
    body: Term,
    pattern: Term,
    fv: Set<usize>,
)
    requires
        sim(a, b, u),
        a.valid(),
        a.holds(body),
        a.holds(pattern),
        within(subst(a, param, body, pattern, fv).1.pool, u),
    ensures
        subst(b, param, body, pattern, fv).0 == subst(a, param, body, pattern, fv).0,
        sim(subst(a, param, body, pattern, fv).1, subst(b, param, body, pattern, fv).1, u),
    decreases body.size(), 0int,
{
    match body {
        Term::Var(_) => {},
        Term::Lambda { param: bp, body: bb } => {
            if param != bp {
                if fv.contains(bp) {
                    let (nn, a1) = rename_spec(a, bp);
                    let (nn_b, b1) = rename_spec(b, bp);
                    lemma_rename(a, bp);
                    lemma_apply(a1, bp, *bb, Term::Var(nn));
                    let (rb, a2) = apply_spec(a1, bp, *bb, Term::Var(nn));
                    lemma_subst(a2, param, rb, pattern, fv);
                    let (nb, a3) = subst(a2, param, rb, pattern, fv);
                    lemma_within_extends(a2, a3, u);
                    lemma_within_extends(a1, a2, u);
                    lemma_rename_sim(a, b, u, bp);
                    lemma_names_below_mono(*bb, a.pool.len(), a1.pool.len());
                    lemma_apply_sim(a1, b1, u, bp, *bb, Term::Var(nn));
                    let (rb_b, b2) = apply_spec(b1, bp, *bb, Term::Var(nn));
                    lemma_names_below_mono(pattern, a.pool.len(), a2.pool.len());
                    lemma_subst_sim(a2, b2, u, param, rb, pattern, fv);
                } else {
                    lemma_subst_sim(a, b, u, param, *bb, pattern, fv);
                }
            }
        },
        Term::App { left, right } => {
            lemma_subst(a, param, *left, pattern, fv);
            let (nl, a1) = subst(a, param, *left, pattern, fv);
            lemma_subst(a1, param, *right, pattern, fv);
            lemma_within_extends(a1, subst(a1, param, *right, pattern, fv).1, u);
            lemma_subst_sim(a, b, u, param, *left, pattern, fv);
            let (nl_b, b1) = subst(b, param, *left, pattern, fv);
            lemma_names_below_mono(*right, a.pool.len(), a1.pool.len());
            lemma_names_below_mono(pattern, a.pool.len(), a1.pool.len());
            lemma_subst_sim(a1, b1, u, param, *right, pattern, fv);
        },
    }
}

proof fn lemma_apply_sim(a: Env, b: Env, u: Seq<Seq<char>>, param: usize, body: Term, pattern: Term)
    requires
        sim(a, b, u),
        a.valid(),
        a.holds(body),
        a.holds(pattern),
        within(apply_spec(a, param, body, pattern).1.pool, u),
    ensures
        apply_spec(b, param, body, pattern).0 == apply_spec(a, param, body, pattern).0,
        sim(apply_spec(a, param, body, pattern).1, apply_spec(b, param, body, pattern).1, u),
    decreases body.size(), 1int,
{
    lemma_subst_sim(a, b, u, param, body, pattern, free_vars(pattern));
}

proof fn lemma_reduce_sim(a: Env, b: Env, u: Seq<Seq<char>>, t: Term, fuel: nat)
    requires
        sim(a, b, u),
        a.valid(),
        a.holds(t),
        reduce_spec(a, t, fuel) is Some,
        within(reduce_spec(a, t, fuel).unwrap().1.pool, u),
    ensures
        reduce_spec(b, t, fuel) is Some,
        reduce_spec(b, t, fuel).unwrap().0 == reduce_spec(a, t, fuel).unwrap().0,
        sim(reduce_spec(a, t, fuel).unwrap().1, reduce_spec(b, t, fuel).unwrap().1, u),
    decreases fuel, t.size(),
{
    match t {
        Term::App { left, right } => {
            lemma_reduce(a, *left, fuel);
            let (l, a1) = reduce_spec(a, *left, fuel).unwrap();
            let fin = reduce_spec(a, t, fuel).unwrap().1;
            match l {
                Term::Lambda { param, body } => {
                    lemma_apply(a1, param, *body, *right);
                    let (t2, a2) = apply_spec(a1, param, *body, *right);
                    lemma_reduce(a2, t2, (fuel - 1) as nat);
                    lemma_within_extends(a2, fin, u);
                    lemma_within_extends(a1, a2, u);
                },
                _ => {},
            }
            lemma_reduce_sim(a, b, u, *left, fuel);
            let (l_b, b1) = reduce_spec(b, *left, fuel).unwrap();
            match l {
                Term::Lambda { param, body } => {
                    lemma_names_below_mono(*right, a.pool.len(), a1.pool.len());
                    lemma_apply_sim(a1, b1, u, param, *body, *right);
                    let (t2, a2) = apply_spec(a1, param, *body, *right);
                    let (t2_b, b2) = apply_spec(b1, param, *body, *right);
                    lemma_reduce_sim(a2, b2, u, t2, (fuel - 1) as nat);
                },
                _ => {},
            }
        },
        _ => {},
    }
}

proof fn lemma_normalize_sim(a: Env, b: Env, u: Seq<Seq<char>>, t: Term, fuel: nat)
    requires
        sim(a, b, u),
        a.valid(),
        a.holds(t),
        normalize_spec(a, t, fuel) is Some,
        within(normalize_spec(a, t, fuel).unwrap().1.pool, u),
    ensures
        normalize_spec(b, t, fuel) is Some,
        normalize_spec(b, t, fuel).unwrap().0 == normalize_spec(a, t, fuel).unwrap().0,
        sim(normalize_spec(a, t, fuel).unwrap().1, normalize_spec(b, t, fuel).unwrap().1, u),
    decreases fuel,
{
    let fin = normalize_spec(a, t, fuel).unwrap().1;
    lemma_reduce(a, t, fuel);
    let (r, a1) = reduce_spec(a, t, fuel).unwrap();
    match r {
        Term::Var(_) => {},
        Term::Lambda { param, body } => {
            lemma_normalize(a1, *body, (fuel - 1) as nat);
        },
        Term::App { left, right } => {
            lemma_normalize(a1, *left, (fuel - 1) as nat);
            let (nl, a2) = normalize_spec(a1, *left, (fuel - 1) as nat).unwrap();
            lemma_normalize(a2, *right, (fuel - 1) as nat);
            lemma_within_extends(a2, fin, u);
        },
    }
    lemma_within_extends(a1, fin, u);
    lemma_reduce_sim(a, b, u, t, fuel);
    let (r_b, b1) = reduce_spec(b, t, fuel).unwrap();
    match r {
        Term::Var(_) => {},
        Term::Lambda { param, body } => {
            lemma_normalize_sim(a1, b1, u, *body, (fuel - 1) as nat);
        },
        Term::App { left, right } => {
            lemma_normalize_sim(a1, b1, u, *left, (fuel - 1) as nat);
            let (nl, a2) = normalize_spec(a1, *left, (fuel - 1) as nat).unwrap();
            let (nl_b, b2) = normalize_spec(b1, *left, (fuel - 1) as nat).unwrap();
            lemma_names_below_mono(*right, a1.pool.len(), a2.pool.len());
            lemma_normalize_sim(a2, b2, u, *right, (fuel - 1) as nat);
        },
    }
}

proof fn lemma_within_pool_extends(p1: Seq<Seq<char>>, p2: Seq<Seq<char>>, u: Seq<Seq<char>>)
    requires
        pool_extends(p1, p2),
        within(p2, u),
    ensures
        within(p1, u),
{
}

/// The parser, run on two pools that are prefixes of `u`, the second at least
/// as long, gives the same term, stops at the same place, and leaves pools
/// that are again prefixes of `u`.
pub open spec fn parse_sim(r1: crate::parser::ParseResult, r2: crate::parser::ParseResult, u: Seq<Seq<char>>) -> bool {
    match (r1, r2) {
        (Ok((t1, k1, p1)), Ok((t2, k2, p2))) => t1 == t2 && k1 == k2 && within(p2, u) && p1.len()
            <= p2.len(),
        _ => false,
    }
}

proof fn lemma_parse_atom_sim(cs: Seq<char>, k: int, pa: Seq<Seq<char>>, pb: Seq<Seq<char>>, u: Seq<Seq<char>>)
    requires
        0 <= k <= cs.len(),
        within(pa, u),
        within(pb, u),
        pa.len() <= pb.len(),
        u.no_duplicates(),
        parse_atom_spec(cs, k, pa) matches Ok((_, _, p)) && within(p, u),
    ensures
        parse_sim(parse_atom_spec(cs, k, pa), parse_atom_spec(cs, k, pb), u),
    decreases cs.len() - k, 0int,
{
    let t = scan(cs, k);
    lemma_scan(cs, k);
    lemma_parse_atom(cs, k, pa);
    if t.kind == TokenKind::Ident {
        lemma_intern_sim(pa, pb, u, cs.subrange(t.start, t.end));
    } else if t.kind == TokenKind::Lambda {
        let t2 = scan(cs, t.end);
        lemma_scan(cs, t.end);
        let name = cs.subrange(t2.start, t2.end);
        let (i, p) = intern(pa, name);
        let t3 = scan(cs, t2.end);
        lemma_scan(cs, t2.end);
        crate::parser::lemma_intern_extends(pa, name);
        lemma_parse_app(cs, t3.end, p);
        let fin = parse_atom_spec(cs, k, pa)->Ok_0.2;
        lemma_within_pool_extends(p, fin, u);
        lemma_intern_sim(pa, pb, u, name);
        let (i_b, p_b) = intern(pb, name);
        lemma_parse_app_sim(cs, t3.end, p, p_b, u);
    } else if t.kind == TokenKind::LParen {
        lemma_parse_app_sim(cs, t.end, pa, pb, u);
    }
}

proof fn lemma_parse_app_sim(cs: Seq<char>, k: int, pa: Seq<Seq<char>>, pb: Seq<Seq<char>>, u: Seq<Seq<char>>)
    requires
        0 <= k <= cs.len(),
        within(pa, u),
        within(pb, u),
        pa.len() <= pb.len(),
        u.no_duplicates(),
        parse_app_spec(cs, k, pa) matches Ok((_, _, p)) && within(p, u),
    ensures
        parse_sim(parse_app_spec(cs, k, pa), parse_app_spec(cs, k, pb), u),
    decreases cs.len() - k, 1int,
{
    lemma_parse_atom(cs, k, pa);
    let (left, k2, p2) = parse_atom_spec(cs, k, pa)->Ok_0;
    lemma_parse_app_rest(cs, k2, p2, left);
    let fin = parse_app_spec(cs, k, pa)->Ok_0.2;
    lemma_within_pool_extends(p2, fin, u);
    lemma_parse_atom_sim(cs, k, pa, pb, u);
    let (left_b, k2_b, p2_b) = parse_atom_spec(cs, k, pb)->Ok_0;
    lemma_parse_app_rest_sim(cs, k2, p2, p2_b, u, left);
}

proof fn lemma_parse_app_rest_sim(
    cs: Seq<char>,
    k: int,
    pa: Seq<Seq<char>>,
    pb: Seq<Seq<char>>,
    u: Seq<Seq<char>>,
    left: Term,
)
    requires
        0 <= k <= cs.len(),
        within(pa, u),
        within(pb, u),
        pa.len() <= pb.len(),
        u.no_duplicates(),
        parse_app_rest_spec(cs, k, pa, left) matches Ok((_, _, p)) && within(p, u),
    ensures
        parse_sim(parse_app_rest_spec(cs, k, pa, left), parse_app_rest_spec(cs, k, pb, left), u),
    decreases cs.len() - k, 2int,
{
    if atom_start(scan(cs, k).kind) {
        lemma_parse_atom(cs, k, pa);
        let (right, k2, p2) = parse_atom_spec(cs, k, pa)->Ok_0;
        let app = Term::App { left: Box::new(left), right: Box::new(right) };
        lemma_parse_app_rest(cs, k2, p2, app);
        let fin = parse_app_rest_spec(cs, k, pa, left)->Ok_0.2;
        lemma_within_pool_extends(p2, fin, u);
        lemma_parse_atom_sim(cs, k, pa, pb, u);
        let (right_b, k2_b, p2_b) = parse_atom_spec(cs, k, pb)->Ok_0;
        lemma_parse_app_rest_sim(cs, k2, p2, p2_b, u, app);
    }
}

/// Running code a second time, in the state that the first run left, gives
/// the same term and leaves that state unchanged (as long as the pool fits in
/// memory).
pub proof fn lemma_run_again(env: Env, cs: Seq<char>)
    requires
        env.valid(),
        run_spec(env, cs) is Ok,
        run_spec(env, cs)->Ok_0.1.pool.len() <= usize::MAX,
    ensures
        run_spec(run_spec(env, cs)->Ok_0.1, cs) == run_spec(env, cs),
{
    let (r, e) = run_spec(env, cs)->Ok_0;
    let u = e.pool;
    crate::parser::lemma_parse_term(cs, 0, env.pool);
    let (t, k, p) = parse_term_spec(cs, 0, env.pool)->Ok_0;
    let a0 = Env { pool: p, counter: 0 };
    lemma_reduce(a0, t, REDUCTION_LIMIT as nat);
    lemma_parse_app(cs, 0, env.pool);
    lemma_parse_app_sim(cs, 0, env.pool, u, u);
    lemma_parse_app(cs, 0, u);
    let (t0_b, k0_b, p0_b) = parse_app_spec(cs, 0, u)->Ok_0;
    assert(p0_b =~= u);
    let b0 = Env { pool: u, counter: 0 };
    lemma_reduce_sim(a0, b0, u, t, REDUCTION_LIMIT as nat);
    lemma_reduce(b0, t, REDUCTION_LIMIT as nat);
    let (r_b, b1) = reduce_spec(b0, t, REDUCTION_LIMIT as nat).unwrap();
    assert(b1.pool =~= u);
    assert(b1 == e);
}

/// Evaluating code a second time, in the state that the first evaluation
/// left, gives the same normal form and leaves that state unchanged (as long
/// as the pool fits in memory).
pub proof fn lemma_eval_again(env: Env, cs: Seq<char>)
    requires
        env.valid(),
        eval_spec(env, cs) is Ok,
        eval_spec(env, cs)->Ok_0.1.pool.len() <= usize::MAX,
    ensures
        eval_spec(eval_spec(env, cs)->Ok_0.1, cs) == eval_spec(env, cs),
{
    let (n, e) = eval_spec(env, cs)->Ok_0;
    let u = e.pool;
    crate::parser::lemma_parse_term(cs, 0, env.pool);
    let (t, k, p) = parse_term_spec(cs, 0, env.pool)->Ok_0;
    let a0 = Env { pool: p, counter: 0 };
    lemma_reduce(a0, t, REDUCTION_LIMIT as nat);
    let (r, a1) = reduce_spec(a0, t, REDUCTION_LIMIT as nat).unwrap();
    lemma_normalize(a1, r, REDUCTION_LIMIT as nat);
    assert(within(a1.pool, u));
    assert(within(p, u));
    assert(within(env.pool, u));
    assert(u.no_duplicates());
    // the parse, again
    lemma_parse_app(cs, 0, env.pool);
    let (t0, k0, p0) = parse_app_spec(cs, 0, env.pool)->Ok_0;
    lemma_parse_app_sim(cs, 0, env.pool, u, u);
    let (t0_b, k0_b, p0_b) = parse_app_spec(cs, 0, u)->Ok_0;
    lemma_parse_app(cs, 0, u);
    assert(p0_b =~= u);
    // the reduction, again
    let b0 = Env { pool: u, counter: 0 };
    lemma_reduce_sim(a0, b0, u, t, REDUCTION_LIMIT as nat);
    let (r_b, b1) = reduce_spec(b0, t, REDUCTION_LIMIT as nat).unwrap();
    lemma_reduce(b0, t, REDUCTION_LIMIT as nat);
    assert(b1.pool =~= u);
    // the normalisation, again
    lemma_normalize_sim(a1, b1, u, r, REDUCTION_LIMIT as nat);
    let (n_b, b2) = normalize_spec(b1, r, REDUCTION_LIMIT as nat).unwrap();
    lemma_normalize(b1, r, REDUCTION_LIMIT as nat);
    assert(b2.pool =~= u);
    assert(b2 == e);
}

/// Code whose evaluation succeeds is equivalent to itself: comparing it with
/// itself gives `true` (as long as the pool fits in memory).
pub proof fn lemma_is_equivalent_reflexive(env: Env, cs: Seq<char>)
    requires
        env.valid(),
        eval_spec(env, cs) is Ok,
        eval_spec(env, cs)->Ok_0.1.pool.len() <= usize::MAX,
    ensures
        is_equivalent_spec(env, cs, cs) == Ok::<(bool, Env), crate::error::ErrorView>(
            (true, eval_spec(env, cs)->Ok_0.1),
        ),
{
    lemma_eval_again(env, cs);
    lemma_alpha_eq_reflexive(eval_spec(env, cs)->Ok_0.0);
}

} // verus!
