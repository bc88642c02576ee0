use vstd::prelude::*;

use crate::interpreter::format_spec;
use crate::lexer::{
    char_is_alphanumeric, char_is_whitespace, ident_continue, ident_end, ident_start,
    lemma_ident_runs, scan, skip_ws, Scan, TokenKind,
};
use crate::parser::{
    atom_start, parse_app_rest_spec, parse_app_spec, parse_atom_spec, parse_term_spec, ParseResult,
};
use crate::string_pool::intern;
use crate::term::Term;

verus! {

/// `s` is read back as exactly one identifier token: it is not empty, its
/// first character is no whitespace and none of `λ . ( )` and can begin an
/// identifier, and every later character can continue one.
pub open spec fn is_ident_text(s: Seq<char>) -> bool {
    &&& s.len() > 0
    &&& !char_is_whitespace(s[0])
    &&& s[0] != 'λ' && s[0] != '.' && s[0] != '(' && s[0] != ')'
    &&& ident_start(s[0])
    &&& forall|i: int| 1 <= i < s.len() ==> ident_continue(#[trigger] s[i])
}

/// Every name of `t`, of a variable or of a binder, is a string of `pool`
/// that is read back as one identifier.
pub open spec fn names_readable(pool: Seq<Seq<char>>, t: Term) -> bool
    decreases t,
{
    match t {
        Term::Var(v) => v < pool.len() && is_ident_text(pool[v as int]),
        Term::Lambda { param, body } => {
            &&& param < pool.len()
            &&& is_ident_text(pool[param as int])
            &&& names_readable(pool, *body)
        },
        Term::App { left, right } => names_readable(pool, *left) && names_readable(pool, *right),
    }
}

/// What std documents of the characters that printing puts between names:
/// the space is whitespace, `λ . ( )` are not, and none of the space, `.`
/// and `)` is alphanumeric.
pub open spec fn layout_chars() -> bool {
    &&& char_is_whitespace(' ')
    &&& !char_is_whitespace('λ')
    &&& !char_is_whitespace('.')
    &&& !char_is_whitespace('(')
    &&& !char_is_whitespace(')')
    &&& !char_is_alphanumeric(' ')
    &&& !char_is_alphanumeric('.')
    &&& !char_is_alphanumeric(')')
}

/// No identifier runs on past index `e`.
pub open spec fn ends_token(cs: Seq<char>, e: int) -> bool {
    e < cs.len() ==> !ident_continue(cs[e])
}

proof fn lemma_split(cs: Seq<char>, j: int, a: Seq<char>, b: Seq<char>)
    requires
        0 <= j,
        j + a.len() + b.len() <= cs.len(),
        cs.subrange(j, j + a.len() + b.len()) == a + b,
    ensures
        cs.subrange(j, j + a.len()) == a,
        cs.subrange(j + a.len(), j + a.len() + b.len()) == b,
{
    let whole = cs.subrange(j, j + a.len() + b.len());
    assert forall|i: int| 0 <= i < a.len() implies cs.subrange(j, j + a.len())[i] == a[i] by {
        assert(whole[i] == (a + b)[i]);
    }
    assert(cs.subrange(j, j + a.len()) =~= a);
    assert forall|i: int| 0 <= i < b.len() implies cs.subrange(
        j + a.len(),
        j + a.len() + b.len(),
    )[i] == b[i] by {
        assert(whole[a.len() + i] == (a + b)[a.len() + i]);
    }
    assert(cs.subrange(j + a.len(), j + a.len() + b.len()) =~= b);
}

proof fn lemma_char_at(cs: Seq<char>, j: int, c: char)
    requires
        0 <= j < cs.len(),
        cs.subrange(j, j + 1) == seq![c],
    ensures
        cs[j] == c,
{
    assert(cs.subrange(j, j + 1)[0] == cs[j]);
}

proof fn lemma_skip_to(cs: Seq<char>, k: int, j: int)
    requires
        0 <= k <= j < cs.len(),
        forall|i: int| k <= i < j ==> char_is_whitespace(#[trigger] cs[i]),
        !char_is_whitespace(cs[j]),
    ensures
        skip_ws(cs, k) == j,
    decreases j - k,
{
    if k < j {
        assert(char_is_whitespace(cs[k]));
        lemma_skip_to(cs, k + 1, j);
    }
}

proof fn lemma_format_nonempty(pool: Seq<Seq<char>>, t: Term, paren: bool)
    requires
        names_readable(pool, t),
    ensures
        format_spec(pool, t, paren).len() > 0,
    decreases t,
{
    match t {
        Term::Var(v) => {},
        Term::Lambda { param, body } => {},
        Term::App { left, right } => {
            lemma_format_nonempty(pool, *left, true);
        },
    }
}

/// A name found after whitespace is scanned as one identifier, which the
/// pool interns at the name's own index.
proof fn lemma_read_name(cs: Seq<char>, k: int, j: int, pool: Seq<Seq<char>>, v: usize)
    requires
        layout_chars(),
        pool.no_duplicates(),
        v < pool.len(),
        is_ident_text(pool[v as int]),
        0 <= k <= j,
        j + pool[v as int].len() <= cs.len(),
        forall|i: int| k <= i < j ==> char_is_whitespace(#[trigger] cs[i]),
        cs.subrange(j, j + pool[v as int].len()) == pool[v as int],
        ends_token(cs, j + pool[v as int].len()),
    ensures
        scan(cs, k) == (Scan { kind: TokenKind::Ident, start: j, end: j + pool[v as int].len() }),
        intern(pool, cs.subrange(j, j + pool[v as int].len())) == (v as int, pool),
        parse_atom_spec(cs, k, pool) == ParseResult::Ok(
            (Term::Var(v), j + pool[v as int].len(), pool),
        ),
{
    let name = pool[v as int];
    let e = j + name.len();
    assert(cs[j] == name[0]) by {
        assert(cs.subrange(j, e)[0] == cs[j]);
    }
    lemma_skip_to(cs, k, j);
    if name.len() > 1 {
        assert forall|i: int| j + 1 <= i < e implies cs[i] == '_' || char_is_alphanumeric(
            #[trigger] cs[i],
        ) by {
            assert(cs.subrange(j, e)[i - j] == cs[i]);
            assert(ident_continue(name[i - j]));
        }
        lemma_ident_runs(cs, j + 1, e);
    } else {
        assert(ident_end(cs, e) == e);
    }
    assert(scan(cs, k) == (Scan { kind: TokenKind::Ident, start: j, end: e }));
    assert(pool.contains(name)) by {
        assert(pool[v as int] == name);
    }
    let idx = pool.index_of(name);
    assert(pool[idx] == name);
    assert(idx == v as int);
}

/// The printed form of `t` as an argument, found after whitespace, is parsed
/// as one atom that gives back `t` and leaves the pool as it was.
proof fn lemma_read_atom(cs: Seq<char>, k: int, j: int, pool: Seq<Seq<char>>, t: Term)
    requires
        layout_chars(),
        pool.no_duplicates(),
        names_readable(pool, t),
        0 <= k <= j,
        j + format_spec(pool, t, true).len() <= cs.len(),
        forall|i: int| k <= i < j ==> char_is_whitespace(#[trigger] cs[i]),
        cs.subrange(j, j + format_spec(pool, t, true).len()) == format_spec(pool, t, true),
        ends_token(cs, j + format_spec(pool, t, true).len()),
    ensures
        atom_start(scan(cs, k).kind),
        parse_atom_spec(cs, k, pool) == ParseResult::Ok(
            (t, j + format_spec(pool, t, true).len(), pool),
        ),
    decreases t, 1int,
{
    if let Term::Var(v) = t {
        lemma_read_name(cs, k, j, pool, v);
    } else {
        let inner = format_spec(pool, t, false);
        let n = inner.len() as int;
        assert(format_spec(pool, t, true) == seq!['('] + inner + seq![')']);
        lemma_split(cs, j, seq!['('] + inner, seq![')']);
        lemma_split(cs, j, seq!['('], inner);
        let e1 = j + 1 + n;
        lemma_char_at(cs, j, '(');
        lemma_char_at(cs, e1, ')');
        lemma_skip_to(cs, k, j);
        assert(scan(cs, k) == (Scan { kind: TokenKind::LParen, start: j, end: j + 1 }));
        assert(skip_ws(cs, e1) == e1);
        assert(scan(cs, e1) == (Scan { kind: TokenKind::RParen, start: e1, end: e1 + 1 }));
        lemma_read_app(cs, j + 1, pool, t);
    }
}

/// The printed form of `t`, followed by the end of the input or by a token
/// that begins no atom, is parsed as an application that gives back `t` and
/// leaves the pool as it was.
proof fn lemma_read_app(cs: Seq<char>, k: int, pool: Seq<Seq<char>>, t: Term)
    requires
        layout_chars(),
        pool.no_duplicates(),
        names_readable(pool, t),
        0 <= k,
        k + format_spec(pool, t, false).len() <= cs.len(),
        cs.subrange(k, k + format_spec(pool, t, false).len()) == format_spec(pool, t, false),
        ends_token(cs, k + format_spec(pool, t, false).len()),
        !atom_start(scan(cs, k + format_spec(pool, t, false).len()).kind),
    ensures
        parse_app_spec(cs, k, pool) == ParseResult::Ok(
            (t, k + format_spec(pool, t, false).len(), pool),
        ),
    decreases t, 0int,
{
    let e = k + format_spec(pool, t, false).len();
    match t {
        Term::Var(v) => {
            lemma_read_name(cs, k, k, pool, v);
            assert(parse_app_rest_spec(cs, e, pool, t) == ParseResult::Ok(
                (t, e, pool),
            ));
        },
        Term::Lambda { param, body } => {
            let name = pool[param as int];
            let tb = format_spec(pool, *body, false);
            assert(format_spec(pool, t, false) == seq!['λ'] + name + seq!['.'] + tb);
            lemma_split(cs, k, seq!['λ'] + name + seq!['.'], tb);
            lemma_split(cs, k, seq!['λ'] + name, seq!['.']);
            lemma_split(cs, k, seq!['λ'], name);
            let k1 = k + 1;
            let k2 = k1 + name.len();
            let k3 = k2 + 1;
            lemma_char_at(cs, k, 'λ');
            lemma_char_at(cs, k2, '.');
            assert(skip_ws(cs, k) == k);
            assert(scan(cs, k) == (Scan { kind: TokenKind::Lambda, start: k, end: k1 }));
            lemma_read_name(cs, k1, k1, pool, param);
            assert(skip_ws(cs, k2) == k2);
            assert(scan(cs, k2) == (Scan { kind: TokenKind::Dot, start: k2, end: k3 }));
            lemma_read_app(cs, k3, pool, *body);
            assert(parse_atom_spec(cs, k, pool) == ParseResult::Ok(
                (t, e, pool),
            ));
            assert(parse_app_rest_spec(cs, e, pool, t) == ParseResult::Ok(
                (t, e, pool),
            ));
        },
        Term::App { left, right } => {
            let al = format_spec(pool, *left, true);
            let ar = format_spec(pool, *right, true);
            assert(format_spec(pool, t, false) == al + seq![' '] + ar);
            lemma_split(cs, k, al + seq![' '], ar);
            lemma_split(cs, k, al, seq![' ']);
            let k1 = k + al.len();
            lemma_char_at(cs, k1, ' ');
            lemma_format_nonempty(pool, *left, true);
            lemma_read_atom(cs, k, k, pool, *left);
            lemma_read_atom(cs, k1, k1 + 1, pool, *right);
            assert(parse_app_rest_spec(cs, e, pool, t) == ParseResult::Ok(
                (t, e, pool),
            ));
            assert(parse_app_rest_spec(cs, k1, pool, *left) == ParseResult::Ok((t, e, pool)));
        },
    }
}

/// Printing is faithful: the printed form of a term parses back to that very
/// term, and the parse interns nothing new, as long as the pool holds each
/// string once and every name of the term reads back as one identifier.
pub proof fn lemma_format_reads_back(pool: Seq<Seq<char>>, t: Term)
    requires
        layout_chars(),
        pool.no_duplicates(),
        names_readable(pool, t),
    ensures
        parse_term_spec(format_spec(pool, t, false), 0, pool) == ParseResult::Ok((t, format_spec(pool, t, false).len() as int, pool)),
{
    let cs = format_spec(pool, t, false);
    let e = cs.len() as int;
    assert(cs.subrange(0, e) =~= cs);
    assert(skip_ws(cs, e) == e);
    assert(scan(cs, e).kind == TokenKind::Eof);
    lemma_read_app(cs, 0, pool, t);
}

/// Printing tells terms apart: two terms whose names read back as
/// identifiers print the same only when they are the same term.
pub proof fn lemma_format_injective(pool: Seq<Seq<char>>, t1: Term, t2: Term)
    requires
        layout_chars(),
        pool.no_duplicates(),
        names_readable(pool, t1),
        names_readable(pool, t2),
        format_spec(pool, t1, false) == format_spec(pool, t2, false),
    ensures
        t1 == t2,
{
    lemma_format_reads_back(pool, t1);
    lemma_format_reads_back(pool, t2);
}

} // verus!
