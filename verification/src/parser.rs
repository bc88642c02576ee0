use vstd::prelude::*;

use crate::error::{ErrorView, InterpreterError};
use crate::lexer::{
    byte_offset, lemma_scan, on_boundaries, scan, scan_span, Lexer, Token, TokenKind,
};
use crate::string_pool::{intern, lemma_intern, StringPool};
use crate::term::Term;

verus! {

/// What the parser makes of the input from a character index on: the term,
/// the index after which it stopped, and the pool with the names it interned;
/// or the error and the pool as it was when the error was found.
pub type ParseResult = Result<(Term, int, Seq<Seq<char>>), (ErrorView, Seq<Seq<char>>)>;

/// What a term can begin with.
pub open spec fn expect_term() -> Seq<char> {
    "identifier, 'λ', '('"@
}

pub open spec fn expect_ident() -> Seq<char> {
    "identifier"@
}

pub open spec fn expect_dot() -> Seq<char> {
    "'.'"@
}

pub open spec fn expect_rparen() -> Seq<char> {
    "')'"@
}

/// The error for the token that follows index `k`, when `expect` was expected.
pub open spec fn unexpected(cs: Seq<char>, k: int, expect: Seq<char>) -> ErrorView {
    let sc = scan(cs, k);
    ErrorView::UnexpectedToken {
        found: cs.subrange(sc.start, sc.end),
        expect,
        index: byte_offset(cs, sc.start) as nat,
    }
}

/// The kinds of token that begin an atom.
pub open spec fn atom_start(kind: TokenKind) -> bool {
    kind == TokenKind::Lambda || kind == TokenKind::LParen || kind == TokenKind::Ident
}

/// `atom := ident | 'λ' ident '.' app | '(' app ')'`
pub open spec fn parse_atom_spec(cs: Seq<char>, k: int, pool: Seq<Seq<char>>) -> ParseResult
    decreases cs.len() - k, 0int,
    when 0 <= k <= cs.len()
{
    let t = scan(cs, k);
    proof {
        lemma_scan(cs, k);
    }
    if t.kind == TokenKind::Ident {
        let (i, p) = intern(pool, cs.subrange(t.start, t.end));
        Ok((Term::Var(i as usize), t.end, p))
    } else if t.kind == TokenKind::Lambda {
        let t2 = scan(cs, t.end);
        proof {
            lemma_scan(cs, t.end);
        }
        if t2.kind != TokenKind::Ident {
            Err((unexpected(cs, t.end, expect_ident()), pool))
        } else {
            let (i, p) = intern(pool, cs.subrange(t2.start, t2.end));
            let t3 = scan(cs, t2.end);
            proof {
                lemma_scan(cs, t2.end);
            }
            if t3.kind != TokenKind::Dot {
                Err((unexpected(cs, t2.end, expect_dot()), p))
            } else {
                match parse_app_spec(cs, t3.end, p) {
                    Ok((body, k4, p4)) => Ok(
                        (Term::Lambda { param: i as usize, body: Box::new(body) }, k4, p4),
                    ),
                    Err(e) => Err(e),
                }
            }
        }
    } else if t.kind == TokenKind::LParen {
        match parse_app_spec(cs, t.end, pool) {
            Ok((inner, k2, p2)) => {
                let t2 = scan(cs, k2);
                if t2.kind != TokenKind::RParen {
                    Err((unexpected(cs, k2, expect_rparen()), p2))
                } else {
                    Ok((inner, t2.end, p2))
                }
            },
            Err(e) => Err(e),
        }
    } else {
        Err((unexpected(cs, k, expect_term()), pool))
    }
}

/// `app := atom atom*`, the atoms applied from the left.
pub open spec fn parse_app_spec(cs: Seq<char>, k: int, pool: Seq<Seq<char>>) -> ParseResult
    decreases cs.len() - k, 1int,
    when 0 <= k <= cs.len()
{
    match parse_atom_spec(cs, k, pool) {
        Ok((left, k2, p2)) => {
            if k < k2 <= cs.len() {
                parse_app_rest_spec(cs, k2, p2, left)
            } else {
                Ok((left, k2, p2))
            }
        },
        Err(e) => Err(e),
    }
}

/// The atoms that follow `left` in an application.
pub open spec fn parse_app_rest_spec(cs: Seq<char>, k: int, pool: Seq<Seq<char>>, left: Term) -> ParseResult
    decreases cs.len() - k, 2int,
    when 0 <= k <= cs.len()
{
    if atom_start(scan(cs, k).kind) {
        match parse_atom_spec(cs, k, pool) {
            Ok((right, k2, p2)) => {
                if k < k2 <= cs.len() {
                    parse_app_rest_spec(
                        cs,
                        k2,
                        p2,
                        Term::App { left: Box::new(left), right: Box::new(right) },
                    )
                } else {
                    Ok((left, k2, p2))
                }
            },
            Err(e) => Err(e),
        }
    } else {
        Ok((left, k, pool))
    }
}

/// `term := app EOF`
pub open spec fn parse_term_spec(cs: Seq<char>, k: int, pool: Seq<Seq<char>>) -> ParseResult {
    match parse_app_spec(cs, k, pool) {
        Ok((t, k2, p2)) => {
            if scan(cs, k2).kind == TokenKind::Eof {
                Ok((t, k2, p2))
            } else {
                Err((unexpected(cs, k2, expect_term()), p2))
            }
        },
        Err(e) => Err(e),
    }
}

/// `p2` is a pool without duplicates that keeps every string of `p1` at its
/// index.
pub open spec fn pool_extends(p1: Seq<Seq<char>>, p2: Seq<Seq<char>>) -> bool {
    &&& p2.no_duplicates()
    &&& p1.len() <= p2.len()
    &&& forall|i: int| 0 <= i < p1.len() ==> p2[i] == p1[i]
}

/// The names of a parsed term are known to the pool that the parse gave back,
/// as long as that pool fits in memory.
pub open spec fn names_ok(r: ParseResult) -> bool {
    r matches Ok((t, k2, p2)) ==> (p2.len() <= usize::MAX ==> t.names_below(p2.len()))
}

/// What a parse gives back: where it stopped (after `k`, or at `k` when
/// `strict` is false) and a pool that extends the old one.
pub open spec fn parse_ok(cs: Seq<char>, k: int, pool: Seq<Seq<char>>, r: ParseResult, strict: bool) -> bool {
    match r {
        Ok((t, k2, p2)) => {
            &&& if strict {
                k < k2
            } else {
                k <= k2
            }
            &&& k2 <= cs.len()
            &&& pool_extends(pool, p2)
        },
        Err((_, p2)) => pool_extends(pool, p2),
    }
}

pub(crate) proof fn lemma_intern_extends(pool: Seq<Seq<char>>, s: Seq<char>)
    requires
        pool.no_duplicates(),
    ensures
        pool_extends(pool, intern(pool, s).1),
        intern(pool, s).0 < intern(pool, s).1.len(),
{
    lemma_intern(pool, s);
    let p = intern(pool, s).1;
    assert forall|i: int| 0 <= i < pool.len() implies p[i] == pool[i] by {
        assert(p.subrange(0, pool.len() as int)[i] == p[i]);
    }
}

/// An atom takes at least one token and extends the pool.
pub proof fn lemma_parse_atom(cs: Seq<char>, k: int, pool: Seq<Seq<char>>)
    requires
        0 <= k <= cs.len(),
        pool.no_duplicates(),
    ensures
        parse_ok(cs, k, pool, parse_atom_spec(cs, k, pool), true),
        names_ok(parse_atom_spec(cs, k, pool)),
    decreases cs.len() - k, 0int,
{
    let t = scan(cs, k);
    lemma_scan(cs, k);
    if t.kind == TokenKind::Ident {
        lemma_intern_extends(pool, cs.subrange(t.start, t.end));
    } else if t.kind == TokenKind::Lambda {
        let t2 = scan(cs, t.end);
        lemma_scan(cs, t.end);
        if t2.kind == TokenKind::Ident {
            lemma_intern_extends(pool, cs.subrange(t2.start, t2.end));
            let (i, p) = intern(pool, cs.subrange(t2.start, t2.end));
            let t3 = scan(cs, t2.end);
            lemma_scan(cs, t2.end);
            if t3.kind == TokenKind::Dot {
                lemma_parse_app(cs, t3.end, p);
            }
        }
    } else if t.kind == TokenKind::LParen {
        lemma_parse_app(cs, t.end, pool);
        match parse_app_spec(cs, t.end, pool) {
            Ok((inner, k2, p2)) => {
                lemma_scan(cs, k2);
            },
            Err(e) => {},
        }
    }
}

/// An application takes at least one token and extends the pool.
pub proof fn lemma_parse_app(cs: Seq<char>, k: int, pool: Seq<Seq<char>>)
    requires
        0 <= k <= cs.len(),
        pool.no_duplicates(),
    ensures
        parse_ok(cs, k, pool, parse_app_spec(cs, k, pool), true),
        names_ok(parse_app_spec(cs, k, pool)),
    decreases cs.len() - k, 1int,
{
    lemma_parse_atom(cs, k, pool);
    match parse_atom_spec(cs, k, pool) {
        Ok((left, k2, p2)) => {
            lemma_parse_app_rest(cs, k2, p2, left);
        },
        Err(e) => {},
    }
}

/// The rest of an application extends the pool.
pub proof fn lemma_parse_app_rest(cs: Seq<char>, k: int, pool: Seq<Seq<char>>, left: Term)
    requires
        0 <= k <= cs.len(),
        pool.no_duplicates(),
    ensures
        parse_ok(cs, k, pool, parse_app_rest_spec(cs, k, pool, left), false),
        parse_app_rest_spec(cs, k, pool, left) matches Ok((t, k2, p2)) ==> (p2.len()
            <= usize::MAX && left.names_below(pool.len()) ==> t.names_below(p2.len())),
    decreases cs.len() - k, 2int,
{
    if atom_start(scan(cs, k).kind) {
        lemma_parse_atom(cs, k, pool);
        match parse_atom_spec(cs, k, pool) {
            Ok((right, k2, p2)) => {
                let app = Term::App { left: Box::new(left), right: Box::new(right) };
                lemma_parse_app_rest(cs, k2, p2, app);
                match parse_app_rest_spec(cs, k2, p2, app) {
                    Ok((t, k3, p3)) => {
                        if p3.len() <= usize::MAX && left.names_below(pool.len()) {
                            crate::interpreter::lemma_names_below_mono(left, pool.len(), p2.len());
                        }
                    },
                    Err(e) => {},
                }
            },
            Err(e) => {},
        }
    }
}

/// A whole term extends the pool.
pub proof fn lemma_parse_term(cs: Seq<char>, k: int, pool: Seq<Seq<char>>)
    requires
        0 <= k <= cs.len(),
        pool.no_duplicates(),
    ensures
        parse_ok(cs, k, pool, parse_term_spec(cs, k, pool), false),
        names_ok(parse_term_spec(cs, k, pool)),
{
    lemma_parse_app(cs, k, pool);
}

/// Two parses agree on everything but the pool and the indices it gives:
/// both succeed and stop at the same place, or both fail with the same error.
pub open spec fn same_outcome(r1: ParseResult, r2: ParseResult) -> bool {
    match (r1, r2) {
        (Ok((_, k1, _)), Ok((_, k2, _))) => k1 == k2,
        (Err((e1, _)), Err((e2, _))) => e1 == e2,
        _ => false,
    }
}

proof fn lemma_atom_outcome(cs: Seq<char>, k: int, p1: Seq<Seq<char>>, p2: Seq<Seq<char>>)
    requires
        0 <= k <= cs.len(),
    ensures
        same_outcome(parse_atom_spec(cs, k, p1), parse_atom_spec(cs, k, p2)),
    decreases cs.len() - k, 0int,
{
    let t = scan(cs, k);
    lemma_scan(cs, k);
    if t.kind == TokenKind::Lambda {
        let t2 = scan(cs, t.end);
        lemma_scan(cs, t.end);
        if t2.kind == TokenKind::Ident {
            let t3 = scan(cs, t2.end);
            lemma_scan(cs, t2.end);
            if t3.kind == TokenKind::Dot {
                let name = cs.subrange(t2.start, t2.end);
                lemma_app_outcome(cs, t3.end, intern(p1, name).1, intern(p2, name).1);
            }
        }
    } else if t.kind == TokenKind::LParen {
        lemma_app_outcome(cs, t.end, p1, p2);
    }
}

proof fn lemma_app_outcome(cs: Seq<char>, k: int, p1: Seq<Seq<char>>, p2: Seq<Seq<char>>)
    requires
        0 <= k <= cs.len(),
    ensures
        same_outcome(parse_app_spec(cs, k, p1), parse_app_spec(cs, k, p2)),
    decreases cs.len() - k, 1int,
{
    lemma_atom_outcome(cs, k, p1, p2);
    match (parse_atom_spec(cs, k, p1), parse_atom_spec(cs, k, p2)) {
        (Ok((l1, k1, q1)), Ok((l2, k2, q2))) => {
            if k < k1 <= cs.len() {
                lemma_rest_outcome(cs, k1, q1, q2, l1, l2);
            }
        },
        _ => {},
    }
}

proof fn lemma_rest_outcome(
    cs: Seq<char>,
    k: int,
    p1: Seq<Seq<char>>,
    p2: Seq<Seq<char>>,
    left1: Term,
    left2: Term,
)
    requires
        0 <= k <= cs.len(),
    ensures
        same_outcome(parse_app_rest_spec(cs, k, p1, left1), parse_app_rest_spec(cs, k, p2, left2)),
    decreases cs.len() - k, 2int,
{
    if atom_start(scan(cs, k).kind) {
        lemma_atom_outcome(cs, k, p1, p2);
        match (parse_atom_spec(cs, k, p1), parse_atom_spec(cs, k, p2)) {
            (Ok((r1, k1, q1)), Ok((r2, k2, q2))) => {
                if k < k1 <= cs.len() {
                    lemma_rest_outcome(
                        cs,
                        k1,
                        q1,
                        q2,
                        Term::App { left: Box::new(left1), right: Box::new(r1) },
                        Term::App { left: Box::new(left2), right: Box::new(r2) },
                    );
                }
            },
            _ => {},
        }
    }
}

/// Whether a parse fails, and with which error, does not depend on the pool.
pub proof fn lemma_parse_errors_ignore_pool(cs: Seq<char>, k: int, p1: Seq<Seq<char>>, p2: Seq<Seq<char>>)
    requires
        0 <= k <= cs.len(),
    ensures
        same_outcome(parse_term_spec(cs, k, p1), parse_term_spec(cs, k, p2)),
{
    lemma_app_outcome(cs, k, p1, p2);
}

// ---------------------------------------------------------------------------
// The parser
// ---------------------------------------------------------------------------

/// A recursive-descent parser over the tokens of a lexer.
#[derive(Debug, Clone)]
pub struct Parser {
    lexer: Lexer,
}

impl Parser {
    /// The characters of the input.
    pub closed spec fn input(&self) -> Seq<char> {
        self.lexer.input()
    }

    /// The character index after which the current token was looked for.
    pub closed spec fn from(&self) -> int {
        self.lexer.from()
    }

    /// The parser's invariant.
    pub closed spec fn wf(&self) -> bool {
        self.lexer.wf()
    }

    pub fn new(code: &str) -> (res: Self)
        ensures
            res.wf(),
            res.input() == code@,
            res.from() == 0,
    {
        Self { lexer: Lexer::new(code) }
    }

    /// Parses a whole term, which must take the rest of the input.
    pub fn parse_term(&mut self, string_pool: &mut StringPool) -> (res: Result<Term, InterpreterError>)
        requires
            old(self).wf(),
            old(string_pool).wf(),
        ensures
            final(self).wf(),
            final(self).input() == old(self).input(),
            final(string_pool).wf(),
            match parse_term_spec(old(self).input(), old(self).from(), old(string_pool)@) {
                Ok((t, k, p)) => res == Ok::<Term, InterpreterError>(t) && final(string_pool)@ == p,
                Err((e, p)) => res matches Err(e2) && e2@ == e && final(string_pool)@ == p,
            },
            res matches Ok(t) ==> t.names_below(final(string_pool)@.len()),
    {
        proof {
            self.lexer.lemma_wf();
            lemma_parse_term(self.input(), self.from(), string_pool@);
        }
        let term = match self.parse_app(string_pool) {
            Ok(t) => t,
            Err(e) => return Err(e),
        };
        proof {
            string_pool.lemma_len_bound();
        }
        let token = self.lexer.peek();
        if token.kind() != TokenKind::Eof {
            return Err(self.get_unexpected_token_err(token, "identifier, 'λ', '('"));
        }
        Ok(term)
    }

    fn parse_atom(&mut self, string_pool: &mut StringPool) -> (res: Result<Term, InterpreterError>)
        requires
            old(self).wf(),
            old(string_pool).wf(),
        ensures
            final(self).wf(),
            final(self).input() == old(self).input(),
            final(string_pool).wf(),
            match parse_atom_spec(old(self).input(), old(self).from(), old(string_pool)@) {
                Ok((t, k, p)) => res == Ok::<Term, InterpreterError>(t) && final(self).from() == k
                    && final(string_pool)@ == p,
                Err((e, p)) => res matches Err(e2) && e2@ == e && final(string_pool)@ == p,
            },
        decreases old(self).input().len() - old(self).from(), 0int,
    {
        let ghost cs = self.input();
        let ghost k = self.from();
        proof {
            self.lexer.lemma_wf();
            lemma_scan(cs, k);
        }
        let token = self.lexer.peek();
        let kind = token.kind();
        if kind == TokenKind::Ident {
            let id = self.lexer.get_str_by_span(token.span());
            proof {
                assert(id@ == cs.subrange(scan(cs, k).start, scan(cs, k).end));
            }
            let term = Term::Var(string_pool.get_index(id.as_str()));
            self.lexer.advance();
            Ok(term)
        } else if kind == TokenKind::Lambda {
            self.lexer.advance();
            let ghost k1 = self.from();
            proof {
                lemma_scan(cs, k1);
            }
            let next_token = self.lexer.peek();
            if next_token.kind() != TokenKind::Ident {
                return Err(self.get_unexpected_token_err(next_token, "identifier"));
            }
            let id = self.lexer.get_str_by_span(next_token.span());
            proof {
                assert(id@ == cs.subrange(scan(cs, k1).start, scan(cs, k1).end));
            }
            let string_idx = string_pool.get_index(id.as_str());
            self.lexer.advance();
            let ghost k2 = self.from();
            proof {
                lemma_scan(cs, k2);
            }
            let next_token = self.lexer.peek();
            if next_token.kind() != TokenKind::Dot {
                return Err(self.get_unexpected_token_err(next_token, "'.'"));
            }
            self.lexer.advance();
            let body = match self.parse_app(string_pool) {
                Ok(b) => b,
                Err(e) => return Err(e),
            };
            Ok(Term::Lambda { param: string_idx, body: Box::new(body) })
        } else if kind == TokenKind::LParen {
            self.lexer.advance();
            let tmp = match self.parse_app(string_pool) {
                Ok(t) => t,
                Err(e) => return Err(e),
            };
            proof {
                self.lexer.lemma_wf();
                lemma_scan(cs, self.from());
            }
            let next_token = self.lexer.peek();
            if next_token.kind() != TokenKind::RParen {
                return Err(self.get_unexpected_token_err(next_token, "')'"));
            }
            self.lexer.advance();
            Ok(tmp)
        } else {
            Err(self.get_unexpected_token_err(token, "identifier, 'λ', '('"))
        }
    }

    fn parse_app(&mut self, string_pool: &mut StringPool) -> (res: Result<Term, InterpreterError>)
        requires
            old(self).wf(),
            old(string_pool).wf(),
        ensures
            final(self).wf(),
            final(self).input() == old(self).input(),
            final(string_pool).wf(),
            match parse_app_spec(old(self).input(), old(self).from(), old(string_pool)@) {
                Ok((t, k, p)) => res == Ok::<Term, InterpreterError>(t) && final(self).from() == k
                    && final(string_pool)@ == p,
                Err((e, p)) => res matches Err(e2) && e2@ == e && final(string_pool)@ == p,
            },
        decreases old(self).input().len() - old(self).from(), 1int,
    {
        let ghost cs = self.input();
        let ghost k0 = self.from();
        proof {
            self.lexer.lemma_wf();
            lemma_parse_atom(cs, k0, string_pool@);
        }
        let mut left = match self.parse_atom(string_pool) {
            Ok(t) => t,
            Err(e) => return Err(e),
        };
        proof {
            self.lexer.lemma_wf();
        }
        while Self::is_atom_start(self.lexer.peek().kind())
            invariant
                self.wf(),
                self.input() == cs,
                old(self).input() == cs,
                old(self).from() == k0,
                string_pool.wf(),
                k0 < self.from() <= cs.len(),
                0 <= k0 <= cs.len(),
                parse_app_spec(cs, k0, old(string_pool)@) == parse_app_rest_spec(
                    cs,
                    self.from(),
                    string_pool@,
                    left,
                ),
            decreases cs.len() - self.from(),
        {
            let ghost k = self.from();
            proof {
                self.lexer.lemma_wf();
                lemma_parse_atom(cs, k, string_pool@);
            }
            let right = match self.parse_atom(string_pool) {
                Ok(t) => t,
                Err(e) => return Err(e),
            };
            left = Term::App { left: Box::new(left), right: Box::new(right) };
            proof {
                self.lexer.lemma_wf();
            }
        }
        Ok(left)
    }

    fn is_atom_start(kind: TokenKind) -> (res: bool)
        ensures
            res == atom_start(kind),
    {
        kind == TokenKind::Lambda || kind == TokenKind::LParen || kind == TokenKind::Ident
    }

    /// The error for `token`, the current token, when `expect` was expected.
    fn get_unexpected_token_err(&self, token: &Token, expect: &'static str) -> (res: InterpreterError)
        requires
            self.wf(),
            token.span_of().start == scan_span(self.input(), self.from()).0,
            token.span_of().end == scan_span(self.input(), self.from()).1,
        ensures
            res@ == unexpected(self.input(), self.from(), expect@),
    {
        let ghost cs = self.input();
        let ghost k = self.from();
        proof {
            self.lexer.lemma_wf();
            lemma_scan(cs, k);
            assert(on_boundaries(cs, token.span_of()));
        }
        InterpreterError::UnexpectedToken {
            found: self.lexer.get_str_by_span(token.span()),
            expect,
            index: token.span().start,
        }
    }
}

} // verus!
