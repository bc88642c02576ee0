use lambda::lexer::{len_utf8, Lexer, Span, Token, TokenKind};
use lambda::parser::Parser;
use lambda::string_pool::StringPool;
use lambda::Term;

fn tokens(input: &str) -> Vec<(TokenKind, usize, usize)> {
    let mut lexer = Lexer::new(input);
    let mut out = Vec::new();
    loop {
        let token = lexer.peek();
        out.push((token.kind(), token.span().start, token.span().end));
        if token.kind() == TokenKind::Eof {
            break;
        }
        lexer.advance();
    }
    out
}

#[test]
fn lexes_all_token_kinds() {
    assert_eq!(
        tokens("λx. (y_1) ?"),
        vec![
            (TokenKind::Lambda, 0, 2),
            (TokenKind::Ident, 2, 3),
            (TokenKind::Dot, 3, 4),
            (TokenKind::LParen, 5, 6),
            (TokenKind::Ident, 6, 9),
            (TokenKind::RParen, 9, 10),
            (TokenKind::Error, 11, 12),
            (TokenKind::Eof, 12, 12),
        ]
    );
}

#[test]
fn lambda_inside_identifier_continues_it() {
    assert_eq!(
        tokens("xλ"),
        vec![(TokenKind::Ident, 0, 3), (TokenKind::Eof, 3, 3)]
    );
}

#[test]
fn eof_repeats() {
    let mut lexer = Lexer::new("  ");
    assert_eq!(lexer.peek().kind(), TokenKind::Eof);
    lexer.advance();
    assert_eq!(lexer.peek().kind(), TokenKind::Eof);
    assert_eq!(lexer.peek().span(), Span::new(2, 2));
}

#[test]
fn text_of_span() {
    let lexer = Lexer::new("ab λcd e");
    assert_eq!(lexer.get_str_by_span(Span::new(5, 7)), "cd");
    assert_eq!(lexer.get_str_by_span(Span::new(3, 5)), "λ");
    assert_eq!(lexer.get_str_by_span(Span::new(0, 0)), "");
}

#[test]
fn token_accessors() {
    let token = Token::new(TokenKind::Dot, Span::new(4, 5));
    assert_eq!(token.kind(), TokenKind::Dot);
    assert_eq!(token.span(), Span { start: 4, end: 5 });
}

#[test]
fn utf8_widths() {
    assert_eq!(len_utf8('a'), 1);
    assert_eq!(len_utf8('λ'), 2);
    assert_eq!(len_utf8('€'), 3);
    assert_eq!(len_utf8('😀'), 4);
}

#[test]
fn parser_builds_left_nested_applications() {
    let mut pool = StringPool::new();
    let mut parser = Parser::new("a b c");
    let term = parser.parse_term(&mut pool).unwrap();
    match term {
        Term::App { left, right } => {
            assert!(matches!(*right, Term::Var(2)));
            match *left {
                Term::App { left, right } => {
                    assert!(matches!(*left, Term::Var(0)));
                    assert!(matches!(*right, Term::Var(1)));
                }
                _ => panic!("expected an application"),
            }
        }
        _ => panic!("expected an application"),
    }
    assert_eq!(pool.get_str(2), "c");
}

#[test]
fn parser_lambda_body_extends_right() {
    let mut pool = StringPool::new();
    let mut parser = Parser::new("λx.x y");
    let term = parser.parse_term(&mut pool).unwrap();
    match term {
        Term::Lambda { param, body } => {
            assert_eq!(param, 0);
            assert!(matches!(*body, Term::App { .. }));
        }
        _ => panic!("expected a lambda"),
    }
}

#[test]
fn parser_interns_names_before_an_error() {
    let mut pool = StringPool::new();
    let mut parser = Parser::new("a b )");
    assert!(parser.parse_term(&mut pool).is_err());
    assert_eq!(pool.len(), 2);
    assert_eq!(pool.get_str(1), "b");
}
