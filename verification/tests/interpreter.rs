use lambda::error::InterpreterError;
use lambda::interpreter::{is_equivalent, Interpreter};
use lambda::term::NormalizedTerm;
use lambda::Term;

fn eval(interpreter: &mut Interpreter, code: &str) -> String {
    let term = interpreter.run(code).unwrap();
    let term = interpreter.normalize(term).unwrap();
    interpreter.format_term(&term)
}

#[test]
fn run_and_normalize_constant_function() {
    let mut interpreter = Interpreter::new();
    assert_eq!(eval(&mut interpreter, "(λx.λy.x) a b"), "a");
}

#[test]
fn run_and_normalize_nested_application() {
    let mut interpreter = Interpreter::new();
    assert_eq!(eval(&mut interpreter, "(λx.λy.x) ((λx.λy.y a) b)"), "λy.λy.y a");
}

#[test]
fn run_and_normalize_identity_on_identity() {
    let mut interpreter = Interpreter::new();
    assert_eq!(eval(&mut interpreter, "(λx.x) λx.x"), "λx.x");
}

#[test]
fn shadowed_binder_is_kept() {
    let mut interpreter = Interpreter::new();
    assert_eq!(eval(&mut interpreter, "λx.λx.x x"), "λx.λx.x x");
}

#[test]
fn reduction_inside_argument() {
    let mut interpreter = Interpreter::new();
    assert_eq!(eval(&mut interpreter, "(λx. (λy. y) x) z"), "z");
}

#[test]
fn substitution_renames_to_avoid_capture() {
    let mut interpreter = Interpreter::new();
    assert_eq!(
        eval(&mut interpreter, "(λx. λy. x y λy. y) y"),
        "λy$0.(y y$0) (λy$1.y$1)"
    );
}

#[test]
fn eta_reduction() {
    let mut interpreter = Interpreter::new();
    assert_eq!(eval(&mut interpreter, "λx.f x"), "f");
}

#[test]
fn no_eta_reduction_when_parameter_is_free_in_function() {
    let mut interpreter = Interpreter::new();
    assert_eq!(eval(&mut interpreter, "λx.x x"), "λx.x x");
}

#[test]
fn eta_reduction_of_numeral_one() {
    let mut interpreter = Interpreter::new();
    assert_eq!(eval(&mut interpreter, "λs.λz.s z"), "λs.s");
}

#[test]
fn church_addition() {
    let mut interpreter = Interpreter::new();
    let sum = eval(
        &mut interpreter,
        "(λx.λy.λs.λz.x s (y s z)) (λs.λz.s z) (λs.λz.s z)",
    );
    let two = eval(&mut interpreter, "λs.λz.s (s z)");
    assert_eq!(sum, two);
}

#[test]
fn equivalent_up_to_renaming() {
    let mut interpreter = Interpreter::new();
    assert!(is_equivalent(&mut interpreter, "λx.x z", "λy.y z").unwrap());
}

#[test]
fn not_equivalent_with_different_free_variables() {
    let mut interpreter = Interpreter::new();
    assert!(!is_equivalent(&mut interpreter, "λx.x u", "λy.y v").unwrap());
}

#[test]
fn not_equivalent_with_swapped_binders() {
    let mut interpreter = Interpreter::new();
    assert!(!is_equivalent(&mut interpreter, "λx.λy.x y", "λy.λx.x y").unwrap());
}

#[test]
fn not_equivalent_with_shadowing() {
    let mut interpreter = Interpreter::new();
    assert!(!is_equivalent(&mut interpreter, "λx.λx.x", "λy.λx.y").unwrap());
}

#[test]
fn equivalence_is_reflexive_symmetric_transitive() {
    let mut interpreter = Interpreter::new();
    let a = interpreter.run("λa.λb.a (b c)").unwrap();
    let a = interpreter.normalize(a).unwrap();
    let b = interpreter.run("λp.λq.p (q c)").unwrap();
    let b = interpreter.normalize(b).unwrap();
    let c = interpreter.run("λu.λv.u (v c)").unwrap();
    let c = interpreter.normalize(c).unwrap();
    assert!(Interpreter::equivalent(&a, &a));
    assert!(Interpreter::equivalent(&a, &b));
    assert!(Interpreter::equivalent(&b, &a));
    assert!(Interpreter::equivalent(&b, &c));
    assert!(Interpreter::equivalent(&a, &c));
}

#[test]
fn run_does_not_reduce_under_lambda() {
    let mut interpreter = Interpreter::new();
    let term = interpreter.run("λx.(λy.y) x").unwrap();
    assert_eq!(interpreter.format_term(&term), "λx.(λy.y) x");
    let term = interpreter.normalize(term).unwrap();
    assert_eq!(interpreter.format_term(&term), "λx.x");
}

#[test]
fn run_result_is_weak_head_normal() {
    let mut interpreter = Interpreter::new();
    let term = interpreter.run("f ((λx.x) a) ((λx.λy.y) b)").unwrap();
    assert_eq!(interpreter.format_term(&term), "(f ((λx.x) a)) ((λx.λy.y) b)");
    let term = interpreter.normalize(term).unwrap();
    assert_eq!(interpreter.format_term(&term), "(f a) (λy.y)");
}

#[test]
fn normalize_is_idempotent() {
    let mut interpreter = Interpreter::new();
    let term = interpreter.run("(λx. λy. x y λy. y) y").unwrap();
    let once = interpreter.normalize(term).unwrap();
    let printed_once = interpreter.format_term(&once);
    let twice = interpreter.normalize(once.into_inner()).unwrap();
    assert_eq!(interpreter.format_term(&twice), printed_once);
}

#[test]
fn rename_counter_restarts_with_each_run() {
    let mut interpreter = Interpreter::new();
    let first = eval(&mut interpreter, "(λx. λy. x y) y");
    let second = eval(&mut interpreter, "(λx. λy. x y) y");
    assert_eq!(first, "y");
    assert_eq!(first, second);
    let third = eval(&mut interpreter, "(λx. λy. y x) y");
    assert_eq!(third, "λy$0.y$0 y");
}

#[test]
fn format_parenthesises_nested_terms() {
    let mut interpreter = Interpreter::new();
    let term = interpreter.run("(a b) (c d) λx.x").unwrap();
    assert_eq!(interpreter.format_term(&term), "((a b) (c d)) (λx.x)");
}

fn unexpected(err: InterpreterError) -> (String, &'static str, usize) {
    match err {
        InterpreterError::UnexpectedToken { found, expect, index } => (found, expect, index),
        InterpreterError::ReductionLimit => panic!("not a syntax error"),
    }
}

#[test]
fn error_missing_identifier_after_lambda() {
    let mut interpreter = Interpreter::new();
    let err = interpreter.run("λ").unwrap_err();
    assert_eq!(unexpected(err), (String::new(), "identifier", 2));
}

#[test]
fn error_missing_dot() {
    let mut interpreter = Interpreter::new();
    let err = interpreter.run("λx x").unwrap_err();
    assert_eq!(unexpected(err), ("x".to_string(), "'.'", 4));
}

#[test]
fn error_missing_closing_paren() {
    let mut interpreter = Interpreter::new();
    let err = interpreter.run("(a b").unwrap_err();
    assert_eq!(unexpected(err), (String::new(), "')'", 4));
}

#[test]
fn error_trailing_token() {
    let mut interpreter = Interpreter::new();
    let err = interpreter.run("a )").unwrap_err();
    assert_eq!(unexpected(err), (")".to_string(), "identifier, 'λ', '('", 2));
}

#[test]
fn error_empty_input() {
    let mut interpreter = Interpreter::new();
    let err = interpreter.run("").unwrap_err();
    assert_eq!(unexpected(err), (String::new(), "identifier, 'λ', '('", 0));
}

#[test]
fn error_unknown_character() {
    let mut interpreter = Interpreter::new();
    let err = interpreter.run("λx.x #").unwrap_err();
    assert_eq!(unexpected(err), ("#".to_string(), "identifier, 'λ', '('", 6));
}

#[test]
fn error_message_text() {
    let mut interpreter = Interpreter::new();
    let err = interpreter.run("λ").unwrap_err();
    assert_eq!(
        err.message(),
        "Syntax error: Expected identifier, found \"\" at byte index 2"
    );
    assert_eq!(
        InterpreterError::ReductionLimit.message(),
        "Reduction limit exceeded"
    );
}

#[test]
fn is_equivalent_reports_syntax_errors() {
    let mut interpreter = Interpreter::new();
    let err = is_equivalent(&mut interpreter, "λx.x", "(").unwrap_err();
    assert_eq!(unexpected(err), (String::new(), "identifier, 'λ', '('", 1));
}

#[test]
fn unicode_identifiers_and_byte_indices() {
    let mut interpreter = Interpreter::new();
    assert_eq!(eval(&mut interpreter, "(λα.α) βγ"), "βγ");
    let err = interpreter.run("αβ ?").unwrap_err();
    assert_eq!(unexpected(err), ("?".to_string(), "identifier, 'λ', '('", 5));
}

#[test]
fn whitespace_of_several_kinds_is_skipped() {
    let mut interpreter = Interpreter::new();
    assert_eq!(eval(&mut interpreter, "\t(λx.\n x)\r\n  y "), "y");
}

#[test]
fn normalized_term_wrapper() {
    let wrapped = NormalizedTerm::new_unchecked(Term::Var(3));
    assert!(matches!(*wrapped, Term::Var(3)));
    assert!(matches!(wrapped.as_ref(), Term::Var(3)));
    assert!(matches!(wrapped.as_term(), Term::Var(3)));
    assert!(matches!(wrapped.clone().into_inner(), Term::Var(3)));
}

#[test]
fn term_clone_is_deep_copy() {
    let term = Term::App {
        left: Box::new(Term::Lambda { param: 0, body: Box::new(Term::Var(0)) }),
        right: Box::new(Term::Var(1)),
    };
    let copy = term.clone();
    match copy {
        Term::App { left, right } => {
            assert!(matches!(*left, Term::Lambda { param: 0, .. }));
            assert!(matches!(*right, Term::Var(1)));
        }
        _ => panic!("clone changed the term"),
    }
}

#[test]
fn code_is_equivalent_to_itself() {
    let mut interpreter = Interpreter::new();
    let code = "(λx. λy. x y λy. y) y";
    assert!(is_equivalent(&mut interpreter, code, code).unwrap());
    let first = eval(&mut interpreter, code);
    let second = eval(&mut interpreter, code);
    assert_eq!(first, second);
}

#[test]
fn no_eta_reduction_when_parameter_occurs_in_nested_lambda_sibling() {
    let mut interpreter = Interpreter::new();
    assert_eq!(eval(&mut interpreter, "λx.x (λx.x) x"), "λx.(x (λx.x)) x");
}

#[test]
fn free_variable_of_argument_is_not_captured() {
    let mut interpreter = Interpreter::new();
    let term = interpreter.run("(λy.λx.y) (x (λx.x))").unwrap();
    assert_eq!(interpreter.format_term(&term), "λx$0.x (λx.x)");
    assert_eq!(eval(&mut interpreter, "(λy.λx.y) (x (λx.x))"), "λx$0.x (λx.x)");
}

#[test]
fn closed_term_stays_closed() {
    let mut interpreter = Interpreter::new();
    assert_eq!(eval(&mut interpreter, "(λf.λx.f (f x)) (λy.λx.y)"), "λx.λx$0.λx$1.x");
}

#[test]
fn run_discards_an_unused_diverging_argument() {
    let mut interpreter = Interpreter::new();
    let term = interpreter.run("(λx.y) ((λx.x x) (λx.x x))").unwrap();
    assert!(matches!(term, Term::Var(_)));
    assert_eq!(interpreter.format_term(&term), "y");
}

#[test]
fn run_leaves_arguments_of_a_variable_unreduced() {
    let mut interpreter = Interpreter::new();
    let term = interpreter.run("f ((λx.x x) (λx.x x))").unwrap();
    assert_eq!(interpreter.format_term(&term), "f ((λx.x x) (λx.x x))");
}
