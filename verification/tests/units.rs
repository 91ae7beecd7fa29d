//! Unit tests of the scope chain, the scanner, and the value helpers.

use pl0::environment::Environment;
use pl0::parser::Stmt;
use pl0::error::RuntimeErrorKind;
use pl0::expressions::Expr;
use pl0::interpreter::{Interpreter, RuntimeValue};
use pl0::scanner::Scanner;
use pl0::token::{Literal, Token, TokenType};

fn ident(name: &str) -> Token {
    Token::new(
        TokenType::IDENTIFIER,
        name.as_bytes().to_vec(),
        Some(Literal::Identifier(name.as_bytes().to_vec())),
        1,
    )
}

#[test]
fn declare_then_get_is_unassigned() {
    let mut env = Environment::new();
    assert!(env.declare_var(ident("x")).is_ok());
    assert_eq!(env.get_var(ident("x")).unwrap(), None);
}

#[test]
fn declare_twice_in_one_scope_is_refused() {
    let mut env = Environment::new();
    assert!(env.declare_var(ident("x")).is_ok());
    let e = env.declare_var(ident("x")).unwrap_err();
    assert_eq!(e.kind, RuntimeErrorKind::DoubleDeclaration);
    assert_eq!(e.name.as_slice(), b"x");
}

#[test]
fn assign_updates_nearest_declaration() {
    let mut env = Environment::new();
    env.declare_var(ident("x")).unwrap();
    env.from_parent();
    // The child scope has no `x`; the assignment lands in the root scope.
    env.assign_var(ident("x"), Some(7)).unwrap();
    assert_eq!(env.get_var(ident("x")).unwrap(), Some(7));
    env.discard_scope();
    assert_eq!(env.get_var(ident("x")).unwrap(), Some(7));
}

#[test]
fn assign_to_undeclared_is_unbound() {
    let mut env = Environment::new();
    let e = env.assign_var(ident("ghostly"), Some(1)).unwrap_err();
    assert_eq!(e.kind, RuntimeErrorKind::UnboundName);
}

#[test]
fn assign_to_constant_is_refused() {
    let mut env = Environment::new();
    env.declare_const(ident("lim"), 5).unwrap();
    let e = env.assign_var(ident("lim"), Some(1)).unwrap_err();
    assert_eq!(e.kind, RuntimeErrorKind::ConstAssignment);
    // The constant still reads back unchanged.
    assert_eq!(env.get_var(ident("lim")).unwrap(), Some(5));
}

#[test]
fn constant_declared_twice_is_refused() {
    let mut env = Environment::new();
    env.declare_const(ident("c"), 1).unwrap();
    let e = env.declare_const(ident("c"), 2).unwrap_err();
    assert_eq!(e.kind, RuntimeErrorKind::DoubleDeclaration);
}

#[test]
fn inner_scope_shadows_then_reveals() {
    let mut env = Environment::new();
    env.declare_var(ident("x")).unwrap();
    env.assign_var(ident("x"), Some(1)).unwrap();
    env.from_parent();
    env.declare_var(ident("x")).unwrap();
    env.assign_var(ident("x"), Some(2)).unwrap();
    assert_eq!(env.get_var(ident("x")).unwrap(), Some(2));
    env.discard_scope();
    assert_eq!(env.get_var(ident("x")).unwrap(), Some(1));
}

#[test]
fn lookup_of_unknown_name_is_unbound() {
    let env = Environment::new();
    let e = env.get_var(ident("nobody")).unwrap_err();
    assert_eq!(e.kind, RuntimeErrorKind::UnboundName);
}

#[test]
fn procedures_resolve_through_the_chain() {
    let mut env = Environment::new();
    env.define_proc(ident("p"), Vec::new()).unwrap();
    env.from_parent();
    assert!(env.get_proc(ident("p")).unwrap().is_empty());
    let e = env.get_proc(ident("q")).unwrap_err();
    assert_eq!(e.kind, RuntimeErrorKind::UndefinedProcedure);
    let e = env.define_proc(ident("q"), Vec::new());
    assert!(e.is_ok());
    let e = env.define_proc(ident("q"), Vec::new()).unwrap_err();
    assert_eq!(e.kind, RuntimeErrorKind::DoubleDeclaration);
}

#[test]
fn scanner_tokenizes_assignment() {
    let mut scanner = Scanner::new(b"total := 42".to_vec());
    let tokens = scanner.scan_tokens();
    let kinds: Vec<TokenType> = tokens.iter().map(|t| t.kind).collect();
    assert_eq!(
        kinds,
        vec![TokenType::IDENTIFIER, TokenType::COLON_EQU, TokenType::NUMBER, TokenType::EOF]
    );
    assert_eq!(tokens[0].lexeme.as_slice(), b"total");
    assert!(matches!(tokens[2].literal, Some(Literal::Number(42))));
}

#[test]
fn scanner_applies_maximal_munch() {
    let mut scanner = Scanner::new(b"<= < >= > == = != !".to_vec());
    let tokens = scanner.scan_tokens();
    let kinds: Vec<TokenType> = tokens.iter().map(|t| t.kind).collect();
    assert_eq!(
        kinds,
        vec![
            TokenType::LESS_EQU,
            TokenType::LESS,
            TokenType::MORE_EQU,
            TokenType::MORE,
            TokenType::EQU_EQU,
            TokenType::EQU,
            TokenType::BANG_EQU,
            TokenType::BANG,
            TokenType::EOF,
        ]
    );
}

#[test]
fn scanner_recognizes_every_keyword() {
    let mut scanner =
        Scanner::new(b"var const begin end while do if then procedure call odd other".to_vec());
    let tokens = scanner.scan_tokens();
    let kinds: Vec<TokenType> = tokens.iter().map(|t| t.kind).collect();
    assert_eq!(
        kinds,
        vec![
            TokenType::VAR,
            TokenType::CONST,
            TokenType::BEGIN,
            TokenType::END,
            TokenType::WHILE,
            TokenType::DO,
            TokenType::IF,
            TokenType::THEN,
            TokenType::PROCEDURE,
            TokenType::CALL,
            TokenType::ODD,
            TokenType::IDENTIFIER,
            TokenType::EOF,
        ]
    );
}

#[test]
fn scanner_counts_lines() {
    let mut scanner = Scanner::new(b"1\n2\n3".to_vec());
    let tokens = scanner.scan_tokens();
    assert_eq!(tokens[0].line, 1);
    assert_eq!(tokens[1].line, 2);
    assert_eq!(tokens[2].line, 3);
}

#[test]
fn runtime_value_accessors_classify() {
    assert_eq!(RuntimeValue::Value(5).as_value(), Some(5));
    assert_eq!(RuntimeValue::Boolean(true).as_value(), None);
    assert_eq!(RuntimeValue::Boolean(true).as_bool(), Some(true));
    assert_eq!(RuntimeValue::Value(5).as_bool(), None);
    let v = RuntimeValue::from_literal(&Literal::Identifier(b"n".to_vec()));
    assert_eq!(v.as_ident().unwrap().as_slice(), b"n");
    assert!(RuntimeValue::Value(1).as_ident().is_none());
}

#[test]
fn evaluating_payloadless_literal_is_a_type_mismatch() {
    // A literal token without a payload is outside what the parser ever
    // produces; evaluation refuses it rather than halting the process.
    let runtime = Interpreter::new();
    let bare = Token::new(TokenType::NUMBER, b"1".to_vec(), None, 1);
    let e = runtime.evaluate(&Expr::Literal(bare)).unwrap_err();
    assert_eq!(e.kind, RuntimeErrorKind::TypeMismatch);
}

#[test]
fn interpreter_executes_statements_against_its_chain() {
    let mut runtime = Interpreter::new();
    let decl = Stmt::Var(vec![ident("n")]);
    let assign = Stmt::Assign(
        ident("n"),
        Expr::Literal(Token::new(TokenType::NUMBER, b"9".to_vec(), Some(Literal::Number(9)), 1)),
    );
    let show = Stmt::PrintVar(ident("n"));
    assert!(runtime.interpret(vec![decl, assign, show], 10).is_ok());
    assert_eq!(runtime.output.len(), 1);
    match &runtime.output[0] {
        pl0::interpreter::OutputEvent::PrintVar(name, value) => {
            assert_eq!(name.as_slice(), b"n");
            assert_eq!(*value, Some(9));
        }
        other => panic!("expected a variable print, got {:?}", other),
    }
}
