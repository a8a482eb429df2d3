use lox::environment::Environment;
use lox::errors::CompileError;
use lox::expr::{Expr, Value};
use lox::parser::Parser;
use lox::scanner::Scanner;
use lox::token::{Literal, Token, TokenType};

fn name(s: &str) -> Token {
    Token::new(TokenType::Identifier, Literal::Nothing, s.to_string(), (0, s.len()))
}

fn number(v: &Value) -> i64 {
    match v {
        Value::Number(n) => *n,
        other => panic!("expected a number, got {:?}", other),
    }
}

fn parse_expression(source: &str) -> Expr {
    let tokens = Scanner::new(source).scan_tokens().unwrap();
    Parser::new(tokens).expression().unwrap()
}

#[test]
fn block_binding_is_gone_after_pop() {
    let mut env = Environment::new();
    env.define(&name("y"), Value::Number(1));
    env.push_scope(None);
    env.define(&name("x"), Value::Number(2));
    env.define(&name("y"), Value::Number(3));
    assert_eq!(number(&env.get(&name("y")).unwrap()), 3);
    env.pop_scope();
    assert!(env.get(&name("x")).is_err());
    assert_eq!(number(&env.get(&name("y")).unwrap()), 1);
}

#[test]
fn assign_writes_the_nearest_binding() {
    let mut env = Environment::new();
    env.define(&name("c"), Value::Number(0));
    let outer = env.current();
    env.push_scope(None);
    env.assign(&name("c"), Value::Number(5)).unwrap();
    env.restore(outer);
    assert_eq!(number(&env.get(&name("c")).unwrap()), 5);
    match env.assign(&name("zz"), Value::Nil) {
        Err(CompileError::Interpreter(_, msg)) => assert_eq!(msg, "Undefined variable: zz."),
        other => panic!("unexpected {:?}", other),
    }
}

#[test]
fn call_scope_reads_the_captured_scope() {
    let mut env = Environment::new();
    env.define(&name("c"), Value::Number(7));
    let captured = env.current();
    env.push_scope(None);
    env.define(&name("c"), Value::Number(100));
    env.push_scope(Some(captured));
    assert_eq!(number(&env.get(&name("c")).unwrap()), 7);
}

#[test]
fn from_opens_an_enclosed_scope() {
    let mut env = Environment::new();
    env.define(&name("a"), Value::Number(1));
    let mut inner = Environment::from(env);
    inner.define(&name("a"), Value::Number(2));
    assert_eq!(number(&inner.get(&name("a")).unwrap()), 2);
    inner.pop_scope();
    assert_eq!(number(&inner.get(&name("a")).unwrap()), 1);
}

#[test]
fn value_operations() {
    assert_eq!(number(&Value::Number(2).add(Value::Number(3)).unwrap()), 5);
    assert_eq!(number(&Value::Number(2).sub(Value::Number(3)).unwrap()), -1);
    assert_eq!(number(&Value::Number(4).mul(Value::Number(3)).unwrap()), 12);
    assert_eq!(number(&Value::Number(-9).div(Value::Number(2)).unwrap()), -4);
    assert_eq!(number(&Value::Number(4).neg().unwrap()), -4);
    assert!(Value::Number(i64::MIN).neg().is_err());
    assert!(Value::Number(i64::MIN).div(Value::Number(-1)).is_err());
    match Value::String("a".to_string()).add(Value::String("b".to_string())).unwrap() {
        Value::String(s) => assert_eq!(s, "ab"),
        other => panic!("unexpected {:?}", other),
    }
    assert!(!Value::Nil.is_truthy());
    assert!(!Value::Boolean(false).is_truthy());
    assert!(Value::Number(0).is_truthy());
    assert!(Value::String(String::new()).is_truthy());
}

#[test]
fn values_render() {
    assert_eq!(Value::Number(-120).render(), "-120");
    assert_eq!(Value::Number(0).render(), "0");
    assert_eq!(Value::Boolean(true).render(), "true");
    assert_eq!(Value::Nil.render(), "nil");
    assert_eq!(Value::String("hi".to_string()).render(), "hi");
}

#[test]
fn binary_operators_fold_left() {
    match parse_expression("1 - 2 - 3") {
        Expr::Binary(lhs, op, rhs) => {
            assert_eq!(op._type, TokenType::Minus);
            assert!(matches!(*rhs, Expr::Literal(Value::Number(3))));
            assert!(matches!(*lhs, Expr::Binary(_, _, _)));
        }
        other => panic!("unexpected {:?}", other),
    }
}

#[test]
fn factor_binds_tighter_than_term() {
    match parse_expression("1 + 2 * 3") {
        Expr::Binary(lhs, op, rhs) => {
            assert_eq!(op._type, TokenType::Plus);
            assert!(matches!(*lhs, Expr::Literal(Value::Number(1))));
            assert!(matches!(*rhs, Expr::Binary(_, _, _)));
        }
        other => panic!("unexpected {:?}", other),
    }
}

#[test]
fn assignment_nests_to_the_right() {
    match parse_expression("a = b = 1") {
        Expr::Assign(target, value) => {
            assert_eq!(target.lexeme, "a");
            assert!(matches!(*value, Expr::Assign(_, _)));
        }
        other => panic!("unexpected {:?}", other),
    }
}

#[test]
fn or_sits_below_and() {
    match parse_expression("a or b and c") {
        Expr::Logical(_, op, rhs) => {
            assert_eq!(op._type, TokenType::Or);
            assert!(matches!(*rhs, Expr::Logical(_, _, _)));
        }
        other => panic!("unexpected {:?}", other),
    }
}

#[test]
fn calls_chain_on_their_callee() {
    match parse_expression("f(1)(2, 3)") {
        Expr::Call(callee, paren, args) => {
            assert_eq!(args.len(), 2);
            assert_eq!(paren._type, TokenType::RightParen);
            assert!(matches!(*callee, Expr::Call(_, _, _)));
        }
        other => panic!("unexpected {:?}", other),
    }
}

#[test]
fn grouping_wraps_the_inner_expression() {
    assert!(matches!(parse_expression("(1)"), Expr::Grouping(_)));
}

#[test]
fn parse_all_recovers_after_each_fault() {
    let tokens = Scanner::new("var = 1; print 2; print ; var x = 3;").scan_tokens().unwrap();
    let (statements, errors) = Parser::new(tokens).parse_all();
    assert_eq!(errors.len(), 2);
    assert_eq!(statements.len(), 2);
    match &errors[0] {
        CompileError::Parser(_, msg) => assert_eq!(msg, "Expect variable name."),
        other => panic!("unexpected {:?}", other),
    }
}

#[test]
fn parse_stops_at_first_fault() {
    let tokens = Scanner::new("var = 1; print ;").scan_tokens().unwrap();
    match Parser::new(tokens).parse() {
        Err(CompileError::Parser(span, msg)) => {
            assert_eq!(msg, "Expect variable name.");
            assert_eq!(span, (4, 5));
        }
        other => panic!("unexpected {:?}", other),
    }
}

#[test]
fn leaving_an_uncaptured_scope_frees_it() {
    let mut env = Environment::new();
    let saved = env.current();
    let opened = env.len();
    env.push_scope(None);
    env.define(&name("t"), Value::Number(1));
    env.leave(opened, saved);
    assert_eq!(env.len(), 1);
    assert_eq!(env.current(), saved);
    assert!(env.get(&name("t")).is_err());
}

#[test]
fn a_captured_scope_outlives_its_block() {
    let mut env = Environment::new();
    let saved = env.current();
    let opened = env.len();
    env.push_scope(None);
    env.define(&name("kept"), Value::Number(9));
    env.capture();
    env.leave(opened, saved);
    assert_eq!(env.len(), 2);
    env.push_scope(Some(opened));
    assert_eq!(number(&env.get(&name("kept")).unwrap()), 9);
}

#[test]
fn define_replaces_in_the_same_scope() {
    let mut env = Environment::new();
    env.define(&name("x"), Value::Number(1));
    env.define(&name("x"), Value::Number(2));
    assert_eq!(number(&env.get(&name("x")).unwrap()), 2);
    assert_eq!(env.len(), 1);
}

#[test]
fn primary_literals_parse_to_themselves() {
    assert!(matches!(parse_expression("true"), Expr::Literal(Value::Boolean(true))));
    assert!(matches!(parse_expression("false"), Expr::Literal(Value::Boolean(false))));
    assert!(matches!(parse_expression("nil"), Expr::Literal(Value::Nil)));
}

#[test]
fn recovery_stops_before_a_keyword() {
    let tokens = Scanner::new("var 1 2 print 3;").scan_tokens().unwrap();
    let (statements, errors) = Parser::new(tokens).parse_all();
    assert_eq!(errors.len(), 1);
    assert_eq!(statements.len(), 1);
}
