//! The big-step semantics of the language: what evaluating an expression and running
//! a statement do to the world, with fuel bounding calls and loop iterations.
use vstd::prelude::*;

use crate::environment::{undefined_name, undefined_variable, Env};
use crate::errors::{runtime, Fault};
use crate::expr::{
    add_spec, display, div_spec, mul_spec, names_of, neg_spec, sub_spec, truthy, val_eq, Expr,
    UserFn, Val,
};
use crate::statements::Statement;
use crate::text::digits;
use crate::token::{Token, TokenType};

verus! {

/// What a running program is: its scopes, the lines it has printed, and the reading
/// of the clock that `clock()` returns.
pub struct World {
    pub env: Env,
    pub out: Seq<Seq<char>>,
    pub now: int,
}

/// An operation's failure reported at `span`.
pub open spec fn at(r: Result<Val, Seq<char>>, span: (usize, usize)) -> Result<Val, Fault> {
    match r {
        Ok(v) => Ok(v),
        Err(m) => Err(runtime(span, m)),
    }
}

pub open spec fn unexpected_operator() -> Seq<char> {
    "Unexpected operator"@
}

pub open spec fn not_callable() -> Seq<char> {
    "Not a callable object."@
}

pub open spec fn out_of_fuel() -> Seq<char> {
    "Step limit reached"@
}

pub open spec fn too_many_scopes() -> Seq<char> {
    "Too many scopes"@
}

pub open spec fn arity_message(expected: nat, got: nat) -> Seq<char> {
    "Expected "@ + digits(expected) + " arguments but got "@ + digits(got) + "."@
}

pub open spec fn unary_spec(op: Token, v: Val) -> Result<Val, Fault> {
    match op._type {
        TokenType::Minus => at(neg_spec(v), op.place),
        TokenType::Bang => Ok(Val::Bool(!truthy(v))),
        _ => Err(runtime(op.place, unexpected_operator())),
    }
}

/// The ordering operators, on numbers only.
pub open spec fn compare_spec(k: TokenType, a: Val, b: Val) -> Result<Val, Seq<char>> {
    match (a, b) {
        (Val::Num(x), Val::Num(y)) => Ok(
            Val::Bool(
                match k {
                    TokenType::Greater => x > y,
                    TokenType::GreaterEqual => x >= y,
                    TokenType::Less => x < y,
                    _ => x <= y,
                },
            ),
        ),
        _ => Err("Operands must be numbers."@),
    }
}

pub open spec fn binary_spec(k: TokenType, a: Val, b: Val) -> Result<Val, Seq<char>> {
    match k {
        TokenType::Minus => sub_spec(a, b),
        TokenType::Plus => add_spec(a, b),
        TokenType::Slash => div_spec(a, b),
        TokenType::Star => mul_spec(a, b),
        TokenType::Greater | TokenType::GreaterEqual | TokenType::Less | TokenType::LessEqual => compare_spec(k, a, b),
        TokenType::EqualEqual => Ok(Val::Bool(val_eq(a, b))),
        TokenType::BangEqual => Ok(Val::Bool(!val_eq(a, b))),
        _ => Err(unexpected_operator()),
    }
}

pub open spec fn is_callable(v: Val) -> bool {
    v is Native || v is User
}

/// The first `n` parameters bound to the first `n` arguments in the current scope.
pub open spec fn bind_params(e: Env, params: Seq<Seq<char>>, args: Seq<Val>, n: nat) -> Env
    decreases n,
{
    if n == 0 || n > params.len() || n > args.len() {
        e
    } else {
        bind_params(e, params, args, (n - 1) as nat).define(params[n - 1], args[n - 1])
    }
}

pub open spec fn with_env(w: World, e: Env) -> World {
    World { env: e, ..w }
}

/// The value a function declaration makes, capturing the current scope.
pub open spec fn declared(w: World, name: Token, params: Seq<Token>, body: Vec<Statement>) -> Val {
    Val::User(
        UserFn {
            name: name.lexeme@,
            params: names_of(params),
            body,
            closure: w.env.current,
        },
    )
}

/// Evaluation of an expression: the world afterwards and the value or the fault.
/// `fuel` bounds the depth of calls and the iterations of each loop.
pub open spec fn eval(w: World, e: Expr, fuel: nat) -> (World, Result<Val, Fault>)
    decreases fuel, e, 0nat,
{
    match e {
        Expr::Literal(v) => (w, Ok(v@)),
        Expr::Grouping(inner) => eval(w, *inner, fuel),
        Expr::Unary(op, rhs) => {
            let (w1, r) = eval(w, *rhs, fuel);
            match r {
                Err(f) => (w1, Err(f)),
                Ok(v) => (w1, unary_spec(op, v)),
            }
        },
        Expr::Binary(lhs, op, rhs) => {
            let (w1, a) = eval(w, *lhs, fuel);
            match a {
                Err(f) => (w1, Err(f)),
                Ok(a) => {
                    let (w2, b) = eval(w1, *rhs, fuel);
                    match b {
                        Err(f) => (w2, Err(f)),
                        Ok(b) => (w2, at(binary_spec(op._type, a, b), op.place)),
                    }
                },
            }
        },
        Expr::Logical(lhs, op, rhs) => {
            let (w1, a) = eval(w, *lhs, fuel);
            match a {
                Err(f) => (w1, Err(f)),
                Ok(a) => if (op._type == TokenType::Or) == truthy(a) {
                    (w1, Ok(a))
                } else {
                    eval(w1, *rhs, fuel)
                },
            }
        },
        Expr::Variable(n) => match w.env.lookup(n.lexeme@) {
            Some(v) => (w, Ok(v)),
            None => (w, Err(runtime(n.place, undefined_name(n.lexeme@)))),
        },
        Expr::Assign(n, rhs) => {
            let (w1, r) = eval(w, *rhs, fuel);
            match r {
                Err(f) => (w1, Err(f)),
                Ok(v) => match w1.env.assign(n.lexeme@, v) {
                    Some(env) => (with_env(w1, env), Ok(v)),
                    None => (w1, Err(runtime(n.place, undefined_variable(n.lexeme@)))),
                },
            }
        },
        Expr::Call(callee, paren, args) => {
            let (w1, c) = eval(w, *callee, fuel);
            match c {
                Err(f) => (w1, Err(f)),
                Ok(cv) => if !is_callable(cv) {
                    (w1, Err(runtime(paren.place, not_callable())))
                } else {
                    let (w2, a) = eval_args(w1, args, args@.len(), fuel);
                    match a {
                        Err(f) => (w2, Err(f)),
                        Ok(vals) => match cv {
                            Val::Native(_, arity) => if arity != vals.len() {
                                (w2, Err(runtime(paren.place, arity_message(arity, vals.len()))))
                            } else {
                                (w2, Ok(Val::Num(w2.now)))
                            },
                            Val::User(uf) => if uf.params.len() != vals.len() {
                                (
                                    w2,
                                    Err(
                                        runtime(
                                            paren.place,
                                            arity_message(uf.params.len(), vals.len()),
                                        ),
                                    ),
                                )
                            } else if fuel == 0 {
                                (w2, Err(runtime(paren.place, out_of_fuel())))
                            } else if w2.env.frames.len() >= usize::MAX {
                                (w2, Err(runtime(paren.place, too_many_scopes())))
                            } else {
                                let saved = w2.env.current;
                                let opened = w2.env.frames.len();
                                let inner = bind_params(
                                    w2.env.push(Some(uf.closure)),
                                    uf.params,
                                    vals,
                                    vals.len(),
                                );
                                let (w3, r) = exec_seq(
                                    with_env(w2, inner),
                                    uf.body,
                                    uf.body@.len(),
                                    (fuel - 1) as nat,
                                );
                                let w4 = with_env(w3, w3.env.leave(opened, saved));
                                match r {
                                    Err(f) => (w4, Err(f)),
                                    Ok(_) => (w4, Ok(Val::Nil)),
                                }
                            },
                            _ => (w2, Err(runtime(paren.place, not_callable()))),
                        },
                    }
                },
            }
        },
    }
}

/// Evaluation of the first `n` arguments, left to right.
pub open spec fn eval_args(w: World, args: Vec<Expr>, n: nat, fuel: nat) -> (
    World,
    Result<Seq<Val>, Fault>,
)
    decreases fuel, args, n,
{
    if n == 0 || n > args@.len() {
        (w, Ok(Seq::empty()))
    } else {
        let (w1, r) = eval_args(w, args, (n - 1) as nat, fuel);
        match r {
            Err(f) => (w1, Err(f)),
            Ok(vs) => {
                let (w2, x) = eval(w1, args@[n - 1], fuel);
                match x {
                    Err(f) => (w2, Err(f)),
                    Ok(v) => (w2, Ok(vs.push(v))),
                }
            },
        }
    }
}

/// Execution of the first `n` statements of `ss`, stopping at the first fault.
pub open spec fn exec_seq(w: World, ss: Vec<Statement>, n: nat, fuel: nat) -> (
    World,
    Result<(), Fault>,
)
    decreases fuel, ss, n,
{
    if n == 0 || n > ss@.len() {
        (w, Ok(()))
    } else {
        let (w1, r) = exec_seq(w, ss, (n - 1) as nat, fuel);
        match r {
            Err(f) => (w1, Err(f)),
            Ok(_) => exec(w1, ss@[n - 1], fuel),
        }
    }
}

/// Execution of a statement.
pub open spec fn exec(w: World, s: Statement, fuel: nat) -> (World, Result<(), Fault>)
    decreases fuel, s, fuel + 1,
{
    match s {
        Statement::Print(e) => {
            let (w1, r) = eval(w, e, fuel);
            match r {
                Err(f) => (w1, Err(f)),
                Ok(v) => (World { out: w1.out.push(display(v)), ..w1 }, Ok(())),
            }
        },
        Statement::Expresion(e) => {
            let (w1, r) = eval(w, e, fuel);
            match r {
                Err(f) => (w1, Err(f)),
                Ok(_) => (w1, Ok(())),
            }
        },
        Statement::Var(n, e) => {
            let (w1, r) = eval(w, e, fuel);
            match r {
                Err(f) => (w1, Err(f)),
                Ok(v) => (with_env(w1, w1.env.define(n.lexeme@, v)), Ok(())),
            }
        },
        Statement::Block(ss) => if w.env.frames.len() >= usize::MAX {
            (w, Err(runtime((0, 0), too_many_scopes())))
        } else {
            let saved = w.env.current;
            let opened = w.env.frames.len();
            let (w1, r) = exec_seq(with_env(w, w.env.push(None)), ss, ss@.len(), fuel);
            (with_env(w1, w1.env.leave(opened, saved)), r)
        },
        Statement::If(c, t, e) => {
            let (w1, r) = eval(w, c, fuel);
            match r {
                Err(f) => (w1, Err(f)),
                Ok(v) => if truthy(v) {
                    exec(w1, *t, fuel)
                } else {
                    match e {
                        Some(e) => exec(w1, *e, fuel),
                        None => (w1, Ok(())),
                    }
                },
            }
        },
        Statement::While(_, _) => run_while(w, s, fuel, fuel),
        Statement::Function(n, ps, b) => (
            with_env(w, w.env.capture().define(n.lexeme@, declared(w, n, (*ps)@, *b))),
            Ok(()),
        ),
    }
}

/// A `while` loop allowed `budget` more iterations.
pub open spec fn run_while(w: World, s: Statement, fuel: nat, budget: nat) -> (
    World,
    Result<(), Fault>,
)
    decreases fuel, s, budget,
{
    match s {
        Statement::While(c, body) => if budget == 0 {
            (w, Err(runtime((0, 0), out_of_fuel())))
        } else {
            let (w1, r) = eval(w, c, fuel);
            match r {
                Err(f) => (w1, Err(f)),
                Ok(v) => if !truthy(v) {
                    (w1, Ok(()))
                } else {
                    let (w2, r2) = exec(w1, *body, fuel);
                    match r2 {
                        Err(f) => (w2, Err(f)),
                        Ok(_) => run_while(w2, s, fuel, (budget - 1) as nat),
                    }
                },
            }
        },
        _ => (w, Ok(())),
    }
}

/// Parentheses do not change what an expression evaluates to, nor what it does.
pub proof fn lemma_grouping_transparent(w: World, e: Expr, fuel: nat)
    ensures
        eval(w, Expr::Grouping(Box::new(e)), fuel) == eval(w, e, fuel),
{
}

/// `a or b` with `a` truthy is `a` itself, not `true`, and `b` is not evaluated; `a and
/// b` with `a` falsy is `a` itself, and `b` is not evaluated either.
pub proof fn lemma_short_circuit_keeps_operand(w: World, lhs: Expr, op: Token, rhs: Expr, fuel: nat)
    requires
        op._type == TokenType::Or || op._type == TokenType::And,
        eval(w, lhs, fuel).1 is Ok,
        truthy(eval(w, lhs, fuel).1->Ok_0) == (op._type == TokenType::Or),
    ensures
        eval(w, Expr::Logical(Box::new(lhs), op, Box::new(rhs)), fuel) == eval(w, lhs, fuel),
{
}

} // verus!
