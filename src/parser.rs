//! The recursive-descent parser and the precedence its trees obey.
use vstd::prelude::*;

use crate::errors::{CompileError, Fault, Phase};
use crate::expr::{Expr, Val, Value};
use crate::statements::Statement;
use crate::token::{Literal, Token, TokenType};
use std::rc::Rc;

verus! {

/// How tightly a binary or logical operator binds: `or` 2, `and` 3, equality 4,
/// comparison 5, `+`/`-` 6, `*`/`/` 7; other kinds 0.
pub open spec fn op_level(k: TokenType) -> nat {
    match k {
        TokenType::Or => 2,
        TokenType::And => 3,
        TokenType::BangEqual | TokenType::EqualEqual => 4,
        TokenType::Greater | TokenType::GreaterEqual | TokenType::Less | TokenType::LessEqual => 5,
        TokenType::Minus | TokenType::Plus => 6,
        TokenType::Slash | TokenType::Star => 7,
        _ => 0,
    }
}

/// The precedence level of the node at the top of `e`: assignment 1, the binary
/// levels of [`op_level`], unary 8, call 9, primary 10.
pub open spec fn level(e: Expr) -> nat {
    match e {
        Expr::Assign(_, _) => 1,
        Expr::Logical(_, op, _) => op_level(op._type),
        Expr::Binary(_, op, _) => op_level(op._type),
        Expr::Unary(_, _) => 8,
        Expr::Call(_, _, _) => 9,
        _ => 10,
    }
}

/// The tree follows the grammar's precedence: each binary operator's left operand binds
/// at least as tightly as the operator (left associativity) and its right operand more
/// tightly; an assignment's value may be anything, another assignment included (right
/// associativity); `and`/`or` are the logical nodes and the others binary; unary
/// operands and callees bind at least as tightly as unary and call; parentheses reset.
pub open spec fn obeys(e: Expr) -> bool
    decreases e,
{
    match e {
        Expr::Logical(l, op, r) => {
            &&& (op._type == TokenType::Or || op._type == TokenType::And)
            &&& level(*l) >= op_level(op._type)
            &&& level(*r) > op_level(op._type)
            &&& obeys(*l)
            &&& obeys(*r)
        },
        Expr::Binary(l, op, r) => {
            &&& 4 <= op_level(op._type)
            &&& level(*l) >= op_level(op._type)
            &&& level(*r) > op_level(op._type)
            &&& obeys(*l)
            &&& obeys(*r)
        },
        Expr::Unary(op, r) => {
            &&& (op._type == TokenType::Bang || op._type == TokenType::Minus)
            &&& level(*r) >= 8
            &&& obeys(*r)
        },
        Expr::Assign(_, v) => obeys(*v),
        Expr::Call(c, _, args) => {
            &&& level(*c) >= 9
            &&& obeys(*c)
            &&& forall|i: int| 0 <= i < args@.len() ==> obeys(#[trigger] args@[i])
        },
        Expr::Grouping(inner) => obeys(*inner),
        _ => true,
    }
}

/// Every expression in the statement, function bodies included, follows the grammar's
/// precedence.
pub open spec fn stmt_obeys(s: Statement) -> bool
    decreases s,
{
    match s {
        Statement::Print(e) => obeys(e),
        Statement::Expresion(e) => obeys(e),
        Statement::Var(_, e) => obeys(e),
        Statement::Block(ss) => forall|i: int| 0 <= i < ss@.len() ==> stmt_obeys(#[trigger] ss@[i]),
        Statement::If(c, t, e) => obeys(c) && stmt_obeys(*t) && match e {
            Some(e) => stmt_obeys(*e),
            None => true,
        },
        Statement::While(c, b) => obeys(c) && stmt_obeys(*b),
        Statement::Function(_, _, body) => forall|i: int|
            0 <= i < (*body)@.len() ==> stmt_obeys(#[trigger] (*body)@[i]),
    }
}

/// The loop that `for (init; cond; incr) body` stands for: `init` and then a `while`
/// in a block of their own (the bare `while` where there is no `init`), looping on
/// `cond` (on `true` where there is none), over `body` followed by `incr;` (over `body`
/// alone where there is no `incr`).
pub open spec fn desugars(
    s: Statement,
    init: Option<Statement>,
    cond: Option<Expr>,
    incr: Option<Expr>,
    body: Statement,
) -> bool {
    let w = match init {
        Some(_) => s->Block_0@[1],
        None => s,
    };
    &&& (init is Some ==> s is Block && s->Block_0@.len() == 2 && s->Block_0@[0] == init->Some_0)
    &&& w is While
    &&& w->While_0 == match cond {
        Some(c) => c,
        None => Expr::Literal(Value::Boolean(true)),
    }
    &&& match incr {
        Some(x) => {
            let b = *w->While_1;
            &&& b is Block
            &&& b->Block_0@.len() == 2
            &&& b->Block_0@[0] == body
            &&& b->Block_0@[1] == Statement::Expresion(x)
        },
        None => *w->While_1 == body,
    }
}

/// What a primary expression starting at token `t` gives: `true`, `false`, `nil`, a
/// number or a string is that literal and an identifier is a variable, each taking one
/// token (`moved_one`); `(` gives a grouping or a fault of the inner expression or of a
/// missing `)`; any other token is a fault at it.
pub open spec fn primary_result(t: Token, r: Result<Expr, CompileError>, moved_one: bool) -> bool {
    match t._type {
        TokenType::False => r == Ok::<Expr, CompileError>(Expr::Literal(Value::Boolean(false))) && moved_one,
        TokenType::True => r == Ok::<Expr, CompileError>(Expr::Literal(Value::Boolean(true))) && moved_one,
        TokenType::Nil => r == Ok::<Expr, CompileError>(Expr::Literal(Value::Nil)) && moved_one,
        TokenType::Identifier => r == Ok::<Expr, CompileError>(Expr::Variable(t)) && moved_one,
        TokenType::Number => t.literal is Num ==> r == Ok::<Expr, CompileError>(
            Expr::Literal(Value::Number(t.literal->Num_0)),
        ) && moved_one,
        TokenType::String => t.literal is Str ==> r is Ok && r->Ok_0 is Literal && r->Ok_0->Literal_0 is String
            && r->Ok_0->Literal_0->String_0 == t.literal->Str_0 && moved_one,
        TokenType::LeftParen => r is Ok ==> r->Ok_0 is Grouping,
        _ => r is Err && r->Err_0@.span == t.place && r->Err_0@.msg == "Unexpected token while parsing"@,
    }
}

/// The kinds of token that begin a declaration or a statement, where recovery stops.
pub open spec fn starts_statement(k: TokenType) -> bool {
    k == TokenType::Class || k == TokenType::Fn || k == TokenType::Var || k == TokenType::For || k
        == TokenType::If || k == TokenType::While || k == TokenType::Print || k == TokenType::Return
}

/// An expression tree as a model: children in sequences, literals as values.
pub enum ExprM {
    Binary(Box<ExprM>, Token, Box<ExprM>),
    Logical(Box<ExprM>, Token, Box<ExprM>),
    Unary(Token, Box<ExprM>),
    Literal(Val),
    Grouping(Box<ExprM>),
    Variable(Token),
    Assign(Token, Box<ExprM>),
    Call(Box<ExprM>, Token, Seq<ExprM>),
}

/// The model of an expression tree.
pub open spec fn model(e: Expr) -> ExprM
    decreases e, 0nat,
{
    match e {
        Expr::Binary(l, op, r) => ExprM::Binary(Box::new(model(*l)), op, Box::new(model(*r))),
        Expr::Logical(l, op, r) => ExprM::Logical(Box::new(model(*l)), op, Box::new(model(*r))),
        Expr::Unary(op, r) => ExprM::Unary(op, Box::new(model(*r))),
        Expr::Literal(v) => ExprM::Literal(v@),
        Expr::Grouping(g) => ExprM::Grouping(Box::new(model(*g))),
        Expr::Variable(n) => ExprM::Variable(n),
        Expr::Assign(n, v) => ExprM::Assign(n, Box::new(model(*v))),
        Expr::Call(c, p, args) => ExprM::Call(Box::new(model(*c)), p, args_model(args, args@.len())),
    }
}

/// The models of the first `n` arguments.
pub open spec fn args_model(args: Vec<Expr>, n: nat) -> Seq<ExprM>
    decreases args, n,
{
    if n == 0 || n > args@.len() {
        Seq::empty()
    } else {
        args_model(args, (n - 1) as nat).push(model(args@[n - 1]))
    }
}

/// A parse result as a model.
pub open spec fn rm(r: Result<Expr, CompileError>) -> Result<ExprM, Fault> {
    match r {
        Ok(e) => Ok(model(e)),
        Err(f) => Err(f@),
    }
}

pub open spec fn parse_fault(span: (usize, usize), msg: Seq<char>) -> Fault {
    Fault { phase: Phase::Parser, span, msg }
}

/// The token at `i` is of kind `k` and is not the end marker.
pub open spec fn at(t: Seq<Token>, i: int, k: TokenType) -> bool {
    0 <= i < t.len() && t[i]._type != TokenType::Eof && t[i]._type == k
}

/// The token at `i` is one of the operators of binary level `lvl`.
pub open spec fn ops_at(t: Seq<Token>, i: int, lvl: nat) -> bool {
    if lvl == 2 {
        at(t, i, TokenType::Or)
    } else if lvl == 3 {
        at(t, i, TokenType::And)
    } else if lvl == 4 {
        at(t, i, TokenType::BangEqual) || at(t, i, TokenType::EqualEqual)
    } else if lvl == 5 {
        at(t, i, TokenType::Greater) || at(t, i, TokenType::GreaterEqual) || at(t, i, TokenType::Less) || at(
            t,
            i,
            TokenType::LessEqual,
        )
    } else if lvl == 6 {
        at(t, i, TokenType::Minus) || at(t, i, TokenType::Plus)
    } else {
        at(t, i, TokenType::Slash) || at(t, i, TokenType::Star)
    }
}

pub open spec fn bin_measure(lvl: nat) -> nat {
    if lvl >= 7 {
        21
    } else {
        (36 - 3 * (lvl - 2)) as nat
    }
}

/// `expression := assignment`: where the parse ends, and the tree or the first fault.
pub open spec fn p_expression(t: Seq<Token>, i: int) -> (int, Result<ExprM, Fault>)
    decreases t.len() - i, 40nat,
{
    p_assignment(t, i)
}

/// `assignment := IDENT "=" assignment | logic_or`.
pub open spec fn p_assignment(t: Seq<Token>, i: int) -> (int, Result<ExprM, Fault>)
    decreases t.len() - i, 38nat,
{
    let (j, r) = p_bin(t, i, 2);
    match r {
        Err(f) => (j, Err(f)),
        Ok(e) => if i <= j && j + 1 <= t.len() && at(t, j, TokenType::Equal) {
            let (k, v) = p_assignment(t, j + 1);
            match v {
                Err(f) => (k, Err(f)),
                Ok(v) => match e {
                    ExprM::Variable(n) => (k, Ok(ExprM::Assign(n, Box::new(v)))),
                    _ => (k, Err(parse_fault(t[j].place, "Invalid assignment target"@))),
                },
            }
        } else {
            (j, Ok(e))
        },
    }
}

/// A binary level `lvl` (2 for `or` up to 7 for `*` and `/`): its operands, folded left.
pub open spec fn p_bin(t: Seq<Token>, i: int, lvl: nat) -> (int, Result<ExprM, Fault>)
    decreases t.len() - i, bin_measure(lvl),
{
    let (j, r) = if lvl >= 7 {
        p_unary(t, i)
    } else {
        p_bin(t, i, lvl + 1)
    };
    match r {
        Err(f) => (j, Err(f)),
        Ok(e) => if i <= j <= t.len() {
            p_bin_rest(t, j, e, lvl)
        } else {
            (j, Ok(e))
        },
    }
}

/// The rest of a binary level after its left operand `left`, which ends at `j`.
pub open spec fn p_bin_rest(t: Seq<Token>, j: int, left: ExprM, lvl: nat) -> (int, Result<ExprM, Fault>)
    decreases t.len() - j, (bin_measure(lvl) - 1) as nat,
{
    if 0 <= j && j + 1 <= t.len() && ops_at(t, j, lvl) {
        let (k, r) = if lvl >= 7 {
            p_unary(t, j + 1)
        } else {
            p_bin(t, j + 1, lvl + 1)
        };
        match r {
            Err(f) => (k, Err(f)),
            Ok(rhs) => {
                let e = if lvl <= 3 {
                    ExprM::Logical(Box::new(left), t[j], Box::new(rhs))
                } else {
                    ExprM::Binary(Box::new(left), t[j], Box::new(rhs))
                };
                if j < k <= t.len() {
                    p_bin_rest(t, k, e, lvl)
                } else {
                    (k, Ok(e))
                }
            },
        }
    } else {
        (j, Ok(left))
    }
}

/// `unary := ("!"|"-") unary | call`.
pub open spec fn p_unary(t: Seq<Token>, i: int) -> (int, Result<ExprM, Fault>)
    decreases t.len() - i, 18nat,
{
    if 0 <= i && i + 1 <= t.len() && (at(t, i, TokenType::Bang) || at(t, i, TokenType::Minus)) {
        let (k, r) = p_unary(t, i + 1);
        match r {
            Err(f) => (k, Err(f)),
            Ok(e) => (k, Ok(ExprM::Unary(t[i], Box::new(e)))),
        }
    } else {
        p_call(t, i)
    }
}

/// `call := primary ( "(" arguments? ")" )*`.
pub open spec fn p_call(t: Seq<Token>, i: int) -> (int, Result<ExprM, Fault>)
    decreases t.len() - i, 16nat,
{
    let (j, r) = p_primary(t, i);
    match r {
        Err(f) => (j, Err(f)),
        Ok(e) => if i <= j <= t.len() {
            p_call_rest(t, j, e)
        } else {
            (j, Ok(e))
        },
    }
}

pub open spec fn p_call_rest(t: Seq<Token>, j: int, callee: ExprM) -> (int, Result<ExprM, Fault>)
    decreases t.len() - j, 15nat,
{
    if 0 <= j && j + 1 <= t.len() && at(t, j, TokenType::LeftParen) {
        let (k, r) = p_finish_call(t, j + 1, callee);
        match r {
            Err(f) => (k, Err(f)),
            Ok(c) => if j < k <= t.len() {
                p_call_rest(t, k, c)
            } else {
                (k, Ok(c))
            },
        }
    } else {
        (j, Ok(callee))
    }
}

/// The arguments of a call whose `(` ends just before `i`, up to its `)`.
pub open spec fn p_arguments(t: Seq<Token>, i: int) -> (int, Result<Seq<ExprM>, Fault>)
    decreases t.len() - i + 1, 1nat,
{
    if at(t, i, TokenType::RightParen) || !(0 <= i <= t.len()) {
        (i, Ok(Seq::<ExprM>::empty()))
    } else {
        let (j0, r0) = p_expression(t, i);
        match r0 {
            Err(f) => (j0, Err(f)),
            Ok(a) => if i <= j0 <= t.len() {
                p_args_rest(t, j0, seq![a])
            } else {
                (j0, Ok(seq![a]))
            },
        }
    }
}

/// The arguments and `)` of a call whose `(` ends just before `i`.
pub open spec fn p_finish_call(t: Seq<Token>, i: int, callee: ExprM) -> (int, Result<ExprM, Fault>)
    decreases t.len() - i + 1, 2nat,
{
    let (j, r) = p_arguments(t, i);
    match r {
        Err(f) => (j, Err(f)),
        Ok(args) => if at(t, j, TokenType::RightParen) {
            (j + 1, Ok(ExprM::Call(Box::new(callee), t[j], args)))
        } else {
            (j, Err(parse_fault(if 0 <= j < t.len() { t[j].place } else { (0, 0) }, "Expect ')' after arguments."@)))
        },
    }
}

proof fn lemma_args_model_push(v: Vec<Expr>, v2: Vec<Expr>, x: Expr)
    requires
        v2@ == v@.push(x),
    ensures
        args_model(v2, v2@.len()) == args_model(v, v@.len()).push(model(x)),
{
    assert forall|k: nat| k <= v@.len() implies args_model(v2, k) == args_model(v, k) by {
        lemma_args_model_prefix(v, v2, x, k);
    }
    assert(v2@[v@.len() as int] == x);
}

proof fn lemma_args_model_prefix(v: Vec<Expr>, v2: Vec<Expr>, x: Expr, k: nat)
    requires
        v2@ == v@.push(x),
        k <= v@.len(),
    ensures
        args_model(v2, k) == args_model(v, k),
    decreases k,
{
    if k > 0 {
        lemma_args_model_prefix(v, v2, x, (k - 1) as nat);
        assert(v2@[k - 1] == v@[k - 1]);
    }
}

/// More arguments, each after a `,`.
pub open spec fn p_args_rest(t: Seq<Token>, j: int, args: Seq<ExprM>) -> (int, Result<Seq<ExprM>, Fault>)
    decreases t.len() - j, 41nat,
{
    if 0 <= j && j + 1 <= t.len() && at(t, j, TokenType::Comma) {
        let (k, r) = p_expression(t, j + 1);
        match r {
            Err(f) => (k, Err(f)),
            Ok(a) => if j < k <= t.len() {
                p_args_rest(t, k, args.push(a))
            } else {
                (k, Ok(args.push(a)))
            },
        }
    } else {
        (j, Ok(args))
    }
}

/// `primary := "false" | "true" | "nil" | NUMBER | STRING | "(" expression ")" | IDENT`.
pub open spec fn p_primary(t: Seq<Token>, i: int) -> (int, Result<ExprM, Fault>)
    decreases t.len() - i, 12nat,
{
    if !(0 <= i && i + 1 <= t.len()) {
        (i, Err(parse_fault((0, 0), "Unexpected token while parsing"@)))
    } else if at(t, i, TokenType::False) {
        (i + 1, Ok(ExprM::Literal(Val::Bool(false))))
    } else if at(t, i, TokenType::True) {
        (i + 1, Ok(ExprM::Literal(Val::Bool(true))))
    } else if at(t, i, TokenType::Nil) {
        (i + 1, Ok(ExprM::Literal(Val::Nil)))
    } else if at(t, i, TokenType::LeftParen) {
        let (j, r) = p_expression(t, i + 1);
        match r {
            Err(f) => (j, Err(f)),
            Ok(e) => if at(t, j, TokenType::RightParen) {
                (j + 1, Ok(ExprM::Grouping(Box::new(e))))
            } else {
                (j, Err(parse_fault(if 0 <= j < t.len() { t[j].place } else { (0, 0) }, "Expect ')' after expression."@)))
            },
        }
    } else if at(t, i, TokenType::Identifier) {
        (i + 1, Ok(ExprM::Variable(t[i])))
    } else if t[i]._type == TokenType::String && t[i].literal is Str {
        (i + 1, Ok(ExprM::Literal(Val::Str(t[i].literal->Str_0@))))
    } else if t[i]._type == TokenType::Number && t[i].literal is Num {
        (i + 1, Ok(ExprM::Literal(Val::Num(t[i].literal->Num_0 as int))))
    } else {
        (i, Err(parse_fault(t[i].place, "Unexpected token while parsing"@)))
    }
}

/// A statement as a model.
pub enum StmtM {
    Print(ExprM),
    Expresion(ExprM),
    Var(Token, ExprM),
    Block(Seq<StmtM>),
    If(ExprM, Box<StmtM>, Option<Box<StmtM>>),
    While(ExprM, Box<StmtM>),
    Function(Token, Seq<Token>, Seq<StmtM>),
}

/// The model of a statement.
pub open spec fn smodel(s: Statement) -> StmtM
    decreases s, 0nat,
{
    match s {
        Statement::Print(e) => StmtM::Print(model(e)),
        Statement::Expresion(e) => StmtM::Expresion(model(e)),
        Statement::Var(n, e) => StmtM::Var(n, model(e)),
        Statement::Block(ss) => StmtM::Block(stmts_model(ss, ss@.len())),
        Statement::If(c, t, e) => StmtM::If(
            model(c),
            Box::new(smodel(*t)),
            match e {
                Some(e) => Some(Box::new(smodel(*e))),
                None => None,
            },
        ),
        Statement::While(c, b) => StmtM::While(model(c), Box::new(smodel(*b))),
        Statement::Function(n, ps, b) => StmtM::Function(n, (*ps)@, stmts_model(*b, (*b)@.len())),
    }
}

/// The models of the first `n` statements.
pub open spec fn stmts_model(v: Vec<Statement>, n: nat) -> Seq<StmtM>
    decreases v, n,
{
    if n == 0 || n > v@.len() {
        Seq::empty()
    } else {
        stmts_model(v, (n - 1) as nat).push(smodel(v@[n - 1]))
    }
}

pub open spec fn place_at(t: Seq<Token>, j: int) -> (usize, usize) {
    if 0 <= j < t.len() {
        t[j].place
    } else {
        (0, 0)
    }
}

/// Takes a token of kind `k` at `j`, or faults there with `msg`.
pub open spec fn expect(t: Seq<Token>, j: int, k: TokenType, msg: Seq<char>) -> (int, Result<(), Fault>) {
    if at(t, j, k) {
        (j + 1, Ok(()))
    } else {
        (j, Err(parse_fault(place_at(t, j), msg)))
    }
}

/// `exprStmt := expression ";"`.
pub open spec fn p_expr_stmt(t: Seq<Token>, i: int) -> (int, Result<StmtM, Fault>)
    decreases t.len() - i, 50nat,
{
    let (j, r) = p_expression(t, i);
    match r {
        Err(f) => (j, Err(f)),
        Ok(e) => {
            let (k, c) = expect(t, j, TokenType::Semicolon, "Expect ';' after value."@);
            match c {
                Err(f) => (k, Err(f)),
                Ok(_) => (k, Ok(StmtM::Expresion(e))),
            }
        },
    }
}

/// `printStmt := "print" expression ";"`, from after `print`.
pub open spec fn p_print(t: Seq<Token>, i: int) -> (int, Result<StmtM, Fault>)
    decreases t.len() - i + 1, 0nat,
{
    let (j, r) = p_expression(t, i);
    match r {
        Err(f) => (j, Err(f)),
        Ok(e) => {
            let (k, c) = expect(t, j, TokenType::Semicolon, "Expect ';' after value."@);
            match c {
                Err(f) => (k, Err(f)),
                Ok(_) => (k, Ok(StmtM::Print(e))),
            }
        },
    }
}

/// `varDecl := "var" IDENT ( "=" expression )? ";"`, from after `var`; no initializer
/// is `nil`.
pub open spec fn p_var(t: Seq<Token>, i: int) -> (int, Result<StmtM, Fault>)
    decreases t.len() - i + 1, 0nat,
{
    let (j, c) = expect(t, i, TokenType::Identifier, "Expect variable name."@);
    match c {
        Err(f) => (j, Err(f)),
        Ok(_) => {
            let (k, r) = if at(t, j, TokenType::Equal) && i < j < t.len() {
                p_expression(t, j + 1)
            } else {
                (j, Ok(ExprM::Literal(Val::Nil)))
            };
            match r {
                Err(f) => (k, Err(f)),
                Ok(e) => {
                    let (m, c2) = expect(t, k, TokenType::Semicolon, "Expect ';' after value."@);
                    match c2 {
                        Err(f) => (m, Err(f)),
                        Ok(_) => (m, Ok(StmtM::Var(t[i], e))),
                    }
                },
            }
        },
    }
}

/// `whileStmt := "while" "(" expression ")" statement`, from after `while`.
pub open spec fn p_while(t: Seq<Token>, i: int) -> (int, Result<StmtM, Fault>)
    decreases t.len() - i + 1, 0nat,
{
    let (j, c) = expect(t, i, TokenType::LeftParen, "Expect '(' after 'while'."@);
    match c {
        Err(f) => (j, Err(f)),
        Ok(_) => {
            let (k, r) = p_expression(t, j);
            match r {
                Err(f) => (k, Err(f)),
                Ok(cond) => {
                    let (m, c2) = expect(t, k, TokenType::RightParen, "Expect ')' after if condition"@);
                    match c2 {
                        Err(f) => (m, Err(f)),
                        Ok(_) => if i <= m <= t.len() {
                            let (n, b) = p_statement(t, m);
                            match b {
                                Err(f) => (n, Err(f)),
                                Ok(b) => (n, Ok(StmtM::While(cond, Box::new(b)))),
                            }
                        } else {
                            (m, Err(parse_fault((0, 0), ""@)))
                        },
                    }
                },
            }
        },
    }
}

/// `ifStmt := "if" "(" expression ")" statement ( "else" statement )?`, from after `if`.
pub open spec fn p_if(t: Seq<Token>, i: int) -> (int, Result<StmtM, Fault>)
    decreases t.len() - i + 1, 0nat,
{
    let (j, c) = expect(t, i, TokenType::LeftParen, "Expect '(' after 'if'."@);
    match c {
        Err(f) => (j, Err(f)),
        Ok(_) => {
            let (k, r) = p_expression(t, j);
            match r {
                Err(f) => (k, Err(f)),
                Ok(cond) => {
                    let (m, c2) = expect(t, k, TokenType::RightParen, "Expect ')' after if condition"@);
                    match c2 {
                        Err(f) => (m, Err(f)),
                        Ok(_) => if i <= m <= t.len() {
                            let (n, b) = p_statement(t, m);
                            match b {
                                Err(f) => (n, Err(f)),
                                Ok(th) => if at(t, n, TokenType::Else) && m <= n < t.len() {
                                    let (q, e) = p_statement(t, n + 1);
                                    match e {
                                        Err(f) => (q, Err(f)),
                                        Ok(el) => (q, Ok(StmtM::If(cond, Box::new(th), Some(Box::new(el))))),
                                    }
                                } else {
                                    (n, Ok(StmtM::If(cond, Box::new(th), None)))
                                },
                            }
                        } else {
                            (m, Err(parse_fault((0, 0), ""@)))
                        },
                    }
                },
            }
        },
    }
}

/// The declarations of a block and its `}`, from after `{`.
pub open spec fn p_block(t: Seq<Token>, i: int) -> (int, Result<Seq<StmtM>, Fault>)
    decreases t.len() - i + 1, 0nat,
{
    if 0 <= i <= t.len() {
        let (j, r) = p_block_rest(t, i, Seq::empty());
        match r {
            Err(f) => (j, Err(f)),
            Ok(ss) => {
                let (k, c) = expect(t, j, TokenType::RightBrace, "Expect '}' after block."@);
                match c {
                    Err(f) => (k, Err(f)),
                    Ok(_) => (k, Ok(ss)),
                }
            },
        }
    } else {
        (i, Err(parse_fault((0, 0), ""@)))
    }
}

/// Declarations up to a `}` or the end marker, after those already in `acc`.
pub open spec fn p_block_rest(t: Seq<Token>, j: int, acc: Seq<StmtM>) -> (int, Result<Seq<StmtM>, Fault>)
    decreases t.len() - j, 61nat,
{
    if !(0 <= j < t.len()) || at(t, j, TokenType::RightBrace) || t[j]._type == TokenType::Eof {
        (j, Ok(acc))
    } else {
        let (k, r) = p_declaration(t, j);
        match r {
            Err(f) => (k, Err(f)),
            Ok(s) => if j < k <= t.len() {
                p_block_rest(t, k, acc.push(s))
            } else {
                (k, Ok(acc.push(s)))
            },
        }
    }
}

/// Parameter names after the first, each after a `,`.
pub open spec fn p_params_rest(t: Seq<Token>, j: int, acc: Seq<Token>) -> (int, Result<Seq<Token>, Fault>)
    decreases t.len() - j,
{
    if 0 <= j && j + 1 < t.len() && at(t, j, TokenType::Comma) {
        let (k, c) = expect(t, j + 1, TokenType::Identifier, "Expect parameter name."@);
        match c {
            Err(f) => (k, Err(f)),
            Ok(_) => p_params_rest(t, k, acc.push(t[j + 1])),
        }
    } else {
        (j, Ok(acc))
    }
}

/// The parameter names of a declaration, from after its `(` up to its `)`.
pub open spec fn p_params(t: Seq<Token>, k: int) -> (int, Result<Seq<Token>, Fault>) {
    if at(t, k, TokenType::RightParen) {
        (k, Ok(Seq::<Token>::empty()))
    } else {
        let (k1, c3) = expect(t, k, TokenType::Identifier, "Expect parameter name."@);
        match c3 {
            Err(f) => (k1, Err(f)),
            Ok(_) => p_params_rest(t, k1, seq![t[k]]),
        }
    }
}

/// `fnDecl := "fn" IDENT "(" params? ")" "{" block "}"`, from after `fn`.
pub open spec fn p_function(t: Seq<Token>, i: int) -> (int, Result<StmtM, Fault>)
    decreases t.len() - i + 1, 0nat,
{
    let (j, c) = expect(t, i, TokenType::Identifier, "Expect function name"@);
    match c {
        Err(f) => (j, Err(f)),
        Ok(_) => {
            let (k, c2) = expect(t, j, TokenType::LeftParen, "Expect '(' after function  name."@);
            match c2 {
                Err(f) => (k, Err(f)),
                Ok(_) => {
                    let (m, ps) = p_params(t, k);
                    match ps {
                        Err(f) => (m, Err(f)),
                        Ok(ps) => {
                            let (n, c4) = expect(t, m, TokenType::RightParen, "Expect ')' after parameters."@);
                            match c4 {
                                Err(f) => (n, Err(f)),
                                Ok(_) => {
                                    let (q, c5) = expect(t, n, TokenType::LeftBrace, "Expect '{' before function body."@);
                                    match c5 {
                                        Err(f) => (q, Err(f)),
                                        Ok(_) => if i <= q - 1 {
                                            let (z, b) = p_block(t, q);
                                            match b {
                                                Err(f) => (z, Err(f)),
                                                Ok(body) => (z, Ok(StmtM::Function(t[i], ps, body))),
                                            }
                                        } else {
                                            (q, Err(parse_fault((0, 0), ""@)))
                                        },
                                    }
                                },
                            }
                        },
                    }
                },
            }
        },
    }
}

/// The loop that a `for` statement stands for, over its parsed parts.
pub open spec fn desugared(init: Option<StmtM>, cond: Option<ExprM>, incr: Option<ExprM>, body: StmtM) -> StmtM {
    let b = match incr {
        Some(x) => StmtM::Block(seq![body, StmtM::Expresion(x)]),
        None => body,
    };
    let w = StmtM::While(
        match cond {
            Some(c) => c,
            None => ExprM::Literal(Val::Bool(true)),
        },
        Box::new(b),
    );
    match init {
        Some(s) => StmtM::Block(seq![s, w]),
        None => w,
    }
}

/// The initializer clause of a `for`, from after its `(`: `;`, a variable declaration or
/// an expression statement.
pub open spec fn p_for_init(t: Seq<Token>, j: int) -> (int, Result<Option<StmtM>, Fault>)
    decreases t.len() - j + 1, 1nat,
{
    if at(t, j, TokenType::Semicolon) {
        (j + 1, Ok(None::<StmtM>))
    } else if at(t, j, TokenType::Var) {
        let (k0, r) = p_var(t, j + 1);
        match r {
            Err(f) => (k0, Err(f)),
            Ok(s) => (k0, Ok(Some(s))),
        }
    } else if 0 <= j <= t.len() {
        let (k0, r) = p_expr_stmt(t, j);
        match r {
            Err(f) => (k0, Err(f)),
            Ok(s) => (k0, Ok(Some(s))),
        }
    } else {
        (j, Err(parse_fault((0, 0), ""@)))
    }
}

/// An optional expression at `j`: none where the token there is `stop`.
pub open spec fn p_opt_expr(t: Seq<Token>, j: int, stop: TokenType) -> (int, Result<Option<ExprM>, Fault>)
    decreases t.len() - j + 1, 1nat,
{
    if !at(t, j, stop) && 0 <= j <= t.len() {
        let (m0, r) = p_expression(t, j);
        match r {
            Err(f) => (m0, Err(f)),
            Ok(e) => (m0, Ok(Some(e))),
        }
    } else {
        (j, Ok(None::<ExprM>))
    }
}

/// `forStmt`, from after `for`: parsed and rewritten by [`desugared`].
pub open spec fn p_for(t: Seq<Token>, i: int) -> (int, Result<StmtM, Fault>)
    decreases t.len() - i + 1, 0nat,
{
    let (j, c) = expect(t, i, TokenType::LeftParen, "Expect '(' after 'for'."@);
    match c {
        Err(f) => (j, Err(f)),
        Ok(_) => {
            let (k, init) = p_for_init(t, j);
            match init {
                Err(f) => (k, Err(f)),
                Ok(init) => if i <= k {
                    let (m, cond) = p_opt_expr(t, k, TokenType::Semicolon);
                    match cond {
                        Err(f) => (m, Err(f)),
                        Ok(cond) => {
                            let (n, c2) = expect(t, m, TokenType::Semicolon, "Expect ';' after loop condition."@);
                            match c2 {
                                Err(f) => (n, Err(f)),
                                Ok(_) => if i <= n {
                                    let (q, incr) = p_opt_expr(t, n, TokenType::RightParen);
                                    match incr {
                                        Err(f) => (q, Err(f)),
                                        Ok(incr) => {
                                            let (z, c3) = expect(t, q, TokenType::RightParen, "Expect ')' after loop clauses."@);
                                            match c3 {
                                                Err(f) => (z, Err(f)),
                                                Ok(_) => if i <= z <= t.len() {
                                                    let (y, b) = p_statement(t, z);
                                                    match b {
                                                        Err(f) => (y, Err(f)),
                                                        Ok(body) => (y, Ok(desugared(init, cond, incr, body))),
                                                    }
                                                } else {
                                                    (z, Err(parse_fault((0, 0), ""@)))
                                                },
                                            }
                                        },
                                    }
                                } else {
                                    (n, Err(parse_fault((0, 0), ""@)))
                                },
                            }
                        },
                    }
                } else {
                    (k, Err(parse_fault((0, 0), ""@)))
                },
            }
        },
    }
}

/// `statement`.
pub open spec fn p_statement(t: Seq<Token>, i: int) -> (int, Result<StmtM, Fault>)
    decreases t.len() - i, 59nat,
{
    if !(0 <= i < t.len()) {
        p_expr_stmt(t, i)
    } else if at(t, i, TokenType::For) {
        p_for(t, i + 1)
    } else if at(t, i, TokenType::If) {
        p_if(t, i + 1)
    } else if at(t, i, TokenType::Print) {
        p_print(t, i + 1)
    } else if at(t, i, TokenType::While) {
        p_while(t, i + 1)
    } else if at(t, i, TokenType::LeftBrace) {
        let (j, r) = p_block(t, i + 1);
        match r {
            Err(f) => (j, Err(f)),
            Ok(ss) => (j, Ok(StmtM::Block(ss))),
        }
    } else {
        p_expr_stmt(t, i)
    }
}

/// `declaration`.
pub open spec fn p_declaration(t: Seq<Token>, i: int) -> (int, Result<StmtM, Fault>)
    decreases t.len() - i, 60nat,
{
    if 0 <= i < t.len() && at(t, i, TokenType::Fn) {
        p_function(t, i + 1)
    } else if 0 <= i < t.len() && at(t, i, TokenType::Var) {
        p_var(t, i + 1)
    } else {
        p_statement(t, i)
    }
}

/// Declarations from `j` to the end marker, after those in `acc`; the first fault ends it.
pub open spec fn p_program_rest(t: Seq<Token>, j: int, acc: Seq<StmtM>) -> (int, Result<Seq<StmtM>, Fault>)
    decreases t.len() - j,
{
    if !(0 <= j < t.len()) || t[j]._type == TokenType::Eof {
        (j, Ok(acc))
    } else {
        let (k, r) = p_declaration(t, j);
        match r {
            Err(f) => (k, Err(f)),
            Ok(s) => if j < k <= t.len() {
                p_program_rest(t, k, acc.push(s))
            } else {
                (k, Ok(acc.push(s)))
            },
        }
    }
}

/// A program: its statements, or the first fault.
pub open spec fn program(t: Seq<Token>) -> Result<Seq<StmtM>, Fault> {
    p_program_rest(t, 0, Seq::empty()).1
}

pub open spec fn srm(r: Result<Statement, CompileError>) -> Result<StmtM, Fault> {
    match r {
        Ok(s) => Ok(smodel(s)),
        Err(f) => Err(f@),
    }
}

proof fn lemma_stmts_model_push(v: Vec<Statement>, v2: Vec<Statement>, x: Statement)
    requires
        v2@ == v@.push(x),
    ensures
        stmts_model(v2, v2@.len()) == stmts_model(v, v@.len()).push(smodel(x)),
{
    assert forall|k: nat| k <= v@.len() implies stmts_model(v2, k) == stmts_model(v, k) by {
        lemma_stmts_model_prefix(v, v2, x, k);
    }
    assert(v2@[v@.len() as int] == x);
}

proof fn lemma_stmts_model_prefix(v: Vec<Statement>, v2: Vec<Statement>, x: Statement, k: nat)
    requires
        v2@ == v@.push(x),
        k <= v@.len(),
    ensures
        stmts_model(v2, k) == stmts_model(v, k),
    decreases k,
{
    if k > 0 {
        lemma_stmts_model_prefix(v, v2, x, (k - 1) as nat);
        assert(v2@[k - 1] == v@[k - 1]);
    }
}

proof fn lemma_desugared_model(w: Statement, init: Option<Statement>, cond: Option<Expr>, incr: Option<Expr>, body: Statement)
    requires
        desugars(w, init, cond, incr, body),
    ensures
        smodel(w) == desugared(
            match init { Some(x) => Some(smodel(x)), None => None },
            match cond { Some(x) => Some(model(x)), None => None },
            match incr { Some(x) => Some(model(x)), None => None },
            smodel(body),
        ),
{
    let lp = match init {
        Some(_) => w->Block_0@[1],
        None => w,
    };
    let inner = *lp->While_1;
    if incr is Some {
        let v = inner->Block_0;
        assert(v@[0] == body);
        assert(v@[1] == Statement::Expresion(incr->Some_0));
        assert(stmts_model(v, 0) =~= Seq::<StmtM>::empty());
        assert(stmts_model(v, 1) =~= seq![smodel(body)]);
        assert(stmts_model(v, 2) == stmts_model(v, 1).push(smodel(v@[1])));
        assert(smodel(v@[1]) == StmtM::Expresion(model(incr->Some_0)));
        assert(stmts_model(v, 2) =~= seq![smodel(body), StmtM::Expresion(model(incr->Some_0))]);
        assert(smodel(inner) == StmtM::Block(seq![smodel(body), StmtM::Expresion(model(incr->Some_0))]));
    }
    if init is Some {
        let v = w->Block_0;
        assert(stmts_model(v, 0) =~= Seq::<StmtM>::empty());
        assert(stmts_model(v, 1) =~= seq![smodel(init->Some_0)]);
        assert(stmts_model(v, 2) == stmts_model(v, 1).push(smodel(v@[1])));
        assert(stmts_model(v, 2) =~= seq![smodel(init->Some_0), smodel(lp)]);
    }
}

/// Turns tokens into statements by recursive descent.
pub struct Parser {
    tokens: Vec<Token>,
    current: usize,
}

impl Parser {
    pub closed spec fn wf(&self) -> bool {
        &&& self.tokens@.len() >= 1
        &&& self.tokens@.last()._type == TokenType::Eof
        &&& self.current < self.tokens@.len()
    }

    /// The tokens being parsed.
    pub closed spec fn toks(&self) -> Seq<Token> {
        self.tokens@
    }

    /// The index of the next token.
    pub closed spec fn pos(&self) -> nat {
        self.current as nat
    }

    /// How many tokens are left, the end marker included.
    pub open spec fn rem(&self) -> nat {
        (self.toks().len() - self.pos()) as nat
    }

    /// `next` follows `prev` in a parse: same tokens, the position not moved back.
    pub open spec fn follows(next: Parser, prev: Parser) -> bool {
        &&& next.wf()
        &&& next.toks() == prev.toks()
        &&& next.pos() >= prev.pos()
    }

    pub fn new(tokens: Vec<Token>) -> (r: Parser)
        requires
            tokens@.len() >= 1,
            tokens@.last()._type == TokenType::Eof,
        ensures
            r.wf(),
            r.toks() == tokens@,
            r.pos() == 0,
    {
        Parser { tokens, current: 0 }
    }

    fn peek(&self) -> (r: &Token)
        requires
            self.wf(),
        ensures
            *r == self.toks()[self.pos() as int],
    {
        &self.tokens[self.current]
    }

    fn previous(&self) -> (r: &Token)
        requires
            self.wf(),
            self.pos() > 0,
        ensures
            *r == self.toks()[self.pos() - 1],
    {
        &self.tokens[self.current - 1]
    }

    fn is_at_end(&self) -> (r: bool)
        requires
            self.wf(),
        ensures
            r == (self.toks()[self.pos() as int]._type == TokenType::Eof),
    {
        self.tokens[self.current]._type == TokenType::Eof
    }

    fn advance(&mut self)
        requires
            old(self).wf(),
        ensures
            Parser::follows(*final(self), *old(self)),
            old(self).toks()[old(self).pos() as int]._type != TokenType::Eof ==> final(self).pos() == old(self).pos() + 1,
            old(self).toks()[old(self).pos() as int]._type == TokenType::Eof ==> final(self).pos() == old(self).pos(),
    {
        let n = self.tokens.len();
        if !self.is_at_end() {
            assert(self.current + 1 < n);
            self.current = self.current + 1;
        }
    }

    fn check(&self, kind: TokenType) -> (r: bool)
        requires
            self.wf(),
        ensures
            r == (self.toks()[self.pos() as int]._type != TokenType::Eof && self.toks()[self.pos() as int]._type == kind),
    {
        if self.is_at_end() {
            return false;
        }
        self.peek()._type == kind
    }

    /// Takes the next token where it is of kind `kind`.
    fn matches(&mut self, kind: TokenType) -> (r: bool)
        requires
            old(self).wf(),
        ensures
            Parser::follows(*final(self), *old(self)),
            r == (old(self).toks()[old(self).pos() as int]._type != TokenType::Eof && old(self).toks()[old(self).pos() as int]._type == kind),
            r ==> final(self).pos() == old(self).pos() + 1,
            !r ==> final(self).pos() == old(self).pos(),
    {
        if self.check(kind) {
            self.advance();
            true
        } else {
            false
        }
    }

    /// Takes the next token where it is of kind `kind`; else fails with `msg` at it.
    fn consume(&mut self, kind: TokenType, msg: &str) -> (r: Result<Token, CompileError>)
        requires
            old(self).wf(),
        ensures
            Parser::follows(*final(self), *old(self)),
            r is Ok ==> final(self).pos() == old(self).pos() + 1 && r->Ok_0 == old(self).toks()[old(self).pos() as int]
                && r->Ok_0._type == kind,
            r is Err ==> final(self).pos() == old(self).pos() && r->Err_0@.phase == Phase::Parser
                && r->Err_0@.msg == msg@ && r->Err_0@.span == old(self).toks()[old(self).pos() as int].place,
            r is Err <==> !(old(self).toks()[old(self).pos() as int]._type != TokenType::Eof
                && old(self).toks()[old(self).pos() as int]._type == kind),
    {
        if self.check(kind) {
            let t = self.peek().copy();
            self.advance();
            Ok(t)
        } else {
            Err(CompileError::Parser(self.peek().place, String::from_str(msg)))
        }
    }

    /// An expression; its tree follows the grammar's precedence.
    pub fn expression(&mut self) -> (r: Result<Expr, CompileError>)
        requires
            old(self).wf(),
        ensures
            Parser::follows(*final(self), *old(self)),
            r is Ok ==> obeys(r->Ok_0) && final(self).pos() > old(self).pos(),
            r is Err ==> r->Err_0@.phase == Phase::Parser,
            (final(self).pos() as int, rm(r)) == p_expression(old(self).toks(), old(self).pos() as int),
        decreases old(self).rem(), 12nat,
    {
        self.assignment()
    }

    fn assignment(&mut self) -> (r: Result<Expr, CompileError>)
        requires
            old(self).wf(),
        ensures
            Parser::follows(*final(self), *old(self)),
            r is Ok ==> obeys(r->Ok_0) && level(r->Ok_0) >= 1 && final(self).pos() > old(self).pos(),
            r is Err ==> r->Err_0@.phase == Phase::Parser,
            (final(self).pos() as int, rm(r)) == p_assignment(old(self).toks(), old(self).pos() as int),
        decreases old(self).rem(), 11nat,
    {
        let expr = match self.or() {
            Ok(e) => e,
            Err(e) => return Err(e),
        };
        if self.matches(TokenType::Equal) {
            let equals = self.previous().place;
            let value = match self.assignment() {
                Ok(e) => e,
                Err(e) => return Err(e),
            };
            match expr {
                Expr::Variable(v) => Ok(Expr::Assign(v, Box::new(value))),
                _ => Err(CompileError::Parser(equals, String::from_str("Invalid assignment target"))),
            }
        } else {
            Ok(expr)
        }
    }

    fn or(&mut self) -> (r: Result<Expr, CompileError>)
        requires
            old(self).wf(),
        ensures
            Parser::follows(*final(self), *old(self)),
            r is Ok ==> obeys(r->Ok_0) && level(r->Ok_0) >= 2 && final(self).pos() > old(self).pos(),
            r is Err ==> r->Err_0@.phase == Phase::Parser,
            (final(self).pos() as int, rm(r)) == p_bin(old(self).toks(), old(self).pos() as int, 2),
        decreases old(self).rem(), 10nat,
    {
        let mut expr = match self.and() {
            Ok(e) => e,
            Err(e) => return Err(e),
        };
        loop
            invariant
                Parser::follows(*self, *old(self)),
                self.pos() > old(self).pos(),
                p_bin(old(self).toks(), old(self).pos() as int, 2) == p_bin_rest(self.toks(), self.pos() as int, model(expr), 2),
                obeys(expr),
                level(expr) >= 2,
            ensures
                Parser::follows(*self, *old(self)),
                self.pos() > old(self).pos(),
                p_bin(old(self).toks(), old(self).pos() as int, 2) == p_bin_rest(self.toks(), self.pos() as int, model(expr), 2),
                obeys(expr),
                level(expr) >= 2,
                !ops_at(self.toks(), self.pos() as int, 2),
            decreases self.rem(),
        {
            let mut found = self.matches(TokenType::Or);
            if !found {
                break;
            }
            let op = self.previous().copy();
            let rhs = match self.and() {
                Ok(e) => e,
                Err(e) => return Err(e),
            };
            expr = Expr::Logical(Box::new(expr), op, Box::new(rhs));
        }
        Ok(expr)
    }

    fn and(&mut self) -> (r: Result<Expr, CompileError>)
        requires
            old(self).wf(),
        ensures
            Parser::follows(*final(self), *old(self)),
            r is Ok ==> obeys(r->Ok_0) && level(r->Ok_0) >= 3 && final(self).pos() > old(self).pos(),
            r is Err ==> r->Err_0@.phase == Phase::Parser,
            (final(self).pos() as int, rm(r)) == p_bin(old(self).toks(), old(self).pos() as int, 3),
        decreases old(self).rem(), 9nat,
    {
        let mut expr = match self.equality() {
            Ok(e) => e,
            Err(e) => return Err(e),
        };
        loop
            invariant
                Parser::follows(*self, *old(self)),
                self.pos() > old(self).pos(),
                p_bin(old(self).toks(), old(self).pos() as int, 3) == p_bin_rest(self.toks(), self.pos() as int, model(expr), 3),
                obeys(expr),
                level(expr) >= 3,
            ensures
                Parser::follows(*self, *old(self)),
                self.pos() > old(self).pos(),
                p_bin(old(self).toks(), old(self).pos() as int, 3) == p_bin_rest(self.toks(), self.pos() as int, model(expr), 3),
                obeys(expr),
                level(expr) >= 3,
                !ops_at(self.toks(), self.pos() as int, 3),
            decreases self.rem(),
        {
            let mut found = self.matches(TokenType::And);
            if !found {
                break;
            }
            let op = self.previous().copy();
            let rhs = match self.equality() {
                Ok(e) => e,
                Err(e) => return Err(e),
            };
            expr = Expr::Logical(Box::new(expr), op, Box::new(rhs));
        }
        Ok(expr)
    }

    fn equality(&mut self) -> (r: Result<Expr, CompileError>)
        requires
            old(self).wf(),
        ensures
            Parser::follows(*final(self), *old(self)),
            r is Ok ==> obeys(r->Ok_0) && level(r->Ok_0) >= 4 && final(self).pos() > old(self).pos(),
            r is Err ==> r->Err_0@.phase == Phase::Parser,
            (final(self).pos() as int, rm(r)) == p_bin(old(self).toks(), old(self).pos() as int, 4),
        decreases old(self).rem(), 8nat,
    {
        let mut expr = match self.comparison() {
            Ok(e) => e,
            Err(e) => return Err(e),
        };
        loop
            invariant
                Parser::follows(*self, *old(self)),
                self.pos() > old(self).pos(),
                p_bin(old(self).toks(), old(self).pos() as int, 4) == p_bin_rest(self.toks(), self.pos() as int, model(expr), 4),
                obeys(expr),
                level(expr) >= 4,
            ensures
                Parser::follows(*self, *old(self)),
                self.pos() > old(self).pos(),
                p_bin(old(self).toks(), old(self).pos() as int, 4) == p_bin_rest(self.toks(), self.pos() as int, model(expr), 4),
                obeys(expr),
                level(expr) >= 4,
                !ops_at(self.toks(), self.pos() as int, 4),
            decreases self.rem(),
        {
            let mut found = self.matches(TokenType::BangEqual);
            if !found {
                found = self.matches(TokenType::EqualEqual);
            }
            if !found {
                break;
            }
            let op = self.previous().copy();
            let rhs = match self.comparison() {
                Ok(e) => e,
                Err(e) => return Err(e),
            };
            expr = Expr::Binary(Box::new(expr), op, Box::new(rhs));
        }
        Ok(expr)
    }

    fn comparison(&mut self) -> (r: Result<Expr, CompileError>)
        requires
            old(self).wf(),
        ensures
            Parser::follows(*final(self), *old(self)),
            r is Ok ==> obeys(r->Ok_0) && level(r->Ok_0) >= 5 && final(self).pos() > old(self).pos(),
            r is Err ==> r->Err_0@.phase == Phase::Parser,
            (final(self).pos() as int, rm(r)) == p_bin(old(self).toks(), old(self).pos() as int, 5),
        decreases old(self).rem(), 7nat,
    {
        let mut expr = match self.term() {
            Ok(e) => e,
            Err(e) => return Err(e),
        };
        loop
            invariant
                Parser::follows(*self, *old(self)),
                self.pos() > old(self).pos(),
                p_bin(old(self).toks(), old(self).pos() as int, 5) == p_bin_rest(self.toks(), self.pos() as int, model(expr), 5),
                obeys(expr),
                level(expr) >= 5,
            ensures
                Parser::follows(*self, *old(self)),
                self.pos() > old(self).pos(),
                p_bin(old(self).toks(), old(self).pos() as int, 5) == p_bin_rest(self.toks(), self.pos() as int, model(expr), 5),
                obeys(expr),
                level(expr) >= 5,
                !ops_at(self.toks(), self.pos() as int, 5),
            decreases self.rem(),
        {
            let mut found = self.matches(TokenType::Greater);
            if !found {
                found = self.matches(TokenType::GreaterEqual);
            }
            if !found {
                found = self.matches(TokenType::Less);
            }
            if !found {
                found = self.matches(TokenType::LessEqual);
            }
            if !found {
                break;
            }
            let op = self.previous().copy();
            let rhs = match self.term() {
                Ok(e) => e,
                Err(e) => return Err(e),
            };
            expr = Expr::Binary(Box::new(expr), op, Box::new(rhs));
        }
        Ok(expr)
    }

    fn term(&mut self) -> (r: Result<Expr, CompileError>)
        requires
            old(self).wf(),
        ensures
            Parser::follows(*final(self), *old(self)),
            r is Ok ==> obeys(r->Ok_0) && level(r->Ok_0) >= 6 && final(self).pos() > old(self).pos(),
            r is Err ==> r->Err_0@.phase == Phase::Parser,
            (final(self).pos() as int, rm(r)) == p_bin(old(self).toks(), old(self).pos() as int, 6),
        decreases old(self).rem(), 6nat,
    {
        let mut expr = match self.factor() {
            Ok(e) => e,
            Err(e) => return Err(e),
        };
        loop
            invariant
                Parser::follows(*self, *old(self)),
                self.pos() > old(self).pos(),
                p_bin(old(self).toks(), old(self).pos() as int, 6) == p_bin_rest(self.toks(), self.pos() as int, model(expr), 6),
                obeys(expr),
                level(expr) >= 6,
            ensures
                Parser::follows(*self, *old(self)),
                self.pos() > old(self).pos(),
                p_bin(old(self).toks(), old(self).pos() as int, 6) == p_bin_rest(self.toks(), self.pos() as int, model(expr), 6),
                obeys(expr),
                level(expr) >= 6,
                !ops_at(self.toks(), self.pos() as int, 6),
            decreases self.rem(),
        {
            let mut found = self.matches(TokenType::Minus);
            if !found {
                found = self.matches(TokenType::Plus);
            }
            if !found {
                break;
            }
            let op = self.previous().copy();
            let rhs = match self.factor() {
                Ok(e) => e,
                Err(e) => return Err(e),
            };
            expr = Expr::Binary(Box::new(expr), op, Box::new(rhs));
        }
        Ok(expr)
    }

    fn factor(&mut self) -> (r: Result<Expr, CompileError>)
        requires
            old(self).wf(),
        ensures
            Parser::follows(*final(self), *old(self)),
            r is Ok ==> obeys(r->Ok_0) && level(r->Ok_0) >= 7 && final(self).pos() > old(self).pos(),
            r is Err ==> r->Err_0@.phase == Phase::Parser,
            (final(self).pos() as int, rm(r)) == p_bin(old(self).toks(), old(self).pos() as int, 7),
        decreases old(self).rem(), 5nat,
    {
        let mut expr = match self.unary() {
            Ok(e) => e,
            Err(e) => return Err(e),
        };
        loop
            invariant
                Parser::follows(*self, *old(self)),
                self.pos() > old(self).pos(),
                p_bin(old(self).toks(), old(self).pos() as int, 7) == p_bin_rest(self.toks(), self.pos() as int, model(expr), 7),
                obeys(expr),
                level(expr) >= 7,
            ensures
                Parser::follows(*self, *old(self)),
                self.pos() > old(self).pos(),
                p_bin(old(self).toks(), old(self).pos() as int, 7) == p_bin_rest(self.toks(), self.pos() as int, model(expr), 7),
                obeys(expr),
                level(expr) >= 7,
                !ops_at(self.toks(), self.pos() as int, 7),
            decreases self.rem(),
        {
            let mut found = self.matches(TokenType::Slash);
            if !found {
                found = self.matches(TokenType::Star);
            }
            if !found {
                break;
            }
            let op = self.previous().copy();
            let rhs = match self.unary() {
                Ok(e) => e,
                Err(e) => return Err(e),
            };
            expr = Expr::Binary(Box::new(expr), op, Box::new(rhs));
        }
        Ok(expr)
    }

    fn unary(&mut self) -> (r: Result<Expr, CompileError>)
        requires
            old(self).wf(),
        ensures
            Parser::follows(*final(self), *old(self)),
            r is Ok ==> obeys(r->Ok_0) && level(r->Ok_0) >= 8 && final(self).pos() > old(self).pos(),
            r is Err ==> r->Err_0@.phase == Phase::Parser,
            (final(self).pos() as int, rm(r)) == p_unary(old(self).toks(), old(self).pos() as int),
        decreases old(self).rem(), 4nat,
    {
        let mut found = self.matches(TokenType::Bang);
        if !found {
            found = self.matches(TokenType::Minus);
        }
        if found {
            let op = self.previous().copy();
            let rhs = match self.unary() {
                Ok(e) => e,
                Err(e) => return Err(e),
            };
            return Ok(Expr::Unary(op, Box::new(rhs)));
        }
        self.call()
    }

    fn call(&mut self) -> (r: Result<Expr, CompileError>)
        requires
            old(self).wf(),
        ensures
            Parser::follows(*final(self), *old(self)),
            r is Ok ==> obeys(r->Ok_0) && level(r->Ok_0) >= 9 && final(self).pos() > old(self).pos(),
            r is Err ==> r->Err_0@.phase == Phase::Parser,
            (final(self).pos() as int, rm(r)) == p_call(old(self).toks(), old(self).pos() as int),
        decreases old(self).rem(), 3nat,
    {
        let mut expr = match self.primary() {
            Ok(e) => e,
            Err(e) => return Err(e),
        };
        loop
            invariant
                Parser::follows(*self, *old(self)),
                self.pos() > old(self).pos(),
                p_call(old(self).toks(), old(self).pos() as int) == p_call_rest(self.toks(), self.pos() as int, model(expr)),
                obeys(expr),
                level(expr) >= 9,
            ensures
                Parser::follows(*self, *old(self)),
                self.pos() > old(self).pos(),
                p_call(old(self).toks(), old(self).pos() as int) == p_call_rest(self.toks(), self.pos() as int, model(expr)),
                obeys(expr),
                level(expr) >= 9,
                !at(self.toks(), self.pos() as int, TokenType::LeftParen),
            decreases self.rem(),
        {
            if !self.matches(TokenType::LeftParen) {
                break;
            }
            expr = match self.finish_call(expr) {
                Ok(e) => e,
                Err(e) => return Err(e),
            };
        }
        Ok(expr)
    }

    /// The arguments and closing parenthesis of a call whose `(` was just taken.
    fn finish_call(&mut self, callee: Expr) -> (r: Result<Expr, CompileError>)
        requires
            old(self).wf(),
            old(self).pos() > 0,
            obeys(callee),
            level(callee) >= 9,
        ensures
            Parser::follows(*final(self), *old(self)),
            r is Ok ==> obeys(r->Ok_0) && level(r->Ok_0) == 9 && final(self).pos() > old(self).pos(),
            r is Err ==> r->Err_0@.phase == Phase::Parser,
            (final(self).pos() as int, rm(r)) == p_finish_call(old(self).toks(), old(self).pos() as int, model(callee)),
        decreases old(self).rem() + 1, 0nat,
    {
        let ghost t = self.toks();
        let ghost i0 = self.pos() as int;
        let mut arguments: Vec<Expr> = Vec::new();
        if !self.check(TokenType::RightParen) {
            let first = match self.expression() {
                Ok(e) => e,
                Err(e) => return Err(e),
            };
            let ghost before = arguments;
            arguments.push(first);
            proof {
                lemma_args_model_push(before, arguments, first);
                assert(args_model(before, 0) =~= Seq::<ExprM>::empty());
                assert(args_model(arguments, arguments@.len()) =~= seq![model(first)]);
            }
            loop
                invariant
                    Parser::follows(*self, *old(self)),
                    self.pos() > old(self).pos(),
                    forall|i: int| 0 <= i < arguments@.len() ==> obeys(#[trigger] arguments@[i]),
                    t == self.toks(),
                    t == old(self).toks(),
                    i0 == old(self).pos(),
                    p_arguments(t, i0) == p_args_rest(t, self.pos() as int, args_model(arguments, arguments@.len())),
                ensures
                    Parser::follows(*self, *old(self)),
                    self.pos() > old(self).pos(),
                    forall|i: int| 0 <= i < arguments@.len() ==> obeys(#[trigger] arguments@[i]),
                    t == self.toks(),
                    t == old(self).toks(),
                    i0 == old(self).pos(),
                    p_arguments(t, i0) == (self.pos() as int, Ok::<Seq<ExprM>, Fault>(args_model(arguments, arguments@.len()))),
                decreases self.rem(),
            {
                if !self.matches(TokenType::Comma) {
                    break;
                }
                let next = match self.expression() {
                    Ok(e) => e,
                    Err(e) => return Err(e),
                };
                let ghost before = arguments;
                arguments.push(next);
                proof {
                    lemma_args_model_push(before, arguments, next);
                }
            }
        } else {
            proof {
                assert(args_model(arguments, 0) =~= Seq::<ExprM>::empty());
            }
        }
        let paren = match self.consume(TokenType::RightParen, "Expect ')' after arguments.") {
            Ok(t) => t,
            Err(e) => return Err(e),
        };
        Ok(Expr::Call(Box::new(callee), paren, arguments))
    }

    fn primary(&mut self) -> (r: Result<Expr, CompileError>)
        requires
            old(self).wf(),
        ensures
            Parser::follows(*final(self), *old(self)),
            r is Ok ==> obeys(r->Ok_0) && level(r->Ok_0) == 10 && final(self).pos() > old(self).pos(),
            r is Err ==> r->Err_0@.phase == Phase::Parser,
            primary_result(old(self).toks()[old(self).pos() as int], r, final(self).pos() == old(self).pos() + 1),
            (final(self).pos() as int, rm(r)) == p_primary(old(self).toks(), old(self).pos() as int),
        decreases old(self).rem(), 2nat,
    {
        if self.matches(TokenType::False) {
            return Ok(Expr::Literal(Value::Boolean(false)));
        }
        if self.matches(TokenType::True) {
            return Ok(Expr::Literal(Value::Boolean(true)));
        }
        if self.matches(TokenType::Nil) {
            return Ok(Expr::Literal(Value::Nil));
        }
        if self.matches(TokenType::LeftParen) {
            let expr = match self.expression() {
                Ok(e) => e,
                Err(e) => return Err(e),
            };
            let ghost j = self.pos() as int;
            match self.consume(TokenType::RightParen, "Expect ')' after expression.") {
                Ok(_) => {},
                Err(e) => {
                    proof {
                        let t = old(self).toks();
                        assert(!at(t, j, TokenType::RightParen));
                        assert(e@ == parse_fault(t[j].place, "Expect ')' after expression."@));
                        assert(p_expression(t, old(self).pos() + 1int).0 == j);
                    }
                    return Err(e);
                },
            }
            return Ok(Expr::Grouping(Box::new(expr)));
        }
        if self.matches(TokenType::Identifier) {
            return Ok(Expr::Variable(self.previous().copy()));
        }
        let tkn = self.peek();
        let expr = match (&tkn._type, &tkn.literal) {
            (TokenType::String, Literal::Str(s)) => Expr::Literal(Value::String(s.clone())),
            (TokenType::Number, Literal::Num(n)) => Expr::Literal(Value::Number(*n)),
            _ => {
                return Err(CompileError::Parser(tkn.place, String::from_str("Unexpected token while parsing")));
            },
        };
        self.advance();
        Ok(expr)
    }

    /// Parses declarations up to the end marker; the first fault ends the parse.
    pub fn parse(&mut self) -> (r: Result<Vec<Statement>, CompileError>)
        requires
            old(self).wf(),
        ensures
            Parser::follows(*final(self), *old(self)),
            r is Ok ==> final(self).toks()[final(self).pos() as int]._type == TokenType::Eof,
            r is Ok ==> forall|k: int| 0 <= k < r->Ok_0@.len() ==> stmt_obeys(#[trigger] r->Ok_0@[k]),
            r is Err ==> r->Err_0@.phase == Phase::Parser,
            old(self).pos() == 0 ==> match r {
                Ok(v) => program(old(self).toks()) == Ok::<Seq<StmtM>, Fault>(stmts_model(v, v@.len())),
                Err(f) => program(old(self).toks()) == Err::<Seq<StmtM>, Fault>(f@),
            },
    {
        let ghost t = self.toks();
        let ghost i0 = self.pos() as int;
        let mut statements: Vec<Statement> = Vec::new();
        proof {
            assert(stmts_model(statements, 0) =~= Seq::<StmtM>::empty());
        }
        loop
            invariant
                t == self.toks(),
                t == old(self).toks(),
                i0 == old(self).pos(),
                p_program_rest(t, i0, Seq::empty()) == p_program_rest(t, self.pos() as int, stmts_model(statements, statements@.len())),
                Parser::follows(*self, *old(self)),
                forall|k: int| 0 <= k < statements@.len() ==> stmt_obeys(#[trigger] statements@[k]),
            ensures
                t == self.toks(),
                t == old(self).toks(),
                i0 == old(self).pos(),
                p_program_rest(t, i0, Seq::empty()) == (self.pos() as int, Ok::<Seq<StmtM>, Fault>(stmts_model(statements, statements@.len()))),
                Parser::follows(*self, *old(self)),
                self.toks()[self.pos() as int]._type == TokenType::Eof,
                forall|k: int| 0 <= k < statements@.len() ==> stmt_obeys(#[trigger] statements@[k]),
            decreases self.rem(),
        {
            if self.is_at_end() {
                break;
            }
            match self.declaration() {
                Ok(s) => {
                    let ghost before = statements;
                    statements.push(s);
                    proof {
                        lemma_stmts_model_push(before, statements, s);
                    }
                },
                Err(e) => return Err(e),
            }
        }
        Ok(statements)
    }

    /// Parses declarations up to the end marker, recovering after each fault: every
    /// statement that parsed, and every fault, in order.
    pub fn parse_all(&mut self) -> (r: (Vec<Statement>, Vec<CompileError>))
        requires
            old(self).wf(),
        ensures
            Parser::follows(*final(self), *old(self)),
            final(self).toks()[final(self).pos() as int]._type == TokenType::Eof,
            forall|k: int| 0 <= k < r.1@.len() ==> (#[trigger] r.1@[k])@.phase == Phase::Parser,
            forall|k: int| 0 <= k < r.0@.len() ==> stmt_obeys(#[trigger] r.0@[k]),
    {
        let mut statements: Vec<Statement> = Vec::new();
        let mut errors: Vec<CompileError> = Vec::new();
        loop
            invariant
                Parser::follows(*self, *old(self)),
                forall|k: int| 0 <= k < errors@.len() ==> (#[trigger] errors@[k])@.phase == Phase::Parser,
                forall|k: int| 0 <= k < statements@.len() ==> stmt_obeys(#[trigger] statements@[k]),
            ensures
                Parser::follows(*self, *old(self)),
                self.toks()[self.pos() as int]._type == TokenType::Eof,
                forall|k: int| 0 <= k < errors@.len() ==> (#[trigger] errors@[k])@.phase == Phase::Parser,
                forall|k: int| 0 <= k < statements@.len() ==> stmt_obeys(#[trigger] statements@[k]),
            decreases self.rem(),
        {
            if self.is_at_end() {
                break;
            }
            match self.declaration() {
                Ok(s) => statements.push(s),
                Err(e) => {
                    errors.push(e);
                    self.synchronize();
                },
            }
        }
        (statements, errors)
    }

    /// Skips tokens after a fault: past the next `;`, or up to a token that begins a
    /// declaration or a statement, or up to the end marker. Always moves unless at the end.
    fn synchronize(&mut self)
        requires
            old(self).wf(),
        ensures
            Parser::follows(*final(self), *old(self)),
            old(self).toks()[old(self).pos() as int]._type != TokenType::Eof ==> final(self).pos() > old(self).pos(),
            ({
                let t = final(self).toks();
                let p = final(self).pos() as int;
                ||| t[p]._type == TokenType::Eof
                ||| (p > 0 && t[p - 1]._type == TokenType::Semicolon)
                ||| starts_statement(t[p]._type)
            }),
            forall|m: int|
                old(self).pos() <= m < final(self).pos() - 1 ==> (#[trigger] final(self).toks()[m])._type
                    != TokenType::Semicolon,
            forall|m: int|
                old(self).pos() < m < final(self).pos() ==> !starts_statement((#[trigger] final(self).toks()[m])._type),
    {
        self.advance();
        loop
            invariant
                Parser::follows(*self, *old(self)),
                old(self).toks()[old(self).pos() as int]._type != TokenType::Eof ==> self.pos() > old(self).pos(),
                self.pos() > 0 || self.toks()[self.pos() as int]._type == TokenType::Eof,
                old(self).toks()[old(self).pos() as int]._type == TokenType::Eof ==> self.pos() == old(self).pos(),
                forall|m: int| old(self).pos() <= m < self.pos() - 1 ==> (#[trigger] self.toks()[m])._type != TokenType::Semicolon,
                forall|m: int| old(self).pos() < m < self.pos() ==> !starts_statement((#[trigger] self.toks()[m])._type),
            decreases self.rem(),
        {
            if self.is_at_end() {
                return;
            }
            if self.previous()._type == TokenType::Semicolon {
                return;
            }
            match self.peek()._type {
                TokenType::Class | TokenType::Fn | TokenType::Var | TokenType::For | TokenType::If
                | TokenType::While | TokenType::Print | TokenType::Return => {
                    return;
                },
                _ => {},
            }
            self.advance();
        }
    }

    /// A declaration: a function, a variable, or a statement.
    fn declaration(&mut self) -> (r: Result<Statement, CompileError>)
        requires
            old(self).wf(),
        ensures
            Parser::follows(*final(self), *old(self)),
            r is Ok ==> final(self).pos() > old(self).pos(),
            r is Err ==> r->Err_0@.phase == Phase::Parser,
            r is Ok ==> stmt_obeys(r->Ok_0),
            (final(self).pos() as int, srm(r)) == p_declaration(old(self).toks(), old(self).pos() as int),
        decreases old(self).rem(), 22nat,
    {
        if self.matches(TokenType::Fn) {
            self.function()
        } else if self.matches(TokenType::Var) {
            self.var_declaration()
        } else {
            self.statement()
        }
    }

    /// A statement other than a declaration.
    fn statement(&mut self) -> (r: Result<Statement, CompileError>)
        requires
            old(self).wf(),
        ensures
            Parser::follows(*final(self), *old(self)),
            r is Ok ==> final(self).pos() > old(self).pos(),
            r is Err ==> r->Err_0@.phase == Phase::Parser,
            r is Ok ==> stmt_obeys(r->Ok_0),
            (final(self).pos() as int, srm(r)) == p_statement(old(self).toks(), old(self).pos() as int),
        decreases old(self).rem(), 21nat,
    {
        if self.matches(TokenType::For) {
            return self.for_statement();
        }
        if self.matches(TokenType::If) {
            return self.if_statement();
        }
        if self.matches(TokenType::Print) {
            return self.print_statement();
        }
        if self.matches(TokenType::While) {
            return self.while_statement();
        }
        if self.matches(TokenType::LeftBrace) {
            return match self.block() {
                Ok(ss) => Ok(Statement::Block(ss)),
                Err(e) => Err(e),
            };
        }
        self.expression_statement()
    }

    /// The rest of a function declaration, after `fn`.
    fn function(&mut self) -> (r: Result<Statement, CompileError>)
        requires
            old(self).wf(),
        ensures
            Parser::follows(*final(self), *old(self)),
            r is Ok ==> final(self).pos() > old(self).pos(),
            r is Err ==> r->Err_0@.phase == Phase::Parser,
            r is Ok ==> stmt_obeys(r->Ok_0),
            r is Ok ==> r->Ok_0 is Function && r->Ok_0->Function_0 == old(self).toks()[old(self).pos() as int]
                && r->Ok_0->Function_0._type == TokenType::Identifier && forall|k: int|
                0 <= k < (*r->Ok_0->Function_1)@.len() ==> (#[trigger] (*r->Ok_0->Function_1)@[k])._type
                    == TokenType::Identifier,
            old(self).toks()[old(self).pos() as int]._type != TokenType::Identifier ==> r is Err
                && r->Err_0@.span == old(self).toks()[old(self).pos() as int].place && r->Err_0@.msg
                == "Expect function name"@,
            (final(self).pos() as int, srm(r)) == p_function(old(self).toks(), old(self).pos() as int),
        decreases old(self).rem() + 1, 0nat,
    {
        let name = match self.consume(TokenType::Identifier, "Expect function name") {
            Ok(t) => t,
            Err(e) => return Err(e),
        };
        match self.consume(TokenType::LeftParen, "Expect '(' after function  name.") {
            Ok(_) => {},
            Err(e) => return Err(e),
        }
        let mut parameters: Vec<Token> = Vec::new();
        let ghost t = self.toks();
        let ghost k0 = self.pos() as int;
        if !self.check(TokenType::RightParen) {
            match self.consume(TokenType::Identifier, "Expect parameter name.") {
                Ok(tk) => parameters.push(tk),
                Err(e) => return Err(e),
            }
            proof {
                assert(parameters@ =~= seq![t[k0]]);
            }
            loop
                invariant
                    t == self.toks(),
                    t == old(self).toks(),
                    k0 == old(self).pos() + 2,
                    at(t, old(self).pos() as int, TokenType::Identifier),
                    at(t, old(self).pos() + 1int, TokenType::LeftParen),
                    p_params(t, k0) == p_params_rest(t, self.pos() as int, parameters@),
                    Parser::follows(*self, *old(self)),
                    self.pos() > old(self).pos(),
                    forall|k: int| 0 <= k < parameters@.len() ==> (#[trigger] parameters@[k])._type == TokenType::Identifier,
                    old(self).toks()[old(self).pos() as int]._type == TokenType::Identifier,
                    name == old(self).toks()[old(self).pos() as int],
                ensures
                    t == self.toks(),
                    t == old(self).toks(),
                    k0 == old(self).pos() + 2,
                    at(t, old(self).pos() as int, TokenType::Identifier),
                    at(t, old(self).pos() + 1int, TokenType::LeftParen),
                    p_params(t, k0) == (self.pos() as int, Ok::<Seq<Token>, Fault>(parameters@)),
                    Parser::follows(*self, *old(self)),
                    self.pos() > old(self).pos(),
                    forall|k: int| 0 <= k < parameters@.len() ==> (#[trigger] parameters@[k])._type == TokenType::Identifier,
                    old(self).toks()[old(self).pos() as int]._type == TokenType::Identifier,
                    name == old(self).toks()[old(self).pos() as int],
                decreases self.rem(),
            {
                if !self.matches(TokenType::Comma) {
                    break;
                }
                match self.consume(TokenType::Identifier, "Expect parameter name.") {
                    Ok(tk) => parameters.push(tk),
                    Err(e) => return Err(e),
                }
            }
        } else {
            proof {
                assert(parameters@ =~= Seq::<Token>::empty());
            }
        }
        match self.consume(TokenType::RightParen, "Expect ')' after parameters.") {
            Ok(_) => {},
            Err(e) => return Err(e),
        }
        match self.consume(TokenType::LeftBrace, "Expect '{' before function body.") {
            Ok(_) => {},
            Err(e) => return Err(e),
        }
        let body = match self.block() {
            Ok(b) => b,
            Err(e) => return Err(e),
        };
        Ok(Statement::Function(name, Rc::new(parameters), Rc::new(body)))
    }

    /// The rest of a variable declaration, after `var`; no initializer means `nil`.
    fn var_declaration(&mut self) -> (r: Result<Statement, CompileError>)
        requires
            old(self).wf(),
        ensures
            Parser::follows(*final(self), *old(self)),
            r is Ok ==> final(self).pos() > old(self).pos(),
            r is Err ==> r->Err_0@.phase == Phase::Parser,
            r is Ok ==> stmt_obeys(r->Ok_0),
            (final(self).pos() as int, srm(r)) == p_var(old(self).toks(), old(self).pos() as int),
        decreases old(self).rem() + 1, 0nat,
    {
        let name = match self.consume(TokenType::Identifier, "Expect variable name.") {
            Ok(t) => t,
            Err(e) => return Err(e),
        };
        let mut value = Expr::Literal(Value::Nil);
        if self.matches(TokenType::Equal) {
            value = match self.expression() {
                Ok(e) => e,
                Err(e) => return Err(e),
            };
        }
        match self.consume(TokenType::Semicolon, "Expect ';' after value.") {
            Ok(_) => {},
            Err(e) => return Err(e),
        }
        Ok(Statement::Var(name, value))
    }

    /// The declarations of a block and its closing brace, after `{`.
    fn block(&mut self) -> (r: Result<Vec<Statement>, CompileError>)
        requires
            old(self).wf(),
        ensures
            Parser::follows(*final(self), *old(self)),
            r is Ok ==> final(self).pos() > old(self).pos(),
            r is Err ==> r->Err_0@.phase == Phase::Parser,
            r is Ok ==> forall|k: int| 0 <= k < r->Ok_0@.len() ==> stmt_obeys(#[trigger] r->Ok_0@[k]),
            (final(self).pos() as int, match r { Ok(v) => Ok(stmts_model(v, v@.len())), Err(f) => Err(f@) }) == p_block(old(self).toks(), old(self).pos() as int),
        decreases old(self).rem() + 1, 0nat,
    {
        let mut statements: Vec<Statement> = Vec::new();
        let ghost t = self.toks();
        let ghost i0 = self.pos() as int;
        proof {
            assert(stmts_model(statements, 0) =~= Seq::<StmtM>::empty());
        }
        loop
            invariant
                Parser::follows(*self, *old(self)),
                forall|k: int| 0 <= k < statements@.len() ==> stmt_obeys(#[trigger] statements@[k]),
                t == self.toks(),
                t == old(self).toks(),
                i0 == old(self).pos(),
                p_block_rest(t, i0, Seq::empty()) == p_block_rest(t, self.pos() as int, stmts_model(statements, statements@.len())),
            ensures
                Parser::follows(*self, *old(self)),
                forall|k: int| 0 <= k < statements@.len() ==> stmt_obeys(#[trigger] statements@[k]),
                t == self.toks(),
                t == old(self).toks(),
                i0 == old(self).pos(),
                p_block_rest(t, i0, Seq::empty()) == (self.pos() as int, Ok::<Seq<StmtM>, Fault>(stmts_model(statements, statements@.len()))),
            decreases self.rem(),
        {
            if self.check(TokenType::RightBrace) || self.is_at_end() {
                break;
            }
            match self.declaration() {
                Ok(s) => {
                    let ghost before = statements;
                    statements.push(s);
                    proof {
                        lemma_stmts_model_push(before, statements, s);
                    }
                },
                Err(e) => return Err(e),
            }
        }
        match self.consume(TokenType::RightBrace, "Expect '}' after block.") {
            Ok(_) => {},
            Err(e) => return Err(e),
        }
        Ok(statements)
    }

    /// The rest of a `print` statement.
    fn print_statement(&mut self) -> (r: Result<Statement, CompileError>)
        requires
            old(self).wf(),
        ensures
            Parser::follows(*final(self), *old(self)),
            r is Ok ==> final(self).pos() > old(self).pos(),
            r is Err ==> r->Err_0@.phase == Phase::Parser,
            r is Ok ==> stmt_obeys(r->Ok_0),
            (final(self).pos() as int, srm(r)) == p_print(old(self).toks(), old(self).pos() as int),
        decreases old(self).rem() + 1, 0nat,
    {
        let value = match self.expression() {
            Ok(e) => e,
            Err(e) => return Err(e),
        };
        match self.consume(TokenType::Semicolon, "Expect ';' after value.") {
            Ok(_) => {},
            Err(e) => return Err(e),
        }
        Ok(Statement::Print(value))
    }

    /// The rest of an `if` statement.
    fn if_statement(&mut self) -> (r: Result<Statement, CompileError>)
        requires
            old(self).wf(),
        ensures
            Parser::follows(*final(self), *old(self)),
            r is Ok ==> final(self).pos() > old(self).pos(),
            r is Err ==> r->Err_0@.phase == Phase::Parser,
            r is Ok ==> stmt_obeys(r->Ok_0),
            (final(self).pos() as int, srm(r)) == p_if(old(self).toks(), old(self).pos() as int),
        decreases old(self).rem() + 1, 0nat,
    {
        match self.consume(TokenType::LeftParen, "Expect '(' after 'if'.") {
            Ok(_) => {},
            Err(e) => return Err(e),
        }
        let condition = match self.expression() {
            Ok(e) => e,
            Err(e) => return Err(e),
        };
        match self.consume(TokenType::RightParen, "Expect ')' after if condition") {
            Ok(_) => {},
            Err(e) => return Err(e),
        }
        let then_branch = match self.statement() {
            Ok(s) => s,
            Err(e) => return Err(e),
        };
        let else_branch = if self.matches(TokenType::Else) {
            match self.statement() {
                Ok(s) => Some(Box::new(s)),
                Err(e) => return Err(e),
            }
        } else {
            None
        };
        Ok(Statement::If(condition, Box::new(then_branch), else_branch))
    }

    /// The rest of a `while` statement.
    fn while_statement(&mut self) -> (r: Result<Statement, CompileError>)
        requires
            old(self).wf(),
        ensures
            Parser::follows(*final(self), *old(self)),
            r is Ok ==> final(self).pos() > old(self).pos(),
            r is Err ==> r->Err_0@.phase == Phase::Parser,
            r is Ok ==> stmt_obeys(r->Ok_0),
            (final(self).pos() as int, srm(r)) == p_while(old(self).toks(), old(self).pos() as int),
        decreases old(self).rem() + 1, 0nat,
    {
        match self.consume(TokenType::LeftParen, "Expect '(' after 'while'.") {
            Ok(_) => {},
            Err(e) => return Err(e),
        }
        let condition = match self.expression() {
            Ok(e) => e,
            Err(e) => return Err(e),
        };
        match self.consume(TokenType::RightParen, "Expect ')' after if condition") {
            Ok(_) => {},
            Err(e) => return Err(e),
        }
        let body = match self.statement() {
            Ok(s) => s,
            Err(e) => return Err(e),
        };
        Ok(Statement::While(condition, Box::new(body)))
    }

    /// The rest of a `for` statement, rewritten into a `while` loop inside a block.
    /// The initializer clause of a `for`, after its `(`.
    fn for_init(&mut self) -> (r: Result<Option<Statement>, CompileError>)
        requires
            old(self).wf(),
        ensures
            Parser::follows(*final(self), *old(self)),
            r is Ok ==> final(self).pos() > old(self).pos(),
            r is Ok && r->Ok_0 is Some ==> stmt_obeys(r->Ok_0->Some_0),
            r is Err ==> r->Err_0@.phase == Phase::Parser,
            (final(self).pos() as int, match r {
                Ok(Some(s)) => Ok(Some(smodel(s))),
                Ok(None) => Ok(None),
                Err(f) => Err(f@),
            }) == p_for_init(old(self).toks(), old(self).pos() as int),
        decreases old(self).rem() + 1, 1nat,
    {
        if self.matches(TokenType::Semicolon) {
            Ok(None)
        } else if self.matches(TokenType::Var) {
            match self.var_declaration() {
                Ok(s) => Ok(Some(s)),
                Err(e) => Err(e),
            }
        } else {
            match self.expression_statement() {
                Ok(s) => Ok(Some(s)),
                Err(e) => Err(e),
            }
        }
    }

    /// An expression, or none where the next token is `stop`.
    fn optional_expression(&mut self, stop: TokenType) -> (r: Result<Option<Expr>, CompileError>)
        requires
            old(self).wf(),
        ensures
            Parser::follows(*final(self), *old(self)),
            r is Ok && r->Ok_0 is Some ==> obeys(r->Ok_0->Some_0),
            r is Err ==> r->Err_0@.phase == Phase::Parser,
            (final(self).pos() as int, match r {
                Ok(Some(e)) => Ok(Some(model(e))),
                Ok(None) => Ok(None),
                Err(f) => Err(f@),
            }) == p_opt_expr(old(self).toks(), old(self).pos() as int, stop),
        decreases old(self).rem() + 1, 1nat,
    {
        if !self.check(stop) {
            match self.expression() {
                Ok(e) => Ok(Some(e)),
                Err(e) => Err(e),
            }
        } else {
            Ok(None)
        }
    }

    #[verifier::rlimit(100)]
    fn for_statement(&mut self) -> (r: Result<Statement, CompileError>)
        requires
            old(self).wf(),
        ensures
            Parser::follows(*final(self), *old(self)),
            r is Ok ==> final(self).pos() > old(self).pos(),
            r is Err ==> r->Err_0@.phase == Phase::Parser,
            r is Ok ==> exists|init: Option<Statement>, cond: Option<Expr>, incr: Option<Expr>, body: Statement|
                desugars(r->Ok_0, init, cond, incr, body),
            r is Ok ==> stmt_obeys(r->Ok_0),
            (final(self).pos() as int, srm(r)) == p_for(old(self).toks(), old(self).pos() as int),
        decreases old(self).rem() + 1, 0nat,
    {
        match self.consume(TokenType::LeftParen, "Expect '(' after 'for'.") {
            Ok(_) => {},
            Err(e) => return Err(e),
        }
        let init: Option<Statement> = match self.for_init() {
            Ok(s) => s,
            Err(e) => return Err(e),
        };
        let condition: Option<Expr> = match self.optional_expression(TokenType::Semicolon) {
            Ok(e) => e,
            Err(e) => return Err(e),
        };
        match self.consume(TokenType::Semicolon, "Expect ';' after loop condition.") {
            Ok(_) => {},
            Err(e) => return Err(e),
        }
        let increment: Option<Expr> = match self.optional_expression(TokenType::RightParen) {
            Ok(e) => e,
            Err(e) => return Err(e),
        };
        match self.consume(TokenType::RightParen, "Expect ')' after loop clauses.") {
            Ok(_) => {},
            Err(e) => return Err(e),
        }
        let body = match self.statement() {
            Ok(s) => s,
            Err(e) => return Err(e),
        };
        let ghost parts = (init, condition, increment, body);
        let body = match increment {
            Some(inc) => {
                let pair = vec![body, Statement::Expresion(inc)];
                assert(forall|k: int| 0 <= k < pair@.len() ==> stmt_obeys(#[trigger] pair@[k]));
                Statement::Block(pair)
            },
            None => body,
        };
        assert(stmt_obeys(body));
        let cond = match condition {
            Some(c) => c,
            None => Expr::Literal(Value::Boolean(true)),
        };
        let looped = Statement::While(cond, Box::new(body));
        assert(stmt_obeys(looped));
        let stmt = match init {
            Some(i) => {
                let pair = vec![i, looped];
                assert(forall|k: int| 0 <= k < pair@.len() ==> stmt_obeys(#[trigger] pair@[k]));
                Statement::Block(pair)
            },
            None => looped,
        };
        let res: Result<Statement, CompileError> = Ok(stmt);
        assert(desugars(res->Ok_0, parts.0, parts.1, parts.2, parts.3));
        proof {
            lemma_desugared_model(res->Ok_0, parts.0, parts.1, parts.2, parts.3);
        }
        res
    }

    /// An expression followed by `;`.
    fn expression_statement(&mut self) -> (r: Result<Statement, CompileError>)
        requires
            old(self).wf(),
        ensures
            Parser::follows(*final(self), *old(self)),
            r is Ok ==> final(self).pos() > old(self).pos(),
            r is Err ==> r->Err_0@.phase == Phase::Parser,
            r is Ok ==> stmt_obeys(r->Ok_0),
            (final(self).pos() as int, srm(r)) == p_expr_stmt(old(self).toks(), old(self).pos() as int),
        decreases old(self).rem(), 13nat,
    {
        let value = match self.expression() {
            Ok(e) => e,
            Err(e) => return Err(e),
        };
        match self.consume(TokenType::Semicolon, "Expect ';' after value.") {
            Ok(_) => {},
            Err(e) => return Err(e),
        }
        Ok(Statement::Expresion(value))
    }
}

} // verus!
