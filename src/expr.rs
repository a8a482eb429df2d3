//! Expressions and runtime values, the value model, and the operators on values.
use vstd::prelude::*;

use crate::errors::{runtime, CompileError, Fault};
use crate::statements::Statement;
use crate::text::{decimal, decimal_string, join3};
use crate::token::Token;
use std::rc::Rc;

verus! {

/// An expression of the language.
#[derive(Debug)]
pub enum Expr {
    Binary(Box<Expr>, Token, Box<Expr>),
    Logical(Box<Expr>, Token, Box<Expr>),
    Unary(Token, Box<Expr>),
    Literal(Value),
    Grouping(Box<Expr>),
    Variable(Token),
    Assign(Token, Box<Expr>),
    /// A call: the callee, the closing parenthesis, the arguments.
    Call(Box<Expr>, Token, Vec<Expr>),
}

/// A runtime value. Numbers are 64-bit signed integers.
#[derive(Debug)]
pub enum Value {
    String(String),
    Number(i64),
    Boolean(bool),
    Callable(Function),
    Nil,
}

/// The host functions that a program can call.
#[derive(Debug, Clone, Copy, PartialEq, Eq, Structural)]
pub enum NativeFn {
    /// Milliseconds since the Unix epoch.
    Clock,
}

/// A callable value.
#[derive(Debug)]
pub enum Function {
    Native { arity: usize, body: NativeFn },
    /// A function of the program; `closure` is the scope that was current where it
    /// was declared, as an index into the environment's frames.
    User { name: Token, params: Rc<Vec<Token>>, body: Rc<Vec<Statement>>, closure: usize },
}

/// A user function as the semantics sees it.
pub struct UserFn {
    pub name: Seq<char>,
    pub params: Seq<Seq<char>>,
    pub body: Vec<Statement>,
    pub closure: nat,
}

/// The mathematical model of a [`Value`].
pub enum Val {
    Str(Seq<char>),
    Num(int),
    Bool(bool),
    Nil,
    Native(NativeFn, nat),
    User(UserFn),
}

/// The names of a list of tokens.
pub open spec fn names_of(ts: Seq<Token>) -> Seq<Seq<char>> {
    ts.map_values(|t: Token| t.lexeme@)
}

impl View for Function {
    type V = Val;

    open spec fn view(&self) -> Val {
        match self {
            Function::Native { arity, body } => Val::Native(*body, *arity as nat),
            Function::User { name, params, body, closure } => Val::User(
                UserFn {
                    name: name.lexeme@,
                    params: names_of((**params)@),
                    body: **body,
                    closure: *closure as nat,
                },
            ),
        }
    }
}

impl View for Value {
    type V = Val;

    open spec fn view(&self) -> Val {
        match self {
            Value::String(s) => Val::Str(s@),
            Value::Number(n) => Val::Num(*n as int),
            Value::Boolean(b) => Val::Bool(*b),
            Value::Callable(f) => f@,
            Value::Nil => Val::Nil,
        }
    }
}

/// Only `nil` and `false` are falsy.
pub open spec fn truthy(v: Val) -> bool {
    match v {
        Val::Nil => false,
        Val::Bool(b) => b,
        _ => true,
    }
}

/// Equality as the language's `==` sees it: values of one kind compare structurally,
/// values of different kinds are unequal, and no callable equals anything.
pub open spec fn val_eq(a: Val, b: Val) -> bool {
    match (a, b) {
        (Val::Str(x), Val::Str(y)) => x == y,
        (Val::Num(x), Val::Num(y)) => x == y,
        (Val::Bool(x), Val::Bool(y)) => x == y,
        (Val::Nil, Val::Nil) => true,
        _ => false,
    }
}

pub open spec fn in_range(x: int) -> bool {
    i64::MIN <= x <= i64::MAX
}

pub open spec fn abs(x: int) -> int {
    if x < 0 {
        -x
    } else {
        x
    }
}

/// Division that rounds toward zero.
pub open spec fn trunc_div(x: int, y: int) -> int {
    let q = abs(x) / abs(y);
    if (x < 0) != (y < 0) {
        -q
    } else {
        q
    }
}

pub open spec fn is_digit(c: char) -> bool {
    '0' <= c <= '9'
}

pub open spec fn digit_value(c: char) -> int {
    c as int - '0' as int
}

/// The number that a sequence of decimal digits stands for.
pub open spec fn digits_value(s: Seq<char>) -> int
    decreases s.len(),
{
    if s.len() == 0 {
        0
    } else {
        digits_value(s.drop_last()) * 10 + digit_value(s.last())
    }
}

pub open spec fn all_digits(s: Seq<char>) -> bool {
    s.len() > 0 && forall|i: int| 0 <= i < s.len() ==> is_digit(#[trigger] s[i])
}

/// The integer a string holds: an optional sign, then one or more decimal digits.
pub open spec fn parse_int(s: Seq<char>) -> Option<int> {
    if s.len() > 0 && (s[0] == '-' || s[0] == '+') {
        if all_digits(s.drop_first()) {
            Some(if s[0] == '-' { -digits_value(s.drop_first()) } else { digits_value(s.drop_first()) })
        } else {
            None
        }
    } else if all_digits(s) {
        Some(digits_value(s))
    } else {
        None
    }
}

pub open spec fn out_of_range() -> Seq<char> {
    "Number out of range"@
}

/// Unary minus.
pub open spec fn neg_spec(v: Val) -> Result<Val, Seq<char>> {
    match v {
        Val::Num(n) => if in_range(-n) { Ok(Val::Num(-n)) } else { Err(out_of_range()) },
        Val::Str(s) => match parse_int(s) {
            Some(n) => if in_range(n) && in_range(-n) {
                Ok(Val::Num(-n))
            } else {
                Err("Not a number"@)
            },
            None => Err("Not a number"@),
        },
        _ => Err("No - for the given value."@),
    }
}

/// Checked result of an integer operation.
pub open spec fn checked(x: int) -> Result<Val, Seq<char>> {
    if in_range(x) {
        Ok(Val::Num(x))
    } else {
        Err(out_of_range())
    }
}

pub open spec fn mul_spec(a: Val, b: Val) -> Result<Val, Seq<char>> {
    match (a, b) {
        (Val::Num(x), Val::Num(y)) => checked(x * y),
        _ => Err("No Mul for the given value"@),
    }
}

pub open spec fn div_spec(a: Val, b: Val) -> Result<Val, Seq<char>> {
    match (a, b) {
        (Val::Num(x), Val::Num(y)) => if y == 0 {
            Err("Division by zero"@)
        } else {
            checked(trunc_div(x, y))
        },
        _ => Err("No Div for the given value"@),
    }
}

pub open spec fn sub_spec(a: Val, b: Val) -> Result<Val, Seq<char>> {
    match (a, b) {
        (Val::Num(x), Val::Num(y)) => checked(x - y),
        _ => Err("No Sub for the given value"@),
    }
}

pub open spec fn add_spec(a: Val, b: Val) -> Result<Val, Seq<char>> {
    match (a, b) {
        (Val::Num(x), Val::Num(y)) => checked(x + y),
        (Val::Str(x), Val::Str(y)) => Ok(Val::Str(x + y)),
        (Val::Num(_), Val::Str(_)) => Err("No Add for Number and String"@),
        (Val::Str(_), Val::Num(_)) => Err("No Add for String and Number"@),
        _ => Err("No Add for the given values"@),
    }
}

/// How a value is printed.
pub open spec fn display(v: Val) -> Seq<char> {
    match v {
        Val::Str(s) => s,
        Val::Num(n) => decimal(n),
        Val::Bool(b) => if b { "true"@ } else { "false"@ },
        Val::Nil => "nil"@,
        Val::Native(_, _) => "<native function>"@,
        Val::User(f) => "<fn "@ + f.name + ">"@,
    }
}

/// `r` is the outcome `s` of an operation, with any fault reported at `span`.
pub open spec fn yields(r: Result<Value, CompileError>, s: Result<Val, Seq<char>>, span: (usize, usize)) -> bool {
    match s {
        Ok(v) => r is Ok && r->Ok_0@ == v,
        Err(m) => r is Err && r->Err_0@ == runtime(span, m),
    }
}

fn fault(msg: &str) -> (r: CompileError)
    ensures
        r@ == runtime((0, 0), msg@),
{
    CompileError::Interpreter((0, 0), String::from_str(msg))
}

proof fn lemma_digits_value_grows(s: Seq<char>, k: int)
    requires
        0 <= k <= s.len(),
        forall|i: int| 0 <= i < s.len() ==> is_digit(#[trigger] s[i]),
    ensures
        digits_value(s) >= digits_value(s.subrange(0, k)),
        digits_value(s.subrange(0, k)) >= 0,
    decreases s.len(),
{
    if s.len() == 0 {
    } else if k == s.len() {
        assert(s.subrange(0, k) =~= s);
        lemma_digits_value_grows(s.drop_last(), k - 1);
    } else {
        lemma_digits_value_grows(s.drop_last(), k);
        assert(s.drop_last().subrange(0, k) =~= s.subrange(0, k));
        lemma_digits_value_grows(s.drop_last(), s.len() - 1);
        assert(s.drop_last().subrange(0, s.len() - 1) =~= s.drop_last());
    }
}

/// The integer that the characters of `s` hold, when it fits in an `i64`.
pub fn parse_i64(s: &str) -> (r: Option<i64>)
    ensures
        match r {
            Some(n) => parse_int(s@) == Some(n as int),
            None => parse_int(s@) is None || !in_range(parse_int(s@)->Some_0),
        },
{
    let len = s.unicode_len();
    if len == 0 {
        return None;
    }
    let first = s.get_char(0);
    let negative = first == '-';
    let start: usize = if first == '-' || first == '+' { 1 } else { 0 };
    let ghost body = s@.subrange(start as int, s@.len() as int);
    proof {
        if start == 1 {
            assert(s@.drop_first() =~= body);
        } else {
            assert(s@ =~= body);
        }
    }
    if start == len {
        return None;
    }
    let mut acc: u64 = 0;
    let mut i = start;
    while i < len
        invariant
            start <= i <= len,
            len == s@.len(),
            start < len,
            body == s@.subrange(start as int, len as int),
            forall|k: int| start <= k < i ==> is_digit(#[trigger] s@[k]),
            acc as int == digits_value(s@.subrange(start as int, i as int)),
            acc <= 0x8000_0000_0000_0000u64,
            start <= 1,
            start == 0 ==> s@ == body,
            start == 1 ==> s@.drop_first() == body,
            start == 1 <==> (s@[0] == '-' || s@[0] == '+'),
            negative <==> s@[0] == '-',
        decreases len - i,
    {
        let c = s.get_char(i);
        if !('0' <= c && c <= '9') {
            proof {
                assert(body[i - start] == c);
                assert(!is_digit(body[i - start]));
                assert(!all_digits(body));
            }
            return None;
        }
        let d = (c as u32 - '0' as u32) as u64;
        let ghost p1 = s@.subrange(start as int, i + 1);
        assert(p1.drop_last() =~= s@.subrange(start as int, i as int));
        if acc > 0x0CCC_CCCC_CCCC_CCCCu64 || acc * 10 + d > 0x8000_0000_0000_0000u64 {
            proof {
                assert(p1.last() == c);
                assert(digits_value(p1) == acc * 10 + d);
                if acc > 0x0CCC_CCCC_CCCC_CCCCu64 {
                    assert(acc * 10 + d > 0x8000_0000_0000_0000u64) by (nonlinear_arith)
                        requires
                            acc > 0x0CCC_CCCC_CCCC_CCCCu64,
                            d >= 0,
                    ;
                }
                if all_digits(body) {
                    lemma_digits_value_grows(body, i + 1 - start);
                    assert(body.subrange(0, i + 1 - start) =~= p1);
                    assert(digits_value(body) > 0x8000_0000_0000_0000u64);
                    if start == 1 {
                        assert(all_digits(s@.drop_first()));
                    } else {
                        assert(all_digits(s@));
                    }
                }
            }
            return None;
        }
        acc = acc * 10 + d;
        i = i + 1;
    }
    proof {
        assert(s@.subrange(start as int, len as int) =~= body);
        assert forall|k: int| 0 <= k < body.len() implies is_digit(#[trigger] body[k]) by {
            assert(body[k] == s@[k + start]);
        }
    }
    if negative {
        Some((0 - acc as i128) as i64)
    } else if acc <= 0x7FFF_FFFF_FFFF_FFFFu64 {
        Some(acc as i64)
    } else {
        None
    }
}


fn num_op_result(x: i128) -> (r: Result<Value, CompileError>)
    ensures
        yields(r, checked(x as int), (0, 0)),
{
    if -0x8000_0000_0000_0000i128 <= x && x <= 0x7FFF_FFFF_FFFF_FFFFi128 {
        Ok(Value::Number(x as i64))
    } else {
        Err(fault("Number out of range"))
    }
}

impl Function {
    pub fn copy(&self) -> (r: Function)
        ensures
            r == *self,
    {
        match self {
            Function::Native { arity, body } => Function::Native { arity: *arity, body: *body },
            Function::User { name, params, body, closure } => Function::User {
                name: name.copy(),
                params: params.clone(),
                body: body.clone(),
                closure: *closure,
            },
        }
    }
}

impl Value {
    pub fn copy(&self) -> (r: Value)
        ensures
            r == *self,
    {
        match self {
            Value::String(s) => Value::String(s.clone()),
            Value::Number(n) => Value::Number(*n),
            Value::Boolean(b) => Value::Boolean(*b),
            Value::Callable(f) => Value::Callable(f.copy()),
            Value::Nil => Value::Nil,
        }
    }

    pub fn is_truthy(&self) -> (r: bool)
        ensures
            r == truthy(self@),
    {
        match self {
            Value::Boolean(b) => *b,
            Value::Nil => false,
            _ => true,
        }
    }

    /// Unary minus; a string is read as an integer first.
    pub fn neg(self) -> (r: Result<Value, CompileError>)
        ensures
            yields(r, neg_spec(self@), (0, 0)),
    {
        match self {
            Value::Number(v) => num_op_result(0 - v as i128),
            Value::String(s) => match parse_i64(s.as_str()) {
                Some(v) => {
                    if v == i64::MIN {
                        Err(fault("Not a number"))
                    } else {
                        Ok(Value::Number(-v))
                    }
                },
                None => Err(fault("Not a number")),
            },
            _ => Err(fault("No - for the given value.")),
        }
    }

    pub fn mul(self, rhs: Self) -> (r: Result<Value, CompileError>)
        ensures
            yields(r, mul_spec(self@, rhs@), (0, 0)),
    {
        match (self, rhs) {
            (Value::Number(a), Value::Number(b)) => {
                assert(-0x4000_0000_0000_0000_0000_0000_0000_0000 <= (a as int) * (b as int)
                    <= 0x4000_0000_0000_0000_0000_0000_0000_0000) by (nonlinear_arith)
                    requires
                        i64::MIN <= a <= i64::MAX,
                        i64::MIN <= b <= i64::MAX,
                ;
                let p = (a as i128) * (b as i128);
                num_op_result(p)
            },
            _ => Err(fault("No Mul for the given value")),
        }
    }

    /// Division rounding toward zero.
    pub fn div(self, rhs: Self) -> (r: Result<Value, CompileError>)
        ensures
            yields(r, div_spec(self@, rhs@), (0, 0)),
    {
        match (self, rhs) {
            (Value::Number(a), Value::Number(b)) => {
                if b == 0 {
                    return Err(fault("Division by zero"));
                }
                let ua: u128 = if a < 0 { (0 - a as i128) as u128 } else { a as u128 };
                let ub: u128 = if b < 0 { (0 - b as i128) as u128 } else { b as u128 };
                let q = ua / ub;
                assert(q <= ua) by (nonlinear_arith)
                    requires
                        ub >= 1,
                        q == ua / ub,
                ;
                let q = q as i128;
                if (a < 0) != (b < 0) {
                    num_op_result(0 - q)
                } else {
                    num_op_result(q)
                }
            },
            _ => Err(fault("No Div for the given value")),
        }
    }

    pub fn sub(self, rhs: Self) -> (r: Result<Value, CompileError>)
        ensures
            yields(r, sub_spec(self@, rhs@), (0, 0)),
    {
        match (self, rhs) {
            (Value::Number(a), Value::Number(b)) => num_op_result(a as i128 - b as i128),
            _ => Err(fault("No Sub for the given value")),
        }
    }

    /// Adds two numbers or joins two strings.
    pub fn add(self, rhs: Self) -> (r: Result<Value, CompileError>)
        ensures
            yields(r, add_spec(self@, rhs@), (0, 0)),
    {
        match (self, rhs) {
            (Value::Number(a), Value::Number(b)) => num_op_result(a as i128 + b as i128),
            (Value::String(a), Value::String(b)) => Ok(Value::String(a.concat(b.as_str()))),
            (Value::Number(_), Value::String(_)) => Err(fault("No Add for Number and String")),
            (Value::String(_), Value::Number(_)) => Err(fault("No Add for String and Number")),
            _ => Err(fault("No Add for the given values")),
        }
    }

    /// The text that `print` writes for this value.
    pub fn render(&self) -> (r: String)
        ensures
            r@ == display(self@),
    {
        match self {
            Value::String(s) => s.clone(),
            Value::Number(n) => decimal_string(*n),
            Value::Boolean(b) => if *b {
                String::from_str("true")
            } else {
                String::from_str("false")
            },
            Value::Nil => String::from_str("nil"),
            Value::Callable(Function::Native { .. }) => String::from_str("<native function>"),
            Value::Callable(Function::User { name, .. }) => join3("<fn ", name.lexeme.as_str(), ">"),
        }
    }
}

} // verus!
