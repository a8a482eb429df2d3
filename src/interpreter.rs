//! The tree-walking evaluator, proved to follow the semantics in `semantics`.
use vstd::prelude::*;

use crate::environment::{fresh, Environment};
use crate::errors::{CompileError, Fault};
use crate::expr::{names_of, Expr, Function, NativeFn, Val, Value};
use crate::semantics::{at, bind_params, binary_spec, eval, eval_args, exec, exec_seq, run_while, World};
use crate::statements::Statement;
use crate::text::{join3, unsigned_string};
use crate::token::{Literal, Token, TokenType};

verus! {

/// Runs programs: holds the scopes, the lines printed so far, the clock reading that
/// `clock()` returns, and the fuel that bounds call depth and loop iterations.
pub struct Interpreter {
    env: Environment,
    out: Vec<String>,
    now: i64,
    fuel: u64,
}

impl View for Interpreter {
    type V = World;

    closed spec fn view(&self) -> World {
        World { env: self.env@, out: self.out@.map_values(|s: String| s@), now: self.now as int }
    }
}

pub open spec fn rv(r: Result<Value, CompileError>) -> Result<Val, Fault> {
    match r {
        Ok(v) => Ok(v@),
        Err(e) => Err(e@),
    }
}

pub open spec fn ru(r: Result<(), CompileError>) -> Result<(), Fault> {
    match r {
        Ok(_) => Ok(()),
        Err(e) => Err(e@),
    }
}

/// Top-level statements run one after the other, each with the whole fuel.
pub open spec fn run_all(w: World, ss: Seq<Statement>, n: nat, fuel: nat) -> (World, Result<(), Fault>)
    decreases n,
{
    if n == 0 || n > ss.len() {
        (w, Ok(()))
    } else {
        let (w1, r) = run_all(w, ss, (n - 1) as nat, fuel);
        match r {
            Err(f) => (w1, Err(f)),
            Ok(_) => exec(w1, ss[n - 1], fuel),
        }
    }
}

pub open spec fn clock_name() -> Seq<char> {
    "clock"@
}

proof fn lemma_args_fault_stays(w: World, args: Vec<Expr>, n: nat, m: nat, fuel: nat)
    requires
        n <= m <= args@.len(),
        eval_args(w, args, n, fuel).1 is Err,
    ensures
        eval_args(w, args, m, fuel) == eval_args(w, args, n, fuel),
    decreases m,
{
    if m > n {
        lemma_args_fault_stays(w, args, n, (m - 1) as nat, fuel);
    }
}

proof fn lemma_seq_fault_stays(w: World, ss: Vec<Statement>, n: nat, m: nat, fuel: nat)
    requires
        n <= m <= ss@.len(),
        exec_seq(w, ss, n, fuel).1 is Err,
    ensures
        exec_seq(w, ss, m, fuel) == exec_seq(w, ss, n, fuel),
    decreases m,
{
    if m > n {
        lemma_seq_fault_stays(w, ss, n, (m - 1) as nat, fuel);
    }
}

proof fn lemma_run_all_fault_stays(w: World, ss: Seq<Statement>, n: nat, m: nat, fuel: nat)
    requires
        n <= m <= ss.len(),
        run_all(w, ss, n, fuel).1 is Err,
    ensures
        run_all(w, ss, m, fuel) == run_all(w, ss, n, fuel),
    decreases m,
{
    if m > n {
        lemma_run_all_fault_stays(w, ss, n, (m - 1) as nat, fuel);
    }
}

fn fault_at(span: (usize, usize), msg: &str) -> (r: CompileError)
    ensures
        r@ == crate::errors::runtime(span, msg@),
{
    CompileError::Interpreter(span, String::from_str(msg))
}

/// Fails unless a call passes as many arguments as the callee takes.
fn check_arity(paren: &Token, params: usize, arguments: usize) -> (r: Result<(), CompileError>)
    ensures
        params == arguments ==> r is Ok,
        params != arguments ==> r is Err && r->Err_0@ == crate::errors::runtime(
            paren.place,
            crate::semantics::arity_message(params as nat, arguments as nat),
        ),
{
    if params != arguments {
        let head = join3("Expected ", unsigned_string(params as u64).as_str(), " arguments but got ");
        let msg = join3(head.as_str(), unsigned_string(arguments as u64).as_str(), ".");
        Err(CompileError::Interpreter(paren.place, msg))
    } else {
        Ok(())
    }
}

impl Interpreter {
    pub closed spec fn wf(&self) -> bool {
        self.env.wf()
    }

    /// The fuel each top-level statement runs with.
    pub closed spec fn fuel_spec(&self) -> nat {
        self.fuel as nat
    }

    /// An interpreter over `env`, with the native `clock` defined in its current scope,
    /// nothing printed, the clock at zero and all the fuel there is.
    pub fn new(env: Environment) -> (r: Interpreter)
        requires
            env.wf(),
        ensures
            r.wf(),
            r@ == (World {
                env: env@.define(clock_name(), Val::Native(NativeFn::Clock, 0)),
                out: Seq::empty(),
                now: 0,
            }),
            r.fuel_spec() == u64::MAX,
    {
        let mut env = env;
        let name = Token::new(TokenType::Identifier, Literal::Nothing, String::from_str("clock"), (0, 0));
        env.define(&name, Value::Callable(Function::Native { arity: 0, body: NativeFn::Clock }));
        let r = Interpreter { env, out: Vec::new(), now: 0, fuel: u64::MAX };
        assert(r@.out =~= Seq::empty());
        r
    }

    /// An interpreter over a fresh global scope.
    pub fn default() -> (r: Interpreter)
        ensures
            r.wf(),
            r@ == (World {
                env: fresh().define(clock_name(), Val::Native(NativeFn::Clock, 0)),
                out: Seq::empty(),
                now: 0,
            }),
            r.fuel_spec() == u64::MAX,
    {
        Interpreter::new(Environment::new())
    }

    /// Sets the fuel that bounds call depth and the iterations of each loop.
    pub fn set_fuel(&mut self, fuel: u64)
        ensures
            final(self)@ == old(self)@,
            final(self).fuel_spec() == fuel,
            final(self).wf() == old(self).wf(),
    {
        self.fuel = fuel;
    }

    /// Sets the reading, in milliseconds since the Unix epoch, that `clock()` returns.
    pub fn set_clock(&mut self, now: i64)
        ensures
            final(self)@ == (World { now: now as int, ..old(self)@ }),
            final(self).fuel_spec() == old(self).fuel_spec(),
            final(self).wf() == old(self).wf(),
    {
        self.now = now;
    }

    /// Hands out the lines printed so far and forgets them.
    pub fn take_output(&mut self) -> (r: Vec<String>)
        ensures
            r@.map_values(|s: String| s@) == old(self)@.out,
            final(self)@ == (World { out: Seq::empty(), ..old(self)@ }),
            final(self).fuel_spec() == old(self).fuel_spec(),
            final(self).wf() == old(self).wf(),
    {
        let mut r: Vec<String> = Vec::new();
        std::mem::swap(&mut r, &mut self.out);
        assert(self@.out =~= Seq::<Seq<char>>::empty());
        r
    }

    fn evaluate(&mut self, expr: &Expr, fuel: u64) -> (r: Result<Value, CompileError>)
        requires
            old(self).wf(),
        ensures
            final(self).wf(),
            final(self).fuel_spec() == old(self).fuel_spec(),
            (final(self)@, rv(r)) == eval(old(self)@, *expr, fuel as nat),
        decreases fuel, *expr, 0nat,
    {
        match expr {
            Expr::Literal(v) => Ok(v.copy()),
            Expr::Grouping(inner) => self.evaluate(inner, fuel),
            Expr::Unary(op, rhs) => {
                let v = match self.evaluate(rhs, fuel) {
                    Ok(v) => v,
                    Err(e) => return Err(e),
                };
                match op._type {
                    TokenType::Minus => match v.neg() {
                        Ok(x) => Ok(x),
                        Err(e) => Err(e.at(op.place)),
                    },
                    TokenType::Bang => Ok(Value::Boolean(!v.is_truthy())),
                    _ => Err(fault_at(op.place, "Unexpected operator")),
                }
            },
            Expr::Binary(lhs, op, rhs) => {
                let a = match self.evaluate(lhs, fuel) {
                    Ok(v) => v,
                    Err(e) => return Err(e),
                };
                let b = match self.evaluate(rhs, fuel) {
                    Ok(v) => v,
                    Err(e) => return Err(e),
                };
                Interpreter::binary(op, a, b)
            },
            Expr::Logical(lhs, op, rhs) => {
                let a = match self.evaluate(lhs, fuel) {
                    Ok(v) => v,
                    Err(e) => return Err(e),
                };
                if (op._type == TokenType::Or) == a.is_truthy() {
                    Ok(a)
                } else {
                    self.evaluate(rhs, fuel)
                }
            },
            Expr::Variable(name) => self.env.get(name),
            Expr::Assign(name, rhs) => {
                let v = match self.evaluate(rhs, fuel) {
                    Ok(v) => v,
                    Err(e) => return Err(e),
                };
                let kept = v.copy();
                match self.env.assign(name, v) {
                    Ok(()) => Ok(kept),
                    Err(e) => Err(e),
                }
            },
            Expr::Call(callee, paren, args) => {
                let c = match self.evaluate(callee, fuel) {
                    Ok(v) => v,
                    Err(e) => return Err(e),
                };
                match &c {
                    Value::Callable(_) => {},
                    _ => return Err(fault_at(paren.place, "Not a callable object.")),
                }
                let ghost w1 = self@;
                let mut vals: Vec<Value> = Vec::new();
                let mut i: usize = 0;
                assert(vals@.map_values(|v: Value| v@) =~= Seq::<Val>::empty());
                while i < args.len()
                    invariant
                        *expr == Expr::Call(*callee, *paren, *args),
                        eval(old(self)@, **callee, fuel as nat) == (w1, Ok::<Val, Fault>(c@)),
                        c is Callable,
                        self.wf(),
                        self.fuel_spec() == old(self).fuel_spec(),
                        i <= args@.len(),
                        eval_args(w1, *args, i as nat, fuel as nat) == (
                            self@,
                            Ok::<Seq<Val>, Fault>(vals@.map_values(|v: Value| v@)),
                        ),
                    decreases args@.len() - i,
                {
                    proof {
                        vstd::std_specs::vec::axiom_vec_index_decreases(*args, i as int);
                        assert((*expr)->Call_2 == *args);
                        assert(decreases_to!(*expr => (*expr)->Call_2));
                        assert(decreases_to!(*expr => args[i as int]));
                    }
                    match self.evaluate(&args[i], fuel) {
                        Ok(v) => {
                            vals.push(v);
                            assert(vals@.map_values(|v: Value| v@) =~= eval_args(
                                w1,
                                *args,
                                (i + 1) as nat,
                                fuel as nat,
                            ).1->Ok_0);
                        },
                        Err(e) => {
                            proof {
                                lemma_args_fault_stays(w1, *args, (i + 1) as nat, args@.len(), fuel as nat);
                            }
                            return Err(e);
                        },
                    }
                    i = i + 1;
                }
                let ghost vv = vals@.map_values(|v: Value| v@);
                match c {
                    Value::Callable(Function::Native { arity, body }) => {
                        match check_arity(paren, arity, vals.len()) {
                            Ok(()) => {},
                            Err(e) => return Err(e),
                        }
                        match body {
                            NativeFn::Clock => Ok(Value::Number(self.now)),
                        }
                    },
                    Value::Callable(Function::User { params, body, closure, .. }) => {
                        match check_arity(paren, params.len(), vals.len()) {
                            Ok(()) => {},
                            Err(e) => return Err(e),
                        }
                        if fuel == 0 {
                            return Err(fault_at(paren.place, "Step limit reached"));
                        }
                        if self.env.len() == usize::MAX {
                            return Err(fault_at(paren.place, "Too many scopes"));
                        }
                        let saved = self.env.current();
                        let opened = self.env.len();
                        self.env.push_scope(Some(closure));
                        let ghost pushed = self.env@;
                        let ghost pnames = names_of((*params)@);
                        let mut j: usize = 0;
                        while j < vals.len()
                            invariant
                                self.wf(),
                                self.fuel_spec() == old(self).fuel_spec(),
                                j <= vals@.len(),
                                vals@.len() == params@.len(),
                                vv == vals@.map_values(|v: Value| v@),
                                pnames == names_of((*params)@),
                                self.env@ == bind_params(pushed, pnames, vv, j as nat),
                                self@.out == eval_args(w1, *args, args@.len() as nat, fuel as nat).0.out,
                                self@.now == eval_args(w1, *args, args@.len() as nat, fuel as nat).0.now,
                            decreases vals@.len() - j,
                        {
                            self.env.define(&params[j], vals[j].copy());
                            j = j + 1;
                        }
                        let r = self.execute_seq(&body, fuel - 1);
                        self.env.leave(opened, saved);
                        match r {
                            Ok(()) => Ok(Value::Nil),
                            Err(e) => Err(e),
                        }
                    },
                    _ => Err(fault_at(paren.place, "Not a callable object.")),
                }
            },
        }
    }

    fn execute_seq(&mut self, ss: &Vec<Statement>, fuel: u64) -> (r: Result<(), CompileError>)
        requires
            old(self).wf(),
        ensures
            final(self).wf(),
            final(self).fuel_spec() == old(self).fuel_spec(),
            (final(self)@, ru(r)) == exec_seq(old(self)@, *ss, ss@.len(), fuel as nat),
        decreases fuel, *ss, 0nat,
    {
        let ghost w0 = self@;
        let mut i: usize = 0;
        while i < ss.len()
            invariant
                w0 == old(self)@,
                self.wf(),
                self.fuel_spec() == old(self).fuel_spec(),
                i <= ss@.len(),
                exec_seq(w0, *ss, i as nat, fuel as nat) == (self@, Ok::<(), Fault>(())),
            decreases ss@.len() - i,
        {
            match self.execute(&ss[i], fuel) {
                Ok(()) => {},
                Err(e) => {
                    proof {
                        lemma_seq_fault_stays(w0, *ss, (i + 1) as nat, ss@.len(), fuel as nat);
                    }
                    return Err(e);
                },
            }
            i = i + 1;
        }
        Ok(())
    }

    fn execute(&mut self, stmt: &Statement, fuel: u64) -> (r: Result<(), CompileError>)
        requires
            old(self).wf(),
        ensures
            final(self).wf(),
            final(self).fuel_spec() == old(self).fuel_spec(),
            (final(self)@, ru(r)) == exec(old(self)@, *stmt, fuel as nat),
        decreases fuel, *stmt, fuel + 1,
    {
        match stmt {
            Statement::Print(e) => {
                let v = match self.evaluate(e, fuel) {
                    Ok(v) => v,
                    Err(e) => return Err(e),
                };
                let ghost before = self@;
                self.out.push(v.render());
                assert(self@.out =~= before.out.push(crate::expr::display(v@)));
                Ok(())
            },
            Statement::Expresion(e) => {
                match self.evaluate(e, fuel) {
                    Ok(_) => Ok(()),
                    Err(e) => Err(e),
                }
            },
            Statement::Var(name, e) => {
                let v = match self.evaluate(e, fuel) {
                    Ok(v) => v,
                    Err(e) => return Err(e),
                };
                self.env.define(name, v);
                Ok(())
            },
            Statement::Block(ss) => {
                if self.env.len() == usize::MAX {
                    return Err(fault_at((0, 0), "Too many scopes"));
                }
                let saved = self.env.current();
                let opened = self.env.len();
                self.env.push_scope(None);
                let r = self.execute_seq(ss, fuel);
                self.env.leave(opened, saved);
                r
            },
            Statement::If(c, then_branch, else_branch) => {
                let v = match self.evaluate(c, fuel) {
                    Ok(v) => v,
                    Err(e) => return Err(e),
                };
                if v.is_truthy() {
                    self.execute(then_branch, fuel)
                } else {
                    match else_branch {
                        Some(s) => self.execute(s, fuel),
                        None => Ok(()),
                    }
                }
            },
            Statement::While(c, body) => {
                let ghost w0 = self@;
                let mut budget = fuel;
                assert(exec(w0, *stmt, fuel as nat) == run_while(w0, *stmt, fuel as nat, fuel as nat));
                loop
                    invariant
                        *stmt == Statement::While(*c, *body),
                        w0 == old(self)@,
                        exec(w0, *stmt, fuel as nat) == run_while(w0, *stmt, fuel as nat, fuel as nat),
                        self.wf(),
                        self.fuel_spec() == old(self).fuel_spec(),
                        budget <= fuel,
                        run_while(w0, *stmt, fuel as nat, fuel as nat) == run_while(
                            self@,
                            *stmt,
                            fuel as nat,
                            budget as nat,
                        ),
                    decreases budget,
                {
                    if budget == 0 {
                        return Err(fault_at((0, 0), "Step limit reached"));
                    }
                    let v = match self.evaluate(c, fuel) {
                        Ok(v) => v,
                        Err(e) => return Err(e),
                    };
                    if !v.is_truthy() {
                        return Ok(());
                    }
                    match self.execute(body, fuel) {
                        Ok(()) => {},
                        Err(e) => return Err(e),
                    }
                    budget = budget - 1;
                }
            },
            Statement::Function(name, params, body) => {
                let f = Function::User {
                    name: name.copy(),
                    params: params.clone(),
                    body: body.clone(),
                    closure: self.env.current(),
                };
                self.env.capture();
                self.env.define(name, Value::Callable(f));
                Ok(())
            },
        }
    }

    /// Runs `statements` in order, each with the whole fuel, and stops at the first
    /// fault. What `print` writes is kept until [`Interpreter::take_output`].
    pub fn interpret(&mut self, statements: &[Statement]) -> (r: Result<(), CompileError>)
        requires
            old(self).wf(),
        ensures
            final(self).wf(),
            final(self).fuel_spec() == old(self).fuel_spec(),
            (final(self)@, ru(r)) == run_all(old(self)@, statements@, statements@.len(), old(self).fuel_spec()),
    {
        let ghost w0 = self@;
        let fuel = self.fuel;
        let mut i: usize = 0;
        while i < statements.len()
            invariant
                w0 == old(self)@,
                self.wf(),
                self.fuel_spec() == old(self).fuel_spec(),
                fuel == self.fuel_spec(),
                i <= statements@.len(),
                run_all(w0, statements@, i as nat, fuel as nat) == (self@, Ok::<(), Fault>(())),
            decreases statements@.len() - i,
        {
            match self.execute(&statements[i], fuel) {
                Ok(()) => {},
                Err(e) => {
                    proof {
                        lemma_run_all_fault_stays(w0, statements@, (i + 1) as nat, statements@.len() as nat, fuel as nat);
                    }
                    return Err(e);
                },
            }
            i = i + 1;
        }
        Ok(())
    }

    fn binary(op: &Token, a: Value, b: Value) -> (r: Result<Value, CompileError>)
        ensures
            rv(r) == at(binary_spec(op._type, a@, b@), op.place),
    {
        let res = match op._type {
            TokenType::Minus => a.sub(b),
            TokenType::Plus => a.add(b),
            TokenType::Slash => a.div(b),
            TokenType::Star => a.mul(b),
            TokenType::Greater | TokenType::GreaterEqual | TokenType::Less | TokenType::LessEqual => {
                match (a, b) {
                    (Value::Number(x), Value::Number(y)) => Ok(
                        Value::Boolean(
                            match op._type {
                                TokenType::Greater => x > y,
                                TokenType::GreaterEqual => x >= y,
                                TokenType::Less => x < y,
                                _ => x <= y,
                            },
                        ),
                    ),
                    _ => Err(fault_at((0, 0), "Operands must be numbers.")),
                }
            },
            TokenType::EqualEqual => Ok(Value::Boolean(values_equal(&a, &b))),
            TokenType::BangEqual => Ok(Value::Boolean(!values_equal(&a, &b))),
            _ => Err(fault_at((0, 0), "Unexpected operator")),
        };
        match res {
            Ok(v) => Ok(v),
            Err(e) => Err(e.at(op.place)),
        }
    }
}

/// The language's `==`.
pub fn values_equal(a: &Value, b: &Value) -> (r: bool)
    ensures
        r == crate::expr::val_eq(a@, b@),
{
    match (a, b) {
        (Value::String(x), Value::String(y)) => *x == *y,
        (Value::Number(x), Value::Number(y)) => *x == *y,
        (Value::Boolean(x), Value::Boolean(y)) => *x == *y,
        (Value::Nil, Value::Nil) => true,
        _ => false,
    }
}

} // verus!
