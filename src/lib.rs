//! A tree-walking interpreter for a small Lox-family scripting language: a scanner, a
//! recursive-descent parser, and an evaluator over lexically scoped, shared frames,
//! each verified against its contract.
pub mod environment;
pub mod errors;
pub mod expr;
pub mod interpreter;
pub mod parser;
pub mod scanner;
pub mod semantics;
pub mod statements;
pub mod text;
pub mod token;

use vstd::prelude::*;

use crate::errors::{CompileError, Fault};
use crate::environment::fresh;
use crate::expr::{NativeFn, Val};
use crate::interpreter::{clock_name, run_all, Interpreter};
use crate::semantics::World;
use crate::parser::Parser;
use crate::scanner::{lex, Scanner};
use crate::statements::Statement;

verus! {

/// A fresh interpreter: the global scope with `clock` alone, nothing printed, the clock
/// at zero.
pub open spec fn start() -> World {
    World {
        env: fresh().define(clock_name(), Val::Native(NativeFn::Clock, 0)),
        out: Seq::empty(),
        now: 0,
    }
}

/// Scans, parses and runs `source` on `interpreter`, and returns the diagnostics: every
/// scanner diagnostic; else the parser's first; else the runtime one, if any. Nothing
/// runs unless scanning and parsing both succeed. What the program prints stays in the
/// interpreter.
pub fn run_lines(source: &str, interpreter: &mut Interpreter) -> (r: Vec<CompileError>)
    requires
        old(interpreter).wf(),
    ensures
        final(interpreter).wf(),
        final(interpreter).fuel_spec() == old(interpreter).fuel_spec(),
        lex(source@).1.len() > 0 ==> r@.map_values(|e: CompileError| e@) == lex(source@).1
            && final(interpreter)@ == old(interpreter)@,
        r@.len() == 0 ==> exists|ss: Seq<Statement>|
            #[trigger] run_all(old(interpreter)@, ss, ss.len(), old(interpreter).fuel_spec())
                == (final(interpreter)@, Ok::<(), Fault>(())),
        r@.len() > 0 ==> final(interpreter)@ == old(interpreter)@ || (r@.len() == 1 && exists|
            ss: Seq<Statement>,
        |
            #[trigger] run_all(old(interpreter)@, ss, ss.len(), old(interpreter).fuel_spec())
                == (final(interpreter)@, Err::<(), Fault>(r@[0]@))),
{
    let mut scanner = Scanner::new(source);
    match scanner.scan_tokens() {
        Err(errors) => errors,
        Ok(tokens) => {
            let mut parser = Parser::new(tokens);
            match parser.parse() {
                Err(e) => vec![e],
                Ok(statements) => match interpreter.interpret(statements.as_slice()) {
                    Ok(()) => Vec::new(),
                    Err(e) => {
                        let mut v: Vec<CompileError> = Vec::new();
                        v.push(e);
                        v
                    },
                },
            }
        },
    }
}

/// Runs `source` on a fresh interpreter whose clock reads zero: the lines it printed,
/// and its diagnostics as [`run_lines`] gives them.
pub fn run(source: &str) -> (r: (Vec<String>, Vec<CompileError>))
    ensures
        lex(source@).1.len() > 0 ==> r.0@.len() == 0 && r.1@.map_values(|e: CompileError| e@) == lex(
            source@,
        ).1,
        r.1@.len() == 0 ==> exists|ss: Seq<Statement>|
            {
                let (w, res) = #[trigger] run_all(start(), ss, ss.len(), u64::MAX as nat);
                &&& res is Ok
                &&& w.out == r.0@.map_values(|s: String| s@)
            },
{
    let mut interpreter = Interpreter::default();
    let diagnostics = run_lines(source, &mut interpreter);
    let ghost after = interpreter@;
    let out = interpreter.take_output();
    proof {
        if lex(source@).1.len() > 0 {
            assert(out@.map_values(|s: String| s@).len() == out@.len());
        }
        if diagnostics@.len() == 0 {
            let ss = choose|ss: Seq<Statement>|
                #[trigger] run_all(start(), ss, ss.len(), u64::MAX as nat) == (after, Ok::<(), Fault>(()));
            assert(run_all(start(), ss, ss.len(), u64::MAX as nat) == (after, Ok::<(), Fault>(())));
        }
    }
    (out, diagnostics)
}

} // verus!
