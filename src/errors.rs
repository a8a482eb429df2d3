//! Diagnostics: the phase that raised one, the byte span it points at, its message.
use vstd::prelude::*;

verus! {

/// A diagnostic: the phase that raised it, the byte span it points at, and its message.
#[derive(Debug)]
pub enum CompileError {
    Parser((usize, usize), String),
    Scanner((usize, usize), String),
    Interpreter((usize, usize), String),
}

/// The phase that raised a diagnostic.
#[derive(Debug, Clone, Copy, PartialEq, Eq, Structural)]
pub enum Phase {
    Parser,
    Scanner,
    Interpreter,
}

/// What a diagnostic says, with its message as a character sequence.
pub struct Fault {
    pub phase: Phase,
    pub span: (usize, usize),
    pub msg: Seq<char>,
}

impl View for CompileError {
    type V = Fault;

    open spec fn view(&self) -> Fault {
        match self {
            CompileError::Parser(span, m) => Fault { phase: Phase::Parser, span: *span, msg: m@ },
            CompileError::Scanner(span, m) => Fault { phase: Phase::Scanner, span: *span, msg: m@ },
            CompileError::Interpreter(span, m) => Fault {
                phase: Phase::Interpreter,
                span: *span,
                msg: m@,
            },
        }
    }
}

/// A runtime fault at `span` with message `msg`.
pub open spec fn runtime(span: (usize, usize), msg: Seq<char>) -> Fault {
    Fault { phase: Phase::Interpreter, span, msg }
}

impl CompileError {
    /// The same diagnostic, pointing at `span` instead.
    pub fn at(self, span: (usize, usize)) -> (r: CompileError)
        ensures
            r@ == (Fault { span, ..self@ }),
    {
        match self {
            CompileError::Parser(_, m) => CompileError::Parser(span, m),
            CompileError::Scanner(_, m) => CompileError::Scanner(span, m),
            CompileError::Interpreter(_, m) => CompileError::Interpreter(span, m),
        }
    }

    pub fn span(&self) -> (r: (usize, usize))
        ensures
            r == self@.span,
    {
        match self {
            CompileError::Parser(s, _) => *s,
            CompileError::Scanner(s, _) => *s,
            CompileError::Interpreter(s, _) => *s,
        }
    }

    pub fn message(&self) -> (r: &String)
        ensures
            r@ == self@.msg,
    {
        match self {
            CompileError::Parser(_, m) => m,
            CompileError::Scanner(_, m) => m,
            CompileError::Interpreter(_, m) => m,
        }
    }
}

} // verus!
