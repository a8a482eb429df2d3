//! Lexical scopes: an arena of frames with define, assign and lookup through the
//! enclosing chain, and the model those operations are specified over.
use vstd::prelude::*;

use crate::errors::{runtime, CompileError};
use crate::expr::{Val, Value};
use crate::text::join3;
use crate::token::Token;

verus! {

/// One scope: its bindings, newest last, and the index of the scope that encloses it.
pub struct Frame {
    vars: Vec<(String, Value)>,
    parent: Option<usize>,
    captured: bool,
}

/// The model of a scope.
pub struct Scope {
    pub vars: Seq<(Seq<char>, Val)>,
    pub parent: Option<nat>,
    /// A function declared here holds on to this scope.
    pub captured: bool,
}

/// The model of an environment: every scope ever opened, and the one now current.
pub struct Env {
    pub frames: Seq<Scope>,
    pub current: nat,
}

/// The scopes of a program, kept in one arena. A scope's enclosing scope always has a
/// smaller index, so the scope chains form a tree rooted at index 0, the globals.
/// Function values refer to the scope they were declared in by its index, so a scope
/// they captured stays alive and shared for as long as the environment does. A scope
/// that no function captured is dropped when it is left, if it is the newest one.
pub struct Environment {
    frames: Vec<Frame>,
    current: usize,
}

impl View for Frame {
    type V = Scope;

    closed spec fn view(&self) -> Scope {
        Scope {
            vars: self.vars@.map_values(|p: (String, Value)| (p.0@, p.1@)),
            parent: match self.parent {
                Some(p) => Some(p as nat),
                None => None,
            },
            captured: self.captured,
        }
    }
}

impl View for Environment {
    type V = Env;

    closed spec fn view(&self) -> Env {
        Env { frames: self.frames@.map_values(|f: Frame| f@), current: self.current as nat }
    }
}

/// The index of the binding of `name` in `vars`, or -1.
pub open spec fn find(vars: Seq<(Seq<char>, Val)>, name: Seq<char>) -> int
    decreases vars.len(),
{
    if vars.len() == 0 {
        -1
    } else if vars.last().0 == name {
        vars.len() - 1
    } else {
        find(vars.drop_last(), name)
    }
}

/// Where `name` is bound, searching from scope `idx` outward: a scope index and a slot.
pub open spec fn resolve(frames: Seq<Scope>, idx: int, name: Seq<char>) -> Option<(nat, nat)>
    decreases idx + 1,
{
    if idx < 0 || idx >= frames.len() {
        None
    } else if find(frames[idx].vars, name) >= 0 {
        Some((idx as nat, find(frames[idx].vars, name) as nat))
    } else {
        match frames[idx].parent {
            Some(p) => if p < idx {
                resolve(frames, p as int, name)
            } else {
                None
            },
            None => None,
        }
    }
}

impl Env {
    pub open spec fn wf(self) -> bool {
        self.current < self.frames.len()
    }

    /// The value that `name` has, seen from the current scope.
    pub open spec fn lookup(self, name: Seq<char>) -> Option<Val> {
        match resolve(self.frames, self.current as int, name) {
            Some((f, k)) => Some(self.frames[f as int].vars[k as int].1),
            None => None,
        }
    }

    /// `name` bound to `v` in scope `f`, replacing a binding of that name there.
    pub open spec fn bind(self, f: nat, name: Seq<char>, v: Val) -> Env {
        let vars = self.frames[f as int].vars;
        let k = find(vars, name);
        let vars2 = if k >= 0 {
            vars.update(k, (name, v))
        } else {
            vars.push((name, v))
        };
        Env {
            frames: self.frames.update(f as int, Scope { vars: vars2, ..self.frames[f as int] }),
            ..self
        }
    }

    pub open spec fn define(self, name: Seq<char>, v: Val) -> Env {
        self.bind(self.current, name, v)
    }

    /// Assignment: the nearest binding of `name` is overwritten; `None` where there is none.
    pub open spec fn assign(self, name: Seq<char>, v: Val) -> Option<Env> {
        match resolve(self.frames, self.current as int, name) {
            Some((f, k)) => Some(
                Env {
                    frames: self.frames.update(
                        f as int,
                        Scope {
                            vars: self.frames[f as int].vars.update(k as int, (name, v)),
                            ..self.frames[f as int]
                        },
                    ),
                    ..self
                },
            ),
            None => None,
        }
    }

    /// A new empty scope, enclosed by `base` or else by the current scope, becomes current.
    pub open spec fn push(self, base: Option<nat>) -> Env {
        Env {
            frames: self.frames.push(
                Scope {
                    vars: Seq::empty(),
                    parent: Some(
                        match base {
                            Some(b) => b,
                            None => self.current,
                        },
                    ),
                    captured: false,
                },
            ),
            current: self.frames.len(),
        }
    }

    /// The current scope marked as held by a function.
    pub open spec fn capture(self) -> Env {
        Env {
            frames: self.frames.update(
                self.current as int,
                Scope { captured: true, ..self.frames[self.current as int] },
            ),
            ..self
        }
    }

    /// Leaves scope `inner` for scope `saved`: `inner` is dropped where it is the newest
    /// scope and no function holds it; `saved` becomes current where it exists.
    pub open spec fn leave(self, inner: nat, saved: nat) -> Env {
        let e1 = if inner + 1 == self.frames.len() && !self.frames[inner as int].captured {
            Env { frames: self.frames.drop_last(), ..self }
        } else {
            self
        };
        if saved < e1.frames.len() {
            Env { current: saved, ..e1 }
        } else {
            e1
        }
    }

    /// The enclosing scope becomes current again.
    pub open spec fn pop(self) -> Env {
        match self.frames[self.current as int].parent {
            Some(p) => Env { current: p, ..self },
            None => self,
        }
    }
}

proof fn lemma_find(vars: Seq<(Seq<char>, Val)>, name: Seq<char>)
    ensures
        -1 <= find(vars, name) < vars.len(),
        find(vars, name) >= 0 ==> vars[find(vars, name)].0 == name,
    decreases vars.len(),
{
    if vars.len() > 0 {
        lemma_find(vars.drop_last(), name);
    }
}

impl Frame {
    proof fn lemma_view(&self)
        ensures
            self@.vars.len() == self.vars@.len(),
            forall|k: int|
                0 <= k < self.vars@.len() ==> #[trigger] self@.vars[k] == (
                    self.vars@[k].0@,
                    self.vars@[k].1@,
                ),
            self@.parent == match self.parent {
                Some(p) => Some(p as nat),
                None => None::<nat>,
            },
    {
    }
}

proof fn lemma_resolve(frames: Seq<Scope>, idx: int, name: Seq<char>)
    ensures
        resolve(frames, idx, name) matches Some((f, k)) ==> f < frames.len() && k < frames[f as int].vars.len()
            && frames[f as int].vars[k as int].0 == name,
    decreases idx + 1,
{
    if 0 <= idx < frames.len() {
        lemma_find(frames[idx].vars, name);
        match frames[idx].parent {
            Some(p) => if p < idx {
                lemma_resolve(frames, p as int, name);
            },
            None => {},
        }
    }
}

/// Scopes added after scope `idx` do not change what is seen from it.
proof fn lemma_resolve_extend(frames: Seq<Scope>, more: Scope, idx: int, name: Seq<char>)
    requires
        idx < frames.len(),
    ensures
        resolve(frames.push(more), idx, name) == resolve(frames, idx, name),
    decreases idx + 1,
{
    if 0 <= idx {
        assert(frames.push(more)[idx] == frames[idx]);
        match frames[idx].parent {
            Some(p) => if p < idx {
                lemma_resolve_extend(frames, more, p as int, name);
            },
            None => {},
        }
    }
}

/// A binding made in a block is gone once the block is left: after opening a scope,
/// defining `x` in it and closing it again, every name `y`, `x` among them, has the
/// value it had before the scope was opened, or is unbound as it was.
pub proof fn lemma_block_binding_invisible(e: Env, x: Seq<char>, v: Val, y: Seq<char>)
    requires
        e.wf(),
    ensures
        e.push(None).define(x, v).pop().lookup(y) == e.lookup(y),
        e.push(None).define(x, v).pop().current == e.current,
{
    let inner = e.push(None).define(x, v);
    let after = inner.pop();
    assert(inner.frames =~= e.frames.push(inner.frames.last()));
    assert(after.current == e.current);
    lemma_resolve_extend(e.frames, inner.frames.last(), e.current as int, y);
    match resolve(e.frames, e.current as int, y) {
        Some((f, k)) => {
            lemma_resolve(e.frames, e.current as int, y);
            assert(after.frames[f as int] == e.frames[f as int]);
        },
        None => {},
    }
}

/// A call opens its scope inside the scope its function captured. Every name that the
/// new scope does not bind is read from the captured scope, and an assignment to it
/// writes the captured scope itself, not a copy: the same scope that every other call of
/// the function, and every other function declared there, sees.
pub proof fn lemma_call_scope_shares_capture(e: Env, k: nat, y: Seq<char>, v: Val)
    requires
        e.wf(),
        k < e.frames.len(),
    ensures
        e.push(Some(k)).lookup(y) == (Env { current: k, ..e }).lookup(y),
        match (Env { current: k, ..e }).assign(y, v) {
            Some(e2) => e.push(Some(k)).assign(y, v) == Some(
                Env { frames: e2.frames.push(e.push(Some(k)).frames.last()), current: e.frames.len() },
            ),
            None => e.push(Some(k)).assign(y, v) is None,
        },
{
    let inner = e.push(Some(k));
    let outer = Env { current: k, ..e };
    let n = e.frames.len() as int;
    let fresh_scope = inner.frames.last();
    assert(inner.frames =~= e.frames.push(fresh_scope));
    assert(find(fresh_scope.vars, y) == -1);
    lemma_resolve_extend(e.frames, fresh_scope, k as int, y);
    assert(resolve(inner.frames, n, y) == resolve(e.frames, k as int, y));
    match resolve(e.frames, k as int, y) {
        Some((f, slot)) => {
            lemma_resolve(e.frames, k as int, y);
            let e2 = outer.assign(y, v)->Some_0;
            assert(inner.frames[f as int] == e.frames[f as int]);
            assert(inner.assign(y, v)->Some_0.frames =~= e2.frames.push(fresh_scope));
        },
        None => {},
    }
}

impl Environment {
    proof fn lemma_view(&self)
        ensures
            self@.frames.len() == self.frames@.len(),
            self@.current == self.current,
            forall|j: int| 0 <= j < self.frames@.len() ==> #[trigger] self@.frames[j] == self.frames@[j]@,
    {
    }
}

/// An environment holding one empty global scope.
pub open spec fn fresh() -> Env {
    Env { frames: seq![Scope { vars: Seq::empty(), parent: None, captured: false }], current: 0 }
}

pub open spec fn undefined_variable(name: Seq<char>) -> Seq<char> {
    "Undefined variable: "@ + name + "."@
}

pub open spec fn undefined_name(name: Seq<char>) -> Seq<char> {
    "Undefined variable or function: "@ + name + "."@
}

impl Environment {
    pub open spec fn wf(&self) -> bool {
        self@.wf()
    }

    /// An environment holding the global scope alone.
    pub fn new() -> (r: Environment)
        ensures
            r.wf(),
            r@ == fresh(),
    {
        let mut frames: Vec<Frame> = Vec::new();
        frames.push(Frame { vars: Vec::new(), parent: None, captured: false });
        let r = Environment { frames, current: 0 };
        proof {
            r.lemma_view();
            r.frames@[0].lemma_view();
            assert(r@.frames[0].vars =~= Seq::empty());
            assert(r@.frames =~= seq![Scope { vars: Seq::empty(), parent: None, captured: false }]);
        }
        r
    }

    /// The same environment with a new scope, enclosed by the current one, made current.
    pub fn from(enclosing: Environment) -> (r: Environment)
        requires
            enclosing.wf(),
            enclosing@.frames.len() < usize::MAX,
        ensures
            r.wf(),
            r@ == enclosing@.push(None),
    {
        let mut e = enclosing;
        e.push_scope(None);
        e
    }

    /// The index of the current scope.
    pub fn current(&self) -> (r: usize)
        ensures
            r == self@.current,
    {
        self.current
    }

    /// The number of scopes opened so far.
    pub fn len(&self) -> (r: usize)
        ensures
            r == self@.frames.len(),
    {
        self.frames.len()
    }

    fn find_in(&self, f: usize, name: &String) -> (r: Option<usize>)
        requires
            f < self@.frames.len(),
        ensures
            match r {
                Some(k) => find(self@.frames[f as int].vars, name@) == k,
                None => find(self@.frames[f as int].vars, name@) == -1,
            },
    {
        let frame = &self.frames[f];
        let vars = &frame.vars;
        let ghost model = self@.frames[f as int].vars;
        proof {
            self.lemma_view();
            frame.lemma_view();
            assert(model.subrange(0, vars@.len() as int) =~= model);
        }
        let mut i = vars.len();
        while i > 0
            invariant
                i <= vars@.len(),
                vars@.len() == model.len(),
                forall|k: int| 0 <= k < vars@.len() ==> #[trigger] model[k] == (
                    vars@[k].0@,
                    vars@[k].1@,
                ),
                find(model, name@) == find(model.subrange(0, i as int), name@),
                model == self@.frames[f as int].vars,
            decreases i,
        {
            let ghost sub = model.subrange(0, i as int);
            assert(sub.drop_last() =~= model.subrange(0, i - 1));
            assert(sub.last() == model[i - 1]);
            if vars[i - 1].0 == *name {
                assert(find(sub, name@) == i - 1);
                return Some(i - 1);
            }
            i = i - 1;
        }
        None
    }

    /// Binds `name` to `value` in the current scope, replacing a binding there.
    pub fn define(&mut self, name: &Token, value: Value)
        requires
            old(self).wf(),
        ensures
            final(self).wf(),
            final(self)@ == old(self)@.define(name.lexeme@, value@),
    {
        let f = self.current;
        let k = self.find_in(f, &name.lexeme);
        let ghost v = value@;
        proof {
            self.lemma_view();
            self.frames@[f as int].lemma_view();
            lemma_find(old(self)@.frames[f as int].vars, name.lexeme@);
        }
        match k {
            Some(k) => {
                self.frames[f].vars[k] = (name.lexeme.clone(), value);
            },
            None => {
                self.frames[f].vars.push((name.lexeme.clone(), value));
            },
        }
        proof {
            let want = old(self)@.define(name.lexeme@, v);
            self.lemma_view();
            self.frames@[f as int].lemma_view();
            assert(self@.frames[f as int].vars =~= want.frames[f as int].vars);
            assert(self@.frames =~= want.frames);
        }
    }

    fn resolve_exec(&self, name: &String) -> (r: Option<(usize, usize)>)
        ensures
            match r {
                Some((f, k)) => resolve(self@.frames, self@.current as int, name@) == Some(
                    (f as nat, k as nat),
                ),
                None => resolve(self@.frames, self@.current as int, name@) is None,
            },
    {
        let mut f = self.current;
        let ghost frames = self@.frames;
        proof {
            self.lemma_view();
        }
        loop
            invariant
                resolve(frames, self@.current as int, name@) == resolve(frames, f as int, name@),
                frames == self@.frames,
            decreases f,
        {
            if f >= self.frames.len() {
                return None;
            }
            match self.find_in(f, name) {
                Some(k) => {
                    return Some((f, k));
                },
                None => {},
            }
            proof {
                self.frames@[f as int].lemma_view();
            }
            match self.frames[f].parent {
                Some(p) => {
                    if p < f {
                        f = p;
                    } else {
                        return None;
                    }
                },
                None => {
                    return None;
                },
            }
        }
    }

    /// Overwrites the nearest binding of `name`; fails where no scope binds it.
    pub fn assign(&mut self, name: &Token, value: Value) -> (r: Result<(), CompileError>)
        requires
            old(self).wf(),
        ensures
            final(self).wf(),
            match old(self)@.assign(name.lexeme@, value@) {
                Some(e) => r is Ok && final(self)@ == e,
                None => r is Err && final(self)@ == old(self)@ && r->Err_0@ == runtime(
                    name.place,
                    undefined_variable(name.lexeme@),
                ),
            },
    {
        let ghost v = value@;
        proof {
            self.lemma_view();
        }
        match self.resolve_exec(&name.lexeme) {
            Some((f, k)) => {
                proof {
                    lemma_resolve(old(self)@.frames, old(self)@.current as int, name.lexeme@);
                    self.frames@[f as int].lemma_view();
                }
                self.frames[f].vars[k] = (name.lexeme.clone(), value);
                proof {
                    let want = old(self)@.assign(name.lexeme@, v)->Some_0;
                    self.lemma_view();
                    self.frames@[f as int].lemma_view();
                    assert(self@.frames[f as int].vars =~= want.frames[f as int].vars);
                    assert(self@.frames =~= want.frames);
                }
                Ok(())
            },
            None => Err(
                CompileError::Interpreter(
                    name.place,
                    join3("Undefined variable: ", name.lexeme.as_str(), "."),
                ),
            ),
        }
    }

    /// A copy of the value of `name`, seen from the current scope.
    pub fn get(&self, name: &Token) -> (r: Result<Value, CompileError>)
        ensures
            match self@.lookup(name.lexeme@) {
                Some(v) => r is Ok && r->Ok_0@ == v,
                None => r is Err && r->Err_0@ == runtime(name.place, undefined_name(name.lexeme@)),
            },
    {
        proof {
            self.lemma_view();
        }
        match self.resolve_exec(&name.lexeme) {
            Some((f, k)) => {
                proof {
                    lemma_resolve(self@.frames, self@.current as int, name.lexeme@);
                    self.frames@[f as int].lemma_view();
                }
                Ok(self.frames[f].vars[k].1.copy())
            },
            None => Err(
                CompileError::Interpreter(
                    name.place,
                    join3("Undefined variable or function: ", name.lexeme.as_str(), "."),
                ),
            ),
        }
    }

    /// Opens a new empty scope enclosed by `base`, or by the current scope, and makes
    /// it current.
    pub fn push_scope(&mut self, base: Option<usize>)
        requires
            old(self).wf(),
            old(self)@.frames.len() < usize::MAX,
        ensures
            final(self).wf(),
            final(self)@ == old(self)@.push(
                match base {
                    Some(b) => Some(b as nat),
                    None => None,
                },
            ),
    {
        let parent = match base {
            Some(b) => b,
            None => self.current,
        };
        self.frames.push(Frame { vars: Vec::new(), parent: Some(parent), captured: false });
        self.current = self.frames.len() - 1;
        proof {
            self.lemma_view();
            old(self).lemma_view();
            self.frames@[self.current as int].lemma_view();
            assert(self@.frames[self.current as int].vars =~= Seq::empty());
        }
        assert(self@.frames =~= old(self)@.push(
            match base {
                Some(b) => Some(b as nat),
                None => None,
            },
        ).frames);
    }

    /// Makes the enclosing scope current again. The global scope has none.
    pub fn pop_scope(&mut self)
        requires
            old(self).wf(),
            old(self)@.frames[old(self)@.current as int].parent is Some,
            old(self)@.frames[old(self)@.current as int].parent->Some_0 < old(self)@.frames.len(),
        ensures
            final(self).wf(),
            final(self)@ == old(self)@.pop(),
    {
        proof {
            self.lemma_view();
            self.frames@[self.current as int].lemma_view();
        }
        match self.frames[self.current].parent {
            Some(p) => {
                self.current = p;
            },
            None => {},
        }
    }

    /// Marks the current scope as held by a function, so that it is never dropped.
    pub fn capture(&mut self)
        requires
            old(self).wf(),
        ensures
            final(self).wf(),
            final(self)@ == old(self)@.capture(),
    {
        let f = self.current;
        proof {
            self.lemma_view();
            self.frames@[f as int].lemma_view();
        }
        self.frames[f].captured = true;
        proof {
            let want = old(self)@.capture();
            self.lemma_view();
            self.frames@[f as int].lemma_view();
            old(self).frames@[f as int].lemma_view();
            assert(self@.frames[f as int].vars =~= want.frames[f as int].vars);
            assert(self@.frames =~= want.frames);
        }
    }

    /// Leaves scope `inner`, opened when `saved` was current, for `saved`.
    pub fn leave(&mut self, inner: usize, saved: usize)
        requires
            old(self).wf(),
            saved < inner,
        ensures
            final(self).wf(),
            final(self)@ == old(self)@.leave(inner as nat, saved as nat),
    {
        proof {
            self.lemma_view();
        }
        let n = self.frames.len();
        if inner < n && inner == n - 1 && !self.frames[inner].captured {
            proof {
                self.frames@[inner as int].lemma_view();
            }
            self.frames.pop();
            proof {
                self.lemma_view();
                assert(self@.frames =~= old(self)@.frames.drop_last());
            }
        }
        if saved < self.frames.len() {
            self.current = saved;
        }
        proof {
            self.lemma_view();
        }
    }

    /// Makes scope `f` current.
    pub fn restore(&mut self, f: usize)
        requires
            old(self).wf(),
            f < old(self)@.frames.len(),
        ensures
            final(self).wf(),
            final(self)@ == (Env { current: f as nat, ..old(self)@ }),
    {
        self.current = f;
    }
}

} // verus!
