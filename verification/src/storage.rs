//! Where the context of a run is kept.

use crate::error::{unit_outcome, value_outcome, EvalError, Fault};
use crate::path::{parse_error_text, parse_path, read_at, write_at, Path};
use crate::value::{Json, Value};
use vstd::prelude::*;

verus! {

/// A place where a context is kept: all that evaluation knows of its context goes through
/// these four operations.
///
/// An implementation that does not say what they do, such as one that others may write to in
/// between, may do anything.
pub trait CtxStorage: Sized {
    /// What the operations depend on and change.
    type State;

    /// The state now.
    open spec fn state(&self) -> Self::State {
        arbitrary::<spec_fn(Self) -> Self::State>()(*self)
    }

    /// Whether reading a path in a state may give a result.
    open spec fn finds(s: Self::State, path: Seq<char>, r: Result<Json, Fault>) -> bool {
        true
    }

    /// Whether writing a value at a path in a state may give a result and lead to a state.
    open spec fn takes(
        s: Self::State,
        path: Seq<char>,
        v: Json,
        r: Result<(), Fault>,
        post: Self::State,
    ) -> bool {
        true
    }

    /// Whether a state may show a context.
    open spec fn shows(s: Self::State, v: Json) -> bool {
        true
    }

    /// Whether replacing the context in a state may lead to a state.
    open spec fn becomes(s: Self::State, v: Json, post: Self::State) -> bool {
        true
    }

    /// The value at a path.
    fn read(&self, path: &str) -> (r: Result<Value, EvalError>)
        ensures
            Self::finds(self.state(), path@, value_outcome(r)),
    ;

    /// Sets the value at a path.
    fn write(&mut self, path: &str, value: Value) -> (r: Result<(), EvalError>)
        ensures
            Self::takes(
                old(self).state(),
                path@,
                value@,
                unit_outcome(r),
                final(self).state(),
            ),
    ;

    /// The whole context.
    fn snapshot(&self) -> (r: Value)
        ensures
            Self::shows(self.state(), r@),
    ;

    /// Replaces the whole context.
    fn replace(&mut self, value: Value)
        ensures
            Self::becomes(old(self).state(), value@, final(self).state()),
    ;
}

/// What reading a path that is given as text gives.
pub open spec fn read_text(path: Seq<char>, ctx: Json) -> Result<Json, Fault> {
    match parse_path(path) {
        Ok(p) => read_at(p, ctx),
        Err(reason) => Err(Fault::InvalidPath(parse_error_text(path, reason))),
    }
}

/// What writing a path that is given as text gives: the new context, or the error.
pub open spec fn write_text(path: Seq<char>, ctx: Json, value: Json) -> Result<Json, Fault> {
    match parse_path(path) {
        Ok(p) => write_at(p, ctx, value),
        Err(reason) => Err(Fault::InvalidPath(parse_error_text(path, reason))),
    }
}

/// Reads the value at a path that is given as text.
pub fn read_path(path: &str, ctx: &Value) -> (r: Result<Value, EvalError>)
    ensures
        value_outcome(r) == read_text(path@, ctx@),
{
    match Path::from_str(path) {
        Ok(p) => match p.read(ctx) {
            Ok(v) => Ok(v.clone()),
            Err(e) => Err(e),
        },
        Err(e) => Err(EvalError::InvalidPath(e.to_string())),
    }
}

/// A context that is kept in memory.
#[derive(Debug)]
pub struct MemoryCtx {
    ctx: Value,
}

impl MemoryCtx {
    /// The context.
    pub closed spec fn view(&self) -> Json {
        self.ctx@
    }

    /// Keeps a context in memory.
    pub fn new(ctx: Value) -> (r: Self)
        ensures
            r@ == ctx@,
    {
        MemoryCtx { ctx }
    }
}

impl CtxStorage for MemoryCtx {
    type State = Json;

    open spec fn state(&self) -> Json {
        self@
    }

    open spec fn finds(s: Json, path: Seq<char>, r: Result<Json, Fault>) -> bool {
        r == read_text(path, s)
    }

    open spec fn takes(
        s: Json,
        path: Seq<char>,
        v: Json,
        r: Result<(), Fault>,
        post: Json,
    ) -> bool {
        match write_text(path, s, v) {
            Ok(w) => r is Ok && post == w,
            Err(f) => r == Err::<(), Fault>(f) && post == s,
        }
    }

    open spec fn shows(s: Json, v: Json) -> bool {
        v == s
    }

    open spec fn becomes(s: Json, v: Json, post: Json) -> bool {
        post == v
    }

    fn read(&self, path: &str) -> Result<Value, EvalError> {
        read_path(path, &self.ctx)
    }

    fn write(&mut self, path: &str, value: Value) -> Result<(), EvalError> {
        match Path::from_str(path) {
            Ok(p) => p.write(&mut self.ctx, value),
            Err(e) => Err(EvalError::InvalidPath(e.to_string())),
        }
    }

    fn snapshot(&self) -> Value {
        self.ctx.clone()
    }

    fn replace(&mut self, value: Value) {
        self.ctx = value;
    }
}

} // verus!
