//! What evaluation can fail with.

use crate::render::{display, json_display};
use crate::value::{Json, Value};
use vstd::prelude::*;

verus! {

/// Evaluation error.
///
/// New variants may be added: match with a wildcard arm.
#[derive(Debug)]
#[non_exhaustive]
pub enum EvalError {
    /// A path did not resolve: the key is missing from the context.
    PathNotFound(String),
    /// A path is malformed, or a path was expected and something else was given.
    InvalidPath(String),
    /// The condition of a branch was not a boolean.
    NonBoolCond(Value),
    /// A value has the wrong type for what is done with it.
    TypeError {
        /// The operation, or a label for it such as `fanout.any`.
        op: String,
        /// What the matter is.
        msg: String,
    },
    /// An arithmetic operation failed.
    ArithError {
        /// The operation.
        op: String,
        /// What the matter is.
        msg: String,
    },
    /// The dispatcher failed on a step.
    DispatcherError {
        /// The step's reference.
        ref_: String,
        /// The text of the dispatcher's own error.
        msg: String,
    },
    /// The registry of external functions failed on a call.
    ExternError {
        /// The reference of the call.
        ref_: String,
        /// What the matter is.
        msg: String,
    },
}

/// What an [`EvalError`] stands for.
pub enum Fault {
    PathNotFound(Seq<char>),
    InvalidPath(Seq<char>),
    NonBoolCond(Json),
    TypeError { op: Seq<char>, msg: Seq<char> },
    ArithError { op: Seq<char>, msg: Seq<char> },
    DispatcherError { ref_: Seq<char>, msg: Seq<char> },
    ExternError { ref_: Seq<char>, msg: Seq<char> },
}

/// The message of a fault.
pub open spec fn fault_text(f: Fault) -> Seq<char> {
    match f {
        Fault::PathNotFound(path) => "path not found: "@ + path,
        Fault::InvalidPath(what) => "invalid path syntax: "@ + what,
        Fault::NonBoolCond(v) => "branch cond must be boolean, got: "@ + json_display(v),
        Fault::TypeError { op, msg } => "type error in '"@ + op + "': "@ + msg,
        Fault::ArithError { op, msg } => "arithmetic error in '"@ + op + "': "@ + msg,
        Fault::DispatcherError { ref_, msg } => "dispatcher error for ref '"@ + ref_ + "': "@ + msg,
        Fault::ExternError { ref_, msg } => "extern error for ref '"@ + ref_ + "': "@ + msg,
    }
}

/// `head`, the label, `': ` and the message.
fn labelled(head: &str, label: &str, msg: &str) -> (r: String)
    ensures
        r@ == head@ + label@ + "': "@ + msg@,
{
    let mut r = head.to_owned();
    r.append(label);
    r.append("': ");
    r.append(msg);
    r
}

impl EvalError {
    /// What the error stands for.
    pub open spec fn view(&self) -> Fault {
        match *self {
            EvalError::PathNotFound(s) => Fault::PathNotFound(s@),
            EvalError::InvalidPath(s) => Fault::InvalidPath(s@),
            EvalError::NonBoolCond(v) => Fault::NonBoolCond(v@),
            EvalError::TypeError { op, msg } => Fault::TypeError { op: op@, msg: msg@ },
            EvalError::ArithError { op, msg } => Fault::ArithError { op: op@, msg: msg@ },
            EvalError::DispatcherError { ref_, msg } => Fault::DispatcherError {
                ref_: ref_@,
                msg: msg@,
            },
            EvalError::ExternError { ref_, msg } => Fault::ExternError { ref_: ref_@, msg: msg@ },
        }
    }

    /// The message of the error.
    pub fn to_string(&self) -> (r: String)
        ensures
            r@ == fault_text(self@),
    {
        match self {
            EvalError::PathNotFound(path) => {
                let mut r = "path not found: ".to_owned();
                r.append(path.as_str());
                r
            },
            EvalError::InvalidPath(what) => {
                let mut r = "invalid path syntax: ".to_owned();
                r.append(what.as_str());
                r
            },
            EvalError::NonBoolCond(v) => {
                let mut r = "branch cond must be boolean, got: ".to_owned();
                r.append(display(v).as_str());
                r
            },
            EvalError::TypeError { op, msg } => labelled(
                "type error in '",
                op.as_str(),
                msg.as_str(),
            ),
            EvalError::ArithError { op, msg } => labelled(
                "arithmetic error in '",
                op.as_str(),
                msg.as_str(),
            ),
            EvalError::DispatcherError { ref_, msg } => labelled(
                "dispatcher error for ref '",
                ref_.as_str(),
                msg.as_str(),
            ),
            EvalError::ExternError { ref_, msg } => labelled(
                "extern error for ref '",
                ref_.as_str(),
                msg.as_str(),
            ),
        }
    }
}

/// What a result stands for.
pub open spec fn value_outcome(r: Result<Value, EvalError>) -> Result<Json, Fault> {
    match r {
        Ok(v) => Ok(v@),
        Err(e) => Err(e@),
    }
}

/// What each of a sequence of results stands for.
pub open spec fn value_outcomes(s: Seq<Result<Value, EvalError>>) -> Seq<Result<Json, Fault>> {
    Seq::new(s.len(), |i: int| value_outcome(s[i]))
}

/// What a result without a value stands for.
pub open spec fn unit_outcome(r: Result<(), EvalError>) -> Result<(), Fault> {
    match r {
        Ok(_) => Ok(()),
        Err(e) => Err(e@),
    }
}

} // verus!
