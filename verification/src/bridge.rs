//! What is said of a function of an embedded script that is called in place of a dispatcher or
//! of an external function.

use crate::error::{value_outcome, EvalError, Fault};
use crate::value::{Json, Value};
use vstd::prelude::*;

verus! {

/// Where a call of a script failed, and the text of the failure.
#[derive(Debug)]
pub enum ScriptFault {
    /// There is no such function.
    Missing,
    /// An argument could not be converted to a value of the script.
    ToValue(String),
    /// The function failed.
    Call(String),
    /// The result could not be converted from a value of the script.
    FromValue(String),
}

/// The message of a failed call.
pub open spec fn script_message(f: ScriptFault) -> Seq<char> {
    match f {
        ScriptFault::Missing => "not registered in externs (or not a function)"@,
        ScriptFault::ToValue(text) => "to_value: "@ + text@,
        ScriptFault::Call(text) => "lua call: "@ + text@,
        ScriptFault::FromValue(text) => "from_value: "@ + text@,
    }
}

/// The message of a failed call.
fn message(f: &ScriptFault) -> (r: String)
    ensures
        r@ == script_message(*f),
{
    match f {
        ScriptFault::Missing => "not registered in externs (or not a function)".to_owned(),
        ScriptFault::ToValue(text) => {
            let mut r = "to_value: ".to_owned();
            r.append(text.as_str());
            r
        },
        ScriptFault::Call(text) => {
            let mut r = "lua call: ".to_owned();
            r.append(text.as_str());
            r
        },
        ScriptFault::FromValue(text) => {
            let mut r = "from_value: ".to_owned();
            r.append(text.as_str());
            r
        },
    }
}

/// The reply of a script that is called in place of a dispatcher.
pub fn dispatcher_reply(ref_: &str, called: Result<Value, ScriptFault>) -> (r: Result<
    Value,
    EvalError,
>)
    ensures
        value_outcome(r) == match called {
            Ok(v) => Ok::<Json, Fault>(v@),
            Err(f) => Err(Fault::DispatcherError { ref_: ref_@, msg: script_message(f) }),
        },
{
    match called {
        Ok(v) => Ok(v),
        Err(f) => Err(EvalError::DispatcherError { ref_: ref_.to_owned(), msg: message(&f) }),
    }
}

/// The result of a script that is called in place of an external function.
pub fn extern_result(ref_: &str, called: Result<Value, ScriptFault>) -> (r: Result<
    Value,
    EvalError,
>)
    ensures
        value_outcome(r) == match called {
            Ok(v) => Ok::<Json, Fault>(v@),
            Err(f) => Err(Fault::ExternError { ref_: ref_@, msg: script_message(f) }),
        },
{
    match called {
        Ok(v) => Ok(v),
        Err(f) => Err(EvalError::ExternError { ref_: ref_.to_owned(), msg: message(&f) }),
    }
}

} // verus!
