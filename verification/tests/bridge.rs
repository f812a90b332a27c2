//! What is said of scripts.

use flow_ir::bridge::{dispatcher_reply, extern_result, ScriptFault};
use flow_ir::Value;

#[test]
fn failures_of_scripts_say_where_they_failed() {
    for (fault, message) in [
        (ScriptFault::ToValue("x".into()), "to_value: x"),
        (ScriptFault::Call("y".into()), "lua call: y"),
        (ScriptFault::FromValue("z".into()), "from_value: z"),
    ] {
        assert_eq!(
            dispatcher_reply("r", Err(fault)).unwrap_err().to_string(),
            format!("dispatcher error for ref 'r': {message}")
        );
    }
    assert_eq!(
        extern_result("r", Err(ScriptFault::Missing)).unwrap_err().to_string(),
        "extern error for ref 'r': not registered in externs (or not a function)"
    );
    assert_eq!(dispatcher_reply("r", Ok(Value::Bool(true))).unwrap(), Value::Bool(true));
    assert_eq!(extern_result("r", Ok(Value::Null)).unwrap(), Value::Null);
}
