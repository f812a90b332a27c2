//! Expressions and flows together with a dispatcher.

use flow_ir::{
    eval, eval_expr, read_path, Dispatcher, EvalError, Expr, Float, Node, Number, Object, Value,
};

/// A value from its JSON text.
fn json(text: &str) -> Value {
    from_parsed(serde_json::from_str(text).unwrap())
}

fn from_parsed(v: serde_json::Value) -> Value {
    match v {
        serde_json::Value::Null => Value::Null,
        serde_json::Value::Bool(b) => Value::Bool(b),
        serde_json::Value::Number(n) => Value::Number(if let Some(i) = n.as_u64() {
            Number::PosInt(i)
        } else if let Some(i) = n.as_i64() {
            Number::NegInt(i)
        } else {
            Number::Float(Float::from_bits(n.as_f64().unwrap().to_bits()).unwrap())
        }),
        serde_json::Value::String(s) => Value::String(s),
        serde_json::Value::Array(a) => Value::Array(a.into_iter().map(from_parsed).collect()),
        serde_json::Value::Object(o) => {
            let mut r = Object::new();
            for (k, v) in o {
                r.insert(k, from_parsed(v));
            }
            Value::Object(r)
        }
    }
}

fn lit(text: &str) -> Expr {
    Expr::Lit { value: json(text) }
}

fn path(at: &str) -> Expr {
    Expr::Path { at: at.parse().unwrap() }
}

fn step(ref_: &str, in_: Expr, out: &str) -> Node {
    Node::Step { ref_: ref_.into(), in_, out: path(out) }
}

/// What is at a key of a context.
fn at(ctx: &Value, key: &str) -> Value {
    read_path(&format!("$.{key}"), ctx).unwrap()
}

struct FixtureDispatcher;

impl Dispatcher for FixtureDispatcher {
    type State = ();

    fn dispatch(&mut self, ref_: &str, input: Value) -> Result<Value, EvalError> {
        match ref_ {
            "uppercase" => match input {
                Value::String(s) => Ok(Value::String(s.to_uppercase())),
                other => Err(EvalError::DispatcherError {
                    ref_: ref_.into(),
                    msg: format!("expect string, got {other:?}"),
                }),
            },
            "count_one" => Ok(Value::Number(Number::PosInt(1))),
            _ => Err(EvalError::DispatcherError {
                ref_: ref_.into(),
                msg: "unknown ref".into(),
            }),
        }
    }
}

#[test]
fn expr_lit_returns_literal() {
    assert_eq!(eval_expr(&lit("42"), &json("{}")).unwrap(), json("42"));
}

#[test]
fn expr_path_root() {
    let ctx = json(r#"{ "k": "v" }"#);
    assert_eq!(eval_expr(&path("$"), &ctx).unwrap(), ctx);
}

#[test]
fn expr_path_reads_nested() {
    assert_eq!(
        eval_expr(&path("$.a.b"), &json(r#"{ "a": { "b": "hello" } }"#)).unwrap(),
        json(r#""hello""#)
    );
}

#[test]
fn expr_path_missing_returns_error() {
    assert!(matches!(
        eval_expr(&path("$.missing"), &json("{}")),
        Err(EvalError::PathNotFound(_))
    ));
}

#[test]
fn expr_path_invalid_prefix() {
    assert!(matches!(
        read_path("no.prefix", &json("{}")),
        Err(EvalError::InvalidPath(_))
    ));
}

#[test]
fn expr_eq_returns_bool() {
    let e = Expr::Eq { lhs: Box::new(path("$.x")), rhs: Box::new(lit(r#""ok""#)) };
    assert_eq!(eval_expr(&e, &json(r#"{ "x": "ok" }"#)).unwrap(), json("true"));
    assert_eq!(eval_expr(&e, &json(r#"{ "x": "ng" }"#)).unwrap(), json("false"));
}

#[test]
fn node_step_writes_output_to_ctx() {
    let n = step("uppercase", path("$.input"), "$.output");
    let result = eval(&n, json(r#"{ "input": "hello" }"#), &mut FixtureDispatcher).unwrap();
    assert_eq!(result, json(r#"{ "input": "hello", "output": "HELLO" }"#));
}

#[test]
fn node_step_writes_nested_output() {
    let n = step("count_one", lit("null"), "$.deep.nested.count");
    let result = eval(&n, json("{}"), &mut FixtureDispatcher).unwrap();
    assert_eq!(result, json(r#"{ "deep": { "nested": { "count": 1 } } }"#));
}

#[test]
fn node_step_dispatcher_error_propagates() {
    let n = step("unknown_ref", lit("null"), "$.x");
    assert!(matches!(
        eval(&n, json("{}"), &mut FixtureDispatcher),
        Err(EvalError::DispatcherError { .. })
    ));
}

#[test]
fn node_seq_chains_steps() {
    let n = Node::Sequence {
        children: vec![
            step("uppercase", path("$.input"), "$.up"),
            step("count_one", lit("null"), "$.count"),
        ],
    };
    let result = eval(&n, json(r#"{ "input": "world" }"#), &mut FixtureDispatcher).unwrap();
    assert_eq!(
        result,
        json(r#"{ "input": "world", "up": "WORLD", "count": 1 }"#)
    );
}

#[test]
fn node_branch_then_path() {
    let n = make_branch();
    let then_result = eval(
        &n,
        json(r#"{ "flag": true, "input": "hi" }"#),
        &mut FixtureDispatcher,
    )
    .unwrap();
    assert_eq!(at(&then_result, "result"), json(r#""HI""#));
}

#[test]
fn node_branch_else_path() {
    let n = make_branch();
    let else_result = eval(&n, json(r#"{ "flag": false }"#), &mut FixtureDispatcher).unwrap();
    assert_eq!(at(&else_result, "result"), json("1"));
}

#[test]
fn node_branch_non_bool_cond_errors() {
    let n = Node::Branch {
        cond: lit(r#""not a bool""#),
        then_: Box::new(Node::Sequence { children: vec![] }),
        else_: Box::new(Node::Sequence { children: vec![] }),
    };
    assert!(matches!(
        eval(&n, json("{}"), &mut FixtureDispatcher),
        Err(EvalError::NonBoolCond(_))
    ));
}

fn make_branch() -> Node {
    Node::Branch {
        cond: Expr::Eq { lhs: Box::new(path("$.flag")), rhs: Box::new(lit("true")) },
        then_: Box::new(step("uppercase", path("$.input"), "$.result")),
        else_: Box::new(step("count_one", lit("null"), "$.result")),
    }
}

#[test]
fn closure_dispatcher_works() {
    let mut dispatcher =
        |_r: &str, _input: Value| -> Result<Value, EvalError> { Ok(json(r#""closure-result""#)) };
    let n = step("anything", lit("null"), "$.r");
    let result = eval(&n, json("{}"), &mut dispatcher).unwrap();
    assert_eq!(result, json(r#"{ "r": "closure-result" }"#));
}
