//! Nodes: how each kind runs.

use flow_ir::{
    eval, eval_externs, eval_with_storage, read_path, CtxStorage, Dispatcher, EvalError, Expr,
    ExternMap, Float, JoinMode, MemoryCtx, Node, Number, Object, Value,
};
use std::cell::RefCell;
use std::collections::HashSet;

/// A value from its JSON text.
fn json(text: &str) -> Value {
    from_parsed(serde_json::from_str(text).unwrap())
}

fn from_parsed(v: serde_json::Value) -> Value {
    match v {
        serde_json::Value::Null => Value::Null,
        serde_json::Value::Bool(b) => Value::Bool(b),
        serde_json::Value::Number(n) => Value::Number(if let Some(i) = n.as_u64() {
            Number::PosInt(i)
        } else if let Some(i) = n.as_i64() {
            Number::NegInt(i)
        } else {
            Number::Float(Float::from_bits(n.as_f64().unwrap().to_bits()).unwrap())
        }),
        serde_json::Value::String(s) => Value::String(s),
        serde_json::Value::Array(a) => Value::Array(a.into_iter().map(from_parsed).collect()),
        serde_json::Value::Object(o) => {
            let mut r = Object::new();
            for (k, v) in o {
                r.insert(k, from_parsed(v));
            }
            Value::Object(r)
        }
    }
}

fn lit(text: &str) -> Expr {
    Expr::Lit { value: json(text) }
}

fn path(at: &str) -> Expr {
    Expr::Path { at: at.parse().unwrap() }
}

fn let_(at: &str, value: Expr) -> Node {
    Node::Let { at: at.parse().unwrap(), value }
}

fn step(ref_: &str, in_: Expr, out: &str) -> Node {
    Node::Step { ref_: ref_.into(), in_, out: path(out) }
}

/// What is at a key of a context.
fn at(ctx: &Value, key: &str) -> Value {
    read_path(&format!("$.{key}"), ctx).unwrap()
}

/// Echoes the input of a step, unless its reference is one that fails; counts the steps.
struct FxDispatcher {
    count: u32,
    fail_refs: HashSet<String>,
}

impl FxDispatcher {
    fn new() -> Self {
        Self { count: 0, fail_refs: HashSet::new() }
    }

    fn failing(refs: &[&str]) -> Self {
        Self { count: 0, fail_refs: refs.iter().map(|s| s.to_string()).collect() }
    }

    fn calls(&self) -> u32 {
        self.count
    }
}

impl Dispatcher for FxDispatcher {
    type State = ();

    fn dispatch(&mut self, ref_: &str, input: Value) -> Result<Value, EvalError> {
        self.count += 1;
        if self.fail_refs.contains(ref_) {
            return Err(EvalError::DispatcherError {
                ref_: ref_.into(),
                msg: "fixture failure".into(),
            });
        }
        Ok(input)
    }
}

#[test]
fn seq_children_execute_in_order_and_see_earlier_writes() {
    let node = Node::Sequence {
        children: vec![
            let_("$.a", lit("1")),
            let_(
                "$.b",
                Expr::Add { lhs: Box::new(path("$.a")), rhs: Box::new(lit("1")) },
            ),
        ],
    };
    let out = eval(&node, json("{}"), &mut FxDispatcher::new()).unwrap();
    assert_eq!(out, json(r#"{"a": 1, "b": 2.0}"#));
}

#[test]
fn seq_empty_children_returns_ctx_unchanged() {
    let node = Node::Sequence { children: vec![] };
    let ctx = json(r#"{"x": 1}"#);
    let out = eval(&node, ctx.clone(), &mut FxDispatcher::new()).unwrap();
    assert_eq!(out, ctx);
}

fn branch_node(cond_value: &str) -> Node {
    Node::Branch {
        cond: lit(cond_value),
        then_: Box::new(let_("$.r", lit(r#""then""#))),
        else_: Box::new(let_("$.r", lit(r#""else""#))),
    }
}

#[test]
fn branch_routes_to_then_on_true_cond() {
    let out = eval(&branch_node("true"), json("{}"), &mut FxDispatcher::new()).unwrap();
    assert_eq!(out, json(r#"{"r": "then"}"#));
}

#[test]
fn branch_routes_to_else_on_false_cond() {
    let out = eval(&branch_node("false"), json("{}"), &mut FxDispatcher::new()).unwrap();
    assert_eq!(out, json(r#"{"r": "else"}"#));
}

#[test]
fn branch_non_bool_cond_raises_non_bool_cond() {
    let err = eval(&branch_node("1"), json("{}"), &mut FxDispatcher::new()).unwrap_err();
    assert!(matches!(err, EvalError::NonBoolCond(_)), "{err:?}");
}

/// A fanout whose body writes ten times the item.
fn fanout_node(join: JoinMode, items: &str) -> Node {
    fanout_with_body(
        join,
        items,
        let_(
            "$.doubled",
            Expr::Mul { lhs: Box::new(path("$.item")), rhs: Box::new(lit("10")) },
        ),
    )
}

fn fanout_with_body(join: JoinMode, items: &str, body: Node) -> Node {
    Node::Fanout {
        items: lit(items),
        bind: path("$.item"),
        body: Box::new(body),
        join,
        out: path("$.results"),
    }
}

/// For the item 2 the step `boom`, else a write.
fn branchy_body() -> Node {
    Node::Branch {
        cond: Expr::Eq { lhs: Box::new(path("$.item")), rhs: Box::new(lit("2")) },
        then_: Box::new(step("boom", lit("null"), "$.out")),
        else_: Box::new(let_("$.out", lit(r#""ok""#))),
    }
}

#[test]
fn fanout_all_mode_success_shape_is_array_of_per_branch_ctx() {
    let node = fanout_node(JoinMode::All, "[1, 2, 3]");
    let out = eval(&node, json("{}"), &mut FxDispatcher::new()).unwrap();
    assert_eq!(
        at(&out, "results"),
        json(
            r#"[
            {"item": 1, "doubled": 10.0},
            {"item": 2, "doubled": 20.0},
            {"item": 3, "doubled": 30.0}
        ]"#
        )
    );
}

#[test]
fn fanout_any_mode_success_shape_is_single_winner_ctx() {
    let node = fanout_node(JoinMode::Any, "[1, 2, 3]");
    let out = eval(&node, json("{}"), &mut FxDispatcher::new()).unwrap();
    assert_eq!(at(&out, "results"), json(r#"{"item": 1, "doubled": 10.0}"#));
}

#[test]
fn fanout_race_mode_success_shape_is_first_item_ctx_only() {
    let node = fanout_node(JoinMode::Race, "[1, 2, 3]");
    let out = eval(&node, json("{}"), &mut FxDispatcher::new()).unwrap();
    assert_eq!(at(&out, "results"), json(r#"{"item": 1, "doubled": 10.0}"#));
}

#[test]
fn fanout_all_settled_mode_success_shape_is_status_records() {
    let node = fanout_node(JoinMode::AllSettled, "[1, 2]");
    let out = eval(&node, json("{}"), &mut FxDispatcher::new()).unwrap();
    assert_eq!(
        at(&out, "results"),
        json(
            r#"[
            {"status": "fulfilled", "value": {"item": 1, "doubled": 10.0}},
            {"status": "fulfilled", "value": {"item": 2, "doubled": 20.0}}
        ]"#
        )
    );
}

#[test]
fn fanout_empty_items_shapes() {
    for join in [JoinMode::All, JoinMode::AllSettled] {
        let out = eval(&fanout_node(join, "[]"), json("{}"), &mut FxDispatcher::new()).unwrap();
        assert_eq!(at(&out, "results"), json("[]"));
    }
    for (join, op) in [(JoinMode::Any, "fanout.any"), (JoinMode::Race, "fanout.race")] {
        let err = eval(&fanout_node(join, "[]"), json("{}"), &mut FxDispatcher::new()).unwrap_err();
        assert_eq!(
            err.to_string(),
            format!("type error in '{op}': requires at least one item")
        );
    }
}

#[test]
fn fanout_non_array_items_errors() {
    let node = fanout_with_body(
        JoinMode::All,
        r#""not-an-array""#,
        let_("$.x", lit("1")),
    );
    let err = eval(&node, json("{}"), &mut FxDispatcher::new()).unwrap_err();
    assert!(
        matches!(err, EvalError::TypeError { ref op, .. } if op == "fanout.items"),
        "{err:?}"
    );
    assert_eq!(
        err.to_string(),
        "type error in 'fanout.items': expected array, got String(\"not-an-array\")"
    );
}

#[test]
fn fanout_all_mode_one_failing_branch_errors() {
    let node = fanout_with_body(JoinMode::All, "[1, 2]", branchy_body());
    let mut dispatcher = FxDispatcher::failing(&["boom"]);
    let err = eval(&node, json("{}"), &mut dispatcher).unwrap_err();
    assert!(matches!(err, EvalError::DispatcherError { .. }), "{err:?}");
}

#[test]
fn fanout_any_mode_all_branches_failing_errors() {
    let body = step("boom", lit("null"), "$.out");
    let node = fanout_with_body(JoinMode::Any, "[1, 2]", body);
    let mut dispatcher = FxDispatcher::failing(&["boom"]);
    let err = eval(&node, json("{}"), &mut dispatcher).unwrap_err();
    assert!(matches!(err, EvalError::DispatcherError { .. }), "{err:?}");
}

#[test]
fn fanout_any_mode_one_success_among_failures_succeeds() {
    let node = fanout_with_body(JoinMode::Any, "[2, 1]", branchy_body());
    let mut dispatcher = FxDispatcher::failing(&["boom"]);
    let out = eval(&node, json("{}"), &mut dispatcher).unwrap();
    assert_eq!(at(&out, "results"), json(r#"{"item": 1, "out": "ok"}"#));
}

#[test]
fn loop_max_cutoff_terminates() {
    let node = Node::Loop {
        counter: path("$.counter"),
        cond: lit("true"),
        body: Box::new(step("tick", lit("null"), "$.last")),
        max: 3,
    };
    let mut dispatcher = FxDispatcher::new();
    let out = eval(&node, json("{}"), &mut dispatcher).unwrap();
    assert_eq!(dispatcher.calls(), 3);
    assert_eq!(at(&out, "counter"), json("3"));
}

#[test]
fn loop_cond_false_on_first_check_body_never_dispatched() {
    let node = Node::Loop {
        counter: path("$.counter"),
        cond: lit("false"),
        body: Box::new(step("tick", lit("null"), "$.last")),
        max: 5,
    };
    let mut dispatcher = FxDispatcher::new();
    let out = eval(&node, json("{}"), &mut dispatcher).unwrap();
    assert_eq!(dispatcher.calls(), 0);
    assert_eq!(at(&out, "counter"), json("0"));
    assert!(read_path("$.last", &out).is_err());
}

#[test]
fn loop_ctx_writes_visible_across_iterations_and_cond_stops_the_loop() {
    let node = Node::Loop {
        counter: path("$.counter"),
        cond: Expr::Lt { lhs: Box::new(path("$.sum")), rhs: Box::new(lit("3")) },
        body: Box::new(let_(
            "$.sum",
            Expr::Add { lhs: Box::new(path("$.sum")), rhs: Box::new(lit("1")) },
        )),
        max: 10,
    };
    let out = eval(&node, json(r#"{"sum": 0}"#), &mut FxDispatcher::new()).unwrap();
    assert_eq!(at(&out, "sum"), json("3.0"));
    assert_eq!(at(&out, "counter"), json("3"));
}

#[test]
fn try_body_failure_rolls_back_ctx_to_pre_body_snapshot() {
    let node = Node::Try {
        body: Box::new(Node::Sequence {
            children: vec![
                let_("$.mark", lit(r#""was-here""#)),
                step("boom", lit("null"), "$.out"),
            ],
        }),
        catch: Box::new(let_("$.caught", lit("true"))),
        err_at: None,
    };
    let mut dispatcher = FxDispatcher::failing(&["boom"]);
    let out = eval(&node, json("{}"), &mut dispatcher).unwrap();
    assert!(
        read_path("$.mark", &out).is_err(),
        "body write must be rolled back on failure: {out:?}"
    );
    assert_eq!(at(&out, "caught"), json("true"));
}

#[test]
fn try_err_at_writes_error_message_before_catch() {
    let node = Node::Try {
        body: Box::new(step("boom", lit("null"), "$.out")),
        catch: Box::new(let_("$.caught", lit("true"))),
        err_at: Some(path("$.err")),
    };
    let mut dispatcher = FxDispatcher::failing(&["boom"]);
    let out = eval(&node, json("{}"), &mut dispatcher).unwrap();
    assert_eq!(at(&out, "caught"), json("true"));
    assert_eq!(
        at(&out, "err"),
        Value::String(
            "dispatcher error for ref 'boom': dispatcher error for ref 'boom': fixture failure"
                .into()
        )
    );
}

#[test]
fn try_catch_raising_propagates() {
    let node = Node::Try {
        body: Box::new(step("boom", lit("null"), "$.out")),
        catch: Box::new(step("catch_boom", lit("null"), "$.out2")),
        err_at: None,
    };
    let mut dispatcher = FxDispatcher::failing(&["boom", "catch_boom"]);
    let err = eval(&node, json("{}"), &mut dispatcher).unwrap_err();
    assert!(
        matches!(err, EvalError::DispatcherError { ref ref_, .. } if ref_ == "catch_boom"),
        "{err:?}"
    );
}

#[test]
fn try_body_success_catch_not_executed() {
    let node = Node::Try {
        body: Box::new(let_("$.ok", lit("true"))),
        catch: Box::new(step("should_not_run", lit("null"), "$.out")),
        err_at: None,
    };
    let mut dispatcher = FxDispatcher::new();
    let out = eval(&node, json("{}"), &mut dispatcher).unwrap();
    assert_eq!(out, json(r#"{"ok": true}"#));
    assert_eq!(dispatcher.calls(), 0);
}

#[test]
fn assign_writes_evaluated_expr_to_out_path() {
    let node = let_(
        "$.out",
        Expr::Add { lhs: Box::new(lit("1")), rhs: Box::new(lit("2")) },
    );
    let out = eval(&node, json("{}"), &mut FxDispatcher::new()).unwrap();
    assert_eq!(out, json(r#"{"out": 3.0}"#));
}

#[test]
fn eval_with_storage_shared_memory_ctx_visible_after_eval() {
    let mut storage = MemoryCtx::new(json(r#"{"input": "hi"}"#));
    let node = step("noop", path("$.input"), "$.output");
    eval_with_storage(&node, &mut storage, &mut FxDispatcher::new()).unwrap();
    assert_eq!(storage.read("$.output").unwrap(), json(r#""hi""#));
    assert_eq!(storage.snapshot(), json(r#"{"input": "hi", "output": "hi"}"#));
}

#[test]
fn memory_ctx_snapshot_replace_round_trip() {
    let mut storage = MemoryCtx::new(json(r#"{"a": 1}"#));
    let snap = storage.snapshot();
    assert_eq!(snap, json(r#"{"a": 1}"#));

    storage.replace(json(r#"{"b": 2}"#));
    assert_eq!(storage.snapshot(), json(r#"{"b": 2}"#));

    storage.replace(snap.clone());
    assert_eq!(storage.snapshot(), snap);
}

#[test]
fn memory_ctx_refuses_malformed_paths() {
    let mut storage = MemoryCtx::new(json(r#"{"a": 1}"#));
    assert!(matches!(storage.write("a", Value::Null), Err(EvalError::InvalidPath(_))));
    assert!(matches!(storage.read("$a"), Err(EvalError::InvalidPath(_))));
    assert!(matches!(storage.write("$.a.b", Value::Null), Err(EvalError::TypeError { .. })));
    assert_eq!(storage.snapshot(), json(r#"{"a": 1}"#));
}

#[test]
fn fanout_branches_run_in_order_as_far_as_they_have_to() {
    for (join, calls) in [
        (JoinMode::All, 2),
        (JoinMode::Any, 1),
        (JoinMode::Race, 1),
        (JoinMode::AllSettled, 3),
    ] {
        let seen: RefCell<Vec<Value>> = RefCell::new(Vec::new());
        let mut dispatcher = |_: &str, input: Value| -> Result<Value, EvalError> {
            seen.borrow_mut().push(input.clone());
            if input == json("2") {
                Err(EvalError::PathNotFound("x".into()))
            } else {
                Ok(input)
            }
        };
        let node = fanout_with_body(join, "[1, 2, 3]", step("s", path("$.item"), "$.out"));
        let result = eval(&node, json("{}"), &mut dispatcher);
        assert_eq!(result.is_ok(), join != JoinMode::All);
        assert_eq!(seen.borrow().len(), calls, "{join:?}");
        if let Ok(out) = result {
            assert!(read_path("$.item", &out).is_err() && read_path("$.out", &out).is_err());
        }
    }
}

#[test]
fn fanout_settled_records_hold_contexts_and_messages() {
    let node = fanout_with_body(JoinMode::AllSettled, "[1, 2]", branchy_body());
    let mut dispatcher = FxDispatcher::failing(&["boom"]);
    let out = eval(&node, json(r#"{"kept": 0}"#), &mut dispatcher).unwrap();
    assert_eq!(
        out,
        json(
            r#"{"kept": 0, "results": [
                {"status": "fulfilled", "value": {"kept": 0, "item": 1, "out": "ok"}},
                {"status": "rejected", "reason": "dispatcher error for ref 'boom': dispatcher error for ref 'boom': fixture failure"}
            ]}"#
        )
    );
}

#[test]
fn fanout_any_reports_the_last_failure_and_all_the_first() {
    let mut dispatcher = |_: &str, input: Value| -> Result<Value, EvalError> {
        Err(EvalError::NonBoolCond(input))
    };
    let mut message = |join: JoinMode| {
        let node = fanout_with_body(join, r#"[1.5, "b"]"#, step("s", path("$.item"), "$.out"));
        eval(&node, json("{}"), &mut dispatcher).unwrap_err().to_string()
    };
    assert_eq!(
        message(JoinMode::All),
        "dispatcher error for ref 's': branch cond must be boolean, got: 1.5"
    );
    assert_eq!(
        message(JoinMode::Any),
        "dispatcher error for ref 's': branch cond must be boolean, got: \"b\""
    );
    assert_eq!(
        message(JoinMode::Race),
        "dispatcher error for ref 's': branch cond must be boolean, got: 1.5"
    );
}

/// A fanout with the given bind over the given items.
fn fanout_bound(join: JoinMode, bind: Expr, items: &str) -> Node {
    Node::Fanout {
        items: lit(items),
        bind,
        body: Box::new(step("s", path("$"), "$.out")),
        join,
        out: path("$.results"),
    }
}

#[test]
fn fanout_fails_where_items_cannot_be_bound() {
    let ctx = || json(r#"{"s": 1}"#);
    let mut d = FxDispatcher::new();
    for join in [JoinMode::All, JoinMode::Any, JoinMode::Race] {
        assert!(matches!(
            eval(&fanout_bound(join, lit("1"), "[1]"), ctx(), &mut d),
            Err(EvalError::InvalidPath(_))
        ));
        assert!(matches!(
            eval(&fanout_bound(join, path("$.s.t"), "[1]"), ctx(), &mut d),
            Err(EvalError::TypeError { .. })
        ));
    }
    assert_eq!(d.calls(), 0);
}

#[test]
fn settling_fanout_records_items_that_cannot_be_bound() {
    let ctx = || json(r#"{"x": "s"}"#);
    let mut d = FxDispatcher::new();
    assert_eq!(
        eval(&fanout_bound(JoinMode::AllSettled, path("$.x.y"), "[1, 2]"), ctx(), &mut d).unwrap(),
        json(
            r#"{"x": "s", "results": [
                {"status": "rejected", "reason": "type error in 'path.write': cannot write path '$.x.y' at segment 'y': existing value at this position is not an object (String(\"s\"))"},
                {"status": "rejected", "reason": "type error in 'path.write': cannot write path '$.x.y' at segment 'y': existing value at this position is not an object (String(\"s\"))"}
            ]}"#
        )
    );
    assert_eq!(
        eval(&fanout_bound(JoinMode::AllSettled, lit("1"), "[1]"), ctx(), &mut d).unwrap(),
        json(
            r#"{"x": "s", "results": [
                {"status": "rejected", "reason": "invalid path syntax: expected Path expr for write target"}
            ]}"#
        )
    );
    assert_eq!(
        eval(&fanout_bound(JoinMode::AllSettled, lit("1"), "[]"), ctx(), &mut d).unwrap(),
        json(r#"{"x": "s", "results": []}"#)
    );
    assert_eq!(d.calls(), 0);
}

#[test]
fn steps_are_carried_out_once_and_only_where_a_run_comes_to_them() {
    let calls = |node: &Node| {
        let mut d = FxDispatcher::failing(&["boom"]);
        let _ = eval(node, json(r#"{"item": 0}"#), &mut d);
        d.calls()
    };
    let s = || step("s", lit("1"), "$.o");
    let boom = || step("boom", lit("1"), "$.o");
    assert_eq!(calls(&s()), 1);
    assert_eq!(calls(&let_("$.a", lit("1"))), 0);
    assert_eq!(calls(&step("s", path("$.missing"), "$.o")), 0);
    let branch = |cond: &str| Node::Branch {
        cond: lit(cond),
        then_: Box::new(s()),
        else_: Box::new(Node::Sequence { children: vec![s(), s()] }),
    };
    assert_eq!(calls(&branch("true")), 1);
    assert_eq!(calls(&branch("false")), 2);
    for cond in ["1", "\"x\"", "null"] {
        assert_eq!(calls(&branch(cond)), 0);
    }
    assert_eq!(calls(&Node::Sequence { children: vec![s(), boom(), s()] }), 2);
    let guarded = |body: Node| Node::Try {
        body: Box::new(body),
        catch: Box::new(s()),
        err_at: None,
    };
    assert_eq!(calls(&guarded(s())), 1);
    assert_eq!(calls(&guarded(boom())), 2);
    assert_eq!(calls(&fanout_with_body(JoinMode::Any, "[2, 1, 2, 1]", branchy_body())), 1);
    assert_eq!(calls(&fanout_with_body(JoinMode::Any, "[1, 2]", s())), 1);
    assert_eq!(calls(&fanout_with_body(JoinMode::Race, "[1, 2, 3]", s())), 1);
    assert_eq!(calls(&fanout_with_body(JoinMode::All, "[1, 2, 3]", s())), 3);
}

/// Replies to each step with its number, and keeps what it was asked for; the reference `boom`
/// fails.
struct Numbering {
    asked: Vec<(String, Value)>,
}

impl Dispatcher for Numbering {
    type State = ();

    fn dispatch(&mut self, ref_: &str, input: Value) -> Result<Value, EvalError> {
        self.asked.push((ref_.to_string(), input));
        if ref_ == "boom" {
            return Err(EvalError::PathNotFound("x".into()));
        }
        Ok(json(&self.asked.len().to_string()))
    }
}

#[test]
fn a_dispatcher_goes_from_step_to_step() {
    let node = Node::Sequence {
        children: vec![
            step("a", lit("0"), "$.a"),
            fanout_with_body(JoinMode::All, "[7, 8]", step("b", path("$.item"), "$.b")),
            step("c", path("$.a"), "$.c"),
        ],
    };
    let run = || {
        let mut d = Numbering { asked: vec![] };
        let out = eval(&node, json("{}"), &mut d).unwrap();
        (out, d.asked)
    };
    let (out, asked) = run();
    assert_eq!(
        out,
        json(
            r#"{"a": 1, "c": 4, "results": [
                {"a": 1, "item": 7, "b": 2}, {"a": 1, "item": 8, "b": 3}
            ]}"#
        )
    );
    assert_eq!(
        asked,
        vec![
            ("a".to_string(), json("0")),
            ("b".to_string(), json("7")),
            ("b".to_string(), json("8")),
            ("c".to_string(), json("1")),
        ]
    );
    assert_eq!(run(), (out, asked));
}

#[test]
fn what_catches_a_failure_asks_with_its_message_noted() {
    let message = r#""dispatcher error for ref 'boom': path not found: x""#;
    let node = |err_at: Option<Expr>, input: Expr| Node::Try {
        body: Box::new(Node::Sequence {
            children: vec![step("a", lit("0"), "$.a"), step("boom", path("$.a"), "$.b")],
        }),
        catch: Box::new(step("c", input, "$.c")),
        err_at,
    };
    let run = |node: &Node, ctx: &str| {
        let mut d = Numbering { asked: vec![] };
        let result = eval(node, json(ctx), &mut d).map_err(|e| e.to_string());
        assert_eq!(d.asked[0], ("a".to_string(), json("0")));
        assert_eq!(d.asked[1], ("boom".to_string(), json("1")));
        (result, d.asked[2..].to_vec())
    };
    assert_eq!(
        run(&node(Some(path("$.e.m")), path("$.e.m")), "{}"),
        (
            Ok(json(&format!(r#"{{"e": {{"m": {message}}}, "c": 3}}"#))),
            vec![("c".to_string(), json(message))]
        )
    );
    assert_eq!(
        run(&node(None, path("$.k")), r#"{"k": 5}"#),
        (Ok(json(r#"{"k": 5, "c": 3}"#)), vec![("c".to_string(), json("5"))])
    );
    assert_eq!(
        run(&node(Some(lit("1")), lit("0")), "{}"),
        (Err("invalid path syntax: expected Path expr for write target".to_string()), vec![])
    );
    let (result, after) = run(&node(Some(path("$.k.m")), lit("0")), r#"{"k": 5}"#);
    assert!(result.is_err());
    assert_eq!(after, vec![]);
}

#[test]
fn failures_leave_the_context_of_a_storage_as_it_was() {
    for node in [
        step("boom", lit("1"), "$.out"),
        Node::Step { ref_: "ok".into(), in_: lit("1"), out: lit("1") },
        step("ok", lit("1"), "$.s.t"),
        let_("$.s.t", lit("1")),
        fanout_with_body(JoinMode::All, "[1, 2]", branchy_body()),
    ] {
        let mut storage = MemoryCtx::new(json(r#"{"s": 1}"#));
        let mut d = FxDispatcher::failing(&["boom"]);
        assert!(eval_with_storage(&node, &mut storage, &mut d).is_err());
        assert_eq!(storage.snapshot(), json(r#"{"s": 1}"#));
    }
}

#[test]
fn loop_counter_and_note_of_a_try_need_paths() {
    let mut d = FxDispatcher::failing(&["boom"]);
    let node = Node::Loop {
        counter: lit("1"),
        cond: lit("true"),
        body: Box::new(Node::Sequence { children: vec![] }),
        max: 1,
    };
    assert_eq!(
        eval(&node, json("{}"), &mut d).unwrap_err().to_string(),
        "invalid path syntax: expected Path expr for write target"
    );
    let node = Node::Try {
        body: Box::new(step("boom", lit("1"), "$.out")),
        catch: Box::new(Node::Sequence { children: vec![] }),
        err_at: Some(lit("1")),
    };
    assert!(matches!(eval(&node, json("{}"), &mut d), Err(EvalError::InvalidPath(_))));
}

#[test]
fn a_loop_whose_body_hides_its_counter_fails() {
    let node = Node::Loop {
        counter: path("$.a.n"),
        cond: lit("1"),
        body: Box::new(let_("$.a", lit("0"))),
        max: 2,
    };
    let mut storage = MemoryCtx::new(json("{}"));
    let err = eval_with_storage(&node, &mut storage, &mut FxDispatcher::new()).unwrap_err();
    assert!(matches!(err, EvalError::TypeError { .. }), "{err:?}");
    assert_eq!(storage.snapshot(), json(r#"{"a": 0}"#));
}

#[test]
fn every_key_that_parses_can_be_written_by_a_node() {
    let node = Node::Let { at: "$.a]\"b".parse().unwrap(), value: lit("1") };
    let out = eval(&node, json("{}"), &mut FxDispatcher::new()).unwrap();
    assert_eq!(read_path("$.a]\"b", &out).unwrap(), json("1"));
    assert_eq!(out, json(r#"{"a]\"b": 1}"#));
}

#[test]
fn external_functions_reach_every_node() {
    let mut externs = ExternMap::new();
    externs.register("len", |args: &[Value]| Ok(args[0].clone()));
    let call = || Expr::CallExtern { ref_: "len".into(), args: vec![path("$.x")] };
    let node = Node::Branch {
        cond: call(),
        then_: Box::new(Node::Fanout {
            items: lit("[0]"),
            bind: path("$.i"),
            body: Box::new(let_("$.y", call())),
            join: JoinMode::Race,
            out: path("$.r"),
        }),
        else_: Box::new(Node::Sequence { children: vec![] }),
    };
    let mut d = FxDispatcher::new();
    assert_eq!(
        eval_externs(&node, json(r#"{"x": true}"#), &mut d, &externs).unwrap(),
        json(r#"{"x": true, "r": {"x": true, "i": 0, "y": true}}"#)
    );
    assert!(matches!(
        eval(&node, json(r#"{"x": true}"#), &mut d),
        Err(EvalError::ExternError { .. })
    ));
}

#[test]
fn a_clone_is_the_same_flow() {
    let node = Node::Sequence {
        children: vec![
            Node::Try {
                body: Box::new(fanout_node(JoinMode::Race, "[1]")),
                catch: Box::new(branch_node("true")),
                err_at: Some(path("ctx.e")),
            },
            Node::Loop {
                counter: path("$.n"),
                cond: lit("true"),
                body: Box::new(step("s", lit("{}"), "$.o")),
                max: 7,
            },
        ],
    };
    assert_eq!(node.clone(), node);
}
