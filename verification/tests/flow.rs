//! Flows that are run in turns with a host.

use flow_ir::eval::{join_settled, settled};
use flow_ir::flow::{start, Progress};
use flow_ir::{
    eval_externs, CtxStorage, EvalError, Expr, ExternMap, Externs, Float, JoinMode, MemoryCtx,
    NoExterns, Node, Number, Object, Value,
};

/// A value from its JSON text.
fn json(text: &str) -> Value {
    from_parsed(serde_json::from_str(text).unwrap())
}

fn from_parsed(v: serde_json::Value) -> Value {
    match v {
        serde_json::Value::Null => Value::Null,
        serde_json::Value::Bool(b) => Value::Bool(b),
        serde_json::Value::Number(n) => Value::Number(if let Some(i) = n.as_u64() {
            Number::PosInt(i)
        } else if let Some(i) = n.as_i64() {
            Number::NegInt(i)
        } else {
            Number::Float(Float::from_bits(n.as_f64().unwrap().to_bits()).unwrap())
        }),
        serde_json::Value::String(s) => Value::String(s),
        serde_json::Value::Array(a) => Value::Array(a.into_iter().map(from_parsed).collect()),
        serde_json::Value::Object(o) => {
            let mut r = Object::new();
            for (k, v) in o {
                r.insert(k, from_parsed(v));
            }
            Value::Object(r)
        }
    }
}

fn lit(text: &str) -> Expr {
    Expr::Lit { value: json(text) }
}

fn path(at: &str) -> Expr {
    Expr::Path { at: at.parse().unwrap() }
}

fn let_(at: &str, value: Expr) -> Node {
    Node::Let { at: at.parse().unwrap(), value }
}

fn step(ref_: &str, in_: Expr, out: &str) -> Node {
    Node::Step { ref_: ref_.into(), in_, out: path(out) }
}

/// A host that carries out steps by a function and runs branches one after the other.
fn run<X: Externs>(
    node: &Node,
    ctx: &mut MemoryCtx,
    dispatch: &dyn Fn(&str, Value) -> Result<Value, EvalError>,
    externs: &X,
) -> Result<(), EvalError> {
    let mut progress = start(node, ctx, externs);
    loop {
        progress = match progress {
            Progress::Done(r) => return r,
            Progress::Dispatch { ref_, input, rest } => {
                rest.resume(dispatch(ref_, input), ctx, externs)
            }
            Progress::Fanout { join, body, contexts, rest } => {
                let outcomes: Vec<Result<Value, EvalError>> = contexts
                    .into_iter()
                    .map(|c| {
                        let mut branch = MemoryCtx::new(c);
                        run(body, &mut branch, dispatch, externs)?;
                        Ok(branch.snapshot())
                    })
                    .collect();
                let joined = match join {
                    JoinMode::AllSettled => Ok(join_settled(outcomes)),
                    JoinMode::All => outcomes
                        .into_iter()
                        .collect::<Result<Vec<Value>, EvalError>>()
                        .map(Value::Array),
                    JoinMode::Race => outcomes.into_iter().next().unwrap(),
                    JoinMode::Any => {
                        let mut last = None;
                        for o in outcomes {
                            let good = o.is_ok();
                            last = Some(o);
                            if good {
                                break;
                            }
                        }
                        last.unwrap()
                    }
                };
                rest.resume(joined, ctx, externs)
            }
        };
    }
}

fn fixture(ref_: &str, input: Value) -> Result<Value, EvalError> {
    match (ref_, input) {
        ("uppercase", Value::String(s)) => Ok(Value::String(s.to_uppercase())),
        ("echo", v) => Ok(v),
        _ => Err(EvalError::DispatcherError {
            ref_: ref_.into(),
            msg: "unknown ref".into(),
        }),
    }
}

/// A run in turns and a run from start to end, on the same context.
fn both(node: &Node, ctx: &str) -> Result<Value, String> {
    let mut storage = MemoryCtx::new(json(ctx));
    let turns = run(node, &mut storage, &fixture, &NoExterns)
        .map(|_| storage.snapshot())
        .map_err(|e| e.to_string());
    let whole = eval_externs(node, json(ctx), &mut fixture, &NoExterns).map_err(|e| e.to_string());
    assert_eq!(turns, whole);
    turns
}

fn fanout(join: JoinMode, items: &str, body: Node) -> Node {
    Node::Fanout {
        items: lit(items),
        bind: path("$.item"),
        body: Box::new(body),
        join,
        out: path("$.results"),
    }
}

#[test]
fn a_step_is_asked_for_and_its_output_written() {
    let node = step("uppercase", path("$.input"), "$.output");
    let mut ctx = MemoryCtx::new(json(r#"{"input": "hi"}"#));
    match start(&node, &mut ctx, &NoExterns) {
        Progress::Dispatch { ref_, input, rest } => {
            assert_eq!(ref_, "uppercase");
            assert_eq!(input, json(r#""hi""#));
            assert_eq!(ctx.snapshot(), json(r#"{"input": "hi"}"#));
            let p = rest.resume(Ok(json(r#""HI""#)), &mut ctx, &NoExterns);
            assert!(matches!(p, Progress::Done(Ok(()))));
        }
        p => panic!("{p:?}"),
    }
    assert_eq!(ctx.snapshot(), json(r#"{"input": "hi", "output": "HI"}"#));
}

#[test]
fn what_is_written_while_a_step_is_carried_out_is_seen_by_the_next() {
    let node = Node::Sequence {
        children: vec![
            step("echo", path("$.a"), "$.first"),
            step("echo", path("$.injected"), "$.second"),
        ],
    };
    let mut ctx = MemoryCtx::new(json(r#"{"a": 1}"#));
    let rest = match start(&node, &mut ctx, &NoExterns) {
        Progress::Dispatch { rest, .. } => rest,
        p => panic!("{p:?}"),
    };
    ctx.write("$.injected", json(r#""from outside""#)).unwrap();
    ctx.write("$.a", json("2")).unwrap();
    match rest.resume(Ok(json("1")), &mut ctx, &NoExterns) {
        Progress::Dispatch { input, .. } => assert_eq!(input, json(r#""from outside""#)),
        p => panic!("{p:?}"),
    }
    assert_eq!(ctx.read("$.first").unwrap(), json("1"));
}

#[test]
fn a_failed_step_fails_the_run_or_is_caught() {
    let node = step("nope", lit("1"), "$.o");
    assert_eq!(
        both(&node, "{}").unwrap_err(),
        "dispatcher error for ref 'nope': dispatcher error for ref 'nope': unknown ref"
    );
    let node = Node::Try {
        body: Box::new(Node::Sequence {
            children: vec![let_("$.mark", lit("1")), step("nope", lit("1"), "$.o")],
        }),
        catch: Box::new(step("echo", path("$.err"), "$.seen")),
        err_at: Some(path("$.err")),
    };
    let m = "dispatcher error for ref 'nope': dispatcher error for ref 'nope': unknown ref";
    assert_eq!(
        both(&node, "{}").unwrap(),
        json(&format!(r#"{{"err": "{m}", "seen": "{m}"}}"#))
    );
}

#[test]
fn loops_go_on_over_steps() {
    let node = Node::Loop {
        counter: path("ctx.n"),
        cond: Expr::Lt { lhs: Box::new(path("$.sum")), rhs: Box::new(lit("3")) },
        body: Box::new(step(
            "echo",
            Expr::Add { lhs: Box::new(path("$.sum")), rhs: Box::new(lit("1")) },
            "$.sum",
        )),
        max: 10,
    };
    assert_eq!(both(&node, r#"{"sum": 0}"#).unwrap(), json(r#"{"n": 3, "sum": 3.0}"#));
    assert_eq!(both(&node, r#"{"sum": 4}"#).unwrap(), json(r#"{"n": 0, "sum": 4}"#));
    assert_eq!(both(&node, r#"{"sum": -20}"#).unwrap(), json(r#"{"n": 10, "sum": -10.0}"#));
    assert!(both(&node, "{}").unwrap_err().starts_with("path not found"));
    assert!(both(&node, r#"{"sum": "x"}"#).unwrap_err().starts_with("type error in 'cmp'"));
}

#[test]
fn turns_and_whole_runs_agree() {
    let body = || Node::Branch {
        cond: Expr::Eq { lhs: Box::new(path("$.item")), rhs: Box::new(lit("2")) },
        then_: Box::new(step("nope", lit("null"), "$.out")),
        else_: Box::new(step("echo", path("$.item"), "$.out")),
    };
    for join in [JoinMode::All, JoinMode::Any, JoinMode::Race, JoinMode::AllSettled] {
        for items in ["[]", "[1]", "[2]", "[1, 2]", "[2, 1, 3]", "[2, 2]", "7"] {
            let node = Node::Sequence {
                children: vec![
                    let_("$.before", lit("true")),
                    Node::Try {
                        body: Box::new(fanout(join, items, body())),
                        catch: Box::new(let_("$.caught", path("$.err"))),
                        err_at: Some(path("$.err")),
                    },
                    fanout(join, items, let_("$.o", path("$.item"))),
                ],
            };
            let _ = both(&node, r#"{"x": 1}"#);
        }
    }
    for node in [
        Node::Branch {
            cond: lit("3"),
            then_: Box::new(Node::Sequence { children: vec![] }),
            else_: Box::new(Node::Sequence { children: vec![] }),
        },
        Node::Step { ref_: "echo".into(), in_: lit("1"), out: lit("1") },
        Node::Loop {
            counter: lit("1"),
            cond: lit("true"),
            body: Box::new(Node::Sequence { children: vec![] }),
            max: 1,
        },
        Node::Loop {
            counter: path("$.x.y"),
            cond: lit("true"),
            body: Box::new(Node::Sequence { children: vec![] }),
            max: 1,
        },
        Node::Try {
            body: Box::new(step("nope", lit("1"), "$.o")),
            catch: Box::new(Node::Sequence { children: vec![] }),
            err_at: Some(lit("1")),
        },
        Node::Try {
            body: Box::new(let_("$.o", lit("1"))),
            catch: Box::new(step("nope", lit("1"), "$.o")),
            err_at: None,
        },
        fanout(JoinMode::All, "[1]", fanout(JoinMode::AllSettled, "[2, 3]", let_("$.z", path("$.item")))),
    ] {
        let _ = both(&node, r#"{"x": 1}"#);
    }
}

#[test]
fn fanouts_hand_out_the_contexts_of_their_branches() {
    let node = fanout(JoinMode::Any, "[1, 2]", Node::Sequence { children: vec![] });
    let mut ctx = MemoryCtx::new(json(r#"{"k": 0}"#));
    match start(&node, &mut ctx, &NoExterns) {
        Progress::Fanout { join, contexts, rest, .. } => {
            assert_eq!(join, JoinMode::Any);
            assert_eq!(
                contexts,
                vec![json(r#"{"k": 0, "item": 1}"#), json(r#"{"k": 0, "item": 2}"#)]
            );
            let p = rest.resume(Ok(json("5")), &mut ctx, &NoExterns);
            assert!(matches!(p, Progress::Done(Ok(()))));
        }
        p => panic!("{p:?}"),
    }
    assert_eq!(ctx.snapshot(), json(r#"{"k": 0, "results": 5}"#));
}

#[test]
fn fanouts_without_items_or_with_a_bad_bind_end_at_once() {
    let none = Node::Sequence { children: vec![] };
    let mut ctx = MemoryCtx::new(json("{}"));
    match start(&fanout(JoinMode::Race, "[]", none.clone()), &mut ctx, &NoExterns) {
        Progress::Done(Err(e)) => {
            assert_eq!(e.to_string(), "type error in 'fanout.race': requires at least one item")
        }
        p => panic!("{p:?}"),
    }
    let unbound = |join: JoinMode| Node::Fanout {
        items: lit("[1]"),
        bind: lit("1"),
        body: Box::new(none.clone()),
        join,
        out: path("$.r"),
    };
    match start(&unbound(JoinMode::All), &mut ctx, &NoExterns) {
        Progress::Done(Err(EvalError::InvalidPath(_))) => {}
        p => panic!("{p:?}"),
    }
    match start(&unbound(JoinMode::AllSettled), &mut ctx, &NoExterns) {
        Progress::Done(Ok(())) => {}
        p => panic!("{p:?}"),
    }
    assert_eq!(
        ctx.snapshot(),
        json(
            r#"{"r": [{"status": "rejected", "reason": "invalid path syntax: expected Path expr for write target"}]}"#
        )
    );
    match start(&fanout(JoinMode::All, "[]", none), &mut ctx, &NoExterns) {
        Progress::Fanout { contexts, .. } => assert!(contexts.is_empty()),
        p => panic!("{p:?}"),
    }
}

#[test]
fn external_functions_are_called_in_every_turn() {
    let mut externs = ExternMap::new();
    externs.register("second", |args: &[Value]| Ok(args[1].clone()));
    let node = Node::Sequence {
        children: vec![
            step("echo", lit("1"), "$.a"),
            let_(
                "$.b",
                Expr::CallExtern { ref_: "second".into(), args: vec![lit("0"), path("$.a")] },
            ),
        ],
    };
    let mut ctx = MemoryCtx::new(json("{}"));
    run(&node, &mut ctx, &fixture, &externs).unwrap();
    assert_eq!(ctx.snapshot(), json(r#"{"a": 1, "b": 1}"#));
}

#[test]
fn records_tell_how_branches_did() {
    assert_eq!(settled(Ok(json("1"))), json(r#"{"status": "fulfilled", "value": 1}"#));
    assert_eq!(
        join_settled(vec![Err(EvalError::PathNotFound("$.x".into())), Ok(Value::Null)]),
        json(
            r#"[{"status": "rejected", "reason": "path not found: $.x"},
                {"status": "fulfilled", "value": null}]"#
        )
    );
}
