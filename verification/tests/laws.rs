//! What holds in general, on values.

use flow_ir::{
    eval, eval_expr, read_path, EvalError, Expr, Float, JoinMode, Node, Number, Object, Path, Value,
};

/// A value from its JSON text.
fn json(text: &str) -> Value {
    from_parsed(serde_json::from_str(text).unwrap())
}

fn from_parsed(v: serde_json::Value) -> Value {
    match v {
        serde_json::Value::Null => Value::Null,
        serde_json::Value::Bool(b) => Value::Bool(b),
        serde_json::Value::Number(n) => Value::Number(if let Some(i) = n.as_u64() {
            Number::PosInt(i)
        } else if let Some(i) = n.as_i64() {
            Number::NegInt(i)
        } else {
            Number::Float(Float::from_bits(n.as_f64().unwrap().to_bits()).unwrap())
        }),
        serde_json::Value::String(s) => Value::String(s),
        serde_json::Value::Array(a) => Value::Array(a.into_iter().map(from_parsed).collect()),
        serde_json::Value::Object(o) => {
            let mut r = Object::new();
            for (k, v) in o {
                r.insert(k, from_parsed(v));
            }
            Value::Object(r)
        }
    }
}

fn lit(text: &str) -> Box<Expr> {
    Box::new(Expr::Lit { value: json(text) })
}

fn path(at: &str) -> Expr {
    Expr::Path { at: at.parse().unwrap() }
}

fn let_(at: &str, value: &str) -> Node {
    Node::Let { at: at.parse().unwrap(), value: *lit(value) }
}

fn value(e: Expr) -> Value {
    eval_expr(&e, &Value::Null).unwrap()
}

fn echo(_: &str, input: Value) -> Result<Value, EvalError> {
    Ok(input)
}

const VALUES: [&str; 12] = [
    "null", "false", "0", "-0.0", "1", "1.0", "-1", r#""a""#, "[]", "[1, [1.0]]", "{}",
    r#"{"k": {"x": [1]}}"#,
];

#[test]
fn equality_is_an_equivalence() {
    let eq = |a: &str, b: &str| value(Expr::Eq { lhs: lit(a), rhs: lit(b) }) == Value::Bool(true);
    for a in VALUES {
        assert!(eq(a, a));
        for b in VALUES {
            assert_eq!(eq(a, b), eq(b, a));
            assert_eq!(
                value(Expr::Ne { lhs: lit(a), rhs: lit(b) }),
                Value::Bool(!eq(a, b))
            );
            assert_eq!(
                value(Expr::In { needle: lit(a), haystack: lit(&format!("[[], {b}, 77]")) }),
                Value::Bool(eq(a, b) || eq(a, "[]"))
            );
            for c in VALUES {
                assert!(!(eq(a, b) && eq(b, c)) || eq(a, c));
            }
        }
    }
    assert!(eq("0", "-0.0") && eq("1", "1.0"));
}

#[test]
fn order_is_total_and_transitive() {
    let numbers = ["-1e300", "-5", "-0.0", "0", "0.1", "1", "1.0", "9007199254740993", "1e300"];
    let yes = Value::Bool(true);
    let lt = |a: &str, b: &str| value(Expr::Lt { lhs: lit(a), rhs: lit(b) }) == yes;
    let gt = |a: &str, b: &str| value(Expr::Gt { lhs: lit(a), rhs: lit(b) }) == yes;
    let eq = |a: &str, b: &str| value(Expr::Eq { lhs: lit(a), rhs: lit(b) }) == yes;
    for a in numbers {
        for b in numbers {
            assert_eq!(
                [lt(a, b), eq(a, b), gt(a, b)].iter().filter(|x| **x).count(),
                1,
                "{a} {b}"
            );
            assert_eq!(lt(a, b), gt(b, a));
            assert_eq!(value(Expr::Lte { lhs: lit(a), rhs: lit(b) }), Value::Bool(!gt(a, b)));
            assert_eq!(value(Expr::Gte { lhs: lit(a), rhs: lit(b) }), Value::Bool(!lt(a, b)));
            for c in numbers {
                assert!(!(lt(a, b) && lt(b, c)) || lt(a, c));
            }
        }
    }
}

#[test]
fn arithmetic_gives_doubles_and_commutes() {
    for (a, b) in [("2", "3"), ("0.1", "0.2"), ("-7", "18446744073709549568"), ("1e300", "-2")] {
        let s = value(Expr::Add { lhs: lit(a), rhs: lit(b) });
        let p = value(Expr::Mul { lhs: lit(a), rhs: lit(b) });
        assert!(matches!(s, Value::Number(Number::Float(_))));
        assert!(matches!(p, Value::Number(Number::Float(_))));
        assert_eq!(s, value(Expr::Add { lhs: lit(b), rhs: lit(a) }));
        assert_eq!(p, value(Expr::Mul { lhs: lit(b), rhs: lit(a) }));
    }
    assert_eq!(value(Expr::Add { lhs: lit("0.1"), rhs: lit("0.2") }), json("0.30000000000000004"));
    assert_eq!(value(Expr::Div { lhs: lit("1"), rhs: lit("3") }), json("0.3333333333333333"));
}

#[test]
fn modulo_takes_the_sign_of_the_divisor() {
    for (a, b, r) in [
        ("7", "3", "1.0"),
        ("-7", "3", "2.0"),
        ("7", "-3", "-2.0"),
        ("-7", "-3", "-1.0"),
        ("5.5", "2", "1.5"),
        ("-0.5", "2", "1.5"),
        ("6", "3", "0.0"),
        ("9007199254740991", "10", "1.0"),
    ] {
        assert_eq!(value(Expr::Mod { lhs: lit(a), rhs: lit(b) }), json(r), "{a} % {b}");
    }
}

#[test]
fn modulo_of_large_doubles_is_rounded() {
    assert_eq!(value(Expr::Mod { lhs: lit("1e17"), rhs: lit("0.3") }), json("-16.0"));
}

#[test]
fn the_root_tokens_are_interchangeable() {
    for rest in ["", ".a", ".a.b", "[\"x.y\"]", ".", "a", ".a..b", "[x]", ".a[\"b\"].c"] {
        let a = format!("${rest}").parse::<Path>();
        let b = format!("ctx{rest}").parse::<Path>();
        assert_eq!(a.is_ok(), b.is_ok(), "{rest}");
        if let (Ok(a), Ok(b)) = (a, b) {
            assert_eq!(a.keys(), b.keys());
            let ctx = json(r#"{"a": {"b": 1}, "x.y": 2}"#);
            assert_eq!(a.read(&ctx).ok(), b.read(&ctx).ok());
            let (mut c, mut d) = (ctx.clone(), ctx.clone());
            assert_eq!(
                a.write(&mut c, json("3")).is_ok(),
                b.write(&mut d, json("3")).is_ok()
            );
            assert_eq!(c, d);
        }
    }
}

#[test]
fn a_sequence_in_a_sequence_is_one_sequence() {
    let ctx = || json(r#"{"s": 1}"#);
    let parts = || vec![let_("$.a", "1"), let_("$.s.x", "2"), let_("$.b", "3")];
    for cut in 0..=3 {
        let mut first = parts();
        let second = first.split_off(cut);
        let nested = Node::Sequence {
            children: vec![
                Node::Sequence { children: first },
                Node::Sequence { children: second },
            ],
        };
        let flat = Node::Sequence { children: parts() };
        assert_eq!(
            eval(&nested, ctx(), &mut echo).map_err(|e| e.to_string()),
            eval(&flat, ctx(), &mut echo).map_err(|e| e.to_string())
        );
    }
}

#[test]
fn runs_with_the_same_replies_end_the_same() {
    let node = Node::Fanout {
        items: *lit(r#"[1, "x", null]"#),
        bind: path("$.item"),
        body: Box::new(Node::Try {
            body: Box::new(Node::Step {
                ref_: "s".into(),
                in_: Expr::Add { lhs: Box::new(path("$.item")), rhs: lit("1") },
                out: path("$.out"),
            }),
            catch: Box::new(let_("$.caught", "true")),
            err_at: Some(path("$.err")),
        }),
        join: JoinMode::All,
        out: path("$.all"),
    };
    let first = eval(&node, json("{}"), &mut echo).unwrap();
    assert_eq!(eval(&node, json("{}"), &mut echo).unwrap(), first);
    assert_eq!(
        read_path("$.all", &first).unwrap(),
        json(
            r#"[
                {"item": 1, "out": 2.0},
                {"item": "x", "err": "type error in 'add': expected number, got String(\"x\")", "caught": true},
                {"item": null, "err": "type error in 'add': expected number, got Null", "caught": true}
            ]"#
        )
    );
}
