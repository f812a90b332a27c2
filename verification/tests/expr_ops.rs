//! Expressions: what each operation gives.

use flow_ir::{
    eval_expr, eval_expr_with_externs, read_path, write_path, EvalError, Expr, ExternMap, Float,
    Number, Object, Value,
};

/// A value from its JSON text.
fn json(text: &str) -> Value {
    from_parsed(serde_json::from_str(text).unwrap())
}

fn from_parsed(v: serde_json::Value) -> Value {
    match v {
        serde_json::Value::Null => Value::Null,
        serde_json::Value::Bool(b) => Value::Bool(b),
        serde_json::Value::Number(n) => Value::Number(if let Some(i) = n.as_u64() {
            Number::PosInt(i)
        } else if let Some(i) = n.as_i64() {
            Number::NegInt(i)
        } else {
            Number::Float(Float::from_bits(n.as_f64().unwrap().to_bits()).unwrap())
        }),
        serde_json::Value::String(s) => Value::String(s),
        serde_json::Value::Array(a) => Value::Array(a.into_iter().map(from_parsed).collect()),
        serde_json::Value::Object(o) => {
            let mut r = Object::new();
            for (k, v) in o {
                r.insert(k, from_parsed(v));
            }
            Value::Object(r)
        }
    }
}

fn lit(v: Value) -> Box<Expr> {
    Box::new(Expr::Lit { value: v })
}

fn path(at: &str) -> Box<Expr> {
    Box::new(Expr::Path { at: at.parse().unwrap() })
}

#[test]
fn ne_op() {
    let ctx = json(r#"{}"#);
    assert_eq!(
        eval_expr(
            &Expr::Ne {
                lhs: lit(json(r#"1"#)),
                rhs: lit(json(r#"2"#))
            },
            &ctx
        )
        .unwrap(),
        json(r#"true"#)
    );
    assert_eq!(
        eval_expr(
            &Expr::Ne {
                lhs: lit(json(r#"1"#)),
                rhs: lit(json(r#"1"#))
            },
            &ctx
        )
        .unwrap(),
        json(r#"false"#)
    );
}

#[test]
fn eq_op() {
    let ctx = json(r#"{}"#);
    assert_eq!(
        eval_expr(
            &Expr::Eq {
                lhs: lit(json(r#"1"#)),
                rhs: lit(json(r#"1"#))
            },
            &ctx
        )
        .unwrap(),
        json(r#"true"#)
    );
    assert_eq!(
        eval_expr(
            &Expr::Eq {
                lhs: lit(json(r#"1"#)),
                rhs: lit(json(r#"2"#))
            },
            &ctx
        )
        .unwrap(),
        json(r#"false"#)
    );
    assert_eq!(
        eval_expr(
            &Expr::Eq {
                lhs: lit(json(r#""a""#)),
                rhs: lit(json(r#""a""#))
            },
            &ctx
        )
        .unwrap(),
        json(r#"true"#)
    );
    assert_eq!(
        eval_expr(
            &Expr::Eq {
                lhs: lit(json(r#"true"#)),
                rhs: lit(json(r#"true"#))
            },
            &ctx
        )
        .unwrap(),
        json(r#"true"#)
    );
    assert_eq!(
        eval_expr(
            &Expr::Eq {
                lhs: lit(json(r#"null"#)),
                rhs: lit(json(r#"null"#))
            },
            &ctx
        )
        .unwrap(),
        json(r#"true"#)
    );
}

#[test]
fn eq_numeric_coercion_matches_arithmetic_result() {
    let ctx = json(r#"{}"#);
    let e = Expr::Eq {
        lhs: Box::new(Expr::Add {
            lhs: lit(json(r#"2"#)),
            rhs: lit(json(r#"3"#)),
        }),
        rhs: lit(json(r#"5"#)),
    };
    assert_eq!(eval_expr(&e, &ctx).unwrap(), json(r#"true"#));
}

#[test]
fn eq_ne_int_float_parity() {
    let ctx = json(r#"{}"#);
    assert_eq!(
        eval_expr(
            &Expr::Eq {
                lhs: lit(json(r#"5"#)),
                rhs: lit(json(r#"5.0"#))
            },
            &ctx
        )
        .unwrap(),
        json(r#"true"#)
    );
    assert_eq!(
        eval_expr(
            &Expr::Ne {
                lhs: lit(json(r#"5"#)),
                rhs: lit(json(r#"5.0"#))
            },
            &ctx
        )
        .unwrap(),
        json(r#"false"#)
    );
}

#[test]
fn eq_nested_array_object_numeric_coercion() {
    let ctx = json(r#"{}"#);
    assert_eq!(
        eval_expr(
            &Expr::Eq {
                lhs: lit(json(r#"[1, 2]"#)),
                rhs: lit(json(r#"[1.0, 2.0]"#))
            },
            &ctx
        )
        .unwrap(),
        json(r#"true"#)
    );
    assert_eq!(
        eval_expr(
            &Expr::Eq {
                lhs: lit(json(r#"{ "a": 1 }"#)),
                rhs: lit(json(r#"{ "a": 1.0 }"#))
            },
            &ctx
        )
        .unwrap(),
        json(r#"true"#)
    );
}

#[test]
fn eq_mixed_type_and_length_still_false() {
    let ctx = json(r#"{}"#);
    assert_eq!(
        eval_expr(
            &Expr::Eq {
                lhs: lit(json(r#"1"#)),
                rhs: lit(json(r#""1""#))
            },
            &ctx
        )
        .unwrap(),
        json(r#"false"#)
    );
    assert_eq!(
        eval_expr(
            &Expr::Eq {
                lhs: lit(json(r#"[1]"#)),
                rhs: lit(json(r#"[1, 2]"#))
            },
            &ctx
        )
        .unwrap(),
        json(r#"false"#)
    );
}

#[test]
fn lt_lte_gt_gte_ops() {
    let ctx = json(r#"{}"#);
    let e = Expr::Lt {
        lhs: lit(json(r#"1"#)),
        rhs: lit(json(r#"2"#)),
    };
    assert_eq!(eval_expr(&e, &ctx).unwrap(), json(r#"true"#));
    let e = Expr::Lte {
        lhs: lit(json(r#"2"#)),
        rhs: lit(json(r#"2"#)),
    };
    assert_eq!(eval_expr(&e, &ctx).unwrap(), json(r#"true"#));
    let e = Expr::Gt {
        lhs: lit(json(r#"3"#)),
        rhs: lit(json(r#"2"#)),
    };
    assert_eq!(eval_expr(&e, &ctx).unwrap(), json(r#"true"#));
    let e = Expr::Gte {
        lhs: lit(json(r#"2"#)),
        rhs: lit(json(r#"3"#)),
    };
    assert_eq!(eval_expr(&e, &ctx).unwrap(), json(r#"false"#));
}

#[test]
fn cmp_strings_lexicographic() {
    let ctx = json(r#"{}"#);
    let e = Expr::Lt {
        lhs: lit(json(r#""apple""#)),
        rhs: lit(json(r#""banana""#)),
    };
    assert_eq!(eval_expr(&e, &ctx).unwrap(), json(r#"true"#));
    let e = Expr::Gte {
        lhs: lit(json(r#""b""#)),
        rhs: lit(json(r#""b""#)),
    };
    assert_eq!(eval_expr(&e, &ctx).unwrap(), json(r#"true"#));
}

#[test]
fn cmp_rejects_mixed_types() {
    let ctx = json(r#"{}"#);
    let e = Expr::Lt {
        lhs: lit(json(r#""a""#)),
        rhs: lit(json(r#"2"#)),
    };
    assert!(eval_expr(&e, &ctx).is_err());
    let e = Expr::Gt {
        lhs: lit(json(r#"true"#)),
        rhs: lit(json(r#"false"#)),
    };
    assert!(eval_expr(&e, &ctx).is_err());
}

#[test]
fn not_op() {
    let ctx = json(r#"{}"#);
    assert_eq!(
        eval_expr(
            &Expr::Not {
                arg: lit(json(r#"false"#))
            },
            &ctx
        )
        .unwrap(),
        json(r#"true"#)
    );
    assert_eq!(
        eval_expr(&Expr::Not { arg: lit(json(r#"0"#)) }, &ctx).unwrap(),
        json(r#"false"#)
    );
    assert_eq!(
        eval_expr(
            &Expr::Not {
                arg: lit(json(r#"null"#))
            },
            &ctx
        )
        .unwrap(),
        json(r#"true"#)
    );
}

#[test]
fn and_or_ops() {
    let ctx = json(r#"{}"#);
    let true_e = Expr::Lit { value: json(r#"true"#) };
    let false_e = Expr::Lit {
        value: json(r#"false"#),
    };

    assert_eq!(
        eval_expr(
            &Expr::And {
                args: vec![true_e.clone(), true_e.clone()]
            },
            &ctx
        )
        .unwrap(),
        json(r#"true"#)
    );
    assert_eq!(
        eval_expr(
            &Expr::And {
                args: vec![true_e.clone(), false_e.clone()]
            },
            &ctx
        )
        .unwrap(),
        json(r#"false"#)
    );
    assert_eq!(
        eval_expr(&Expr::And { args: vec![] }, &ctx).unwrap(),
        json(r#"true"#)
    );

    assert_eq!(
        eval_expr(
            &Expr::Or {
                args: vec![false_e.clone(), true_e.clone()]
            },
            &ctx
        )
        .unwrap(),
        json(r#"true"#)
    );
    assert_eq!(
        eval_expr(
            &Expr::Or {
                args: vec![false_e.clone(), false_e.clone()]
            },
            &ctx
        )
        .unwrap(),
        json(r#"false"#)
    );
    assert_eq!(
        eval_expr(&Expr::Or { args: vec![] }, &ctx).unwrap(),
        json(r#"false"#)
    );
}

#[test]
fn exists_op() {
    let ctx = json(r#"{ "a": { "b": 1 }, "n": null }"#);
    assert_eq!(
        eval_expr(&Expr::Exists { arg: path("$.a.b") }, &ctx).unwrap(),
        json(r#"true"#)
    );
    assert_eq!(
        eval_expr(
            &Expr::Exists {
                arg: path("$.a.missing")
            },
            &ctx
        )
        .unwrap(),
        json(r#"false"#)
    );
    assert_eq!(
        eval_expr(&Expr::Exists { arg: path("$.n") }, &ctx).unwrap(),
        json(r#"false"#)
    );
    assert_eq!(
        eval_expr(
            &Expr::Exists {
                arg: lit(json(r#"false"#))
            },
            &ctx
        )
        .unwrap(),
        json(r#"true"#)
    );
}

#[test]
fn add_sub_mul_div_ops() {
    let ctx = json(r#"{}"#);
    assert_eq!(
        eval_expr(
            &Expr::Add {
                lhs: lit(json(r#"2"#)),
                rhs: lit(json(r#"3"#))
            },
            &ctx
        )
        .unwrap(),
        json(r#"5.0"#)
    );
    assert_eq!(
        eval_expr(
            &Expr::Sub {
                lhs: lit(json(r#"5"#)),
                rhs: lit(json(r#"3"#))
            },
            &ctx
        )
        .unwrap(),
        json(r#"2.0"#)
    );
    assert_eq!(
        eval_expr(
            &Expr::Mul {
                lhs: lit(json(r#"4"#)),
                rhs: lit(json(r#"3"#))
            },
            &ctx
        )
        .unwrap(),
        json(r#"12.0"#)
    );
    assert_eq!(
        eval_expr(
            &Expr::Div {
                lhs: lit(json(r#"10"#)),
                rhs: lit(json(r#"4"#))
            },
            &ctx
        )
        .unwrap(),
        json(r#"2.5"#)
    );
}

#[test]
fn mod_op_lua_semantics() {
    let ctx = json(r#"{}"#);
    assert_eq!(
        eval_expr(
            &Expr::Mod {
                lhs: lit(json(r#"7"#)),
                rhs: lit(json(r#"3"#))
            },
            &ctx
        )
        .unwrap(),
        json(r#"1.0"#)
    );
    assert_eq!(
        eval_expr(
            &Expr::Mod {
                lhs: lit(json(r#"-7"#)),
                rhs: lit(json(r#"3"#))
            },
            &ctx
        )
        .unwrap(),
        json(r#"2.0"#)
    );
    assert!(eval_expr(
        &Expr::Mod {
            lhs: lit(json(r#"1"#)),
            rhs: lit(json(r#"0"#))
        },
        &ctx
    )
    .is_err());
}

#[test]
fn div_by_zero_errors() {
    let ctx = json(r#"{}"#);
    let e = Expr::Div {
        lhs: lit(json(r#"1"#)),
        rhs: lit(json(r#"0"#)),
    };
    assert!(eval_expr(&e, &ctx).is_err());
}

#[test]
fn arith_via_path() {
    let ctx = json(r#"{ "x": 10, "y": 7 }"#);
    let e = Expr::Sub {
        lhs: path("$.x"),
        rhs: path("$.y"),
    };
    assert_eq!(eval_expr(&e, &ctx).unwrap(), json(r#"3.0"#));
}

#[test]
fn len_op() {
    let ctx = json(r#"{ "arr": [1, 2, 3], "s": "hello", "o": {"a": 1, "b": 2} }"#);
    assert_eq!(
        eval_expr(&Expr::Len { arg: path("$.arr") }, &ctx).unwrap(),
        json(r#"3"#)
    );
    assert_eq!(
        eval_expr(&Expr::Len { arg: path("$.s") }, &ctx).unwrap(),
        json(r#"5"#)
    );
    assert_eq!(
        eval_expr(&Expr::Len { arg: path("$.o") }, &ctx).unwrap(),
        json(r#"2"#)
    );
    assert!(eval_expr(
        &Expr::Len {
            arg: lit(json(r#"42"#))
        },
        &ctx
    )
    .is_err());
}

#[test]
fn in_op() {
    let ctx = json(r#"{ "items": ["a", "b", "c"] }"#);
    assert_eq!(
        eval_expr(
            &Expr::In {
                needle: lit(json(r#""b""#)),
                haystack: path("$.items")
            },
            &ctx
        )
        .unwrap(),
        json(r#"true"#)
    );
    assert_eq!(
        eval_expr(
            &Expr::In {
                needle: lit(json(r#""z""#)),
                haystack: path("$.items")
            },
            &ctx
        )
        .unwrap(),
        json(r#"false"#)
    );
    assert!(eval_expr(
        &Expr::In {
            needle: lit(json(r#"1"#)),
            haystack: lit(json(r#""scalar""#))
        },
        &ctx
    )
    .is_err());
}

#[test]
fn in_op_numeric_coercion() {
    let ctx = json(r#"{}"#);
    assert_eq!(
        eval_expr(
            &Expr::In {
                needle: lit(json(r#"5"#)),
                haystack: lit(json(r#"[4.0, 5.0]"#))
            },
            &ctx
        )
        .unwrap(),
        json(r#"true"#)
    );
}

/// A registered function.
type ExternFn = Box<dyn Fn(&[Value]) -> Result<Value, EvalError> + Send + Sync>;

fn number(x: f64) -> Value {
    Value::Number(Number::Float(Float::from_bits(x.to_bits()).unwrap()))
}

fn as_f64(v: &Value) -> Option<f64> {
    match v {
        Value::Number(n) => Some(f64::from_bits(n.bits())),
        _ => None,
    }
}

fn arg_f64(args: &[Value], i: usize, ref_: &str) -> Result<f64, EvalError> {
    args.get(i)
        .and_then(as_f64)
        .ok_or_else(|| EvalError::ExternError {
            ref_: ref_.into(),
            msg: format!("arg[{i}] must be a number"),
        })
}

#[test]
fn call_extern_resolves_registered_fn() {
    let mut externs: ExternMap<ExternFn> = ExternMap::new();
    externs.register(
        "math.sqrt",
        Box::new(|args: &[Value]| Ok(number(arg_f64(args, 0, "math.sqrt")?.sqrt()))),
    );
    externs.register(
        "math.ln",
        Box::new(|args: &[Value]| Ok(number(arg_f64(args, 0, "math.ln")?.ln()))),
    );

    let ctx = json(r#"{ "n": 9.0 }"#);
    let e = Expr::CallExtern {
        ref_: "math.sqrt".into(),
        args: vec![Expr::Mul {
            lhs: Box::new(Expr::CallExtern {
                ref_: "math.ln".into(),
                args: vec![Expr::Lit {
                    value: number(std::f64::consts::E.powi(4)),
                }],
            }),
            rhs: path("$.n"),
        }],
    };
    let out = eval_expr_with_externs(&e, &ctx, &externs).unwrap();
    let got = as_f64(&out).unwrap();
    assert!((got - 6.0).abs() < 1e-9, "got {got}");
}

#[test]
fn call_extern_unregistered_ref_errors() {
    let externs: ExternMap<ExternFn> = ExternMap::new();
    let e = Expr::CallExtern {
        ref_: "nope".into(),
        args: vec![],
    };
    let err = eval_expr_with_externs(&e, &json(r#"{}"#), &externs).unwrap_err();
    assert!(matches!(err, EvalError::ExternError { .. }), "{err:?}");
}

#[test]
fn call_extern_without_registry_errors() {
    let e = Expr::CallExtern {
        ref_: "math.sqrt".into(),
        args: vec![],
    };
    let err = eval_expr(&e, &json(r#"{}"#)).unwrap_err();
    assert!(matches!(err, EvalError::ExternError { .. }), "{err:?}");
}

fn path_expr(at: &str) -> Expr {
    Expr::Path { at: at.parse().unwrap() }
}

#[test]
fn read_path_bracket_basic() {
    let ctx = json(r#"{ "a": { "p.md": 1 } }"#);
    assert_eq!(read_path("$.a[\"p.md\"]", &ctx).unwrap(), json(r#"1"#));
}

#[test]
fn read_path_bracket_then_dot() {
    let ctx = json(r#"{ "a": { "p.md": { "b": 2 } } }"#);
    assert_eq!(read_path("$.a[\"p.md\"].b", &ctx).unwrap(), json(r#"2"#));
}

#[test]
fn read_path_bracket_leading() {
    let ctx = json(r#"{ "x.y": 3 }"#);
    assert_eq!(read_path("$[\"x.y\"]", &ctx).unwrap(), json(r#"3"#));
}

#[test]
fn read_path_bracket_leading_then_dot() {
    let ctx = json(r#"{ "x.y": { "inner": 4 } }"#);
    assert_eq!(read_path("$[\"x.y\"].inner", &ctx).unwrap(), json(r#"4"#));
}

#[test]
fn read_path_bracket_chained() {
    let ctx = json(r#"{ "a": { "x": { "y": 5 } } }"#);
    assert_eq!(read_path("$.a[\"x\"][\"y\"]", &ctx).unwrap(), json(r#"5"#));
}

#[test]
fn read_path_bracket_missing_key_errors() {
    let ctx = json(r#"{ "a": {} }"#);
    let err = read_path("$.a[\"missing\"]", &ctx).unwrap_err();
    assert!(matches!(err, EvalError::PathNotFound(_)), "{err:?}");
}

#[test]
fn write_path_bracket_basic() {
    let ctx = json(r#"{}"#);
    let updated = write_path(&path_expr("$.a[\"p.md\"]"), ctx, json(r#"1"#)).unwrap();
    assert_eq!(updated, json(r#"{ "a": { "p.md": 1 } }"#));
}

#[test]
fn write_path_bracket_creates_intermediate_objects() {
    let ctx = json(r#"{}"#);
    let updated = write_path(&path_expr("$.a[\"p.md\"].b"), ctx, json(r#"2"#)).unwrap();
    assert_eq!(updated, json(r#"{ "a": { "p.md": { "b": 2 } } }"#));
}

#[test]
fn write_path_bracket_overwrites_existing_key() {
    let ctx = json(r#"{ "a": { "p.md": 1, "other": "keep" } }"#);
    let updated = write_path(&path_expr("$.a[\"p.md\"]"), ctx, json(r#"9"#)).unwrap();
    assert_eq!(updated, json(r#"{ "a": { "p.md": 9, "other": "keep" } }"#));
}

#[test]
fn read_path_dot_only_unchanged() {
    let ctx = json(r#"{ "a": { "b": { "c": 42 } } }"#);
    assert_eq!(read_path("$.a.b.c", &ctx).unwrap(), json(r#"42"#));
}

#[test]
fn read_path_whole_ctx_unchanged() {
    let ctx = json(r#"{ "a": 1 }"#);
    assert_eq!(read_path("$", &ctx).unwrap(), ctx);
}

#[test]
fn read_path_dot_only_missing_key_errors() {
    let ctx = json(r#"{ "a": {} }"#);
    let err = read_path("$.a.missing", &ctx).unwrap_err();
    assert!(matches!(err, EvalError::PathNotFound(_)), "{err:?}");
}

#[test]
fn write_path_non_path_expr_errors() {
    let ctx = json(r#"{}"#);
    let err = write_path(&Expr::Lit { value: json(r#"1"#) }, ctx, json(r#"2"#)).unwrap_err();
    assert!(matches!(err, EvalError::InvalidPath(_)), "{err:?}");
}

#[test]
fn write_path_dot_only_unchanged() {
    let ctx = json(r#"{}"#);
    let updated = write_path(&path_expr("$.a.b.c"), ctx, json(r#"42"#)).unwrap();
    assert_eq!(updated, json(r#"{ "a": { "b": { "c": 42 } } }"#));
}

#[test]
fn read_path_bracket_unterminated_errors() {
    let ctx = json(r#"{}"#);
    let err = read_path("$.a[", &ctx).unwrap_err();
    assert!(matches!(err, EvalError::InvalidPath(_)), "{err:?}");
}

#[test]
fn read_path_bracket_empty_errors() {
    let ctx = json(r#"{}"#);
    let err = read_path("$.a[]", &ctx).unwrap_err();
    assert!(matches!(err, EvalError::InvalidPath(_)), "{err:?}");
}

#[test]
fn read_path_bracket_unquoted_errors() {
    let ctx = json(r#"{}"#);
    let err = read_path("$.a[p.md]", &ctx).unwrap_err();
    assert!(matches!(err, EvalError::InvalidPath(_)), "{err:?}");
}

#[test]
fn read_path_bracket_empty_key_errors() {
    let ctx = json(r#"{}"#);
    let err = read_path("$.a[\"\"]", &ctx).unwrap_err();
    assert!(matches!(err, EvalError::InvalidPath(_)), "{err:?}");
}

#[test]
fn read_path_bracket_unseparated_plain_suffix_errors() {
    let ctx = json(r#"{}"#);
    let err = read_path("$.a[\"x\"]b", &ctx).unwrap_err();
    assert!(matches!(err, EvalError::InvalidPath(_)), "{err:?}");
}

#[test]
fn errors_of_operations_say_what_was_wrong() {
    let ctx = json("{}");
    let text = |e: Expr| eval_expr(&e, &ctx).unwrap_err().to_string();
    assert_eq!(
        text(Expr::Lt { lhs: lit(json(r#""a""#)), rhs: lit(json("2")) }),
        "type error in 'cmp': cmp: both sides must be numbers or strings, got String(\"a\") vs \
         Number(2)"
    );
    assert_eq!(
        text(Expr::Add { lhs: lit(json("1")), rhs: lit(json(r#"{"k": [-1.5e300]}"#)) }),
        "type error in 'add': expected number, got Object {\"k\": Array [Number(-1.5e+300)]}"
    );
    assert_eq!(
        text(Expr::Sub { lhs: lit(json("null")), rhs: lit(json("true")) }),
        "type error in 'sub': expected number, got Null"
    );
    assert_eq!(
        text(Expr::Mod { lhs: lit(json("1")), rhs: lit(json("0")) }),
        "arithmetic error in 'mod': arithmetic failure (e.g. division by zero)"
    );
    assert_eq!(
        text(Expr::Div { lhs: lit(json("1")), rhs: lit(json("-0.0")) }),
        "arithmetic error in 'div': arithmetic failure (e.g. division by zero)"
    );
    assert_eq!(
        text(Expr::Mul { lhs: lit(json("-1e308")), rhs: lit(json("10")) }),
        "arithmetic error in 'mul': result not f64-representable: -inf"
    );
    assert_eq!(
        text(Expr::Add { lhs: lit(json("1e308")), rhs: lit(json("1e308")) }),
        "arithmetic error in 'add': result not f64-representable: inf"
    );
    assert_eq!(
        text(Expr::Mod { lhs: lit(json("1e308")), rhs: lit(json("1e-308")) }),
        "arithmetic error in 'mod': result not f64-representable: -inf"
    );
    assert_eq!(
        text(Expr::Len { arg: lit(json("true")) }),
        "type error in 'expr.len': len: unsupported type Bool(true)"
    );
    assert_eq!(
        text(Expr::In { needle: lit(json("1")), haystack: lit(json(r#""scalar""#)) }),
        "type error in 'expr.in': in: haystack must be array, got String(\"scalar\")"
    );
    assert_eq!(
        text(Expr::CallExtern { ref_: "f".into(), args: vec![] }),
        "extern error for ref 'f': no externs registry configured"
    );
}

#[test]
fn equality_ignores_the_representation_of_numbers() {
    let ctx = json("{}");
    let eq = |a: &str, b: &str| {
        eval_expr(&Expr::Eq { lhs: lit(json(a)), rhs: lit(json(b)) }, &ctx).unwrap()
    };
    for (a, b, same) in [
        ("9007199254740993", "9007199254740992.0", true),
        ("9007199254740993", "9007199254740992", true),
        ("9007199254740991", "9007199254740992", false),
        ("0", "-0.0", true),
        ("-3", "-3.0", true),
        ("18446744073709551615", "18446744073709551616.0", true),
        (r#"{"a": 1, "b": [2]}"#, r#"{"b": [2.0], "a": 1.0}"#, true),
        (r#"{"a": 1}"#, r#"{"b": 1}"#, false),
        (r#"{"a": 1}"#, r#"{"a": 1, "b": 1}"#, false),
        ("[]", "{}", false),
        ("null", "false", false),
    ] {
        assert_eq!(eq(a, b), Value::Bool(same), "{a} {b}");
        assert_eq!(eq(b, a), Value::Bool(same), "{b} {a}");
        assert_eq!(eq(a, a), Value::Bool(true), "{a}");
    }
}

#[test]
fn order_of_strings_is_that_of_their_bytes() {
    let texts = ["", "Z", "a", "aa", "b", "\u{e9}", "\u{ffff}", "\u{10000}"];
    for a in texts {
        for b in texts {
            let e = Expr::Lt {
                lhs: lit(Value::String(a.into())),
                rhs: lit(Value::String(b.into())),
            };
            assert_eq!(eval_expr(&e, &Value::Null).unwrap(), Value::Bool(a < b));
            let e = Expr::Gte {
                lhs: lit(Value::String(a.into())),
                rhs: lit(Value::String(b.into())),
            };
            assert_eq!(eval_expr(&e, &Value::Null).unwrap(), Value::Bool(a >= b));
        }
    }
}

#[test]
fn and_or_do_not_look_past_what_decides() {
    let bad = || *path("$.missing");
    let ctx = json("{}");
    let yes = || *lit(json("0"));
    let no = || *lit(json("null"));
    let value = |e: Expr| eval_expr(&e, &ctx);
    assert_eq!(value(Expr::And { args: vec![yes(), no(), bad()] }).unwrap(), Value::Bool(false));
    assert_eq!(value(Expr::Or { args: vec![no(), yes(), bad()] }).unwrap(), Value::Bool(true));
    assert!(value(Expr::And { args: vec![yes(), bad(), no()] }).is_err());
    assert!(value(Expr::Or { args: vec![no(), bad(), yes()] }).is_err());
}

#[test]
fn the_left_operand_fails_first() {
    let e = Expr::Add { lhs: path("$.l"), rhs: path("$.r") };
    assert_eq!(
        eval_expr(&e, &json("{}")).unwrap_err().to_string(),
        "path not found: $.l"
    );
    let e = Expr::Exists { arg: Box::new(Expr::Len { arg: lit(json("1")) }) };
    assert!(matches!(eval_expr(&e, &json("{}")), Err(EvalError::TypeError { .. })));
}

#[test]
fn a_later_registration_takes_the_place_of_an_earlier_one() {
    let mut externs: ExternMap<ExternFn> = ExternMap::default();
    assert!(!externs.contains("f"));
    externs.register("f", Box::new(|_: &[Value]| Ok(Value::Bool(false))));
    externs.register("g", Box::new(|args: &[Value]| Ok(args[1].clone())));
    externs.register("f", Box::new(|_: &[Value]| Ok(Value::Bool(true))));
    assert!(externs.contains("f") && externs.contains("g") && !externs.contains("h"));
    let call = |name: &str| {
        let e = Expr::CallExtern {
            ref_: name.into(),
            args: vec![*lit(json("1")), *lit(json("[2]"))],
        };
        eval_expr_with_externs(&e, &Value::Null, &externs)
    };
    assert_eq!(call("f").unwrap(), Value::Bool(true));
    assert_eq!(call("g").unwrap(), json("[2]"));
    assert_eq!(
        call("h").unwrap_err().to_string(),
        "extern error for ref 'h': not registered in externs"
    );
}

#[test]
fn an_invalid_path_is_named_with_its_reason() {
    assert_eq!(
        read_path("no.prefix", &json("{}")).unwrap_err().to_string(),
        "invalid path syntax: invalid path syntax 'no.prefix': path must start with '$' or 'ctx' \
         followed by '.', '[', or end-of-string"
    );
}

#[test]
fn a_clone_is_the_same_expression() {
    let e = Expr::And {
        args: vec![
            Expr::In { needle: lit(json("1")), haystack: path("$.a") },
            Expr::CallExtern { ref_: "f".into(), args: vec![*lit(json(r#"{"k": [1.5]}"#))] },
            Expr::Not { arg: Box::new(Expr::Mod { lhs: path("ctx"), rhs: lit(json("-1")) }) },
        ],
    };
    assert_eq!(e.clone(), e);
}

#[test]
fn arithmetic_refuses_integers_that_a_double_cannot_hold() {
    let ctx = json("{}");
    let text = |e: Expr| eval_expr(&e, &ctx).unwrap_err().to_string();
    let odd = || lit(json("9007199254740993"));
    assert_eq!(
        text(Expr::Add { lhs: odd(), rhs: lit(json("1")) }),
        "arithmetic error in 'add': non-f64-representable number: 9007199254740993"
    );
    assert_eq!(
        text(Expr::Mod { lhs: lit(json("1")), rhs: lit(json("-9007199254740993")) }),
        "arithmetic error in 'mod': non-f64-representable number: -9007199254740993"
    );
    assert_eq!(
        text(Expr::Div { lhs: lit(json("18446744073709551615")), rhs: lit(json("0")) }),
        "arithmetic error in 'div': non-f64-representable number: 18446744073709551615"
    );
    for (n, sum) in [
        ("9007199254740992", "9007199254740992.0"),
        ("9007199254740994", "9007199254740994.0"),
        ("-9223372036854775808", "-9223372036854775808.0"),
        ("18446744073709549568", "18446744073709549568.0"),
        ("9007199254740993.0", "9007199254740992.0"),
    ] {
        let e = Expr::Add { lhs: lit(json(n)), rhs: lit(json("0")) };
        assert_eq!(eval_expr(&e, &ctx).unwrap(), json(sum), "{n}");
    }
    let e = Expr::Eq { lhs: odd(), rhs: lit(json("9007199254740992")) };
    assert_eq!(eval_expr(&e, &ctx).unwrap(), Value::Bool(true));
    let e = Expr::Lte { lhs: odd(), rhs: lit(json("9007199254740992")) };
    assert_eq!(eval_expr(&e, &ctx).unwrap(), Value::Bool(true));
    let e = Expr::In { needle: odd(), haystack: lit(json("[9007199254740992.0]")) };
    assert_eq!(eval_expr(&e, &ctx).unwrap(), Value::Bool(true));
}
