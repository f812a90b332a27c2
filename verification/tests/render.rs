//! Values as text.

use flow_ir::decimal::{decimal, decimal_doubled, decimal_quintupled};
use flow_ir::render::{debug, display, render};
use flow_ir::{Float, Number, Object, Value};

/// A value from its JSON text.
fn json(text: &str) -> Value {
    from_parsed(serde_json::from_str(text).unwrap())
}

fn from_parsed(v: serde_json::Value) -> Value {
    match v {
        serde_json::Value::Null => Value::Null,
        serde_json::Value::Bool(b) => Value::Bool(b),
        serde_json::Value::Number(n) => Value::Number(if let Some(i) = n.as_u64() {
            Number::PosInt(i)
        } else if let Some(i) = n.as_i64() {
            Number::NegInt(i)
        } else {
            Number::Float(Float::from_bits(n.as_f64().unwrap().to_bits()).unwrap())
        }),
        serde_json::Value::String(s) => Value::String(s),
        serde_json::Value::Array(a) => Value::Array(a.into_iter().map(from_parsed).collect()),
        serde_json::Value::Object(o) => {
            let mut r = Object::new();
            for (k, v) in o {
                r.insert(k, from_parsed(v));
            }
            Value::Object(r)
        }
    }
}

#[test]
fn texts_stand_for_the_values_that_they_are_of() {
    for text in [
        "null",
        "true",
        "false",
        "0",
        "18446744073709551615",
        "-9223372036854775808",
        "1.5",
        "-0.0",
        "0.1",
        "1e300",
        "1.7976931348623157e308",
        "5e-324",
        "2.2250738585072014e-308",
        "-123456.789e-20",
        r#""""#,
        r#""a\"b\\c\n\u0000\u001f\u007f\u00e9\ud83d\ude00""#,
        "[]",
        "[1]",
        r#"[1, [2.5, "x"], {}]"#,
        r#"{"b": 1, "a": {"c": [null]}, "": false}"#,
    ] {
        let v = json(text);
        let parsed: serde_json::Value = serde_json::from_str(text).unwrap();
        assert_eq!(json(&render(&v)), v, "{text}");
        assert_eq!(debug(&v), format!("{parsed:?}"));
        assert_eq!(display(&v), parsed.to_string());
    }
}

#[test]
fn exact_texts() {
    assert_eq!(render(&json(r#"{"b": [1, -2], "a": "\u0007\""}"#)), r#"{"a":"\u0007\"","b":[1,-2]}"#);
    assert_eq!(render(&json("0.5")), format!("{}e-53", half()));
    assert_eq!(debug(&json(r#"["x", 0.5]"#)), "Array [String(\"x\"), Number(0.5)]");
    assert_eq!(display(&json(r#"["x", 0.50]"#)), "[\"x\",0.5]");
}

/// One half is two to the power 52 times two to the power -53.
fn half() -> String {
    decimal_quintupled(1 << 52, 53)
}

#[test]
fn deep_values_have_texts() {
    let mut v = Value::Null;
    for _ in 0..300 {
        v = Value::Array(vec![v]);
    }
    assert_eq!(display(&v), format!("{}null{}", "[".repeat(300), "]".repeat(300)));
}

#[test]
fn numbers_in_decimal() {
    assert_eq!(decimal(0), "0");
    assert_eq!(decimal(10), "10");
    assert_eq!(decimal(u64::MAX), "18446744073709551615");
    assert_eq!(decimal_doubled(1, 64), "18446744073709551616");
    assert_eq!(decimal_doubled(0, 9), "0");
    assert_eq!(decimal_quintupled(2, 3), "250");
    assert_eq!(decimal_quintupled(1, 30), "931322574615478515625");
}
