//! Paths: what parses, what does not, how they are shown, read and written.

use flow_ir::path::{
    accepts_after_root, is_dot_safe, parse_bracket_segments, parse_dot_segments, strip_root, Root,
};
use flow_ir::{EvalError, Float, Number, Object, Path, Value};

/// A value from its JSON text.
fn json(text: &str) -> Value {
    from_parsed(serde_json::from_str(text).unwrap())
}

fn from_parsed(v: serde_json::Value) -> Value {
    match v {
        serde_json::Value::Null => Value::Null,
        serde_json::Value::Bool(b) => Value::Bool(b),
        serde_json::Value::Number(n) => Value::Number(if let Some(i) = n.as_u64() {
            Number::PosInt(i)
        } else if let Some(i) = n.as_i64() {
            Number::NegInt(i)
        } else {
            Number::Float(Float::from_bits(n.as_f64().unwrap().to_bits()).unwrap())
        }),
        serde_json::Value::String(s) => Value::String(s),
        serde_json::Value::Array(a) => Value::Array(a.into_iter().map(from_parsed).collect()),
        serde_json::Value::Object(o) => {
            let mut r = Object::new();
            for (k, v) in o {
                r.insert(k, from_parsed(v));
            }
            Value::Object(r)
        }
    }
}

fn parts(p: &Path) -> (Root, Vec<String>) {
    (p.root(), p.keys().clone())
}

fn path_dollar(keys: Vec<&str>) -> (Root, Vec<String>) {
    (Root::Dollar, keys.into_iter().map(|k| k.to_string()).collect())
}

fn path_ctx(keys: Vec<&str>) -> (Root, Vec<String>) {
    (Root::Ctx, keys.into_iter().map(|k| k.to_string()).collect())
}


#[test]
fn accepts_root_dollar() {
    let p: Path = "$".parse().unwrap();
    assert_eq!(parts(&p), path_dollar(vec![]));
}

#[test]
fn accepts_root_ctx() {
    let p: Path = "ctx".parse().unwrap();
    assert_eq!(parts(&p), path_ctx(vec![]));
}

#[test]
fn accepts_single_dot_segment_dollar() {
    let p: Path = "$.a".parse().unwrap();
    assert_eq!(parts(&p), path_dollar(vec!["a"]));
}

#[test]
fn accepts_single_dot_segment_ctx() {
    let p: Path = "ctx.a".parse().unwrap();
    assert_eq!(parts(&p), path_ctx(vec!["a"]));
}

#[test]
fn accepts_multi_dot_segments() {
    let p: Path = "$.a.b".parse().unwrap();
    assert_eq!(parts(&p), path_dollar(vec!["a", "b"]));
    let q: Path = "ctx.a.b".parse().unwrap();
    assert_eq!(parts(&q), path_ctx(vec!["a", "b"]));
}

#[test]
fn accepts_bracket_forms_dollar() {
    assert!("$.a[\"p.md\"]".parse::<Path>().is_ok());
    assert!("$[\"x.y\"]".parse::<Path>().is_ok());
    assert!("$[\"x.y\"].inner".parse::<Path>().is_ok());
    assert!("$.a[\"x\"][\"y\"]".parse::<Path>().is_ok());
}

#[test]
fn accepts_bracket_forms_ctx() {
    assert!("ctx.a[\"p.md\"]".parse::<Path>().is_ok());
    assert!("ctx[\"x.y\"]".parse::<Path>().is_ok());
    assert!("ctx[\"x.y\"].inner".parse::<Path>().is_ok());
    assert!("ctx.a[\"x\"][\"y\"]".parse::<Path>().is_ok());
}

#[test]
fn rejects_missing_root_token() {
    assert!("a.b".parse::<Path>().is_err());
    assert!("".parse::<Path>().is_err());
}

#[test]
fn rejects_dollar_foo_no_dot() {
    let err = "$foo".parse::<Path>().unwrap_err();
    assert_eq!(err.path, "$foo");
}

#[test]
fn rejects_ctxfoo_no_dot() {
    let err = "ctxfoo".parse::<Path>().unwrap_err();
    assert_eq!(err.path, "ctxfoo");
}

#[test]
fn rejects_foo_bar_no_root() {
    assert!("foo.bar".parse::<Path>().is_err());
}

#[test]
fn rejects_trailing_dot() {
    assert!("$.".parse::<Path>().is_err());
    assert!("$.a.".parse::<Path>().is_err());
    assert!("ctx.".parse::<Path>().is_err());
    assert!("ctx.a.".parse::<Path>().is_err());
}

#[test]
fn rejects_empty_middle_segment() {
    assert!("$.a..b".parse::<Path>().is_err());
    assert!("ctx.a..b".parse::<Path>().is_err());
}

#[test]
fn rejects_empty_bracket_key() {
    assert!("$.a[\"\"]".parse::<Path>().is_err());
    assert!("$.a[]".parse::<Path>().is_err());
    assert!("ctx.a[\"\"]".parse::<Path>().is_err());
}

#[test]
fn rejects_unterminated_bracket() {
    assert!("$.a[".parse::<Path>().is_err());
    assert!("$.a[\"x".parse::<Path>().is_err());
}

#[test]
fn rejects_unquoted_bracket_key() {
    assert!("$.a[p.md]".parse::<Path>().is_err());
}

#[test]
fn rejects_unseparated_plain_suffix_after_bracket() {
    assert!("$.a[\"x\"]b".parse::<Path>().is_err());
}



#[test]
fn display_round_trip() {
    for src in [
        "$",
        "$.a",
        "$.a.b.c",
        "$.a[\"p.md\"]",
        "$[\"x.y\"]",
        "$[\"x.y\"].inner",
        "$.a[\"x\"][\"y\"]",
        "ctx",
        "ctx.a",
        "ctx.a.b.c",
        "ctx.a[\"p.md\"]",
        "ctx[\"x.y\"]",
    ] {
        let parsed: Path = src.parse().unwrap();
        let rendered = parsed.to_string();
        let reparsed: Path = rendered.parse().unwrap_or_else(|e| {
            panic!("canonical form '{rendered}' (from '{src}') failed to re-parse: {e:?}")
        });
        assert_eq!(
            parsed, reparsed,
            "round-trip mismatch for '{src}' -> '{rendered}'"
        );
    }
}

#[test]
fn display_preserves_root_token() {
    let p: Path = "$.a".parse().unwrap();
    assert_eq!(p.to_string(), "$.a");
    let q: Path = "ctx.a".parse().unwrap();
    assert_eq!(q.to_string(), "ctx.a");
}

#[test]
fn display_dotted_key_renders_bracket_form() {
    let p: Path = "$.a[\"p.md\"]".parse().unwrap();
    assert_eq!(p.to_string(), "$.a[\"p.md\"]");
    let q: Path = "ctx.a[\"p.md\"]".parse().unwrap();
    assert_eq!(q.to_string(), "ctx.a[\"p.md\"]");
}



#[test]
fn read_root_returns_whole_ctx() {
    let p: Path = "$".parse().unwrap();
    let ctx = json(r#"{"a": 1}"#);
    assert_eq!(p.read(&ctx).unwrap(), &ctx);
    let q: Path = "ctx".parse().unwrap();
    assert_eq!(q.read(&ctx).unwrap(), &ctx);
}

#[test]
fn read_missing_key_errors_path_not_found() {
    let p: Path = "$.a.missing".parse().unwrap();
    let ctx = json(r#"{"a": {}}"#);
    let err = p.read(&ctx).unwrap_err();
    assert!(matches!(err, EvalError::PathNotFound(_)), "{err:?}");
}

#[test]
fn write_root_replaces_whole_ctx() {
    let p: Path = "$".parse().unwrap();
    let mut ctx = json(r#"{"a": 1}"#);
    p.write(&mut ctx, json(r#"{"b": 2}"#)).unwrap();
    assert_eq!(ctx, json(r#"{"b": 2}"#));
}

#[test]
fn write_ctx_prefix_is_symmetric() {
    let p: Path = "ctx.a.b".parse().unwrap();
    let mut ctx = json(r#"{}"#);
    p.write(&mut ctx, json(r#"1"#)).unwrap();
    assert_eq!(ctx, json(r#"{"a": {"b": 1}}"#));
}

#[test]
fn write_creates_missing_intermediate_objects() {
    let p: Path = "$.a.b.c".parse().unwrap();
    let mut ctx = json(r#"{}"#);
    p.write(&mut ctx, json(r#"42"#)).unwrap();
    assert_eq!(ctx, json(r#"{"a": {"b": {"c": 42}}}"#));
}

#[test]
fn write_clobber_of_non_object_intermediate_errors_and_leaves_ctx_unchanged() {
    let p: Path = "$.a.b".parse().unwrap();
    let mut ctx = json(r#"{"a": "string"}"#);
    let before = ctx.clone();
    let err = p.write(&mut ctx, json(r#"1"#)).unwrap_err();
    assert!(matches!(err, EvalError::TypeError { .. }), "{err:?}");
    assert_eq!(ctx, before, "ctx must be unchanged after a rejected write");
}

#[test]
fn write_top_level_non_object_ctx_errors_and_leaves_ctx_unchanged() {
    let p: Path = "$.a".parse().unwrap();
    let mut ctx = json(r#""scalar""#);
    let before = ctx.clone();
    let err = p.write(&mut ctx, json(r#"1"#)).unwrap_err();
    assert!(matches!(err, EvalError::TypeError { .. }), "{err:?}");
    assert_eq!(ctx, before);
}

#[test]
fn write_existing_null_intermediate_still_promotes() {
    let p: Path = "$.a.b".parse().unwrap();
    let mut ctx = json(r#"{"a": null}"#);
    p.write(&mut ctx, json(r#"1"#)).unwrap();
    assert_eq!(ctx, json(r#"{"a": {"b": 1}}"#));
}

#[test]
fn parse_errors_name_the_path_and_the_reason() {
    for (text, reason) in [
        ("$foo", "expected '.', '[', or end-of-string right after '$'"),
        ("ctxfoo", "expected '.', '[', or end-of-string right after 'ctx'"),
        (
            "foo.bar",
            "path must start with '$' or 'ctx' followed by '.', '[', or end-of-string",
        ),
        (
            "",
            "path must start with '$' or 'ctx' followed by '.', '[', or end-of-string",
        ),
        ("$.", "trailing '.' with no segment after it"),
        ("$.a.", "empty path segment (leading, trailing, or consecutive '.')"),
        ("$..a", "empty path segment (leading, trailing, or consecutive '.')"),
        ("$.a[\"x\"].", "empty path segment"),
        ("$.a..[\"x\"]", "empty path segment"),
        ("$..a[\"x\"]", "empty path segment"),
        ("$.a[x]", "expected '\"' after '['"),
        ("$.a[", "expected '\"' after '['"),
        ("$.a[\"x", "unterminated bracket segment"),
        ("$.a[\"\"]", "empty bracket key"),
        ("$.a[\"x\"", "missing closing ']' after key"),
        ("$.a[\"x\"b]", "missing closing ']' after key"),
        ("$.a[\"x\"]b", "expected '.' or '[' after bracket segment"),
    ] {
        let e = text.parse::<Path>().unwrap_err();
        assert_eq!(e.path, text);
        assert_eq!(e.reason, reason, "{text}");
        assert_eq!(e.to_string(), format!("invalid path syntax '{text}': {reason}"));
    }
}

#[test]
fn keys_keep_every_character_of_theirs() {
    let p: Path = "$.\u{e9}t\u{e9}[\"a.b[c]\"].[\"d e\"].f\"g".parse().unwrap();
    assert_eq!(
        parts(&p),
        path_dollar(vec!["\u{e9}t\u{e9}", "a.b[c]", "d e", "f\"g"])
    );
    assert_eq!(p.to_string(), "$.\u{e9}t\u{e9}[\"a.b[c]\"].d e.f\"g");
    assert_eq!(p.clone(), p);
}

#[test]
fn a_key_with_a_bracket_and_a_quote_is_parsed_again() {
    for (text, key) in [("$.a]\"b", "a]\"b"), ("$.a\"]", "a\"]"), ("ctx.\"", "\"")] {
        let p: Path = text.parse().unwrap();
        assert_eq!(p.keys(), &vec![key.to_string()]);
        assert_eq!(p.to_string(), text);
        assert_eq!(p.to_string().parse::<Path>().unwrap(), p);
    }
    let p: Path = "$.a]\"b[\"x.y\"].c".parse().unwrap();
    assert_eq!(p.to_string(), "$.a]\"b[\"x.y\"].c");
    assert_eq!(p.to_string().parse::<Path>().unwrap(), p);
    let q: Path = "$.a]b".parse().unwrap();
    assert_eq!(q.to_string(), "$[\"a]b\"]");
    assert_eq!(q.to_string().parse::<Path>().unwrap(), q);
}

#[test]
fn root_tokens_have_their_texts() {
    assert_eq!(Root::Dollar.as_str(), "$");
    assert_eq!(Root::Ctx.as_str(), "ctx");
}

#[test]
fn parts_of_the_parser_work_on_their_own() {
    assert_eq!(strip_root("ctx.a").unwrap(), (Root::Ctx, ".a"));
    assert_eq!(strip_root("$[").unwrap(), (Root::Dollar, "["));
    assert_eq!(strip_root("$").unwrap(), (Root::Dollar, ""));
    assert!(strip_root("ct").is_err());
    assert!(accepts_after_root("") && accepts_after_root(".x") && accepts_after_root("[x"));
    assert!(!accepts_after_root("x"));
    assert_eq!(parse_dot_segments("a.b", "$.a.b").unwrap(), vec!["a", "b"]);
    assert_eq!(parse_dot_segments("a..b", "$.a..b").unwrap_err().path, "$.a..b");
    assert_eq!(
        parse_bracket_segments("a[\"x.y\"].b", "whole").unwrap(),
        vec!["a", "x.y", "b"]
    );
    assert_eq!(parse_bracket_segments("a[", "whole").unwrap_err().path, "whole");
    assert!(is_dot_safe("a\"b") && !is_dot_safe("") && !is_dot_safe("a]") && !is_dot_safe("a.b"));
}

#[test]
fn a_refused_write_says_where_and_what_is_there() {
    let p: Path = "ctx.a.b.c".parse().unwrap();
    let mut ctx = json(r#"{"a": {"b": [1, 2.5, "x\"\n", null]}}"#);
    let before = ctx.clone();
    let e = p.write(&mut ctx, Value::Null).unwrap_err();
    assert_eq!(
        e.to_string(),
        "type error in 'path.write': cannot write path 'ctx.a.b.c' at segment 'c': existing value \
         at this position is not an object (Array [Number(1), Number(2.5), \
         String(\"x\\\"\\n\"), Null])"
    );
    assert_eq!(ctx, before);
}

#[test]
fn a_write_leaves_what_lies_apart() {
    let p: Path = "$.a.x".parse().unwrap();
    let mut ctx = json(r#"{"a": {"y": 1}, "b": [true]}"#);
    p.write(&mut ctx, json("7")).unwrap();
    assert_eq!(ctx, json(r#"{"a": {"x": 7, "y": 1}, "b": [true]}"#));
    p.write(&mut ctx, json("8")).unwrap();
    assert_eq!(p.read(&ctx).unwrap(), &json("8"));
    assert_eq!(ctx, json(r#"{"a": {"x": 8, "y": 1}, "b": [true]}"#));
}

#[test]
fn reading_through_an_array_or_a_scalar_finds_nothing() {
    let ctx = json(r#"{"a": [1], "s": "x"}"#);
    for text in ["$.a.0", "ctx.s.x", "$[\"a.b\"]"] {
        let p: Path = text.parse().unwrap();
        let e = p.read(&ctx).unwrap_err();
        assert_eq!(e.to_string(), format!("path not found: {text}"));
    }
}
