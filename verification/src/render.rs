//! Values as JSON text, and the texts that error messages show of them.

use crate::decimal::{decimal, decimal_doubled, decimal_quintupled, digits, five};
use crate::float::{exponent, is_finite, is_neg, mag, significand, split, two};
use crate::text::chars_of;
use crate::value::{lemma_views, sorted_keys, views, Json, Number, Value};
use serde::Deserialize;
use vstd::prelude::*;

verus! {

/// A finite double as an exact decimal number with an exponent.
pub open spec fn float_text(bits: u64) -> Seq<char> {
    let m = significand(mag(bits));
    let k = exponent(mag(bits));
    let sign = if is_neg(bits) {
        "-"@
    } else {
        ""@
    };
    if k >= 1074 {
        sign + digits(m * two((k - 1074) as nat)) + "e0"@
    } else {
        sign + digits(m * five((1074 - k) as nat)) + "e-"@ + digits((1074 - k) as nat)
    }
}

/// A number as JSON text.
pub open spec fn number_text(n: Number) -> Seq<char> {
    match n {
        Number::PosInt(i) => digits(i as nat),
        Number::NegInt(i) => if i < 0 {
            "-"@ + digits((-i) as nat)
        } else {
            digits(i as nat)
        },
        Number::Float(f) => float_text(f.spec_bits()),
    }
}

/// The character for a hexadecimal digit.
pub open spec fn hex_digit(d: nat) -> char {
    if d < 10 {
        (48 + d) as u8 as char
    } else {
        (87 + d) as u8 as char
    }
}

/// A character inside a JSON string.
pub open spec fn escape(c: char) -> Seq<char> {
    if c == '"' {
        "\\\""@
    } else if c == '\\' {
        "\\\\"@
    } else if (c as u32) < 32 {
        "\\u00"@.push(hex_digit(((c as u32) / 16) as nat)).push(hex_digit(((c as u32) % 16) as nat))
    } else {
        seq![c]
    }
}

/// The characters of a text inside a JSON string.
pub open spec fn escaped(s: Seq<char>) -> Seq<char>
    decreases s.len(),
{
    if s.len() == 0 {
        Seq::empty()
    } else {
        escaped(s.drop_last()) + escape(s.last())
    }
}

/// A text as a JSON string.
pub open spec fn quoted(s: Seq<char>) -> Seq<char> {
    "\""@ + escaped(s) + "\""@
}

/// The items of an array as JSON text, with commas between them.
pub open spec fn items_text(s: Seq<Json>) -> Seq<char>
    decreases s, s.len(),
{
    if s.len() == 0 {
        Seq::empty()
    } else if s.len() == 1 {
        json_text(s.last())
    } else {
        items_text(s.drop_last()) + ","@ + json_text(s.last())
    }
}

/// The members of an object under the given keys as JSON text, with commas between them.
pub open spec fn members_text(m: Map<Seq<char>, Json>, keys: Seq<Seq<char>>) -> Seq<char>
    decreases m, keys.len(),
{
    if keys.len() == 0 || !m.dom().finite() || !m.dom().contains(keys.last()) {
        Seq::empty()
    } else if keys.len() == 1 {
        quoted(keys.last()) + ":"@ + json_text(m[keys.last()])
    } else {
        members_text(m, keys.drop_last()) + ","@ + quoted(keys.last()) + ":"@ + json_text(
            m[keys.last()],
        )
    }
}

/// A value as JSON text, the members of an object in key order.
pub open spec fn json_text(v: Json) -> Seq<char>
    decreases v, 0nat,
{
    match v {
        Json::Null => "null"@,
        Json::Bool(true) => "true"@,
        Json::Bool(false) => "false"@,
        Json::Num(n) => number_text(n),
        Json::Str(s) => quoted(s),
        Json::Arr(s) => "["@ + items_text(s) + "]"@,
        Json::Obj(m) => "{"@ + members_text(m, sorted_keys(m)) + "}"@,
    }
}

/// A finite double as JSON text.
fn render_float(bits: u64) -> (r: String)
    requires
        is_finite(bits),
    ensures
        r@ == float_text(bits),
{
    let (neg, m, k) = split(bits);
    let mut r = if neg {
        "-".to_owned()
    } else {
        "".to_owned()
    };
    if k >= 1074 {
        r.append(decimal_doubled(m, (k - 1074) as u64).as_str());
        r.append("e0");
    } else {
        let d = (1074 - k) as u64;
        r.append(decimal_quintupled(m, d).as_str());
        r.append("e-");
        r.append(decimal(d).as_str());
    }
    r
}

/// A number as JSON text.
pub fn render_number(n: &Number) -> (r: String)
    ensures
        r@ == number_text(*n),
{
    match n {
        Number::PosInt(i) => decimal(*i),
        Number::NegInt(i) => if *i < 0 {
            let mut r = "-".to_owned();
            r.append(decimal((-(*i as i128)) as u64).as_str());
            r
        } else {
            decimal(*i as u64)
        },
        Number::Float(f) => render_float(f.bits()),
    }
}

/// The character for a hexadecimal digit.
fn render_hex(d: u8) -> (r: char)
    requires
        d < 16,
    ensures
        r == hex_digit(d as nat),
{
    if d < 10 {
        (48 + d) as char
    } else {
        (87 + d) as char
    }
}

/// A text as a JSON string.
fn render_text(s: &str) -> (r: String)
    ensures
        r@ == quoted(s@),
{
    let mut r = "\"".to_owned();
    let chars = chars_of(s);
    proof {
        assert(s@.take(0) =~= Seq::<char>::empty());
        assert(r@ =~= "\""@ + escaped(s@.take(0)));
    }
    let mut i: usize = 0;
    while i < chars.len()
        invariant
            chars@ == s@,
            i <= s@.len(),
            r@ == "\""@ + escaped(s@.take(i as int)),
        decreases s@.len() - i,
    {
        let c = chars[i];
        let ghost before = r@;
        if c == '"' {
            r.append("\\\"");
        } else if c == '\\' {
            r.append("\\\\");
        } else if (c as u32) < 32 {
            r.append("\\u00");
            r.push(render_hex(((c as u32) / 16) as u8));
            r.push(render_hex(((c as u32) % 16) as u8));
        } else {
            r.push(c);
        }
        proof {
            assert(r@ =~= before + escape(c));
            assert(s@.take(i + 1).drop_last() =~= s@.take(i as int));
            assert(r@ =~= "\""@ + escaped(s@.take(i + 1)));
        }
        i = i + 1;
    }
    proof {
        assert(s@.take(s@.len() as int) =~= s@);
    }
    r.append("\"");
    r
}

/// A value as JSON text, the members of an object in key order.
pub fn render(v: &Value) -> (r: String)
    ensures
        r@ == json_text(v@),
    decreases v,
{
    match v {
        Value::Null => "null".to_owned(),
        Value::Bool(b) => if *b {
            "true".to_owned()
        } else {
            "false".to_owned()
        },
        Value::Number(n) => render_number(n),
        Value::String(s) => render_text(s.as_str()),
        Value::Array(items) => {
            let mut r = "[".to_owned();
            proof {
                lemma_views(items@);
                assert(r@ =~= "["@ + items_text(views(items@).take(0)));
            }
            let mut i: usize = 0;
            while i < items.len()
                invariant
                    *v == Value::Array(*items),
                    i <= items@.len(),
                    r@ == "["@ + items_text(views(items@).take(i as int)),
                decreases items@.len() - i,
            {
                proof {
                    lemma_views(items@);
                    assert(decreases_to!(*v => v->Array_0));
                    assert(decreases_to!(*items => items@));
                    assert(decreases_to!(items@ => items@[i as int]));
                }
                let ghost before = views(items@).take(i as int);
                let ghost after = views(items@).take(i + 1);
                let text = render(&items[i]);
                if i > 0 {
                    r.append(",");
                }
                r.append(text.as_str());
                proof {
                    assert(after.drop_last() =~= before);
                    assert(after.last() == items@[i as int]@);
                    assert(r@ =~= "["@ + items_text(after));
                }
                i = i + 1;
            }
            proof {
                lemma_views(items@);
                assert(views(items@).take(items@.len() as int) =~= views(items@));
            }
            r.append("]");
            r
        },
        Value::Object(o) => {
            let mut r = "{".to_owned();
            let n = o.len();
            let ghost keys = o.keys();
            proof {
                assert(r@ =~= "{"@ + members_text(o@, keys.take(0)));
            }
            let mut i: usize = 0;
            while i < n
                invariant
                    *v == Value::Object(*o),
                    i <= n,
                    n == o.members().len(),
                    keys == o.keys(),
                    o@.dom().finite(),
                    forall|j: int|
                        0 <= j < n ==> o@.contains_key(#[trigger] o.members()[j].0@)
                            && o@[o.members()[j].0@] == o.members()[j].1@,
                    r@ == "{"@ + members_text(o@, keys.take(i as int)),
                decreases n - i,
            {
                let ghost before = keys.take(i as int);
                let ghost after = keys.take(i + 1);
                let item = o.value_at(i);
                proof {
                    assert(decreases_to!(*v => v->Object_0));
                    o.lemma_member_decreases(i as int);
                }
                let text = render(item);
                if i > 0 {
                    r.append(",");
                }
                r.append(render_text(o.key_at(i).as_str()).as_str());
                r.append(":");
                r.append(text.as_str());
                proof {
                    assert(after.drop_last() =~= before);
                    assert(after.last() == o.members()[i as int].0@);
                    assert(o@.dom().contains(after.last()));
                    assert(r@ =~= "{"@ + members_text(o@, after));
                }
                i = i + 1;
            }
            proof {
                assert(keys.take(n as int) =~= keys);
            }
            r.append("}");
            r
        },
    }
}

/// What `Debug` of `serde_json::Value` writes for the value that `serde_json` parses from a
/// text, or the text of its error where it parses none.
pub uninterp spec fn debug_of_text(text: Seq<char>) -> Seq<char>;

/// What `Display` of `serde_json::Value` writes for the value that `serde_json` parses from a
/// text, or the text of its error where it parses none.
pub uninterp spec fn display_of_text(text: Seq<char>) -> Seq<char>;

/// What `Debug` shows of a value.
pub open spec fn json_debug(v: Json) -> Seq<char> {
    debug_of_text(json_text(v))
}

/// What `Display` shows of a value.
pub open spec fn json_display(v: Json) -> Seq<char> {
    display_of_text(json_text(v))
}

/// `Debug` of `serde_json::Value`, on the value that `Deserialize` of it reads from a text
/// through `serde_json::Deserializer` without a limit on depth. The contract claims that the
/// result depends on the text alone, and names it.
#[verifier::external_body]
fn debug_text(text: &str) -> (r: String)
    ensures
        r@ == debug_of_text(text@),
{
    let mut parser = serde_json::Deserializer::from_str(text);
    parser.disable_recursion_limit();
    match serde_json::Value::deserialize(&mut parser) {
        Ok(v) => format!("{:?}", v),
        Err(e) => e.to_string(),
    }
}

/// `Display` of `serde_json::Value`, on the value that `Deserialize` of it reads from a text
/// through `serde_json::Deserializer` without a limit on depth. The contract claims that the
/// result depends on the text alone, and names it.
#[verifier::external_body]
fn display_text(text: &str) -> (r: String)
    ensures
        r@ == display_of_text(text@),
{
    let mut parser = serde_json::Deserializer::from_str(text);
    parser.disable_recursion_limit();
    match serde_json::Value::deserialize(&mut parser) {
        Ok(v) => format!("{}", v),
        Err(e) => e.to_string(),
    }
}

/// What `Debug` shows of a value.
pub fn debug(v: &Value) -> (r: String)
    ensures
        r@ == json_debug(v@),
{
    debug_text(render(v).as_str())
}

/// What `Display` shows of a value.
pub fn display(v: &Value) -> (r: String)
    ensures
        r@ == json_display(v@),
{
    display_text(render(v).as_str())
}

} // verus!
