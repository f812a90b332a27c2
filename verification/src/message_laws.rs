//! What holds of values as text and of messages.

use crate::bridge::{script_message, ScriptFault};
use crate::decimal::{digit, digits, five};
use crate::error::{fault_text, unit_outcome, value_outcome, EvalError, Fault};
use crate::expr::{arith_name, combined, compared, computed, length, Arith, Binary, Order, Term};
use crate::float::{
    abs, exponent, is_finite, is_neg, lemma_two_adds, mag, significand, two, units,
};
use crate::node::{target, JoinMode, Tree};
use crate::path::{
    clash, parse_path, read_at, read_keys, shown, shown_key, shown_keys, token, write_at,
    PathView, Root,
};
use crate::path_laws::{law_path_write_then_read, lemma_literals};
use crate::render::{
    escape, escaped, float_text, hex_digit, items_text, json_debug, json_display, json_text,
    members_text, number_text, quoted,
};
use crate::semantics::{items_fault, may_join, Host};
use crate::storage::{read_text, write_text, CtxStorage, MemoryCtx};
use crate::text::{text_rank, Rank};
use crate::text_laws::{law_rank_is_lexicographic, precedes};
use crate::value::{exact, increasing, lemma_sorted_keys, lemma_views, Json, Number, Object, Value};
use vstd::arithmetic::power::pow;
use vstd::prelude::*;

verus! {

/// The number that decimal digits are read as.
pub open spec fn reading(s: Seq<char>) -> int
    decreases s.len(),
{
    if s.len() == 0 {
        0
    } else {
        10 * reading(s.drop_last()) + (s.last() as int - 48)
    }
}

/// Whether a text is made of decimal digits.
pub open spec fn all_decimal(s: Seq<char>) -> bool {
    s.len() > 0 && forall|i: int| 0 <= i < s.len() ==> 48 <= #[trigger] s[i] as int <= 57
}

/// The decimal digits of a number are read as that number, and do not start with a zero unless the
/// number is zero.
pub proof fn law_digits_read_back(n: nat)
    ensures
        all_decimal(digits(n)),
        reading(digits(n)) == n,
        n > 0 ==> digits(n)[0] != '0',
        n == 0 ==> digits(n) == seq!['0'],
    decreases n,
{
    let s = digits(n);
    if n < 10 {
        assert(s.drop_last() =~= Seq::<char>::empty());
        assert(s.last() == digit(n));
        assert(digit(n) as int == 48 + n);
        assert(reading(s.drop_last()) == 0);
        if n == 0 {
            assert(digit(0) == '0');
            assert(s =~= seq!['0']);
        }
    } else {
        law_digits_read_back(n / 10);
        let t = digits(n / 10);
        let d = digit(n % 10);
        assert(d as int == 48 + n % 10);
        assert(s.drop_last() =~= t);
        assert(s.last() == d);
        assert(s[0] == t[0]);
        assert forall|i: int| 0 <= i < s.len() implies 48 <= #[trigger] s[i] as int <= 57 by {
            if i < t.len() {
                assert(s[i] == t[i]);
            }
        }
    }
}

/// An integer as text is read as that integer.
pub proof fn law_integers_read_back(n: Number)
    ensures
        n matches Number::PosInt(i) ==> all_decimal(number_text(n)) && reading(number_text(n)) == i,
        n matches Number::NegInt(i) ==> (i >= 0 ==> all_decimal(number_text(n)) && reading(
            number_text(n),
        ) == i),
        n matches Number::NegInt(i) ==> (i < 0 ==> number_text(n).len() > 1 && number_text(n)[0]
            == '-' && all_decimal(number_text(n).skip(1)) && reading(number_text(n).skip(1)) == -i),
{
    reveal_strlit("-");
    match n {
        Number::PosInt(i) => law_digits_read_back(i as nat),
        Number::NegInt(i) => {
            law_digits_read_back(abs(i as int));
            if i < 0 {
                assert(number_text(n).skip(1) =~= digits((-i) as nat));
            }
        },
        Number::Float(_) => {},
    }
}

proof fn lemma_tens(n: nat)
    ensures
        five(n) * two(n) == pow(10, n),
    decreases n,
{
    if n == 0 {
        vstd::arithmetic::power::lemma_pow0(10);
        assert(five(0) * two(0) == 1) by (nonlinear_arith)
            requires
                five(0) == 1,
                two(0) == 1,
        ;
    } else {
        let j = (n - 1) as nat;
        lemma_tens(j);
        vstd::arithmetic::power::lemma_pow_adds(10, 1, j);
        vstd::arithmetic::power::lemma_pow1(10);
        assert((5 * five(j)) * (2 * two(j)) == 10 * (five(j) * two(j))) by (nonlinear_arith);
    }
}

/// A double as text is its exact value: whole digits and a power of ten that they are divided by.
pub proof fn law_doubles_read_back(bits: u64) -> (r: (nat, nat))
    requires
        is_finite(bits),
    ensures
        ({
            let sign = if is_neg(bits) {
                "-"@
            } else {
                ""@
            };
            let (m, e) = r;
            &&& abs(units(bits)) * pow(10, e) == m * two(1074)
            &&& float_text(bits) == sign + digits(m) + if e == 0 {
                "e0"@
            } else {
                "e-"@ + digits(e)
            }
        }),
{
    let n = significand(mag(bits));
    let k = exponent(mag(bits));
    let u = abs(units(bits));
    assert(u == n * two(k));
    if k >= 1074 {
        let d = (k - 1074) as nat;
        lemma_two_adds(d, 1074);
        vstd::arithmetic::power::lemma_pow0(10);
        let m = n * two(d);
        assert(u * 1 == m * two(1074)) by (nonlinear_arith)
            requires
                u == n * two(k),
                two(k) == two(d) * two(1074),
                m == n * two(d),
        ;
        (m, 0)
    } else {
        let e = (1074 - k) as nat;
        lemma_two_adds(k, e);
        lemma_tens(e);
        let m = n * five(e);
        assert(u * pow(10, e) == m * two(1074)) by (nonlinear_arith)
            requires
                u == n * two(k),
                two(1074) == two(k) * two(e),
                five(e) * two(e) == pow(10, e),
                m == n * five(e),
        ;
        let sign = if is_neg(bits) {
            "-"@
        } else {
            ""@
        };
        assert(float_text(bits) =~= sign + digits(m) + ("e-"@ + digits(e)));
        (m, e)
    }
}

/// The value of a hexadecimal digit.
pub open spec fn hex_value(c: char) -> int {
    if (c as int) < 58 {
        c as int - 48
    } else {
        c as int - 87
    }
}

/// Inside a JSON string a character stands for itself, but for quotes, backslashes and control
/// characters, which are escaped.
pub proof fn law_characters_in_strings(c: char)
    ensures
        c != '"' && c != '\\' && (c as int) >= 32 ==> escape(c) == seq![c],
        c == '"' ==> escape(c) == seq!['\\', '"'],
        c == '\\' ==> escape(c) == seq!['\\', '\\'],
        (c as int) < 32 ==> escape(c).len() == 6 && escape(c).take(4) == seq!['\\', 'u', '0', '0']
            && 16 * hex_value(escape(c)[4]) + hex_value(escape(c)[5]) == c as int,
{
    reveal_strlit("\\\"");
    reveal_strlit("\\\\");
    reveal_strlit("\\u00");
    if c == '"' {
        assert(escape(c) =~= seq!['\\', '"']);
    } else if c == '\\' {
        assert(escape(c) =~= seq!['\\', '\\']);
    } else if (c as int) < 32 {
        assert(escape(c).take(4) =~= seq!['\\', 'u', '0', '0']);
        let (a, b) = (((c as u32) / 16) as nat, ((c as u32) % 16) as nat);
        assert(hex_value(hex_digit(a)) == a);
        assert(hex_value(hex_digit(b)) == b);
    }
}

/// A string is its characters one after the other, between quotes.
pub proof fn law_strings_as_text(s: Seq<char>, c: char)
    ensures
        quoted(s) == seq!['"'] + escaped(s) + seq!['"'],
        escaped(s.push(c)) == escaped(s) + escape(c),
        escaped(Seq::empty()) == Seq::<char>::empty(),
        json_text(Json::Str(s)) == quoted(s),
{
    reveal_strlit("\"");
    assert("\""@ =~= seq!['"']);
    assert(s.push(c).drop_last() =~= s);
}

/// An array is its items between brackets, with a comma before each but the first.
pub proof fn law_arrays_as_text(s: Seq<Json>, v: Json)
    ensures
        json_text(Json::Arr(s)) == seq!['['] + items_text(s) + seq![']'],
        items_text(Seq::empty()) == Seq::<char>::empty(),
        items_text(s.push(v)) == if s.len() == 0 {
            json_text(v)
        } else {
            items_text(s) + seq![','] + json_text(v)
        },
{
    reveal_strlit("[");
    reveal_strlit("]");
    reveal_strlit(",");
    assert("["@ =~= seq!['[']);
    assert("]"@ =~= seq![']']);
    assert(","@ =~= seq![',']);
    assert(s.push(v).drop_last() =~= s);
    assert(s.push(v).last() == v);
}

/// An object is its members between braces, in the order of their keys, with a comma before each
/// but the first and a colon between key and value.
pub proof fn law_objects_as_text(m: Map<Seq<char>, Json>, keys: Seq<Seq<char>>)
    requires
        m.dom().finite(),
        increasing(keys),
        forall|k: Seq<char>| keys.contains(k) <==> m.contains_key(k),
    ensures
        json_text(Json::Obj(m)) == seq!['{'] + members_text(m, keys) + seq!['}'],
        members_text(m, Seq::empty()) == Seq::<char>::empty(),
        forall|n: int|
            0 <= n < keys.len() ==> members_text(m, #[trigger] keys.take(n + 1)) == members_text(
                m,
                keys.take(n),
            ) + (if n == 0 {
                Seq::<char>::empty()
            } else {
                seq![',']
            }) + quoted(keys[n]) + seq![':'] + json_text(m[keys[n]]),
{
    reveal_strlit("{");
    reveal_strlit("}");
    reveal_strlit(",");
    reveal_strlit(":");
    assert("{"@ =~= seq!['{']);
    assert("}"@ =~= seq!['}']);
    assert(","@ =~= seq![',']);
    assert(":"@ =~= seq![':']);
    lemma_sorted_keys(m, keys);
    assert forall|n: int| 0 <= n < keys.len() implies members_text(m, #[trigger] keys.take(n + 1))
        == members_text(m, keys.take(n)) + (if n == 0 {
        Seq::<char>::empty()
    } else {
        seq![',']
    }) + quoted(keys[n]) + seq![':'] + json_text(m[keys[n]]) by {
        let t = keys.take(n + 1);
        assert(t.drop_last() =~= keys.take(n));
        assert(t.last() == keys[n]);
        assert(keys.contains(keys[n]));
        assert(m.dom().contains(keys[n]));
        let head = members_text(m, keys.take(n));
        let tail = quoted(keys[n]) + seq![':'] + json_text(m[keys[n]]);
        if n == 0 {
            assert(keys.take(0) =~= Seq::<Seq<char>>::empty());
            assert(members_text(m, t) =~= head + Seq::<char>::empty() + quoted(keys[n])
                + seq![':'] + json_text(m[keys[n]]));
        } else {
            assert(members_text(m, t) =~= head + seq![','] + quoted(keys[n]) + seq![':']
                + json_text(m[keys[n]]));
        }
    }
}

/// Keys are in order where each comes before all that follow it.
pub proof fn law_keys_are_in_order(s: Seq<Seq<char>>)
    ensures
        increasing(s) <==> forall|i: int, j: int|
            0 <= i < j < s.len() ==> precedes(#[trigger] s[i], #[trigger] s[j]),
{
    assert forall|i: int, j: int| 0 <= i < j < s.len() implies (text_rank(
        #[trigger] s[i],
        #[trigger] s[j],
    ) == Rank::Less <==> precedes(s[i], s[j])) by {
        law_rank_is_lexicographic(s[i], s[j]);
    }
}

/// The other kinds of values as text.
pub proof fn law_words_as_text(b: bool, n: Number)
    ensures
        json_text(Json::Null) == "null"@,
        json_text(Json::Bool(b)) == if b {
            "true"@
        } else {
            "false"@
        },
        json_text(Json::Num(n)) == number_text(n),
        n matches Number::Float(f) ==> number_text(n) == float_text(f.spec_bits()),
{
}

/// The message of each kind of fault.
pub proof fn law_messages(f: Fault)
    ensures
        match f {
            Fault::PathNotFound(p) => fault_text(f) == "path not found: "@ + p,
            Fault::InvalidPath(w) => fault_text(f) == "invalid path syntax: "@ + w,
            Fault::NonBoolCond(v) => fault_text(f) == "branch cond must be boolean, got: "@
                + json_display(v),
            Fault::TypeError { op, msg } => fault_text(f) == "type error in '"@ + op + "': "@ + msg,
            Fault::ArithError { op, msg } => fault_text(f) == "arithmetic error in '"@ + op + "': "@
                + msg,
            Fault::DispatcherError { ref_, msg } => fault_text(f) == "dispatcher error for ref '"@
                + ref_ + "': "@ + msg,
            Fault::ExternError { ref_, msg } => fault_text(f) == "extern error for ref '"@ + ref_
                + "': "@ + msg,
        },
{
}

/// The messages of scripts that are called in place of other functions.
pub proof fn law_script_messages(text: String)
    ensures
        script_message(ScriptFault::Missing) == "not registered in externs (or not a function)"@,
        script_message(ScriptFault::ToValue(text)) == "to_value: "@ + text@,
        script_message(ScriptFault::Call(text)) == "lua call: "@ + text@,
        script_message(ScriptFault::FromValue(text)) == "from_value: "@ + text@,
{
}

/// The faults of operators tell the operation and what they were given.
pub proof fn law_operator_faults(a: Json, b: Json, op: Arith, o: Order)
    ensures
        !(a is Num) ==> computed(a, b, op) == Err::<Json, Fault>(
            Fault::TypeError { op: arith_name(op), msg: "expected number, got "@ + json_debug(a) },
        ),
        (a matches Json::Num(n) && exact(n)) && !(b is Num) ==> computed(a, b, op) == Err::<
            Json,
            Fault,
        >(Fault::TypeError { op: arith_name(op), msg: "expected number, got "@ + json_debug(b) }),
        !(a is Num && b is Num) && !(a is Str && b is Str) ==> compared(a, b, o) == Err::<
            Json,
            Fault,
        >(
            Fault::TypeError {
                op: "cmp"@,
                msg: "cmp: both sides must be numbers or strings, got "@ + json_debug(a) + " vs "@
                    + json_debug(b),
            },
        ),
        !(b is Arr) ==> combined(Binary::Member, a, b) == Err::<Json, Fault>(
            Fault::TypeError {
                op: "expr.in"@,
                msg: "in: haystack must be array, got "@ + json_debug(b),
            },
        ),
        !(a is Arr) && !(a is Str) && !(a is Obj) ==> length(a) == Err::<Json, Fault>(
            Fault::TypeError { op: "expr.len"@, msg: "len: unsupported type "@ + json_debug(a) },
        ),
        arith_name(Arith::Plus) == "add"@,
        arith_name(Arith::Minus) == "sub"@,
        arith_name(Arith::Times) == "mul"@,
        arith_name(Arith::Over) == "div"@,
        arith_name(Arith::Modulo) == "mod"@,
{
}

/// The faults of paths name the path as it is shown.
pub proof fn law_path_faults(p: PathView, s: Seq<char>, ctx: Json, v: Json)
    ensures
        read_keys(ctx, p.keys) is None ==> read_at(p, ctx) == Err::<Json, Fault>(
            Fault::PathNotFound(shown(p)),
        ),
        clash(ctx, p.keys) matches Some((key, found)) ==> write_at(p, ctx, v) == Err::<Json, Fault>(
            Fault::TypeError {
                op: "path.write"@,
                msg: "cannot write path '"@ + shown(p) + "' at segment '"@ + key
                    + "': existing value at this position is not an object ("@ + json_debug(found)
                    + ")"@,
            },
        ),
        parse_path(s) matches Err(reason) ==> read_text(s, ctx) == Err::<Json, Fault>(
            Fault::InvalidPath("invalid path syntax '"@ + s + "': "@ + reason),
        ) && write_text(s, ctx, v) == Err::<Json, Fault>(
            Fault::InvalidPath("invalid path syntax '"@ + s + "': "@ + reason),
        ),
        parse_path(s) matches Ok(q) ==> read_text(s, ctx) == read_at(q, ctx) && write_text(
            s,
            ctx,
            v,
        ) == write_at(q, ctx, v),
{
}

/// The canonical form of a path is its root token and its keys one after the other: behind a dot
/// where the key has neither a dot nor a bracket in it, or has a quote, and else in brackets and
/// quotes.
pub proof fn law_canonical_form(root: Root, keys: Seq<Seq<char>>, k: Seq<char>)
    requires
        k.len() > 0,
    ensures
        shown(PathView { root: Root::Dollar, keys: Seq::empty() }) == seq!['$'],
        shown(PathView { root: Root::Ctx, keys: Seq::empty() }) == seq!['c', 't', 'x'],
        ({
            let bare = !k.contains('.') && !k.contains('[') && !k.contains(']');
            shown(PathView { root, keys: keys.push(k) }) == shown(PathView { root, keys }) + if bare
                || k.contains('"') {
                seq!['.'] + k
            } else {
                seq!['[', '"'] + k + seq!['"', ']']
            }
        }),
{
    lemma_literals();
    let none = Seq::<Seq<char>>::empty();
    assert(shown_keys(none) =~= Seq::<char>::empty());
    assert(shown(PathView { root: Root::Dollar, keys: none }) =~= seq!['$']);
    assert(shown(PathView { root: Root::Ctx, keys: none }) =~= seq!['c', 't', 'x']);
    assert(keys.push(k).drop_last() =~= keys);
    let seg = shown_key(k);
    assert(shown_keys(keys.push(k)) == shown_keys(keys) + seg);
    assert(shown(PathView { root, keys: keys.push(k) }) =~= token(root) + shown_keys(keys) + seg);
}

/// A context in memory shows what it is, becomes what it is replaced with, and reads what has been
/// written.
pub proof fn law_memory_keeps_its_context(
    s: Json,
    v: Json,
    post: Json,
    path: Seq<char>,
    r: Result<(), Fault>,
)
    ensures
        MemoryCtx::shows(s, v) <==> v == s,
        MemoryCtx::becomes(s, v, post) <==> post == v,
        MemoryCtx::takes(s, path, v, r, post) && r is Ok ==> MemoryCtx::finds(post, path, Ok(v)),
        MemoryCtx::takes(s, path, v, r, post) && r is Err ==> post == s,
        parse_path(path) is Err ==> !MemoryCtx::takes(s, path, v, Ok(()), post),
{
    if let Ok(p) = parse_path(path) {
        law_path_write_then_read(p, s, v);
    }
}

/// A value stands for what it holds, an array for its items in their places, and a result for its
/// value or its error.
pub proof fn law_values_stand_for_what_they_hold(
    b: bool,
    n: Number,
    s: String,
    items: Vec<Value>,
    o: Object,
    v: Value,
    e: EvalError,
)
    ensures
        Value::Null@ == Json::Null,
        Value::Bool(b)@ == Json::Bool(b),
        Value::Number(n)@ == Json::Num(n),
        Value::String(s)@ == Json::Str(s@),
        Value::Object(o)@ == Json::Obj(o@),
        Value::Array(items)@ matches Json::Arr(js) && js.len() == items@.len() && forall|i: int|
            0 <= i < items@.len() ==> #[trigger] js[i] == items@[i]@,
        value_outcome(Ok(v)) == Ok::<Json, Fault>(v@),
        value_outcome(Err(e)) == Err::<Json, Fault>(e@),
        unit_outcome(Ok(())) == Ok::<(), Fault>(()),
        unit_outcome(Err(e)) == Err::<(), Fault>(e@),
{
    lemma_views(items@);
}

/// An error stands for what it says.
pub proof fn law_errors_stand_for_what_they_say(a: String, b: String, v: Value)
    ensures
        EvalError::PathNotFound(a)@ == Fault::PathNotFound(a@),
        EvalError::InvalidPath(a)@ == Fault::InvalidPath(a@),
        EvalError::NonBoolCond(v)@ == Fault::NonBoolCond(v@),
        (EvalError::TypeError { op: a, msg: b })@ == (Fault::TypeError { op: a@, msg: b@ }),
        (EvalError::ArithError { op: a, msg: b })@ == (Fault::ArithError { op: a@, msg: b@ }),
        (EvalError::DispatcherError { ref_: a, msg: b })@ == (Fault::DispatcherError {
            ref_: a@,
            msg: b@,
        }),
        (EvalError::ExternError { ref_: a, msg: b })@ == (Fault::ExternError { ref_: a@, msg: b@ }),
{
}

/// A fanout over something else than an array tells what it was given.
pub proof fn law_items_faults(v: Json)
    ensures
        items_fault(v) == (Fault::TypeError {
            op: "fanout.items"@,
            msg: "expected array, got "@ + json_debug(v),
        }),
        target(Term::Lit(v)) == Err::<PathView, Fault>(
            Fault::InvalidPath("expected Path expr for write target"@),
        ),
{
}

/// A fanout without items tells how it would have joined them, where it needs one.
pub proof fn law_empty_fanout_faults(
    bind: Term,
    body: Tree,
    h: Host<Json>,
    snap: Json,
    joined: Result<Json, Fault>,
)
    ensures
        may_join(JoinMode::Any, bind, body, h, snap, Seq::empty(), joined) <==> joined == Err::<
            Json,
            Fault,
        >(Fault::TypeError { op: "fanout.any"@, msg: "requires at least one item"@ }),
        may_join(JoinMode::Race, bind, body, h, snap, Seq::empty(), joined) <==> joined == Err::<
            Json,
            Fault,
        >(Fault::TypeError { op: "fanout.race"@, msg: "requires at least one item"@ }),
        may_join(JoinMode::All, bind, body, h, snap, Seq::empty(), joined) <==> joined == Ok::<
            Json,
            Fault,
        >(Json::Arr(Seq::empty())),
        may_join(JoinMode::AllSettled, bind, body, h, snap, Seq::empty(), joined) <==> joined
            == Ok::<Json, Fault>(Json::Arr(Seq::empty())),
{
}

} // verus!
