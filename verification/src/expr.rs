//! Expressions and what they evaluate to.

use crate::error::{value_outcome, EvalError, Fault};
use crate::externs::{registry, Externs, NoExterns, Registry};
use crate::float::{
    difference, floor, is_finite, is_neg, mag, product, quotient, rank, spec_difference,
    spec_floor, spec_product, spec_quotient, spec_rank, spec_sum, sum, units, Float, INFINITY,
    SIGN,
};
use crate::path::{read_at, Path, PathView};
use crate::render::{debug, json_debug, number_text, render_number};
use crate::text::{chars_of, rank_text, same_text, text_rank, Rank};
use crate::value::{exact, lemma_views, lemma_views_push, number_bits, views, Json, Number, Value};
use vstd::prelude::*;

verus! {

/// An expression, evaluated against a context.
#[derive(Debug, PartialEq)]
pub enum Expr {
    /// The value at a path of the context.
    Path {
        /// The path.
        at: Path,
    },
    /// A literal.
    Lit {
        /// The literal's value.
        value: Value,
    },
    /// Whether two values are equal. Numbers are compared as doubles, so `5` equals `5.0`, and
    /// integers above two to the power 53 may lose precision.
    Eq {
        /// Left operand.
        lhs: Box<Expr>,
        /// Right operand.
        rhs: Box<Expr>,
    },
    /// Whether two values are not equal.
    Ne {
        /// Left operand.
        lhs: Box<Expr>,
        /// Right operand.
        rhs: Box<Expr>,
    },
    /// `lhs < rhs`, of two numbers or of two strings.
    Lt {
        /// Left operand.
        lhs: Box<Expr>,
        /// Right operand.
        rhs: Box<Expr>,
    },
    /// `lhs <= rhs`.
    Lte {
        /// Left operand.
        lhs: Box<Expr>,
        /// Right operand.
        rhs: Box<Expr>,
    },
    /// `lhs > rhs`.
    Gt {
        /// Left operand.
        lhs: Box<Expr>,
        /// Right operand.
        rhs: Box<Expr>,
    },
    /// `lhs >= rhs`.
    Gte {
        /// Left operand.
        lhs: Box<Expr>,
        /// Right operand.
        rhs: Box<Expr>,
    },
    /// Whether the operand is not truthy.
    Not {
        /// The operand.
        arg: Box<Expr>,
    },
    /// Whether all operands are truthy, as far as it takes to tell.
    And {
        /// The operands.
        args: Vec<Expr>,
    },
    /// Whether some operand is truthy, as far as it takes to tell.
    Or {
        /// The operands.
        args: Vec<Expr>,
    },
    /// Whether the operand has a value that is not null. A path that leads nowhere has none.
    Exists {
        /// The operand.
        arg: Box<Expr>,
    },
    /// `lhs + rhs`. As in all arithmetic, an integer that a double cannot hold fails.
    Add {
        /// Left operand.
        lhs: Box<Expr>,
        /// Right operand.
        rhs: Box<Expr>,
    },
    /// `lhs - rhs`.
    Sub {
        /// Left operand.
        lhs: Box<Expr>,
        /// Right operand.
        rhs: Box<Expr>,
    },
    /// `lhs * rhs`.
    Mul {
        /// Left operand.
        lhs: Box<Expr>,
        /// Right operand.
        rhs: Box<Expr>,
    },
    /// `lhs / rhs`. Division by zero fails.
    Div {
        /// Left operand.
        lhs: Box<Expr>,
        /// Right operand.
        rhs: Box<Expr>,
    },
    /// `lhs` modulo `rhs`: `lhs - floor(lhs / rhs) * rhs`. Modulo zero fails.
    Mod {
        /// Left operand.
        lhs: Box<Expr>,
        /// Right operand.
        rhs: Box<Expr>,
    },
    /// How many items an array, characters a string or members an object has.
    Len {
        /// The operand.
        arg: Box<Expr>,
    },
    /// Whether a value equals some item of an array, in the sense of `Eq`.
    In {
        /// The value.
        needle: Box<Expr>,
        /// The array.
        haystack: Box<Expr>,
    },
    /// What a registered pure function returns.
    CallExtern {
        /// The name it is registered under.
        ref_: String,
        /// The arguments.
        args: Vec<Expr>,
    },
}

/// What an [`Expr`] stands for.
pub enum Term {
    Path(PathView),
    Lit(Json),
    Binary(Binary, Box<Term>, Box<Term>),
    Not(Box<Term>),
    And(Seq<Term>),
    Or(Seq<Term>),
    Exists(Box<Term>),
    Len(Box<Term>),
    Call(Seq<char>, Seq<Term>),
}

/// What is done with two values.
#[derive(Debug, Clone, Copy, PartialEq, Eq, Structural)]
pub enum Binary {
    Equal,
    Unequal,
    Compare(Order),
    Compute(Arith),
    Member,
}

/// Which order relation is asked for.
#[derive(Debug, Clone, Copy, PartialEq, Eq, Structural)]
pub enum Order {
    Lt,
    Lte,
    Gt,
    Gte,
}

/// Which arithmetic operation is asked for.
#[derive(Debug, Clone, Copy, PartialEq, Eq, Structural)]
pub enum Arith {
    Plus,
    Minus,
    Times,
    Over,
    Modulo,
}

/// Whether a value counts as true: all do but `null` and `false`.
pub open spec fn truthy(v: Json) -> bool {
    !(v is Null) && v != Json::Bool(false)
}

/// Equality of values: numbers are equal if the doubles nearest to them are, arrays and
/// objects if their parts are.
pub open spec fn same(a: Json, b: Json) -> bool
    decreases a,
{
    match (a, b) {
        (Json::Num(x), Json::Num(y)) => units(number_bits(x)) == units(number_bits(y)),
        (Json::Arr(x), Json::Arr(y)) => x.len() == y.len() && forall|i: int|
            #![trigger x[i]]
            0 <= i < x.len() ==> same(x[i], y[i]),
        (Json::Obj(x), Json::Obj(y)) => x.dom() == y.dom() && forall|k: Seq<char>|
            #![trigger x[k]]
            x.dom().finite() && x.dom().contains(k) ==> same(x[k], y[k]),
        _ => a == b,
    }
}

/// Equality of arrays.
pub proof fn lemma_same_arrays(x: Seq<Json>, y: Seq<Json>)
    ensures
        same(Json::Arr(x), Json::Arr(y)) <==> x.len() == y.len() && forall|i: int|
            #![trigger x[i]]
            0 <= i < x.len() ==> same(x[i], y[i]),
{
}

/// Equality of objects.
pub proof fn lemma_same_objects(x: Map<Seq<char>, Json>, y: Map<Seq<char>, Json>)
    requires
        x.dom().finite(),
    ensures
        same(Json::Obj(x), Json::Obj(y)) <==> x.dom() == y.dom() && forall|k: Seq<char>|
            #![trigger x[k]]
            x.dom().contains(k) ==> same(x[k], y[k]),
{
}

/// Whether an order relation holds of what compares in a given way.
pub open spec fn ordered_as(o: Order, r: Rank) -> bool {
    match o {
        Order::Lt => r == Rank::Less,
        Order::Lte => r != Rank::Greater,
        Order::Gt => r == Rank::Greater,
        Order::Gte => r != Rank::Less,
    }
}

/// Whether one value comes before another: numbers as doubles, strings by code points.
pub open spec fn compared(a: Json, b: Json, o: Order) -> Result<Json, Fault> {
    match (a, b) {
        (Json::Num(x), Json::Num(y)) => Ok(
            Json::Bool(ordered_as(o, spec_rank(number_bits(x), number_bits(y)))),
        ),
        (Json::Str(x), Json::Str(y)) => Ok(Json::Bool(ordered_as(o, text_rank(x, y)))),
        _ => Err(
            Fault::TypeError {
                op: "cmp"@,
                msg: "cmp: both sides must be numbers or strings, got "@ + json_debug(a) + " vs "@
                    + json_debug(b),
            },
        ),
    }
}

/// The name of an operation in messages.
pub open spec fn arith_name(op: Arith) -> Seq<char> {
    match op {
        Arith::Plus => "add"@,
        Arith::Minus => "sub"@,
        Arith::Times => "mul"@,
        Arith::Over => "div"@,
        Arith::Modulo => "mod"@,
    }
}

/// An operation on doubles. Nothing can be divided by zero.
pub open spec fn applied(op: Arith, a: u64, b: u64) -> Option<u64> {
    match op {
        Arith::Plus => Some(spec_sum(a, b)),
        Arith::Minus => Some(spec_difference(a, b)),
        Arith::Times => Some(spec_product(a, b)),
        Arith::Over => if mag(b) == 0 {
            None
        } else {
            Some(spec_quotient(a, b))
        },
        Arith::Modulo => if mag(b) == 0 {
            None
        } else {
            Some(spec_difference(a, spec_product(spec_floor(spec_quotient(a, b)), b)))
        },
    }
}

/// A value as a double. An integer that a double cannot hold is not one.
pub open spec fn as_double(v: Json, op: Seq<char>) -> Result<u64, Fault> {
    match v {
        Json::Num(n) => if exact(n) {
            Ok(number_bits(n))
        } else {
            Err(
                Fault::ArithError {
                    op,
                    msg: "non-f64-representable number: "@ + number_text(n),
                },
            )
        },
        _ => Err(Fault::TypeError { op, msg: "expected number, got "@ + json_debug(v) }),
    }
}

/// An operation on two values: on the doubles that they are, rounded to a double. The result is
/// never an integer, and has to be finite.
pub open spec fn computed(a: Json, b: Json, op: Arith) -> Result<Json, Fault> {
    let name = arith_name(op);
    match as_double(a, name) {
        Err(f) => Err(f),
        Ok(x) => match as_double(b, name) {
            Err(f) => Err(f),
            Ok(y) => match applied(op, x, y) {
                None => Err(
                    Fault::ArithError {
                        op: name,
                        msg: "arithmetic failure (e.g. division by zero)"@,
                    },
                ),
                Some(z) => if is_finite(z) {
                    Ok(Json::Num(Number::Float(Float::spec_from_bits(z))))
                } else {
                    Err(
                        Fault::ArithError {
                            op: name,
                            msg: "result not f64-representable: "@ + if is_neg(z) {
                                "-inf"@
                            } else {
                                "inf"@
                            },
                        },
                    )
                },
            },
        },
    }
}

/// What is made of two values.
pub open spec fn combined(op: Binary, a: Json, b: Json) -> Result<Json, Fault> {
    match op {
        Binary::Equal => Ok(Json::Bool(same(a, b))),
        Binary::Unequal => Ok(Json::Bool(!same(a, b))),
        Binary::Compare(o) => compared(a, b, o),
        Binary::Compute(o) => computed(a, b, o),
        Binary::Member => match b {
            Json::Arr(items) => Ok(
                Json::Bool(exists|i: int| 0 <= i < items.len() && #[trigger] same(items[i], a)),
            ),
            _ => Err(
                Fault::TypeError {
                    op: "expr.in"@,
                    msg: "in: haystack must be array, got "@ + json_debug(b),
                },
            ),
        },
    }
}

/// The length of a value.
pub open spec fn length(v: Json) -> Result<Json, Fault> {
    match v {
        Json::Arr(items) => Ok(Json::Num(Number::PosInt(items.len() as u64))),
        Json::Str(s) => Ok(Json::Num(Number::PosInt(s.len() as u64))),
        Json::Obj(m) => Ok(Json::Num(Number::PosInt(m.dom().len() as u64))),
        _ => Err(
            Fault::TypeError { op: "expr.len"@, msg: "len: unsupported type "@ + json_debug(v) },
        ),
    }
}

/// Whether there is a value: not null, and not at the end of a path that leads nowhere.
pub open spec fn existing(r: Result<Json, Fault>) -> Result<Json, Fault> {
    match r {
        Ok(v) => Ok(Json::Bool(!(v is Null))),
        Err(Fault::PathNotFound(_)) => Ok(Json::Bool(false)),
        Err(f) => Err(f),
    }
}

/// What an expression evaluates to.
pub open spec fn value_of(t: Term, ctx: Json, reg: Registry) -> Result<Json, Fault>
    decreases t, 0nat,
{
    match t {
        Term::Path(p) => read_at(p, ctx),
        Term::Lit(v) => Ok(v),
        Term::Binary(op, a, b) => match value_of(*a, ctx, reg) {
            Ok(x) => match value_of(*b, ctx, reg) {
                Ok(y) => combined(op, x, y),
                Err(f) => Err(f),
            },
            Err(f) => Err(f),
        },
        Term::Not(a) => match value_of(*a, ctx, reg) {
            Ok(x) => Ok(Json::Bool(!truthy(x))),
            Err(f) => Err(f),
        },
        Term::And(args) => decided(args, false, ctx, reg),
        Term::Or(args) => decided(args, true, ctx, reg),
        Term::Exists(a) => existing(value_of(*a, ctx, reg)),
        Term::Len(a) => match value_of(*a, ctx, reg) {
            Ok(x) => length(x),
            Err(f) => Err(f),
        },
        Term::Call(ref_, args) => match values_of(args, ctx, reg) {
            Ok(vals) => reg(ref_, vals),
            Err(f) => Err(f),
        },
    }
}

/// Whether some operand is as truthy as what decides: the operands are evaluated from the first
/// on, up to one that is. If none is, the opposite is the result.
pub open spec fn decided(args: Seq<Term>, decides: bool, ctx: Json, reg: Registry) -> Result<
    Json,
    Fault,
>
    decreases args, args.len(),
{
    if args.len() == 0 {
        Ok(Json::Bool(!decides))
    } else {
        match value_of(args[0], ctx, reg) {
            Ok(x) => if truthy(x) == decides {
                Ok(Json::Bool(decides))
            } else {
                decided(args.drop_first(), decides, ctx, reg)
            },
            Err(f) => Err(f),
        }
    }
}

/// What each of a sequence of expressions evaluates to, or the first failure.
pub open spec fn values_of(args: Seq<Term>, ctx: Json, reg: Registry) -> Result<Seq<Json>, Fault>
    decreases args, args.len(),
{
    if args.len() == 0 {
        Ok(Seq::empty())
    } else {
        match value_of(args[0], ctx, reg) {
            Ok(x) => match values_of(args.drop_first(), ctx, reg) {
                Ok(rest) => Ok(seq![x] + rest),
                Err(f) => Err(f),
            },
            Err(f) => Err(f),
        }
    }
}

impl Expr {
    /// What the expression stands for.
    pub open spec fn view(&self) -> Term
        decreases *self, 0nat,
    {
        match *self {
            Expr::Path { at } => Term::Path(at@),
            Expr::Lit { value } => Term::Lit(value@),
            Expr::Eq { lhs, rhs } => binary(Binary::Equal, lhs@, rhs@),
            Expr::Ne { lhs, rhs } => binary(Binary::Unequal, lhs@, rhs@),
            Expr::Lt { lhs, rhs } => binary(Binary::Compare(Order::Lt), lhs@, rhs@),
            Expr::Lte { lhs, rhs } => binary(Binary::Compare(Order::Lte), lhs@, rhs@),
            Expr::Gt { lhs, rhs } => binary(Binary::Compare(Order::Gt), lhs@, rhs@),
            Expr::Gte { lhs, rhs } => binary(Binary::Compare(Order::Gte), lhs@, rhs@),
            Expr::Not { arg } => Term::Not(Box::new(arg@)),
            Expr::And { args } => Term::And(terms(args@)),
            Expr::Or { args } => Term::Or(terms(args@)),
            Expr::Exists { arg } => Term::Exists(Box::new(arg@)),
            Expr::Add { lhs, rhs } => binary(Binary::Compute(Arith::Plus), lhs@, rhs@),
            Expr::Sub { lhs, rhs } => binary(Binary::Compute(Arith::Minus), lhs@, rhs@),
            Expr::Mul { lhs, rhs } => binary(Binary::Compute(Arith::Times), lhs@, rhs@),
            Expr::Div { lhs, rhs } => binary(Binary::Compute(Arith::Over), lhs@, rhs@),
            Expr::Mod { lhs, rhs } => binary(Binary::Compute(Arith::Modulo), lhs@, rhs@),
            Expr::Len { arg } => Term::Len(Box::new(arg@)),
            Expr::In { needle, haystack } => binary(Binary::Member, needle@, haystack@),
            Expr::CallExtern { ref_, args } => Term::Call(ref_@, terms(args@)),
        }
    }
}

/// A term with two operands.
pub open spec fn binary(op: Binary, a: Term, b: Term) -> Term {
    Term::Binary(op, Box::new(a), Box::new(b))
}

/// What each of a sequence of expressions stands for.
pub open spec fn terms(s: Seq<Expr>) -> Seq<Term>
    decreases s, s.len(),
{
    if s.len() == 0 {
        Seq::empty()
    } else {
        terms(s.drop_last()).push(s.last()@)
    }
}

/// [`terms`] maps each item, and keeps its place.
pub broadcast proof fn lemma_terms(s: Seq<Expr>)
    ensures
        (#[trigger] terms(s)).len() == s.len(),
        forall|i: int| 0 <= i < s.len() ==> #[trigger] terms(s)[i] == s[i]@,
    decreases s.len(),
{
    if s.len() > 0 {
        lemma_terms(s.drop_last());
    }
}

/// Whether a value counts as true: all do but `null` and `false`.
pub fn is_truthy(v: &Value) -> (r: bool)
    ensures
        r == truthy(v@),
{
    match v {
        Value::Null => false,
        Value::Bool(b) => *b,
        _ => true,
    }
}

/// Equality of values: numbers are equal if the doubles nearest to them are.
pub fn json_eq(a: &Value, b: &Value) -> (r: bool)
    ensures
        r == same(a@, b@),
    decreases a,
{
    match (a, b) {
        (Value::Null, Value::Null) => true,
        (Value::Bool(x), Value::Bool(y)) => *x == *y,
        (Value::Number(x), Value::Number(y)) => rank(x.bits(), y.bits()) == Rank::Equal,
        (Value::String(x), Value::String(y)) => same_text(x.as_str(), y.as_str()),
        (Value::Array(x), Value::Array(y)) => {
            proof {
                lemma_views(x@);
                lemma_views(y@);
                lemma_same_arrays(views(x@), views(y@));
            }
            if x.len() != y.len() {
                return false;
            }
            let mut i: usize = 0;
            while i < x.len()
                invariant
                    *a == Value::Array(*x),
                    *b == Value::Array(*y),
                    i <= x@.len() == y@.len(),
                    views(x@).len() == x@.len(),
                    views(y@).len() == y@.len(),
                    forall|j: int|
                        #![trigger views(x@)[j]]
                        0 <= j < i ==> same(views(x@)[j], views(y@)[j]),
                decreases x@.len() - i,
            {
                proof {
                    lemma_views(x@);
                    lemma_views(y@);
                    assert(decreases_to!(*a => a->Array_0));
                    assert(decreases_to!(*x => x@));
                    assert(decreases_to!(x@ => x@[i as int]));
                }
                if !json_eq(&x[i], &y[i]) {
                    proof {
                        lemma_same_arrays(views(x@), views(y@));
                        assert(!same(views(x@)[i as int], views(y@)[i as int]));
                    }
                    return false;
                }
                i = i + 1;
            }
            true
        },
        (Value::Object(x), Value::Object(y)) => {
            let n = x.len();
            if n != y.len() {
                return false;
            }
            let mut i: usize = 0;
            while i < n
                invariant
                    *a == Value::Object(*x),
                    *b == Value::Object(*y),
                    i <= n == x.members().len(),
                    x@.dom().finite(),
                    forall|j: int|
                        0 <= j < n ==> x@.contains_key(#[trigger] x.members()[j].0@)
                            && x@[x.members()[j].0@] == x.members()[j].1@,
                    forall|j: int|
                        #![trigger x.members()[j]]
                        0 <= j < i ==> y@.contains_key(x.members()[j].0@) && same(
                            x.members()[j].1@,
                            y@[x.members()[j].0@],
                        ),
                decreases n - i,
            {
                let item = x.value_at(i);
                let ghost k = x.members()[i as int].0@;
                match y.get(x.key_at(i).as_str()) {
                    Some(other) => {
                        proof {
                            assert(decreases_to!(*a => a->Object_0));
                            x.lemma_member_decreases(i as int);
                        }
                        if !json_eq(item, other) {
                            proof {
                                lemma_same_objects(x@, y@);
                                assert(x@.dom().contains(k));
                                assert(!same(x@[k], y@[k]));
                            }
                            return false;
                        }
                    },
                    None => {
                        proof {
                            assert(x@.dom().contains(k) && !y@.dom().contains(k));
                        }
                        return false;
                    },
                }
                i = i + 1;
            }
            proof {
                assert forall|k: Seq<char>| x@.contains_key(k) implies y@.contains_key(k)
                    && #[trigger] same(x@[k], y@[k]) by {
                    let j = choose|j: int| 0 <= j < n && #[trigger] x.members()[j].0@ == k;
                    assert(same(x.members()[j].1@, y@[x.members()[j].0@]));
                }
                assert(x@.dom().subset_of(y@.dom())) by {
                    assert forall|k: Seq<char>| x@.dom().contains(k) implies y@.dom().contains(
                        k,
                    ) by {
                        assert(x@.contains_key(k));
                        assert(same(x@[k], y@[k]));
                    }
                }
                vstd::set_lib::lemma_subset_equality(x@.dom(), y@.dom());
                lemma_same_objects(x@, y@);
            }
            true
        },
        _ => false,
    }
}

/// A value as the bits of a double.
fn to_double(v: &Value, op: &str) -> (r: Result<u64, EvalError>)
    ensures
        match as_double(v@, op@) {
            Ok(x) => r == Ok::<u64, EvalError>(x),
            Err(f) => r matches Err(e) && e@ == f,
        },
        r matches Ok(x) ==> is_finite(x),
{
    match v {
        Value::Number(n) => if n.is_exact() {
            Ok(n.bits())
        } else {
            let mut msg = "non-f64-representable number: ".to_owned();
            msg.append(render_number(n).as_str());
            Err(EvalError::ArithError { op: op.to_owned(), msg })
        },
        _ => {
            let mut msg = "expected number, got ".to_owned();
            msg.append(debug(v).as_str());
            Err(EvalError::TypeError { op: op.to_owned(), msg })
        },
    }
}

/// Whether an order relation holds of what compares in a given way.
fn holds(o: Order, r: Rank) -> (b: bool)
    ensures
        b == ordered_as(o, r),
{
    match o {
        Order::Lt => r == Rank::Less,
        Order::Lte => r != Rank::Greater,
        Order::Gt => r == Rank::Greater,
        Order::Gte => r != Rank::Less,
    }
}

/// Whether one value comes before another.
fn compare(lv: &Value, rv: &Value, o: Order) -> (r: Result<Value, EvalError>)
    ensures
        value_outcome(r) == compared(lv@, rv@, o),
{
    match (lv, rv) {
        (Value::Number(x), Value::Number(y)) => Ok(Value::Bool(holds(o, rank(x.bits(), y.bits())))),
        (Value::String(x), Value::String(y)) => Ok(
            Value::Bool(holds(o, rank_text(x.as_str(), y.as_str()))),
        ),
        _ => {
            let mut msg = "cmp: both sides must be numbers or strings, got ".to_owned();
            msg.append(debug(lv).as_str());
            msg.append(" vs ");
            msg.append(debug(rv).as_str());
            Err(EvalError::TypeError { op: "cmp".to_owned(), msg })
        },
    }
}

/// An operation on two finite doubles.
fn apply(op: Arith, a: u64, b: u64) -> (r: Option<u64>)
    requires
        is_finite(a),
        is_finite(b),
    ensures
        r == applied(op, a, b),
        r matches Some(z) ==> mag(z) <= INFINITY,
{
    match op {
        Arith::Plus => Some(sum(a, b)),
        Arith::Minus => Some(difference(a, b)),
        Arith::Times => Some(product(a, b)),
        Arith::Over => if b % SIGN == 0 {
            None
        } else {
            Some(quotient(a, b))
        },
        Arith::Modulo => if b % SIGN == 0 {
            None
        } else {
            Some(difference(a, product(floor(quotient(a, b)), b)))
        },
    }
}

/// The name of an operation in messages.
fn name_of(op: Arith) -> (r: &'static str)
    ensures
        r@ == arith_name(op),
{
    match op {
        Arith::Plus => "add",
        Arith::Minus => "sub",
        Arith::Times => "mul",
        Arith::Over => "div",
        Arith::Modulo => "mod",
    }
}

/// An operation on two values.
fn num_arith(lv: &Value, rv: &Value, op: Arith) -> (r: Result<Value, EvalError>)
    ensures
        value_outcome(r) == computed(lv@, rv@, op),
{
    let name = name_of(op);
    let x = match to_double(lv, name) {
        Ok(x) => x,
        Err(e) => return Err(e),
    };
    let y = match to_double(rv, name) {
        Ok(y) => y,
        Err(e) => return Err(e),
    };
    match apply(op, x, y) {
        None => Err(
            EvalError::ArithError {
                op: name.to_owned(),
                msg: "arithmetic failure (e.g. division by zero)".to_owned(),
            },
        ),
        Some(z) => match Float::from_bits(z) {
            Some(f) => Ok(Value::Number(Number::Float(f))),
            None => {
                let mut msg = "result not f64-representable: ".to_owned();
                if z >= SIGN {
                    msg.append("-inf");
                } else {
                    msg.append("inf");
                }
                Err(EvalError::ArithError { op: name.to_owned(), msg })
            },
        },
    }
}

/// Whether a value equals some item of an array.
fn member(needle: &Value, haystack: &Value) -> (r: Result<Value, EvalError>)
    ensures
        value_outcome(r) == combined(Binary::Member, needle@, haystack@),
{
    match haystack {
        Value::Array(items) => {
            proof {
                lemma_views(items@);
            }
            let mut i: usize = 0;
            while i < items.len()
                invariant
                    *haystack == Value::Array(*items),
                    i <= items@.len() == views(items@).len(),
                    forall|j: int| 0 <= j < i ==> !#[trigger] same(views(items@)[j], needle@),
                decreases items@.len() - i,
            {
                proof {
                    lemma_views(items@);
                }
                if json_eq(&items[i], needle) {
                    proof {
                        assert(same(views(items@)[i as int], needle@));
                    }
                    return Ok(Value::Bool(true));
                }
                i = i + 1;
            }
            Ok(Value::Bool(false))
        },
        _ => {
            let mut msg = "in: haystack must be array, got ".to_owned();
            msg.append(debug(haystack).as_str());
            Err(EvalError::TypeError { op: "expr.in".to_owned(), msg })
        },
    }
}

/// What is made of two values.
fn combine(op: Binary, a: &Value, b: &Value) -> (r: Result<Value, EvalError>)
    ensures
        value_outcome(r) == combined(op, a@, b@),
{
    match op {
        Binary::Equal => Ok(Value::Bool(json_eq(a, b))),
        Binary::Unequal => Ok(Value::Bool(!json_eq(a, b))),
        Binary::Compare(o) => compare(a, b, o),
        Binary::Compute(o) => num_arith(a, b, o),
        Binary::Member => member(a, b),
    }
}

/// The length of a value.
fn measure(v: &Value) -> (r: Result<Value, EvalError>)
    ensures
        value_outcome(r) == length(v@),
{
    let n: usize = match v {
        Value::Array(items) => {
            proof {
                lemma_views(items@);
            }
            items.len()
        },
        Value::String(s) => chars_of(s.as_str()).len(),
        Value::Object(o) => o.len(),
        _ => {
            let mut msg = "len: unsupported type ".to_owned();
            msg.append(debug(v).as_str());
            return Err(EvalError::TypeError { op: "expr.len".to_owned(), msg });
        },
    };
    Ok(Value::Number(Number::PosInt(n as u64)))
}

/// Evaluates an expression without external functions: each call of one fails.
pub fn eval_expr(expr: &Expr, ctx: &Value) -> (r: Result<Value, EvalError>)
    ensures
        value_outcome(r) == value_of(expr@, ctx@, registry(&NoExterns)),
{
    eval_expr_with_externs(expr, ctx, &NoExterns)
}

/// Evaluates an expression against a context.
pub fn eval_expr_with_externs<X: Externs>(expr: &Expr, ctx: &Value, externs: &X) -> (r: Result<
    Value,
    EvalError,
>)
    ensures
        value_outcome(r) == value_of(expr@, ctx@, registry(externs)),
    decreases expr, 1nat,
{
    match expr {
        Expr::Lit { value } => Ok(value.clone()),
        Expr::Path { at } => match at.read(ctx) {
            Ok(v) => Ok(v.clone()),
            Err(e) => Err(e),
        },
        Expr::Eq { lhs, rhs } => eval_binary(Ghost(*expr), Binary::Equal, lhs, rhs, ctx, externs),
        Expr::Ne { lhs, rhs } => eval_binary(Ghost(*expr), Binary::Unequal, lhs, rhs, ctx, externs),
        Expr::Lt { lhs, rhs } => eval_binary(Ghost(*expr), Binary::Compare(Order::Lt), lhs, rhs, ctx, externs),
        Expr::Lte { lhs, rhs } => eval_binary(Ghost(*expr), Binary::Compare(Order::Lte), lhs, rhs, ctx, externs),
        Expr::Gt { lhs, rhs } => eval_binary(Ghost(*expr), Binary::Compare(Order::Gt), lhs, rhs, ctx, externs),
        Expr::Gte { lhs, rhs } => eval_binary(Ghost(*expr), Binary::Compare(Order::Gte), lhs, rhs, ctx, externs),
        Expr::Not { arg } => match eval_expr_with_externs(arg, ctx, externs) {
            Ok(v) => Ok(Value::Bool(!is_truthy(&v))),
            Err(e) => Err(e),
        },
        Expr::And { args } => eval_until(Ghost(*expr), args, false, ctx, externs),
        Expr::Or { args } => eval_until(Ghost(*expr), args, true, ctx, externs),
        Expr::Exists { arg } => match eval_expr_with_externs(arg, ctx, externs) {
            Ok(Value::Null) => Ok(Value::Bool(false)),
            Ok(_) => Ok(Value::Bool(true)),
            Err(EvalError::PathNotFound(_)) => Ok(Value::Bool(false)),
            Err(e) => Err(e),
        },
        Expr::Add { lhs, rhs } => eval_binary(
            Ghost(*expr),
            Binary::Compute(Arith::Plus),
            lhs,
            rhs,
            ctx,
            externs,
        ),
        Expr::Sub { lhs, rhs } => eval_binary(
            Ghost(*expr),
            Binary::Compute(Arith::Minus),
            lhs,
            rhs,
            ctx,
            externs,
        ),
        Expr::Mul { lhs, rhs } => eval_binary(
            Ghost(*expr),
            Binary::Compute(Arith::Times),
            lhs,
            rhs,
            ctx,
            externs,
        ),
        Expr::Div { lhs, rhs } => eval_binary(
            Ghost(*expr),
            Binary::Compute(Arith::Over),
            lhs,
            rhs,
            ctx,
            externs,
        ),
        Expr::Mod { lhs, rhs } => eval_binary(
            Ghost(*expr),
            Binary::Compute(Arith::Modulo),
            lhs,
            rhs,
            ctx,
            externs,
        ),
        Expr::Len { arg } => match eval_expr_with_externs(arg, ctx, externs) {
            Ok(v) => measure(&v),
            Err(e) => Err(e),
        },
        Expr::In { needle, haystack } => eval_binary(
            Ghost(*expr),
            Binary::Member,
            needle,
            haystack,
            ctx,
            externs,
        ),
        Expr::CallExtern { ref_, args } => {
            let mut vals: Vec<Value> = Vec::new();
            proof {
                lemma_terms(args@);
                assert(terms(args@).skip(0) =~= terms(args@));
                if let Ok(rest) = values_of(terms(args@), ctx@, registry(externs)) {
                    assert(views(vals@) + rest =~= rest);
                }
            }
            let mut i: usize = 0;
            while i < args.len()
                invariant
                    *expr == (Expr::CallExtern { ref_: *ref_, args: *args }),
                    i <= args@.len() == terms(args@).len(),
                    prefixed(
                        views(vals@),
                        values_of(terms(args@).skip(i as int), ctx@, registry(externs)),
                    ) == values_of(terms(args@), ctx@, registry(externs)),
                decreases args@.len() - i,
            {
                let ghost rest = terms(args@).skip(i as int);
                proof {
                    lemma_terms(args@);
                    assert(decreases_to!(*expr => expr->CallExtern_args));
                    assert(decreases_to!(*args => args@));
                    assert(decreases_to!(args@ => args@[i as int]));
                    assert(rest.drop_first() =~= terms(args@).skip(i + 1));
                    assert(rest[0] == args@[i as int]@);
                }
                let v = match eval_expr_with_externs(&args[i], ctx, externs) {
                    Ok(v) => v,
                    Err(e) => return Err(e),
                };
                proof {
                    lemma_views_push(vals@, v);
                    if let Ok(more) = values_of(rest.drop_first(), ctx@, registry(externs)) {
                        assert(views(vals@) + (seq![v@] + more) =~= views(vals@).push(v@) + more);
                    }
                }
                vals.push(v);
                i = i + 1;
            }
            proof {
                assert(views(vals@) + Seq::<Json>::empty() =~= views(vals@));
            }
            externs.call(ref_.as_str(), vals.as_slice())
        },
    }
}

/// Values in front of others.
spec fn prefixed(head: Seq<Json>, rest: Result<Seq<Json>, Fault>) -> Result<Seq<Json>, Fault> {
    match rest {
        Ok(vals) => Ok(head + vals),
        Err(f) => Err(f),
    }
}

/// Evaluates two expressions and makes one value of theirs.
fn eval_binary<X: Externs>(
    Ghost(whole): Ghost<Expr>,
    op: Binary,
    lhs: &Expr,
    rhs: &Expr,
    ctx: &Value,
    externs: &X,
) -> (r: Result<Value, EvalError>)
    requires
        decreases_to!(whole => *lhs),
        decreases_to!(whole => *rhs),
    ensures
        value_outcome(r) == value_of(binary(op, lhs@, rhs@), ctx@, registry(externs)),
    decreases whole, 0nat,
{
    let a = match eval_expr_with_externs(lhs, ctx, externs) {
        Ok(a) => a,
        Err(e) => return Err(e),
    };
    let b = match eval_expr_with_externs(rhs, ctx, externs) {
        Ok(b) => b,
        Err(e) => return Err(e),
    };
    combine(op, &a, &b)
}

/// Evaluates expressions up to one that is as truthy as what decides.
fn eval_until<X: Externs>(
    Ghost(whole): Ghost<Expr>,
    args: &Vec<Expr>,
    decides: bool,
    ctx: &Value,
    externs: &X,
) -> (r: Result<Value, EvalError>)
    requires
        decreases_to!(whole => *args),
    ensures
        value_outcome(r) == decided(terms(args@), decides, ctx@, registry(externs)),
    decreases whole, 0nat,
{
    proof {
        lemma_terms(args@);
        assert(terms(args@).skip(0) =~= terms(args@));
    }
    let mut i: usize = 0;
    while i < args.len()
        invariant
            decreases_to!(whole => *args),
            i <= args@.len() == terms(args@).len(),
            decided(terms(args@), decides, ctx@, registry(externs)) == decided(
                terms(args@).skip(i as int),
                decides,
                ctx@,
                registry(externs),
            ),
        decreases args@.len() - i,
    {
        let ghost rest = terms(args@).skip(i as int);
        proof {
            lemma_terms(args@);
            assert(decreases_to!(*args => args@));
            assert(decreases_to!(args@ => args@[i as int]));
            assert(rest.drop_first() =~= terms(args@).skip(i + 1));
            assert(rest[0] == args@[i as int]@);
        }
        match eval_expr_with_externs(&args[i], ctx, externs) {
            Ok(v) => {
                if is_truthy(&v) == decides {
                    return Ok(Value::Bool(decides));
                }
            },
            Err(e) => return Err(e),
        }
        i = i + 1;
    }
    Ok(Value::Bool(!decides))
}

impl Clone for Expr {
    fn clone(&self) -> (r: Self)
        ensures
            r@ == self@,
        decreases self, 1nat,
    {
        match self {
            Expr::Path { at } => Expr::Path { at: at.clone() },
            Expr::Lit { value } => Expr::Lit { value: value.clone() },
            Expr::Eq { lhs, rhs } => Expr::Eq {
                lhs: Box::new((**lhs).clone()),
                rhs: Box::new((**rhs).clone()),
            },
            Expr::Ne { lhs, rhs } => Expr::Ne {
                lhs: Box::new((**lhs).clone()),
                rhs: Box::new((**rhs).clone()),
            },
            Expr::Lt { lhs, rhs } => Expr::Lt {
                lhs: Box::new((**lhs).clone()),
                rhs: Box::new((**rhs).clone()),
            },
            Expr::Lte { lhs, rhs } => Expr::Lte {
                lhs: Box::new((**lhs).clone()),
                rhs: Box::new((**rhs).clone()),
            },
            Expr::Gt { lhs, rhs } => Expr::Gt {
                lhs: Box::new((**lhs).clone()),
                rhs: Box::new((**rhs).clone()),
            },
            Expr::Gte { lhs, rhs } => Expr::Gte {
                lhs: Box::new((**lhs).clone()),
                rhs: Box::new((**rhs).clone()),
            },
            Expr::Add { lhs, rhs } => Expr::Add {
                lhs: Box::new((**lhs).clone()),
                rhs: Box::new((**rhs).clone()),
            },
            Expr::Sub { lhs, rhs } => Expr::Sub {
                lhs: Box::new((**lhs).clone()),
                rhs: Box::new((**rhs).clone()),
            },
            Expr::Mul { lhs, rhs } => Expr::Mul {
                lhs: Box::new((**lhs).clone()),
                rhs: Box::new((**rhs).clone()),
            },
            Expr::Div { lhs, rhs } => Expr::Div {
                lhs: Box::new((**lhs).clone()),
                rhs: Box::new((**rhs).clone()),
            },
            Expr::Mod { lhs, rhs } => Expr::Mod {
                lhs: Box::new((**lhs).clone()),
                rhs: Box::new((**rhs).clone()),
            },
            Expr::Not { arg } => Expr::Not { arg: Box::new((**arg).clone()) },
            Expr::And { args } => Expr::And { args: clone_all(Ghost(*self), args) },
            Expr::Or { args } => Expr::Or { args: clone_all(Ghost(*self), args) },
            Expr::Exists { arg } => Expr::Exists { arg: Box::new((**arg).clone()) },
            Expr::Len { arg } => Expr::Len { arg: Box::new((**arg).clone()) },
            Expr::In { needle, haystack } => Expr::In {
                needle: Box::new((**needle).clone()),
                haystack: Box::new((**haystack).clone()),
            },
            Expr::CallExtern { ref_, args } => Expr::CallExtern {
                ref_: ref_.clone(),
                args: clone_all(Ghost(*self), args),
            },
        }
    }
}

/// Clones expressions.
fn clone_all(Ghost(whole): Ghost<Expr>, args: &Vec<Expr>) -> (r: Vec<Expr>)
    requires
        decreases_to!(whole => *args),
    ensures
        terms(r@) == terms(args@),
    decreases whole, 0nat,
{
    let mut out: Vec<Expr> = Vec::new();
    proof {
        assert(terms(out@) =~= terms(args@).take(0));
    }
    let mut i: usize = 0;
    while i < args.len()
        invariant
            decreases_to!(whole => *args),
            i <= args@.len(),
            terms(out@) == terms(args@).take(i as int),
        decreases args@.len() - i,
    {
        proof {
            lemma_terms(args@);
            assert(decreases_to!(*args => args@));
            assert(decreases_to!(args@ => args@[i as int]));
        }
        let item = args[i].clone();
        proof {
            assert(out@.push(item).drop_last() =~= out@);
            assert(terms(args@).take(i + 1) =~= terms(args@).take(i as int).push(item@));
        }
        out.push(item);
        i = i + 1;
    }
    proof {
        lemma_terms(args@);
        assert(terms(args@).take(i as int) =~= terms(args@));
    }
    out
}

} // verus!
