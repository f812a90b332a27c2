//! Typed context paths.
//!
//! A path is parsed once and then names a place inside a context: a root token followed by
//! the keys that lead from the context to the place.
//!
//! # Syntax
//!
//! Every path starts with a root token, `$` or `ctx`, followed by `.`, `[` or the end of the
//! string. Both tokens are accepted wherever a path is, and neither changes what the path
//! names; the canonical form of a path keeps the token that it was written with.
//!
//! - `$`, `ctx`: the whole context.
//! - `$.a.b`, `ctx.a.b`: keys separated by dots.
//! - `$.a["p.md"]`, `ctx["x.y"].z`: a key in brackets and double quotes may hold dots and
//!   brackets, but no double quote. There are no escapes.
//!
//! Arrays have no indices.
//!
//! # Rejections
//!
//! - anything that does not start with a root token followed by `.`, `[` or the end of the
//!   string, such as `$foo`, `ctxfoo` or `foo.bar`;
//! - an empty segment, such as in `$.`, `$.a.` and `$.a..b`;
//! - a bracket that is not closed, that lacks a quote or whose key is empty, and a key that
//!   follows a bracket without a dot between them.

use crate::error::{EvalError, Fault};
use crate::render::{debug, json_debug};
use crate::text::{chars_of, text_of};
use crate::value::{Json, Object, Value};
use vstd::prelude::*;
use vstd::string::StrSliceExecFns;

verus! {

/// The root token of a path.
#[derive(Debug, Clone, Copy, PartialEq, Eq, Hash, Structural)]
pub enum Root {
    /// `$`, the usual token where a path is read.
    Dollar,
    /// `ctx`, the usual token where a path is written.
    Ctx,
}

/// How a root token is written.
pub open spec fn token(root: Root) -> Seq<char> {
    match root {
        Root::Dollar => "$"@,
        Root::Ctx => "ctx"@,
    }
}

impl Root {
    /// How the root token is written.
    pub fn as_str(self) -> (r: &'static str)
        ensures
            r@ == token(self),
    {
        match self {
            Root::Dollar => "$",
            Root::Ctx => "ctx",
        }
    }
}

/// A parsed context path.
///
/// The only way to make one is to parse it, so no value of this type is malformed.
#[derive(Debug, PartialEq, Eq, Hash)]
pub struct Path {
    root: Root,
    keys: Vec<String>,
}

/// What a [`Path`] stands for.
pub struct PathView {
    /// The root token.
    pub root: Root,
    /// The keys that lead from the context to the place.
    pub keys: Seq<Seq<char>>,
}

/// What parsing can make a key: it is not empty, and it was written either in quotes, so it
/// has no quote in it, or between dots, so it has neither a dot nor an opening bracket in it.
pub open spec fn possible_key(k: Seq<char>) -> bool {
    &&& k.len() > 0
    &&& !k.contains('"') || (!k.contains('.') && !k.contains('['))
}

/// Whether parsing can make a path.
pub open spec fn possible(p: PathView) -> bool {
    forall|i: int| 0 <= i < p.keys.len() ==> possible_key(#[trigger] p.keys[i])
}

/// What each of a sequence of strings stands for.
pub open spec fn texts(s: Seq<String>) -> Seq<Seq<char>> {
    Seq::new(s.len(), |i: int| s[i]@)
}

impl Path {
    /// What the path stands for.
    pub closed spec fn view(&self) -> PathView {
        PathView { root: self.root, keys: texts(self.keys@) }
    }

    #[verifier::type_invariant]
    spec fn inv(self) -> bool {
        possible(self@)
    }
}

/// A path could not be parsed.
#[derive(Debug, Clone, PartialEq, Eq)]
pub struct PathParseError {
    /// The text that is not a path.
    pub path: String,
    /// Why it is not.
    pub reason: String,
}

/// The message of a [`PathParseError`].
pub open spec fn parse_error_text(path: Seq<char>, reason: Seq<char>) -> Seq<char> {
    "invalid path syntax '"@ + path + "': "@ + reason
}

impl PathParseError {
    /// An error on the given text for the given reason.
    pub fn new(path: &str, reason: &str) -> (r: Self)
        ensures
            r.path@ == path@,
            r.reason@ == reason@,
    {
        PathParseError { path: path.to_owned(), reason: reason.to_owned() }
    }

    /// The message of the error.
    pub fn to_string(&self) -> (r: String)
        ensures
            r@ == parse_error_text(self.path@, self.reason@),
    {
        let mut r = "invalid path syntax '".to_owned();
        r.append(self.path.as_str());
        r.append("': ");
        r.append(self.reason.as_str());
        r
    }
}

/// Whether a text starts with another.
pub open spec fn starts(s: Seq<char>, head: Seq<char>) -> bool {
    s.len() >= head.len() && s.take(head.len() as int) == head
}

/// Whether a text may follow a root token.
pub open spec fn after_root(rest: Seq<char>) -> bool {
    rest.len() == 0 || rest[0] == '.' || rest[0] == '['
}

/// The root token of a path and the text after it, or the reason why there is none.
pub open spec fn root_of(s: Seq<char>) -> Result<(Root, Seq<char>), Seq<char>> {
    if starts(s, "ctx"@) {
        if after_root(s.skip(3)) {
            Ok((Root::Ctx, s.skip(3)))
        } else {
            Err("expected '.', '[', or end-of-string right after 'ctx'"@)
        }
    } else if starts(s, "$"@) {
        if after_root(s.skip(1)) {
            Ok((Root::Dollar, s.skip(1)))
        } else {
            Err("expected '.', '[', or end-of-string right after '$'"@)
        }
    } else {
        Err("path must start with '$' or 'ctx' followed by '.', '[', or end-of-string"@)
    }
}

/// How many characters of a text come before the first of the two given ones.
pub open spec fn run(s: Seq<char>, c: char, d: char) -> nat
    decreases s.len(),
{
    if s.len() == 0 || s[0] == c || s[0] == d {
        0
    } else {
        1 + run(s.drop_first(), c, d)
    }
}

/// What [`run`] counts.
pub proof fn lemma_run(s: Seq<char>, c: char, d: char)
    ensures
        run(s, c, d) <= s.len(),
        run(s, c, d) < s.len() ==> s[run(s, c, d) as int] == c || s[run(s, c, d) as int] == d,
        forall|i: int| 0 <= i < run(s, c, d) ==> #[trigger] s[i] != c && s[i] != d,
    decreases s.len(),
{
    if s.len() > 0 && s[0] != c && s[0] != d {
        let t = s.drop_first();
        lemma_run(t, c, d);
        assert forall|i: int| 0 <= i < run(s, c, d) implies #[trigger] s[i] != c && s[i] != d by {
            if i > 0 {
                assert(t[i - 1] == s[i]);
            }
        }
    }
}

/// [`run`] is where the first of the two characters stands.
pub proof fn lemma_run_is(s: Seq<char>, c: char, d: char, n: int)
    requires
        0 <= n <= s.len(),
        n < s.len() ==> s[n] == c || s[n] == d,
        forall|i: int| 0 <= i < n ==> #[trigger] s[i] != c && s[i] != d,
    ensures
        run(s, c, d) == n,
{
    lemma_run(s, c, d);
    let m = run(s, c, d) as int;
    if m < n {
        assert(s[m] != c && s[m] != d);
    }
}

/// The parts of a text between its dots.
pub open spec fn parts(s: Seq<char>) -> Seq<Seq<char>>
    decreases s.len(),
{
    let n = run(s, '.', '.');
    if n >= s.len() {
        seq![s]
    } else {
        seq![s.take(n as int)] + parts(s.skip(n as int + 1))
    }
}

/// The keys of a path without brackets, after its root token and the dot.
pub open spec fn dot_keys(body: Seq<char>) -> Result<Seq<Seq<char>>, Seq<char>> {
    if exists|i: int| 0 <= i < parts(body).len() && (#[trigger] parts(body)[i]).len() == 0 {
        Err("empty path segment (leading, trailing, or consecutive '.')"@)
    } else {
        Ok(parts(body))
    }
}

/// A key in front of others.
pub open spec fn with_key(
    k: Seq<char>,
    rest: Result<Seq<Seq<char>>, Seq<char>>,
) -> Result<Seq<Seq<char>>, Seq<char>> {
    match rest {
        Ok(keys) => Ok(seq![k] + keys),
        Err(reason) => Err(reason),
    }
}

/// The keys of the rest of a path with brackets. At the start of a segment a key has to
/// follow.
pub open spec fn bracket_keys(s: Seq<char>, start: bool) -> Result<Seq<Seq<char>>, Seq<char>>
    decreases s.len(),
{
    if s.len() == 0 {
        if start {
            Err("empty path segment"@)
        } else {
            Ok(Seq::empty())
        }
    } else if s[0] == '[' {
        let n = run(s.skip(2), '"', '"');
        if s.len() < 2 || s[1] != '"' {
            Err("expected '\"' after '['"@)
        } else if n + 2 >= s.len() {
            Err("unterminated bracket segment"@)
        } else if n == 0 {
            Err("empty bracket key"@)
        } else if n + 3 >= s.len() || s[n as int + 3] != ']' {
            Err("missing closing ']' after key"@)
        } else if !after_root(s.skip(n as int + 4)) {
            Err("expected '.' or '[' after bracket segment"@)
        } else {
            with_key(s.subrange(2, n as int + 2), bracket_keys(s.skip(n as int + 4), false))
        }
    } else if s[0] == '.' {
        if start || s.len() == 1 {
            Err("empty path segment"@)
        } else {
            bracket_keys(s.skip(1), true)
        }
    } else {
        let n = run(s, '.', '[');
        proof {
            lemma_run(s, '.', '[');
        }
        with_key(s.take(n as int), bracket_keys(s.skip(n as int), false))
    }
}

/// The keys of a path after its root token.
pub open spec fn keys_of(rest: Seq<char>) -> Result<Seq<Seq<char>>, Seq<char>> {
    if rest.len() == 0 {
        Ok(Seq::empty())
    } else if rest[0] == '.' && rest.len() == 1 {
        Err("trailing '.' with no segment after it"@)
    } else {
        let body = if rest[0] == '.' {
            rest.skip(1)
        } else {
            rest
        };
        if body.contains('[') {
            bracket_keys(body, true)
        } else {
            dot_keys(body)
        }
    }
}

/// The path that a text stands for, or the reason why it stands for none.
pub open spec fn parse_path(s: Seq<char>) -> Result<PathView, Seq<char>> {
    match root_of(s) {
        Ok((root, rest)) => match keys_of(rest) {
            Ok(keys) => Ok(PathView { root, keys }),
            Err(reason) => Err(reason),
        },
        Err(reason) => Err(reason),
    }
}

/// Whether a key can stand between dots: it is not empty and has no dot and no bracket.
pub open spec fn dot_safe(k: Seq<char>) -> bool {
    k.len() > 0 && !k.contains('.') && !k.contains('[') && !k.contains(']')
}

/// Whether a key is shown between dots: it can stand there, or it has a quote in it and so cannot
/// stand in quotes.
pub open spec fn dotted(k: Seq<char>) -> bool {
    dot_safe(k) || k.contains('"')
}

/// A key as a path shows it.
pub open spec fn shown_key(k: Seq<char>) -> Seq<char> {
    if dotted(k) {
        "."@ + k
    } else {
        "[\""@ + k + "\"]"@
    }
}

/// Keys as a path shows them.
pub open spec fn shown_keys(keys: Seq<Seq<char>>) -> Seq<char>
    decreases keys.len(),
{
    if keys.len() == 0 {
        Seq::empty()
    } else {
        shown_keys(keys.drop_last()) + shown_key(keys.last())
    }
}

/// The canonical form of a path.
pub open spec fn shown(p: PathView) -> Seq<char> {
    token(p.root) + shown_keys(p.keys)
}

/// The value that keys lead to, if there is one.
pub open spec fn read_keys(ctx: Json, keys: Seq<Seq<char>>) -> Option<Json>
    decreases keys.len(),
{
    if keys.len() == 0 {
        Some(ctx)
    } else {
        match ctx {
            Json::Obj(m) => if m.contains_key(keys[0]) {
                read_keys(m[keys[0]], keys.drop_first())
            } else {
                None
            },
            _ => None,
        }
    }
}

/// What stands in the way of writing where keys lead to: the key that cannot be followed and
/// the value that has no place for it. What is missing or null is not in the way.
pub open spec fn clash(ctx: Json, keys: Seq<Seq<char>>) -> Option<(Seq<char>, Json)>
    decreases keys.len(),
{
    if keys.len() == 0 {
        None
    } else {
        match ctx {
            Json::Null => None,
            Json::Obj(m) => if m.contains_key(keys[0]) {
                clash(m[keys[0]], keys.drop_first())
            } else {
                None
            },
            _ => Some((keys[0], ctx)),
        }
    }
}

/// The context with a value set where keys lead to. What is missing or null on the way
/// becomes an object.
pub open spec fn put(ctx: Json, keys: Seq<Seq<char>>, value: Json) -> Json
    decreases keys.len(),
{
    if keys.len() == 0 {
        value
    } else {
        let m = members_of(ctx);
        let below = if m.contains_key(keys[0]) {
            m[keys[0]]
        } else {
            Json::Null
        };
        Json::Obj(m.insert(keys[0], put(below, keys.drop_first(), value)))
    }
}

/// The members of an object; null has none.
pub open spec fn members_of(v: Json) -> Map<Seq<char>, Json> {
    match v {
        Json::Obj(m) => m,
        _ => Map::empty(),
    }
}

/// What reading a path gives.
pub open spec fn read_at(p: PathView, ctx: Json) -> Result<Json, Fault> {
    match read_keys(ctx, p.keys) {
        Some(v) => Ok(v),
        None => Err(Fault::PathNotFound(shown(p))),
    }
}

/// What writing a path gives: the new context, or the error.
pub open spec fn write_at(p: PathView, ctx: Json, value: Json) -> Result<Json, Fault> {
    match clash(ctx, p.keys) {
        None => Ok(put(ctx, p.keys, value)),
        Some((key, found)) => Err(
            Fault::TypeError {
                op: "path.write"@,
                msg: "cannot write path '"@ + shown(p) + "' at segment '"@ + key
                    + "': existing value at this position is not an object ("@ + json_debug(found)
                    + ")"@,
            },
        ),
    }
}

/// Whether parsing a text failed for a reason.
pub open spec fn refused(e: PathParseError, path: Seq<char>, reason: Seq<char>) -> bool {
    e.path@ == path && e.reason@ == reason
}

/// The root token at the head of a path, and the text after it.
pub fn strip_root(path: &str) -> (r: Result<(Root, &str), PathParseError>)
    ensures
        match root_of(path@) {
            Ok((root, rest)) => r matches Ok(x) && x.0 == root && x.1@ == rest,
            Err(reason) => r matches Err(e) && refused(e, path@, reason),
        },
{
    let chars = chars_of(path);
    let n = chars.len();
    proof {
        reveal_strlit("ctx");
        reveal_strlit("$");
        if path@.len() >= 3 {
            assert(path@.take(3) == "ctx"@ <==> path@[0] == 'c' && path@[1] == 't' && path@[2]
                == 'x') by {
                assert(path@.take(3) =~= seq![path@[0], path@[1], path@[2]]);
                assert("ctx"@ =~= seq!['c', 't', 'x']);
                assert(seq![path@[0], path@[1], path@[2]][1] == path@[1]);
                assert(seq!['c', 't', 'x'][1] == 't');
            }
            assert(path@.skip(3) =~= path@.subrange(3, path@.len() as int));
        }
        if path@.len() >= 1 {
            assert(path@.take(1) == "$"@ <==> path@[0] == '$') by {
                assert(path@.take(1) =~= seq![path@[0]]);
                assert("$"@ =~= seq!['$']);
                assert(path@.take(1)[0] == path@[0]);
                assert("$"@[0] == '$');
            }
            assert(path@.skip(1) =~= path@.subrange(1, path@.len() as int));
        }
    }
    if n >= 3 && chars[0] == 'c' && chars[1] == 't' && chars[2] == 'x' {
        let rest = path.substring_char(3, n);
        if !accepts_after_root(rest) {
            return Err(
                PathParseError::new(path, "expected '.', '[', or end-of-string right after 'ctx'"),
            );
        }
        return Ok((Root::Ctx, rest));
    }
    if n >= 1 && chars[0] == '$' {
        let rest = path.substring_char(1, n);
        if !accepts_after_root(rest) {
            return Err(
                PathParseError::new(path, "expected '.', '[', or end-of-string right after '$'"),
            );
        }
        return Ok((Root::Dollar, rest));
    }
    Err(
        PathParseError::new(
            path,
            "path must start with '$' or 'ctx' followed by '.', '[', or end-of-string",
        ),
    )
}

/// Whether a text may follow a root token: it is empty or starts with `.` or `[`.
pub fn accepts_after_root(rest: &str) -> (r: bool)
    ensures
        r == after_root(rest@),
{
    let chars = chars_of(rest);
    chars.len() == 0 || chars[0] == '.' || chars[0] == '['
}

/// Where the first of two characters stands from a place on, or the end.
fn scan(chars: &Vec<char>, from: usize, c: char, d: char) -> (r: usize)
    requires
        from <= chars@.len(),
    ensures
        r == from + run(chars@.skip(from as int), c, d),
        from <= r <= chars@.len(),
{
    let mut i: usize = from;
    while i < chars.len() && chars[i] != c && chars[i] != d
        invariant
            from <= i <= chars@.len(),
            forall|j: int| from <= j < i ==> #[trigger] chars@[j] != c && chars@[j] != d,
        decreases chars@.len() - i,
    {
        i = i + 1;
    }
    proof {
        let s = chars@.skip(from as int);
        assert forall|j: int| 0 <= j < i - from implies #[trigger] s[j] != c && s[j] != d by {
            assert(chars@[from + j] != c);
        }
        lemma_run_is(s, c, d, i - from);
    }
    i
}

proof fn lemma_texts_push(s: Seq<String>, x: String)
    ensures
        texts(s.push(x)) == texts(s).push(x@),
{
    assert(texts(s.push(x)) =~= texts(s).push(x@));
}

/// The keys of a path without brackets, after its root token and the dot.
pub fn parse_dot_segments(body: &str, path: &str) -> (r: Result<Vec<String>, PathParseError>)
    ensures
        match dot_keys(body@) {
            Ok(keys) => r matches Ok(x) && texts(x@) == keys,
            Err(reason) => r matches Err(e) && refused(e, path@, reason),
        },
{
    let chars = chars_of(body);
    let mut segments: Vec<String> = Vec::new();
    let mut i: usize = 0;
    proof {
        assert(body@.skip(0) =~= body@);
        assert(texts(segments@) + parts(body@) =~= parts(body@));
    }
    loop
        invariant
            chars@ == body@,
            i <= body@.len(),
            parts(body@) == texts(segments@) + parts(body@.skip(i as int)),
            forall|j: int| 0 <= j < segments@.len() ==> (#[trigger] segments@[j])@.len() > 0,
        decreases body@.len() - i,
    {
        let j = scan(&chars, i, '.', '.');
        let ghost rest = body@.skip(i as int);
        let ghost at = segments@.len() as int;
        let part = text_of(&chars, i, j);
        proof {
            lemma_run(rest, '.', '.');
            let n = run(rest, '.', '.') as int;
            assert(part@ =~= rest.take(n));
            assert(rest.take(rest.len() as int) =~= rest);
            assert(parts(rest)[0] == part@);
            assert(parts(body@)[at] == part@);
            lemma_texts_push(segments@, part);
        }
        if i == j {
            return Err(
                PathParseError::new(
                    path,
                    "empty path segment (leading, trailing, or consecutive '.')",
                ),
            );
        }
        let ghost before = segments@;
        segments.push(part);
        if j == chars.len() {
            proof {
                assert(parts(body@) =~= texts(segments@));
            }
            return Ok(segments);
        }
        proof {
            assert(rest.skip(j - i + 1) =~= body@.skip(j + 1));
            assert(parts(body@) =~= texts(segments@) + parts(body@.skip(j + 1)));
        }
        i = j + 1;
    }
}

/// Keys in front of others.
spec fn with_keys(
    head: Seq<Seq<char>>,
    rest: Result<Seq<Seq<char>>, Seq<char>>,
) -> Result<Seq<Seq<char>>, Seq<char>> {
    match rest {
        Ok(keys) => Ok(head + keys),
        Err(reason) => Err(reason),
    }
}

proof fn lemma_with_keys(
    head: Seq<Seq<char>>,
    k: Seq<char>,
    rest: Result<Seq<Seq<char>>, Seq<char>>,
)
    ensures
        with_keys(head, with_key(k, rest)) == with_keys(head.push(k), rest),
{
    if let Ok(keys) = rest {
        assert(head + (seq![k] + keys) =~= head.push(k) + keys);
    }
}

/// The keys of a path with brackets, after its root token and the dot that may follow it.
pub fn parse_bracket_segments(body: &str, path: &str) -> (r: Result<
    Vec<String>,
    PathParseError,
>)
    ensures
        match bracket_keys(body@, true) {
            Ok(keys) => r matches Ok(x) && texts(x@) == keys,
            Err(reason) => r matches Err(e) && refused(e, path@, reason),
        },
{
    let chars = chars_of(body);
    let len = chars.len();
    let mut segments: Vec<String> = Vec::new();
    let mut i: usize = 0;
    let mut start = true;
    proof {
        assert(body@.skip(0) =~= body@);
        if let Ok(keys) = bracket_keys(body@, true) {
            assert(texts(segments@) + keys =~= keys);
        }
    }
    while i < len
        invariant
            chars@ == body@,
            len == body@.len(),
            i <= len,
            bracket_keys(body@, true) == with_keys(
                texts(segments@),
                bracket_keys(body@.skip(i as int), start),
            ),
        decreases len - i,
    {
        let ghost s = body@.skip(i as int);
        let c = chars[i];
        assert(c == s[0]);
        if c == '[' {
            if i + 1 >= len || chars[i + 1] != '"' {
                return Err(PathParseError::new(path, "expected '\"' after '['"));
            }
            let j = scan(&chars, i + 2, '"', '"');
            let ghost n = run(s.skip(2), '"', '"') as int;
            proof {
                assert(s.skip(2) =~= body@.skip(i + 2));
                lemma_run(s.skip(2), '"', '"');
            }
            if j >= len {
                return Err(PathParseError::new(path, "unterminated bracket segment"));
            }
            if j == i + 2 {
                return Err(PathParseError::new(path, "empty bracket key"));
            }
            if j + 1 >= len || chars[j + 1] != ']' {
                return Err(PathParseError::new(path, "missing closing ']' after key"));
            }
            let name = text_of(&chars, i + 2, j);
            proof {
                assert(name@ =~= s.subrange(2, n + 2));
                assert(s.skip(n + 4) =~= body@.skip(j + 2));
                lemma_texts_push(segments@, name);
                lemma_with_keys(texts(segments@), name@, bracket_keys(s.skip(n + 4), false));
            }
            i = j + 2;
            if i < len && chars[i] != '.' && chars[i] != '[' {
                return Err(
                    PathParseError::new(path, "expected '.' or '[' after bracket segment"),
                );
            }
            segments.push(name);
            start = false;
        } else if c == '.' {
            if start || i + 1 >= len {
                return Err(PathParseError::new(path, "empty path segment"));
            }
            proof {
                assert(s.skip(1) =~= body@.skip(i + 1));
            }
            i = i + 1;
            start = true;
        } else {
            let j = scan(&chars, i, '.', '[');
            let name = text_of(&chars, i, j);
            proof {
                let n = run(s, '.', '[') as int;
                lemma_run(s, '.', '[');
                assert(name@ =~= s.take(n));
                assert(s.skip(n) =~= body@.skip(j as int));
                lemma_texts_push(segments@, name);
                lemma_with_keys(texts(segments@), name@, bracket_keys(s.skip(n), false));
            }
            segments.push(name);
            i = j;
            start = false;
        }
    }
    proof {
        assert(texts(segments@) + Seq::<Seq<char>>::empty() =~= texts(segments@));
    }
    if start {
        return Err(PathParseError::new(path, "empty path segment"));
    }
    Ok(segments)
}

/// What stands between dots has no dot in it.
proof fn lemma_parts_possible(s: Seq<char>)
    requires
        !s.contains('['),
    ensures
        forall|i: int|
            0 <= i < parts(s).len() && parts(s)[i].len() > 0 ==> possible_key(
                #[trigger] parts(s)[i],
            ),
    decreases s.len(),
{
    let n = run(s, '.', '.') as int;
    lemma_run(s, '.', '.');
    let head = s.take(n);
    assert(!head.contains('.') && !head.contains('[')) by {
        assert(forall|i: int| 0 <= i < n ==> head[i] == #[trigger] s[i]);
        if head.contains('[') {
            let i = choose|i: int| 0 <= i < head.len() && head[i] == '[';
            assert(s[i] == '[');
        }
        if head.contains('.') {
            let i = choose|i: int| 0 <= i < head.len() && head[i] == '.';
            assert(s[i] == '.');
        }
    }
    if n < s.len() {
        let t = s.skip(n + 1);
        assert(!t.contains('[')) by {
            if t.contains('[') {
                let i = choose|i: int| 0 <= i < t.len() && t[i] == '[';
                assert(s[n + 1 + i] == '[');
            }
        }
        lemma_parts_possible(t);
        assert forall|i: int| 0 <= i < parts(s).len() && parts(s)[i].len() > 0 implies possible_key(
            #[trigger] parts(s)[i],
        ) by {
            if i > 0 {
                assert(parts(s)[i] == parts(t)[i - 1]);
            }
        }
    } else {
        assert(head =~= s);
    }
}

/// The keys between dots and in brackets are possible keys.
proof fn lemma_bracket_possible(s: Seq<char>, start: bool)
    ensures
        bracket_keys(s, start) matches Ok(keys) ==> forall|i: int|
            0 <= i < keys.len() ==> possible_key(#[trigger] keys[i]),
    decreases s.len(),
{
    if s.len() == 0 {
    } else if s[0] == '[' {
        let n = run(s.skip(2), '"', '"') as int;
        lemma_run(s.skip(2), '"', '"');
        if s.len() > n + 3 {
            let k = s.subrange(2, n + 2);
            assert(!k.contains('"')) by {
                if k.contains('"') {
                    let i = choose|i: int| 0 <= i < k.len() && k[i] == '"';
                    assert(s.skip(2)[i] == '"');
                }
            }
            lemma_bracket_possible(s.skip(n + 4), false);
        }
    } else if s[0] == '.' {
        lemma_bracket_possible(s.skip(1), true);
    } else {
        let n = run(s, '.', '[') as int;
        lemma_run(s, '.', '[');
        let k = s.take(n);
        assert(!k.contains('.') && !k.contains('[')) by {
            if k.contains('.') {
                let i = choose|i: int| 0 <= i < k.len() && k[i] == '.';
                assert(s[i] == '.');
            }
            if k.contains('[') {
                let i = choose|i: int| 0 <= i < k.len() && k[i] == '[';
                assert(s[i] == '[');
            }
        }
        lemma_bracket_possible(s.skip(n), false);
    }
}

/// Every path that parsing makes is possible: in particular no key of it is empty.
pub proof fn law_parsed_path_is_possible(s: Seq<char>)
    ensures
        parse_path(s) matches Ok(p) ==> possible(p),
{
    if let Ok((root, rest)) = root_of(s) {
        if rest.len() > 0 {
            let body = if rest[0] == '.' {
                rest.skip(1)
            } else {
                rest
            };
            if body.contains('[') {
                lemma_bracket_possible(body, true);
            } else {
                lemma_parts_possible(body);
            }
        }
    }
}

impl Path {
    /// The path that a text stands for.
    pub fn from_str(path: &str) -> (r: Result<Path, PathParseError>)
        ensures
            match parse_path(path@) {
                Ok(p) => r matches Ok(x) && x@ == p,
                Err(reason) => r matches Err(e) && refused(e, path@, reason),
            },
    {
        proof {
            law_parsed_path_is_possible(path@);
        }
        let (root, rest) = match strip_root(path) {
            Ok(x) => x,
            Err(e) => return Err(e),
        };
        let chars = chars_of(rest);
        if chars.len() == 0 {
            let keys: Vec<String> = Vec::new();
            proof {
                assert(texts(keys@) =~= Seq::<Seq<char>>::empty());
            }
            return Ok(Path { root, keys });
        }
        if chars[0] == '.' && chars.len() == 1 {
            return Err(PathParseError::new(path, "trailing '.' with no segment after it"));
        }
        proof {
            assert(rest@.skip(1) =~= rest@.subrange(1, rest@.len() as int));
        }
        let body = if chars[0] == '.' {
            rest.substring_char(1, chars.len())
        } else {
            rest
        };
        let body_chars = chars_of(body);
        let bracket = scan(&body_chars, 0, '[', '[');
        proof {
            assert(body@.skip(0) =~= body@);
            lemma_run(body@, '[', '[');
            if body@.contains('[') {
                let i = choose|i: int| 0 <= i < body@.len() && body@[i] == '[';
                assert(body@[i] == '[');
            }
        }
        let parsed = if bracket < body_chars.len() {
            assert(body@.contains('['));
            parse_bracket_segments(body, path)
        } else {
            parse_dot_segments(body, path)
        };
        match parsed {
            Ok(keys) => Ok(Path { root, keys }),
            Err(e) => Err(e),
        }
    }
}

impl std::str::FromStr for Path {
    type Err = PathParseError;

    fn from_str(path: &str) -> (r: Result<Path, PathParseError>)
        ensures
            match parse_path(path@) {
                Ok(p) => r matches Ok(x) && x@ == p,
                Err(reason) => r matches Err(e) && refused(e, path@, reason),
            },
    {
        Path::from_str(path)
    }
}

impl Clone for Path {
    fn clone(&self) -> (r: Self)
        ensures
            r@ == self@,
    {
        let mut keys: Vec<String> = Vec::new();
        let mut i: usize = 0;
        while i < self.keys.len()
            invariant
                i <= self.keys@.len(),
                texts(keys@) == texts(self.keys@).take(i as int),
            decreases self.keys@.len() - i,
        {
            let key = self.keys[i].clone();
            proof {
                lemma_texts_push(keys@, key);
                assert(texts(self.keys@).take(i + 1) =~= texts(self.keys@).take(i as int).push(
                    key@,
                ));
            }
            keys.push(key);
            i = i + 1;
        }
        proof {
            use_type_invariant(self);
            assert(texts(self.keys@).take(i as int) =~= texts(self.keys@));
        }
        Path { root: self.root, keys }
    }
}

/// Whether a key can be shown between dots: it is not empty and has no dot and no bracket.
pub fn is_dot_safe(key: &str) -> (r: bool)
    ensures
        r == dot_safe(key@),
{
    let chars = chars_of(key);
    let mut i: usize = 0;
    while i < chars.len()
        invariant
            chars@ == key@,
            i <= key@.len(),
            forall|j: int|
                0 <= j < i ==> #[trigger] key@[j] != '.' && key@[j] != '[' && key@[j] != ']',
        decreases key@.len() - i,
    {
        let c = chars[i];
        if c == '.' || c == '[' || c == ']' {
            proof {
                assert(key@[i as int] == c);
                assert(key@.contains(c));
            }
            return false;
        }
        i = i + 1;
    }
    chars.len() > 0
}

/// Whether a key has a quote in it.
fn has_quote(key: &str) -> (r: bool)
    ensures
        r == key@.contains('"'),
{
    let chars = chars_of(key);
    let at = scan(&chars, 0, '"', '"');
    proof {
        assert(chars@.skip(0) =~= chars@);
        lemma_run(chars@, '"', '"');
        if key@.contains('"') {
            let i = choose|i: int| 0 <= i < key@.len() && key@[i] == '"';
            assert(chars@[i] == '"');
        }
    }
    at < chars.len()
}

impl Path {
    /// The root token of the path.
    pub fn root(&self) -> (r: Root)
        ensures
            r == self@.root,
    {
        self.root
    }

    /// The keys of the path.
    pub fn keys(&self) -> (r: &Vec<String>)
        ensures
            texts(r@) == self@.keys,
    {
        &self.keys
    }

    /// The canonical form of the path.
    pub fn to_string(&self) -> (r: String)
        ensures
            r@ == shown(self@),
    {
        let mut r = self.root.as_str().to_owned();
        let ghost keys = texts(self.keys@);
        proof {
            assert(keys.take(0) =~= Seq::<Seq<char>>::empty());
            assert(r@ =~= token(self.root) + shown_keys(keys.take(0)));
        }
        let mut i: usize = 0;
        while i < self.keys.len()
            invariant
                i <= self.keys@.len(),
                keys == texts(self.keys@),
                r@ == token(self.root) + shown_keys(keys.take(i as int)),
            decreases self.keys@.len() - i,
        {
            let key = self.keys[i].as_str();
            if is_dot_safe(key) || has_quote(key) {
                r.append(".");
                r.append(key);
            } else {
                r.append("[\"");
                r.append(key);
                r.append("\"]");
            }
            proof {
                assert(keys.take(i + 1).drop_last() =~= keys.take(i as int));
                assert(keys.take(i + 1).last() == key@);
                assert(r@ =~= token(self.root) + shown_keys(keys.take(i + 1)));
            }
            i = i + 1;
        }
        proof {
            assert(keys.take(i as int) =~= keys);
        }
        r
    }

    /// The value that the path leads to inside `ctx`. The root path leads to `ctx` itself.
    pub fn read<'a>(&self, ctx: &'a Value) -> (r: Result<&'a Value, EvalError>)
        ensures
            match read_at(self@, ctx@) {
                Ok(v) => r matches Ok(x) && x@ == v,
                Err(f) => r matches Err(e) && e@ == f,
            },
    {
        let mut cur = ctx;
        let ghost keys = texts(self.keys@);
        proof {
            assert(keys.skip(0) =~= keys);
        }
        let mut i: usize = 0;
        while i < self.keys.len()
            invariant
                i <= self.keys@.len(),
                keys == texts(self.keys@),
                keys == self@.keys,
                read_keys(ctx@, keys) == read_keys(cur@, keys.skip(i as int)),
            decreases self.keys@.len() - i,
        {
            proof {
                assert(keys.skip(i as int).drop_first() =~= keys.skip(i + 1));
                assert(keys.skip(i as int)[0] == self.keys@[i as int]@);
            }
            let next = match cur {
                Value::Object(o) => o.get(self.keys[i].as_str()),
                _ => None,
            };
            match next {
                Some(v) => {
                    cur = v;
                },
                None => {
                    return Err(EvalError::PathNotFound(self.to_string()));
                },
            }
            i = i + 1;
        }
        Ok(cur)
    }

    /// Sets the value that the path leads to inside `ctx`. The root path replaces `ctx`.
    /// What is missing or null on the way becomes an object. If anything else is in the way,
    /// nothing changes.
    pub fn write(&self, ctx: &mut Value, value: Value) -> (r: Result<(), EvalError>)
        ensures
            match write_at(self@, old(ctx)@, value@) {
                Ok(v) => r is Ok && final(ctx)@ == v,
                Err(f) => r matches Err(e) && e@ == f && *final(ctx) == *old(ctx),
            },
    {
        if let Some((i, found)) = self.obstacle(ctx) {
            let mut msg = "cannot write path '".to_owned();
            msg.append(self.to_string().as_str());
            msg.append("' at segment '");
            msg.append(self.keys[i].as_str());
            msg.append("': existing value at this position is not an object (");
            msg.append(debug(found).as_str());
            msg.append(")");
            return Err(EvalError::TypeError { op: "path.write".to_owned(), msg });
        }
        let mut whole = Value::Null;
        std::mem::swap(ctx, &mut whole);
        proof {
            assert(texts(self.keys@).skip(0) =~= texts(self.keys@));
        }
        *ctx = placed(whole, &self.keys, 0, value);
        Ok(())
    }

    /// What stands in the way of writing: which key cannot be followed, and what is there.
    fn obstacle<'a>(&self, ctx: &'a Value) -> (r: Option<(usize, &'a Value)>)
        ensures
            match clash(ctx@, self@.keys) {
                Some((key, found)) => r matches Some(x) && x.0 < self.keys@.len()
                    && self.keys@[x.0 as int]@ == key && x.1@ == found,
                None => r is None,
            },
    {
        let mut cur = ctx;
        let ghost keys = texts(self.keys@);
        proof {
            assert(keys.skip(0) =~= keys);
        }
        let mut i: usize = 0;
        while i < self.keys.len()
            invariant
                i <= self.keys@.len(),
                keys == texts(self.keys@),
                keys == self@.keys,
                clash(ctx@, keys) == clash(cur@, keys.skip(i as int)),
            decreases self.keys@.len() - i,
        {
            proof {
                assert(keys.skip(i as int).drop_first() =~= keys.skip(i + 1));
                assert(keys.skip(i as int)[0] == self.keys@[i as int]@);
            }
            match cur {
                Value::Null => {
                    return None;
                },
                Value::Object(o) => match o.get(self.keys[i].as_str()) {
                    Some(v) => {
                        cur = v;
                    },
                    None => {
                        return None;
                    },
                },
                _ => {
                    return Some((i, cur));
                },
            }
            i = i + 1;
        }
        None
    }
}

/// The context with a value set where the keys from the given one on lead to.
fn placed(ctx: Value, keys: &Vec<String>, i: usize, value: Value) -> (r: Value)
    requires
        i <= keys@.len(),
    ensures
        r@ == put(ctx@, texts(keys@).skip(i as int), value@),
    decreases keys@.len() - i,
{
    if i == keys.len() {
        return value;
    }
    let ghost rest = texts(keys@).skip(i as int);
    proof {
        assert(rest.drop_first() =~= texts(keys@).skip(i + 1));
        assert(rest[0] == keys@[i as int]@);
    }
    let mut o = match ctx {
        Value::Object(o) => o,
        _ => Object::new(),
    };
    let ghost m = o@;
    assert(m == members_of(ctx@));
    let key = keys[i].as_str();
    let below = match o.remove(key) {
        Some(v) => v,
        None => Value::Null,
    };
    let set = placed(below, keys, i + 1, value);
    let ghost w = set@;
    o.insert(keys[i].clone(), set);
    proof {
        assert(m.remove(key@).insert(key@, w) =~= m.insert(key@, w));
    }
    Value::Object(o)
}

} // verus!
