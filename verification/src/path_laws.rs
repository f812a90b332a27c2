//! What holds of paths.

use crate::error::Fault;
use crate::path::{
    after_root, bracket_keys, clash, dotted, keys_of, lemma_run_is, members_of, parse_path,
    parts, possible, possible_key, put, read_at, read_keys, shown, shown_key, shown_keys,
    starts, token, with_key, write_at, PathView, Root,
};
use crate::value::Json;
use vstd::prelude::*;

verus! {

spec fn all_possible(keys: Seq<Seq<char>>) -> bool {
    forall|i: int| 0 <= i < keys.len() ==> possible_key(#[trigger] keys[i])
}

pub(crate) proof fn lemma_literals()
    ensures
        "."@ == seq!['.'],
        "[\""@ == seq!['[', '"'],
        "\"]"@ == seq!['"', ']'],
        "$"@ == seq!['$'],
        "ctx"@ == seq!['c', 't', 'x'],
{
    reveal_strlit(".");
    reveal_strlit("[\"");
    reveal_strlit("\"]");
    reveal_strlit("$");
    reveal_strlit("ctx");
    assert("."@ =~= seq!['.']);
    assert("[\""@ =~= seq!['[', '"']);
    assert("\"]"@ =~= seq!['"', ']']);
    assert("$"@ =~= seq!['$']);
    assert("ctx"@ =~= seq!['c', 't', 'x']);
}

/// Keys are shown one after the other.
proof fn lemma_shown_first(keys: Seq<Seq<char>>)
    requires
        keys.len() > 0,
    ensures
        shown_keys(keys) == shown_key(keys[0]) + shown_keys(keys.drop_first()),
    decreases keys.len(),
{
    let init = keys.drop_last();
    if init.len() == 0 {
        assert(keys.drop_first() =~= Seq::<Seq<char>>::empty());
        assert(shown_keys(init) =~= Seq::<char>::empty());
        assert(shown_keys(keys) =~= shown_key(keys[0]) + Seq::<char>::empty());
    } else {
        lemma_shown_first(init);
        let rest = keys.drop_first();
        assert(rest.drop_last() =~= init.drop_first());
        assert(rest.last() == keys.last());
        assert(init[0] == keys[0]);
        assert(shown_keys(keys) =~= shown_key(keys[0]) + shown_keys(rest));
    }
}

/// Shown keys can follow a root token.
proof fn lemma_shown_starts(keys: Seq<Seq<char>>)
    ensures
        after_root(shown_keys(keys)),
        keys.len() > 0 ==> shown_keys(keys).len() > 0,
        keys.len() > 0 ==> shown_keys(keys)[0] == if dotted(keys[0]) {
            '.'
        } else {
            '['
        },
        keys.len() == 0 ==> shown_keys(keys).len() == 0,
{
    lemma_literals();
    if keys.len() > 0 {
        lemma_shown_first(keys);
    }
}

proof fn lemma_plain_segment(k: Seq<char>, t: Seq<char>)
    requires
        possible_key(k),
        dotted(k),
        after_root(t),
    ensures
        bracket_keys(k + t, true) == with_key(k, bracket_keys(t, false)),
{
    let s = k + t;
    assert forall|i: int| 0 <= i < k.len() implies #[trigger] s[i] != '.' && s[i] != '[' by {
        assert(k.contains(k[i]));
    }
    lemma_run_is(s, '.', '[', k.len() as int);
    assert(s[0] == k[0]);
    assert(k.contains(k[0]));
    assert(s.take(k.len() as int) =~= k);
    assert(s.skip(k.len() as int) =~= t);
}

pub(crate) proof fn lemma_quoted_segment(k: Seq<char>, t: Seq<char>, start: bool)
    requires
        k.len() > 0,
        !k.contains('"'),
        after_root(t),
    ensures
        bracket_keys("[\""@ + k + "\"]"@ + t, start) == with_key(k, bracket_keys(t, false)),
{
    lemma_literals();
    let s = "[\""@ + k + "\"]"@ + t;
    let n = k.len() as int;
    let u = s.skip(2);
    assert forall|i: int| 0 <= i < n implies #[trigger] u[i] != '"' by {
        assert(u[i] == k[i]);
        assert(k.contains(k[i]));
    }
    assert(u[n] == '"');
    lemma_run_is(u, '"', '"', n);
    assert(s.subrange(2, n + 2) =~= k);
    assert(s.skip(n + 4) =~= t);
    assert(s[n + 3] == ']');
    assert(s[0] == '[' && s[1] == '"');
}

proof fn lemma_bracket_trip(keys: Seq<Seq<char>>)
    requires
        all_possible(keys),
    ensures
        bracket_keys(shown_keys(keys), false) == Ok::<Seq<Seq<char>>, Seq<char>>(keys),
    decreases keys.len(),
{
    lemma_literals();
    if keys.len() == 0 {
        assert(keys =~= Seq::<Seq<char>>::empty());
    } else {
        let (k, rest) = (keys[0], keys.drop_first());
        let t = shown_keys(rest);
        lemma_shown_first(keys);
        lemma_shown_starts(rest);
        assert(possible_key(keys[0]));
        assert(all_possible(rest)) by {
            assert forall|i: int| 0 <= i < rest.len() implies possible_key(#[trigger] rest[i]) by {
                assert(possible_key(keys[i + 1]));
            }
        }
        lemma_bracket_trip(rest);
        assert(seq![k] + rest =~= keys);
        if dotted(k) {
            let s = "."@ + k + t;
            assert(s[0] == '.');
            assert(s.skip(1) =~= k + t);
            lemma_plain_segment(k, t);
        } else {
            lemma_quoted_segment(k, t, false);
        }
    }
}

proof fn lemma_dot_trip(keys: Seq<Seq<char>>)
    requires
        keys.len() > 0,
        forall|i: int|
            0 <= i < keys.len() ==> dotted(#[trigger] keys[i]) && possible_key(keys[i]),
    ensures
        parts(keys[0] + shown_keys(keys.drop_first())) == keys,
    decreases keys.len(),
{
    lemma_literals();
    let (k, rest) = (keys[0], keys.drop_first());
    let t = shown_keys(rest);
    let s = k + t;
    let n = k.len() as int;
    lemma_shown_starts(rest);
    assert(dotted(keys[0]));
    if rest.len() > 0 {
        assert(rest[0] == keys[1]);
        assert(dotted(keys[1]));
    }
    assert forall|i: int| 0 <= i < n implies #[trigger] s[i] != '.' by {
        assert(k.contains(k[i]));
    }
    lemma_run_is(s, '.', '.', n);
    if rest.len() == 0 {
        assert(s =~= k);
        assert(keys =~= seq![k]);
    } else {
        lemma_shown_first(rest);
        let after = rest[0] + shown_keys(rest.drop_first());
        assert(s.skip(n + 1) =~= after);
        assert(s.take(n) =~= k);
        assert forall|i: int| 0 <= i < rest.len() implies dotted(
            #[trigger] rest[i],
        ) && possible_key(rest[i]) by {
            assert(dotted(keys[i + 1]));
        }
        lemma_dot_trip(rest);
        assert(keys =~= seq![k] + rest);
    }
}

/// A key that is not shown between dots brings a bracket.
proof fn lemma_bracket_seen(keys: Seq<Seq<char>>, i: int)
    requires
        0 <= i < keys.len(),
        !dotted(keys[i]),
    ensures
        shown_keys(keys).contains('['),
    decreases keys.len(),
{
    lemma_literals();
    let last = shown_key(keys.last());
    let init = shown_keys(keys.drop_last());
    if i == keys.len() - 1 {
        assert(shown_keys(keys)[init.len() as int] == '[');
    } else {
        lemma_bracket_seen(keys.drop_last(), i);
        let j = choose|j: int| 0 <= j < init.len() && init[j] == '[';
        assert(shown_keys(keys)[j] == '[');
    }
}

proof fn lemma_keys_trip(keys: Seq<Seq<char>>)
    requires
        all_possible(keys),
    ensures
        keys_of(shown_keys(keys)) == Ok::<Seq<Seq<char>>, Seq<char>>(keys),
{
    lemma_literals();
    lemma_shown_starts(keys);
    if keys.len() == 0 {
        assert(keys =~= Seq::<Seq<char>>::empty());
    } else {
        let (k, rest) = (keys[0], keys.drop_first());
        let t = shown_keys(rest);
        let whole = shown_keys(keys);
        lemma_shown_first(keys);
        lemma_shown_starts(rest);
        assert(possible_key(keys[0]));
        assert(all_possible(rest)) by {
            assert forall|i: int| 0 <= i < rest.len() implies possible_key(#[trigger] rest[i]) by {
                assert(possible_key(keys[i + 1]));
            }
        }
        lemma_bracket_trip(rest);
        assert(seq![k] + rest =~= keys);
        if dotted(k) {
            let body = k + t;
            assert(whole =~= "."@ + body);
            assert(whole.skip(1) =~= body);
            if body.contains('[') {
                lemma_plain_segment(k, t);
            } else {
                assert forall|i: int| 0 <= i < keys.len() implies dotted(
                    #[trigger] keys[i],
                ) && possible_key(keys[i]) by {
                    if !dotted(keys[i]) {
                        assert(rest[i - 1] == keys[i]);
                        lemma_bracket_seen(rest, i - 1);
                        let j = choose|j: int| 0 <= j < t.len() && t[j] == '[';
                        assert(body[k.len() + j] == '[');
                    }
                }
                lemma_dot_trip(keys);
                assert forall|i: int| 0 <= i < parts(body).len() implies (#[trigger] parts(
                    body,
                )[i]).len() > 0 by {
                    assert(dotted(keys[i]));
                }
            }
        } else {
            assert(whole[0] == '[');
            assert(whole.contains('['));
            lemma_quoted_segment(k, t, true);
        }
    }
}

/// Parsing the canonical form of a path gives the path back, root token included.
pub proof fn law_path_round_trip(p: PathView)
    requires
        possible(p),
    ensures
        parse_path(shown(p)) == Ok::<PathView, Seq<char>>(p),
{
    lemma_literals();
    let rest = shown_keys(p.keys);
    let s = shown(p);
    lemma_keys_trip(p.keys);
    lemma_shown_starts(p.keys);
    match p.root {
        Root::Ctx => {
            assert(s.take(3) =~= "ctx"@);
            assert(s.skip(3) =~= rest);
        },
        Root::Dollar => {
            assert(s[0] == '$');
            assert(!starts(s, "ctx"@)) by {
                if s.len() >= 3 {
                    assert(s.take(3)[0] == '$');
                    assert("ctx"@[0] == 'c');
                }
            }
            assert(s.take(1) =~= "$"@);
            assert(s.skip(1) =~= rest);
        },
    }
}

/// What is written is what is read back.
pub proof fn law_write_then_read(ctx: Json, keys: Seq<Seq<char>>, value: Json)
    ensures
        read_keys(put(ctx, keys, value), keys) == Some(value),
    decreases keys.len(),
{
    if keys.len() > 0 {
        let m = members_of(ctx);
        let below = if m.contains_key(keys[0]) {
            m[keys[0]]
        } else {
            Json::Null
        };
        law_write_then_read(below, keys.drop_first(), value);
    }
}

/// The same through paths: after a write that succeeds, the path reads the value.
pub proof fn law_path_write_then_read(p: PathView, ctx: Json, value: Json)
    ensures
        write_at(p, ctx, value) matches Ok(after) ==> read_at(p, after) == Ok::<Json, Fault>(value),
{
    law_write_then_read(ctx, p.keys, value);
}

/// Whether two sequences of keys lead apart: neither leads to a part of what the other leads to.
pub open spec fn apart(a: Seq<Seq<char>>, b: Seq<Seq<char>>) -> bool {
    exists|i: int| 0 <= i < a.len() && i < b.len() && #[trigger] a[i] != b[i] && a.take(i) == b.take(
        i,
    )
}

/// A write that succeeds leaves what lies apart as it was.
pub proof fn law_write_leaves_the_rest(
    ctx: Json,
    keys: Seq<Seq<char>>,
    value: Json,
    other: Seq<Seq<char>>,
)
    requires
        clash(ctx, keys) is None,
        apart(keys, other),
    ensures
        read_keys(put(ctx, keys, value), other) == read_keys(ctx, other),
    decreases keys.len(),
{
    let i = choose|i: int|
        0 <= i < keys.len() && i < other.len() && #[trigger] keys[i] != other[i] && keys.take(i)
            == other.take(i);
    let m = members_of(ctx);
    let below = if m.contains_key(keys[0]) {
        m[keys[0]]
    } else {
        Json::Null
    };
    if i > 0 {
        let (a, b) = (keys.drop_first(), other.drop_first());
        assert(keys[0] == keys.take(i)[0] && other[0] == other.take(i)[0]);
        assert(a[i - 1] == keys[i] && b[i - 1] == other[i]);
        assert(a.take(i - 1) =~= keys.take(i).drop_first());
        assert(b.take(i - 1) =~= other.take(i).drop_first());
        assert(apart(a, b));
        law_write_leaves_the_rest(below, a, value, b);
    }
}

/// Of two writes at one place the last one counts.
pub proof fn law_last_write_counts(ctx: Json, keys: Seq<Seq<char>>, first: Json, last: Json)
    ensures
        put(put(ctx, keys, first), keys, last) == put(ctx, keys, last),
        clash(ctx, keys) is None ==> clash(put(ctx, keys, first), keys) is None,
    decreases keys.len(),
{
    if keys.len() > 0 {
        let m = members_of(ctx);
        let (k, rest) = (keys[0], keys.drop_first());
        let below = if m.contains_key(k) {
            m[k]
        } else {
            Json::Null
        };
        law_last_write_counts(below, rest, first, last);
        let w = put(below, rest, first);
        assert(m.insert(k, w).insert(k, put(w, rest, last)) =~= m.insert(k, put(w, rest, last)));
    }
}

/// Whether a write is refused does not depend on the value.
pub proof fn law_refusal_does_not_depend_on_the_value(p: PathView, ctx: Json, a: Json, b: Json)
    ensures
        write_at(p, ctx, a) is Err <==> write_at(p, ctx, b) is Err,
        write_at(p, ctx, a) is Err ==> write_at(p, ctx, a) == write_at(p, ctx, b),
{
}

/// The two root tokens are interchangeable: what follows decides whether a text is a path, and
/// which keys it has.
pub proof fn law_root_tokens_are_alike(rest: Seq<char>)
    ensures
        match (parse_path("$"@ + rest), parse_path("ctx"@ + rest)) {
            (Ok(a), Ok(b)) => a.keys == b.keys && a.root == Root::Dollar && b.root == Root::Ctx,
            (Err(_), Err(_)) => true,
            _ => false,
        },
{
    lemma_literals();
    let (a, b) = ("$"@ + rest, "ctx"@ + rest);
    assert(b.take(3) =~= "ctx"@);
    assert(b.skip(3) =~= rest);
    assert(a[0] == '$');
    assert(!starts(a, "ctx"@)) by {
        if a.len() >= 3 {
            assert(a.take(3)[0] == '$');
            assert("ctx"@[0] == 'c');
        }
    }
    assert(a.take(1) =~= "$"@);
    assert(a.skip(1) =~= rest);
}

/// The root token of a path has no part in what it reads and writes.
pub proof fn law_root_token_does_not_matter(p: PathView, q: PathView, ctx: Json, value: Json)
    requires
        p.keys == q.keys,
    ensures
        read_at(p, ctx) is Ok <==> read_at(q, ctx) is Ok,
        read_at(p, ctx) is Ok ==> read_at(p, ctx) == read_at(q, ctx),
        write_at(p, ctx, value) is Ok <==> write_at(q, ctx, value) is Ok,
        write_at(p, ctx, value) is Ok ==> write_at(p, ctx, value) == write_at(q, ctx, value),
{
}

/// A text is no path unless it starts with a root token that `.`, `[` or the end follows.
pub proof fn law_paths_start_with_a_root_token(s: Seq<char>)
    requires
        parse_path(s) is Ok,
    ensures
        exists|root: Root, rest: Seq<char>| s == #[trigger] (token(root) + rest) && after_root(rest),
{
    lemma_literals();
    if starts(s, "ctx"@) {
        assert(s =~= token(Root::Ctx) + s.skip(3));
        assert(after_root(s.skip(3)));
    } else {
        assert(s =~= token(Root::Dollar) + s.skip(1));
        assert(after_root(s.skip(1)));
    }
}

/// The root path reads the whole context and replaces it.
pub proof fn law_root_path_is_the_context(root: Root, ctx: Json, value: Json)
    ensures
        parse_path(token(root)) == Ok::<PathView, Seq<char>>(
            PathView { root, keys: Seq::empty() },
        ),
        read_at(PathView { root, keys: Seq::empty() }, ctx) == Ok::<Json, Fault>(ctx),
        write_at(PathView { root, keys: Seq::empty() }, ctx, value) == Ok::<Json, Fault>(value),
{
    let p = PathView { root, keys: Seq::empty() };
    assert(shown(p) =~= token(root));
    law_path_round_trip(p);
}

/// Once a path is parsed, reading it fails only because there is nothing there, and writing it only
/// because something else is in the way: neither finds fault with the path.
pub proof fn law_parsed_paths_are_not_at_fault(p: PathView, ctx: Json, value: Json)
    ensures
        read_at(p, ctx) matches Err(f) ==> f == Fault::PathNotFound(shown(p)),
        write_at(p, ctx, value) matches Err(f) ==> (f matches Fault::TypeError { op, msg } && op
            == "path.write"@),
{
}

} // verus!
