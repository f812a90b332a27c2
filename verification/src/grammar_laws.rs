//! Which texts are paths, and of which keys; what paths read; and when they can be written.

use crate::error::Fault;
use crate::path::{
    after_root, bracket_keys, clash, dot_keys, dot_safe, keys_of, lemma_run, lemma_run_is,
    members_of, parse_path, parts, put, read_at, read_keys, root_of, run, starts, token, with_key,
    write_at, PathView, Root,
};
use crate::path_laws::{law_write_then_read, lemma_literals, lemma_quoted_segment};
use crate::value::Json;
use vstd::prelude::*;

verus! {

/// Whether a key can be written behind a dot.
pub open spec fn plain(k: Seq<char>) -> bool {
    k.len() > 0 && !k.contains('.') && !k.contains('[')
}

/// Whether a key can be written in quotes.
pub open spec fn quotable(k: Seq<char>) -> bool {
    k.len() > 0 && !k.contains('"')
}

/// Whether a text that follows a root token spells keys: one segment after the other, each a dot
/// and the key, or the key in brackets and quotes, with or without a dot before the bracket.
pub open spec fn spells(s: Seq<char>, keys: Seq<Seq<char>>) -> bool
    decreases keys.len(),
{
    if keys.len() == 0 {
        s.len() == 0
    } else {
        let k = keys[0];
        let n = k.len() as int;
        let rest = keys.drop_first();
        ||| plain(k) && starts(s, seq!['.'] + k) && spells(s.skip(n + 1), rest)
        ||| quotable(k) && starts(s, seq!['[', '"'] + k + seq!['"', ']']) && spells(
            s.skip(n + 4),
            rest,
        )
        ||| quotable(k) && starts(s, seq!['.', '[', '"'] + k + seq!['"', ']']) && spells(
            s.skip(n + 5),
            rest,
        )
    }
}

proof fn lemma_spelled_follows(s: Seq<char>, keys: Seq<Seq<char>>)
    requires
        spells(s, keys),
    ensures
        after_root(s),
        keys.len() > 0 ==> s.len() > 1,
{
    if keys.len() > 0 {
        let k = keys[0];
        if starts(s, seq!['.'] + k) {
            assert(s.take(k.len() as int + 1)[0] == s[0]);
            assert((seq!['.'] + k)[0] == '.');
        } else if starts(s, seq!['[', '"'] + k + seq!['"', ']']) {
            assert(s.take(k.len() as int + 4)[0] == s[0]);
            assert((seq!['[', '"'] + k + seq!['"', ']'])[0] == '[');
        } else {
            assert(s.take(k.len() as int + 5)[0] == s[0]);
            assert((seq!['.', '[', '"'] + k + seq!['"', ']'])[0] == '.');
        }
    }
}

/// A text is its start and the rest.
proof fn lemma_cut(s: Seq<char>, head: Seq<char>)
    requires
        starts(s, head),
    ensures
        s == head + s.skip(head.len() as int),
{
    let n = head.len() as int;
    assert(s =~= s.take(n) + s.skip(n));
}

proof fn lemma_plain_run(k: Seq<char>, t: Seq<char>)
    requires
        plain(k),
        after_root(t),
    ensures
        bracket_keys(k + t, true) == with_key(k, bracket_keys(t, false)),
        (k + t)[0] != '[',
        (k + t)[0] != '.',
{
    let s = k + t;
    assert forall|i: int| 0 <= i < k.len() implies #[trigger] s[i] != '.' && s[i] != '[' by {
        assert(k.contains(k[i]));
    }
    lemma_run_is(s, '.', '[', k.len() as int);
    assert(s[0] == k[0]);
    assert(k.contains(k[0]));
    assert(s.take(k.len() as int) =~= k);
    assert(s.skip(k.len() as int) =~= t);
}

/// Spelled keys are read back where there are brackets.
proof fn lemma_spelled_brackets(s: Seq<char>, keys: Seq<Seq<char>>)
    requires
        spells(s, keys),
    ensures
        bracket_keys(s, false) == Ok::<Seq<Seq<char>>, Seq<char>>(keys),
        keys.len() > 0 && s[0] == '.' ==> bracket_keys(s.skip(1), true) == Ok::<
            Seq<Seq<char>>,
            Seq<char>,
        >(keys),
        keys.len() > 0 && s[0] == '[' ==> bracket_keys(s, true) == Ok::<
            Seq<Seq<char>>,
            Seq<char>,
        >(keys),
    decreases keys.len(),
{
    lemma_literals();
    lemma_spelled_follows(s, keys);
    if keys.len() == 0 {
        assert(keys =~= Seq::<Seq<char>>::empty());
    } else {
        let (k, rest) = (keys[0], keys.drop_first());
        let n = k.len() as int;
        assert(seq![k] + rest =~= keys);
        if plain(k) && starts(s, seq!['.'] + k) && spells(s.skip(n + 1), rest) {
            let t = s.skip(n + 1);
            lemma_spelled_brackets(t, rest);
            lemma_spelled_follows(t, rest);
            lemma_cut(s, seq!['.'] + k);
            assert(s[0] == '.');
            assert(s.skip(1) =~= k + t);
            lemma_plain_run(k, t);
        } else if quotable(k) && starts(s, seq!['[', '"'] + k + seq!['"', ']']) && spells(
            s.skip(n + 4),
            rest,
        ) {
            let t = s.skip(n + 4);
            lemma_spelled_brackets(t, rest);
            lemma_spelled_follows(t, rest);
            lemma_cut(s, seq!['[', '"'] + k + seq!['"', ']']);
            assert(s =~= "[\""@ + k + "\"]"@ + t);
            lemma_quoted_segment(k, t, false);
            lemma_quoted_segment(k, t, true);
            assert(s[0] == '[');
        } else {
            let t = s.skip(n + 5);
            lemma_spelled_brackets(t, rest);
            lemma_spelled_follows(t, rest);
            lemma_cut(s, seq!['.', '[', '"'] + k + seq!['"', ']']);
            assert(s[0] == '.');
            assert(s.skip(1) =~= "[\""@ + k + "\"]"@ + t);
            lemma_quoted_segment(k, t, true);
        }
    }
}

/// Spelled keys are read back where there are no brackets.
proof fn lemma_spelled_dots(s: Seq<char>, keys: Seq<Seq<char>>)
    requires
        spells(s, keys),
        keys.len() > 0,
        !s.contains('['),
    ensures
        s[0] == '.',
        parts(s.skip(1)) == keys,
        forall|i: int| 0 <= i < keys.len() ==> (#[trigger] keys[i]).len() > 0,
    decreases keys.len(),
{
    let (k, rest) = (keys[0], keys.drop_first());
    let n = k.len() as int;
    lemma_spelled_follows(s, keys);
    assert(s.contains(s[0]));
    assert(s.contains(s[1]));
    if starts(s, seq!['.', '[', '"'] + k + seq!['"', ']']) {
        assert(s.take(n + 5)[1] == '[');
    }
    if starts(s, seq!['[', '"'] + k + seq!['"', ']']) {
        assert(s.take(n + 4)[0] == '[');
    }
    let t = s.skip(n + 1);
    lemma_cut(s, seq!['.'] + k);
    let body = s.skip(1);
    assert(body =~= k + t);
    lemma_spelled_follows(t, rest);
    assert(!t.contains('[')) by {
        if t.contains('[') {
            let j = choose|j: int| 0 <= j < t.len() && t[j] == '[';
            assert(s[n + 1 + j] == '[');
        }
    }
    assert forall|i: int| 0 <= i < n implies #[trigger] body[i] != '.' by {
        assert(body[i] == k[i]);
        assert(k.contains(k[i]));
    }
    if rest.len() == 0 {
        assert(spells(t, rest));
        assert(t.len() == 0);
        lemma_run_is(body, '.', '.', n);
        assert(body =~= k);
        assert(keys =~= seq![k]);
    } else {
        lemma_spelled_dots(t, rest);
        assert(body[n] == t[0]);
        lemma_run_is(body, '.', '.', n);
        assert(body.take(n) =~= k);
        assert(body.skip(n + 1) =~= t.skip(1));
        assert(keys =~= seq![k] + rest);
        assert forall|i: int| 0 <= i < keys.len() implies (#[trigger] keys[i]).len() > 0 by {
            if i > 0 {
                assert(rest[i - 1] == keys[i]);
            }
        }
    }
}

/// What is read where there are brackets is spelled.
proof fn lemma_brackets_spell(s: Seq<char>, start: bool, keys: Seq<Seq<char>>)
    requires
        !start ==> after_root(s),
        bracket_keys(s, start) == Ok::<Seq<Seq<char>>, Seq<char>>(keys),
    ensures
        !start ==> spells(s, keys),
        start ==> spells(seq!['.'] + s, keys),
        start && s[0] == '[' ==> spells(s, keys),
        start ==> s.len() > 0,
    decreases s.len(),
{
    let dotted = seq!['.'] + s;
    if s.len() == 0 {
    } else if s[0] == '[' {
        let u = s.skip(2);
        let n = run(u, '"', '"') as int;
        lemma_run(u, '"', '"');
        let k = s.subrange(2, n + 2);
        let t = s.skip(n + 4);
        let more = bracket_keys(t, false)->Ok_0;
        assert(keys == seq![k] + more);
        lemma_brackets_spell(t, false, more);
        assert(keys[0] == k);
        assert(keys.drop_first() =~= more);
        assert(k.len() == n);
        assert(quotable(k)) by {
            if k.contains('"') {
                let j = choose|j: int| 0 <= j < k.len() && k[j] == '"';
                assert(u[j] == k[j]);
            }
        }
        assert(u[n] == s[n + 2]);
        let head = seq!['[', '"'] + k + seq!['"', ']'];
        assert(s.take(n + 4) =~= head);
        assert(starts(s, head));
        assert(spells(s, keys));
        let far = seq!['.', '[', '"'] + k + seq!['"', ']'];
        assert(dotted.take(n + 5) =~= far);
        assert(starts(dotted, far));
        assert(dotted.skip(n + 5) =~= t);
        assert(spells(dotted, keys));
    } else if s[0] == '.' {
        let t = s.skip(1);
        lemma_brackets_spell(t, true, keys);
        assert(seq!['.'] + t =~= s);
    } else {
        let n = run(s, '.', '[') as int;
        lemma_run(s, '.', '[');
        let k = s.take(n);
        let t = s.skip(n);
        let more = bracket_keys(t, false)->Ok_0;
        assert(keys == seq![k] + more);
        assert(after_root(t)) by {
            if t.len() > 0 {
                assert(t[0] == s[n]);
            }
        }
        lemma_brackets_spell(t, false, more);
        assert(keys[0] == k);
        assert(keys.drop_first() =~= more);
        assert(plain(k)) by {
            if k.contains('.') {
                let j = choose|j: int| 0 <= j < k.len() && k[j] == '.';
                assert(s[j] == '.');
            }
            if k.contains('[') {
                let j = choose|j: int| 0 <= j < k.len() && k[j] == '[';
                assert(s[j] == '[');
            }
        }
        assert(dotted.take(n + 1) =~= seq!['.'] + k);
        assert(dotted.skip(n + 1) =~= t);
        assert(starts(dotted, seq!['.'] + k));
    }
}

/// What is read where there are no brackets is spelled.
proof fn lemma_dots_spell(body: Seq<char>)
    requires
        !body.contains('['),
        forall|i: int| 0 <= i < parts(body).len() ==> (#[trigger] parts(body)[i]).len() > 0,
    ensures
        spells(seq!['.'] + body, parts(body)),
    decreases body.len(),
{
    let n = run(body, '.', '.') as int;
    lemma_run(body, '.', '.');
    let dotted = seq!['.'] + body;
    let keys = parts(body);
    let k = body.take(n);
    assert forall|c: char| k.contains(c) implies c != '.' && c != '[' by {
        let j = choose|j: int| 0 <= j < k.len() && k[j] == c;
        assert(body[j] == c);
        assert(body.contains(c));
    }
    assert(dotted.take(n + 1) =~= seq!['.'] + k);
    if n >= body.len() {
        assert(k =~= body);
        assert(keys == seq![body]);
        assert(keys[0].len() > 0);
        assert(keys.drop_first() =~= Seq::<Seq<char>>::empty());
        assert(dotted.skip(n + 1).len() == 0);
        assert(spells(dotted.skip(n + 1), keys.drop_first()));
    } else {
        let rest = body.skip(n + 1);
        let more = parts(rest);
        assert(keys == seq![k] + more);
        assert(keys[0] == k);
        assert(keys.drop_first() =~= more);
        assert forall|i: int| 0 <= i < more.len() implies (#[trigger] more[i]).len() > 0 by {
            assert(keys[i + 1] == more[i]);
        }
        assert(!rest.contains('[')) by {
            if rest.contains('[') {
                let j = choose|j: int| 0 <= j < rest.len() && rest[j] == '[';
                assert(body[n + 1 + j] == '[');
            }
        }
        lemma_dots_spell(rest);
        assert(dotted.skip(n + 1) =~= seq!['.'] + rest);
    }
}

/// A text after a root token is read as keys exactly where it spells them.
proof fn lemma_keys_are_spelled(rest: Seq<char>, keys: Seq<Seq<char>>)
    requires
        after_root(rest),
    ensures
        keys_of(rest) == Ok::<Seq<Seq<char>>, Seq<char>>(keys) <==> spells(rest, keys),
{
    if spells(rest, keys) {
        lemma_spelled_follows(rest, keys);
        if keys.len() == 0 {
            assert(keys =~= Seq::<Seq<char>>::empty());
        } else {
            let body = if rest[0] == '.' {
                rest.skip(1)
            } else {
                rest
            };
            if body.contains('[') {
                lemma_spelled_brackets(rest, keys);
            } else {
                assert(!rest.contains('[')) by {
                    if rest.contains('[') {
                        let j = choose|j: int| 0 <= j < rest.len() && rest[j] == '[';
                        if rest[0] == '.' {
                            assert(body[j - 1] == '[');
                        }
                    }
                }
                lemma_spelled_dots(rest, keys);
            }
        }
    }
    if keys_of(rest) == Ok::<Seq<Seq<char>>, Seq<char>>(keys) {
        if rest.len() > 0 {
            let body = if rest[0] == '.' {
                rest.skip(1)
            } else {
                rest
            };
            if body.contains('[') {
                lemma_brackets_spell(body, true, keys);
            } else {
                assert(rest[0] == '.') by {
                    if rest[0] == '[' {
                        assert(body.contains(rest[0]));
                    }
                }
                assert(dot_keys(body) == Ok::<Seq<Seq<char>>, Seq<char>>(keys));
                lemma_dots_spell(body);
            }
            if rest[0] == '.' {
                assert(seq!['.'] + rest.skip(1) =~= rest);
            }
        }
    }
}

/// A root token and a text is the path with that root token and keys exactly where the text spells
/// those keys. So every spelling of a path is accepted, and nothing else is.
pub proof fn law_paths_are_what_they_spell(root: Root, rest: Seq<char>, keys: Seq<Seq<char>>)
    ensures
        parse_path(token(root) + rest) == Ok::<PathView, Seq<char>>(PathView { root, keys })
            <==> spells(rest, keys),
        parse_path(token(root) + rest) matches Ok(p) ==> p.root == root,
{
    lemma_literals();
    let s = token(root) + rest;
    match root {
        Root::Ctx => {
            assert(s.take(3) =~= "ctx"@);
            assert(s.skip(3) =~= rest);
        },
        Root::Dollar => {
            assert(s[0] == '$');
            assert(!starts(s, "ctx"@)) by {
                if s.len() >= 3 {
                    assert(s.take(3)[0] == '$');
                    assert("ctx"@[0] == 'c');
                }
            }
            assert(s.take(1) =~= "$"@);
            assert(s.skip(1) =~= rest);
        },
    }
    if after_root(rest) {
        lemma_keys_are_spelled(rest, keys);
    } else if spells(rest, keys) {
        lemma_spelled_follows(rest, keys);
    }
}

/// A path with a key behind a dot: `$` and `.k` and what follows has the key first.
pub proof fn law_dot_segment(root: Root, k: Seq<char>, rest: Seq<char>, keys: Seq<Seq<char>>)
    requires
        plain(k),
        spells(rest, keys),
    ensures
        parse_path(token(root) + (seq!['.'] + k + rest)) == Ok::<PathView, Seq<char>>(
            PathView { root, keys: seq![k] + keys },
        ),
{
    let s = seq!['.'] + k + rest;
    let all = seq![k] + keys;
    assert(all.drop_first() =~= keys);
    assert(s.take(k.len() as int + 1) =~= seq!['.'] + k);
    assert(s.skip(k.len() as int + 1) =~= rest);
    assert(spells(s, all));
    law_paths_are_what_they_spell(root, s, all);
}

/// A path with a key in brackets and quotes.
pub proof fn law_bracket_segment(root: Root, k: Seq<char>, rest: Seq<char>, keys: Seq<Seq<char>>)
    requires
        quotable(k),
        spells(rest, keys),
    ensures
        parse_path(token(root) + (seq!['[', '"'] + k + seq!['"', ']'] + rest)) == Ok::<
            PathView,
            Seq<char>,
        >(PathView { root, keys: seq![k] + keys }),
{
    let s = seq!['[', '"'] + k + seq!['"', ']'] + rest;
    let all = seq![k] + keys;
    assert(all.drop_first() =~= keys);
    assert(s.take(k.len() as int + 4) =~= seq!['[', '"'] + k + seq!['"', ']']);
    assert(s.skip(k.len() as int + 4) =~= rest);
    assert(spells(s, all));
    law_paths_are_what_they_spell(root, s, all);
}

/// Reading along keys and then along more is reading along all of them.
pub proof fn law_reading_goes_on(ctx: Json, a: Seq<Seq<char>>, b: Seq<Seq<char>>)
    ensures
        read_keys(ctx, a + b) == match read_keys(ctx, a) {
            Some(v) => read_keys(v, b),
            None => None,
        },
    decreases a.len(),
{
    if a.len() == 0 {
        assert(a + b =~= b);
    } else {
        assert((a + b)[0] == a[0]);
        assert((a + b).drop_first() =~= a.drop_first() + b);
        if let Json::Obj(m) = ctx {
            if m.contains_key(a[0]) {
                law_reading_goes_on(m[a[0]], a.drop_first(), b);
            }
        }
    }
}

/// One key reads the member of that name of an object; what is no object has no members.
pub proof fn law_reading_a_member(ctx: Json, k: Seq<char>)
    ensures
        read_keys(ctx, seq![k]) == match ctx {
            Json::Obj(m) => if m.contains_key(k) {
                Some(m[k])
            } else {
                None
            },
            _ => None,
        },
        read_keys(ctx, Seq::empty()) == Some(ctx),
{
    assert(seq![k].drop_first() =~= Seq::<Seq<char>>::empty());
    if let Json::Obj(m) = ctx {
        if m.contains_key(k) {
            assert(read_keys(m[k], seq![k].drop_first()) == Some(m[k]));
        }
    }
}

/// Whether a value has a place for members: an object, or null.
pub open spec fn roomy(v: Json) -> bool {
    v is Obj || v is Null
}

/// A write is refused exactly where some part of the path but the last leads to a value that is
/// neither an object nor null. What is missing is no obstacle.
pub proof fn law_writing_needs_room(ctx: Json, keys: Seq<Seq<char>>)
    ensures
        clash(ctx, keys) is Some <==> exists|i: int|
            0 <= i < keys.len() && (read_keys(ctx, #[trigger] keys.take(i)) matches Some(v)
                && !roomy(v)),
    decreases keys.len(),
{
    if keys.len() > 0 {
        let (k, rest) = (keys[0], keys.drop_first());
        assert(keys.take(0) =~= Seq::<Seq<char>>::empty());
        assert(read_keys(ctx, keys.take(0)) == Some(ctx));
        if let Json::Obj(m) = ctx {
            if m.contains_key(k) {
                law_writing_needs_room(m[k], rest);
                if clash(ctx, keys) is Some {
                    let j = choose|j: int|
                        0 <= j < rest.len() && (read_keys(
                            m[k],
                            #[trigger] rest.take(j),
                        ) matches Some(v) && !roomy(v));
                    assert(keys.take(j + 1)[0] == k);
                    assert(keys.take(j + 1).drop_first() =~= rest.take(j));
                    assert(read_keys(ctx, keys.take(j + 1)) == read_keys(m[k], rest.take(j)));
                }
            }
        }
        if exists|i: int|
            0 <= i < keys.len() && (read_keys(ctx, #[trigger] keys.take(i)) matches Some(v)
                && !roomy(v)) {
            let i = choose|i: int|
                0 <= i < keys.len() && (read_keys(ctx, #[trigger] keys.take(i)) matches Some(v)
                    && !roomy(v));
            if i > 0 {
                assert(keys.take(i)[0] == k);
                assert(keys.take(i).drop_first() =~= rest.take(i - 1));
                if let Json::Obj(m) = ctx {
                    if m.contains_key(k) {
                        assert(read_keys(m[k], rest.take(i - 1)) == read_keys(ctx, keys.take(i)));
                    }
                }
            }
        }
    }
}

/// A write makes an object of what is missing or null on the way, and adds one key to each object
/// there: the parent of what is written has the keys that it had, and the last key of the path.
pub proof fn law_writing_adds_one_key(ctx: Json, above: Seq<Seq<char>>, k: Seq<char>, value: Json)
    requires
        clash(ctx, above.push(k)) is None,
    ensures
        ({
            let before: Map<Seq<char>, Json> = match read_keys(ctx, above) {
                Some(Json::Obj(m)) => m,
                _ => Map::empty(),
            };
            read_keys(put(ctx, above.push(k), value), above) == Some(
                Json::Obj(before.insert(k, value)),
            )
        }),
    decreases above.len(),
{
    let keys = above.push(k);
    let m = members_of(ctx);
    if above.len() == 0 {
        assert(keys.drop_first() =~= Seq::<Seq<char>>::empty());
        assert(keys[0] == k);
        assert(put(m[k], keys.drop_first(), value) == value);
        assert(put(Json::Null, keys.drop_first(), value) == value);
    } else {
        let j = above[0];
        let rest = above.drop_first();
        assert(keys[0] == j);
        assert(keys.drop_first() =~= rest.push(k));
        let below = if m.contains_key(j) {
            m[j]
        } else {
            Json::Null
        };
        law_writing_adds_one_key(below, rest, k, value);
        if rest.len() > 0 {
            assert(read_keys(Json::Null, rest) is None);
        }
    }
}

/// Reading and writing through a path is reading and writing along its keys.
pub proof fn law_paths_follow_their_keys(p: PathView, ctx: Json, value: Json)
    ensures
        read_at(p, ctx) is Ok <==> read_keys(ctx, p.keys) is Some,
        read_keys(ctx, p.keys) matches Some(v) ==> read_at(p, ctx) == Ok::<Json, Fault>(v),
        write_at(p, ctx, value) is Err <==> exists|i: int|
            0 <= i < p.keys.len() && (read_keys(ctx, #[trigger] p.keys.take(i)) matches Some(v)
                && !roomy(v)),
        write_at(p, ctx, value) matches Ok(after) ==> read_keys(after, p.keys) == Some(value),
{
    law_writing_needs_room(ctx, p.keys);
    law_write_then_read(ctx, p.keys, value);
}

/// Why a text is no path: it lacks a root token, or something else follows it, or there is nothing
/// between two dots or behind the last one.
pub proof fn law_refusals_tell_why(s: Seq<char>, rest: Seq<char>)
    ensures
        !starts(s, seq!['$']) && !starts(s, seq!['c', 't', 'x']) ==> parse_path(s) == Err::<
            PathView,
            Seq<char>,
        >("path must start with '$' or 'ctx' followed by '.', '[', or end-of-string"@),
        rest.len() > 0 && rest[0] != '.' && rest[0] != '[' ==> parse_path(seq!['$'] + rest)
            == Err::<PathView, Seq<char>>(
            "expected '.', '[', or end-of-string right after '$'"@,
        ) && parse_path(seq!['c', 't', 'x'] + rest) == Err::<PathView, Seq<char>>(
            "expected '.', '[', or end-of-string right after 'ctx'"@,
        ),
        parse_path(seq!['$', '.']) == Err::<PathView, Seq<char>>(
            "trailing '.' with no segment after it"@,
        ),
        !rest.contains('[') && rest.len() > 0 ==> (parse_path(seq!['$', '.'] + rest) matches Err(
            reason,
        ) ==> reason == "empty path segment (leading, trailing, or consecutive '.')"@),
{
    lemma_literals();
    let a = seq!['$'] + rest;
    assert(a[0] == '$');
    assert(!starts(a, "ctx"@)) by {
        if a.len() >= 3 {
            assert(a.take(3)[0] == '$');
            assert("ctx"@[0] == 'c');
        }
    }
    assert(a.take(1) =~= "$"@);
    assert(a.skip(1) =~= rest);
    let b = seq!['c', 't', 'x'] + rest;
    assert(b.take(3) =~= "ctx"@);
    assert(b.skip(3) =~= rest);
    let c = seq!['$', '.'];
    assert(!starts(c, "ctx"@));
    assert(c.take(1) =~= "$"@);
    assert(c.skip(1) =~= seq!['.']);
    let d = seq!['$', '.'] + rest;
    assert(d[0] == '$');
    assert(!starts(d, "ctx"@)) by {
        if d.len() >= 3 {
            assert(d.take(3)[0] == '$');
            assert("ctx"@[0] == 'c');
        }
    }
    assert(d.take(1) =~= "$"@);
    assert(d.skip(1) =~= seq!['.'] + rest);
    assert(d.skip(1).skip(1) =~= rest);
}

/// Why a text with brackets is no path.
pub proof fn law_bracket_refusals_tell_why(k: Seq<char>, t: Seq<char>, start: bool)
    requires
        !k.contains('"'),
    ensures
        t.len() > 0 && t[0] != '"' ==> bracket_keys(seq!['['] + t, start) == Err::<
            Seq<Seq<char>>,
            Seq<char>,
        >("expected '\"' after '['"@),
        bracket_keys(seq!['[', '"'] + k, start) == Err::<Seq<Seq<char>>, Seq<char>>(
            "unterminated bracket segment"@,
        ),
        bracket_keys(seq!['[', '"', '"'] + t, start) == Err::<Seq<Seq<char>>, Seq<char>>(
            "empty bracket key"@,
        ),
        k.len() > 0 && (t.len() == 0 || t[0] != ']') ==> bracket_keys(
            seq!['[', '"'] + k + seq!['"'] + t,
            start,
        ) == Err::<Seq<Seq<char>>, Seq<char>>("missing closing ']' after key"@),
        k.len() > 0 && t.len() > 0 && t[0] != '.' && t[0] != '[' ==> bracket_keys(
            seq!['[', '"'] + k + seq!['"', ']'] + t,
            start,
        ) == Err::<Seq<Seq<char>>, Seq<char>>("expected '.' or '[' after bracket segment"@),
{
    let n = k.len() as int;
    let a = seq!['['] + t;
    assert(t.len() > 0 ==> a[1] == t[0]);
    let b = seq!['[', '"'] + k;
    assert(b.skip(2) =~= k);
    assert forall|i: int| 0 <= i < n implies #[trigger] k[i] != '"' by {
        assert(k.contains(k[i]));
    }
    lemma_run_is(k, '"', '"', n);
    let c = seq!['[', '"', '"'] + t;
    assert(c.skip(2)[0] == '"');
    lemma_run_is(c.skip(2), '"', '"', 0);
    let d = seq!['[', '"'] + k + seq!['"'] + t;
    assert forall|i: int| 0 <= i < n implies #[trigger] d.skip(2)[i] != '"' by {
        assert(d.skip(2)[i] == k[i]);
    }
    assert(d.skip(2)[n] == '"');
    lemma_run_is(d.skip(2), '"', '"', n);
    assert(t.len() > 0 ==> d[n + 3] == t[0]);
    let e = seq!['[', '"'] + k + seq!['"', ']'] + t;
    assert forall|i: int| 0 <= i < n implies #[trigger] e.skip(2)[i] != '"' by {
        assert(e.skip(2)[i] == k[i]);
    }
    assert(e.skip(2)[n] == '"');
    lemma_run_is(e.skip(2), '"', '"', n);
    assert(e[n + 3] == ']');
    assert(e.skip(n + 4) =~= t);
}

/// What a root token leaves of a text, and what may follow one.
pub proof fn law_root_tokens_are_taken_off(s: Seq<char>, k: Seq<char>)
    ensures
        root_of(s) matches Ok((root, rest)) ==> s == token(root) + rest && after_root(rest),
        root_of(s) is Ok <==> exists|root: Root, rest: Seq<char>| s == #[trigger] (token(root)
            + rest) && (rest.len() == 0 || rest[0] == '.' || rest[0] == '['),
        after_root(s) <==> s.len() == 0 || s[0] == '.' || s[0] == '[',
        token(Root::Dollar) == seq!['$'],
        token(Root::Ctx) == seq!['c', 't', 'x'],
        dot_safe(k) <==> k.len() > 0 && !k.contains('.') && !k.contains('[') && !k.contains(']'),
{
    lemma_literals();
    if starts(s, "ctx"@) {
        assert(s =~= token(Root::Ctx) + s.skip(3));
    }
    if starts(s, "$"@) {
        assert(s =~= token(Root::Dollar) + s.skip(1));
    }
    if exists|root: Root, rest: Seq<char>| s == #[trigger] (token(root) + rest) && (rest.len() == 0
        || rest[0] == '.' || rest[0] == '[') {
        let (root, rest) = choose|root: Root, rest: Seq<char>| s == #[trigger] (token(root) + rest)
            && (rest.len() == 0 || rest[0] == '.' || rest[0] == '[');
        match root {
            Root::Ctx => {
                assert(s.take(3) =~= "ctx"@);
                assert(s.skip(3) =~= rest);
            },
            Root::Dollar => {
                assert(s[0] == '$');
                assert(!starts(s, "ctx"@)) by {
                    if s.len() >= 3 {
                        assert(s.take(3)[0] == '$');
                        assert("ctx"@[0] == 'c');
                    }
                }
                assert(s.take(1) =~= "$"@);
                assert(s.skip(1) =~= rest);
            },
        }
    }
    if let Ok((root, rest)) = root_of(s) {
        assert(s == token(root) + rest);
    }
}

} // verus!
