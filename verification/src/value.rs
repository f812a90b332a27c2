//! JSON values, and the mathematical values that the contracts speak of.

use crate::float::{
    abs, is_finite, is_magnitude, is_neg, lemma_two_pos, of_i64, of_u64, spec_of_int, two,
    units, Float,
};
use crate::text::{
    lemma_rank_chain, lemma_rank_equal, lemma_rank_flip, rank_text, same_text, text_rank, Rank,
};
use vstd::prelude::*;

verus! {

/// A JSON number: an integer that is not negative, a negative integer, or a finite float.
#[derive(Clone, Copy, Debug, PartialEq)]
pub enum Number {
    PosInt(u64),
    NegInt(i64),
    Float(Float),
}

/// The bits of the double nearest to a number.
pub open spec fn number_bits(n: Number) -> u64 {
    match n {
        Number::PosInt(i) => spec_of_int(i as int),
        Number::NegInt(i) => spec_of_int(i as int),
        Number::Float(f) => f.spec_bits(),
    }
}

/// Whether a double can hold a number: all but some integers above two to the power 53.
pub open spec fn exact(n: Number) -> bool {
    match n {
        Number::PosInt(i) => units(number_bits(n)) == i * two(1074),
        Number::NegInt(i) => units(number_bits(n)) == i * two(1074),
        Number::Float(_) => true,
    }
}

impl Number {
    /// Whether a double can hold the number.
    pub fn is_exact(&self) -> (r: bool)
        ensures
            r == exact(*self),
    {
        proof {
            lemma_two_pos(1074);
        }
        match self {
            Number::PosInt(i) => {
                let bits = of_u64(*i);
                proof {
                    assert(!is_neg(bits));
                }
                is_magnitude(bits, *i)
            },
            Number::NegInt(i) => {
                let bits = of_i64(*i);
                let size: u64 = if *i < 0 {
                    (-(*i as i128)) as u64
                } else {
                    *i as u64
                };
                proof {
                    let w = two(1074);
                    let u = units(bits);
                    assert(is_neg(bits) == (*i < 0));
                    assert((abs(u) == size * w) == (u == *i * w)) by (nonlinear_arith)
                        requires
                            *i < 0 ==> u <= 0 && abs(u) == -u && size == -*i,
                            *i >= 0 ==> u >= 0 && abs(u) == u && size == *i,
                    ;
                }
                is_magnitude(bits, size)
            },
            Number::Float(_) => true,
        }
    }

    /// The bits of the double nearest to the number.
    pub fn bits(&self) -> (r: u64)
        ensures
            r == number_bits(*self),
            is_finite(r),
    {
        match self {
            Number::PosInt(i) => of_u64(*i),
            Number::NegInt(i) => of_i64(*i),
            Number::Float(f) => f.bits(),
        }
    }
}

/// A JSON value.
#[derive(Debug, PartialEq)]
pub enum Value {
    Null,
    Bool(bool),
    Number(Number),
    String(String),
    Array(Vec<Value>),
    Object(Object),
}

/// A JSON object: its members, ordered by key, each key once.
#[derive(Debug, PartialEq)]
pub struct Object {
    entries: Vec<(String, Value)>,
}

/// What a [`Value`] stands for.
pub enum Json {
    Null,
    Bool(bool),
    Num(Number),
    Str(Seq<char>),
    Arr(Seq<Json>),
    Obj(Map<Seq<char>, Json>),
}

impl Value {
    /// What the value stands for.
    pub open spec fn view(&self) -> Json
        decreases *self, 0nat,
    {
        match *self {
            Value::Null => Json::Null,
            Value::Bool(b) => Json::Bool(b),
            Value::Number(n) => Json::Num(n),
            Value::String(s) => Json::Str(s@),
            Value::Array(items) => Json::Arr(views(items@)),
            Value::Object(o) => Json::Obj(o@),
        }
    }
}

/// What each of a sequence of values stands for.
pub open spec fn views(s: Seq<Value>) -> Seq<Json>
    decreases s, s.len(),
{
    if s.len() == 0 {
        Seq::empty()
    } else {
        views(s.drop_last()).push(s.last()@)
    }
}

/// The members of an object as a map; of two members with one key the later counts.
pub closed spec fn entry_map(s: Seq<(String, Value)>) -> Map<Seq<char>, Json>
    decreases s, s.len(),
{
    if s.len() == 0 {
        Map::empty()
    } else {
        entry_map(s.drop_last()).insert(s.last().0@, s.last().1@)
    }
}

/// Whether the keys strictly increase.
pub closed spec fn ordered(s: Seq<(String, Value)>) -> bool {
    forall|i: int, j: int|
        0 <= i < j < s.len() ==> text_rank(#[trigger] s[i].0@, #[trigger] s[j].0@) == Rank::Less
}

/// Whether the texts strictly increase.
pub open spec fn increasing(s: Seq<Seq<char>>) -> bool {
    forall|i: int, j: int|
        0 <= i < j < s.len() ==> text_rank(#[trigger] s[i], #[trigger] s[j]) == Rank::Less
}

/// The keys of an object in order.
pub open spec fn sorted_keys(m: Map<Seq<char>, Json>) -> Seq<Seq<char>> {
    choose|s: Seq<Seq<char>>|
        increasing(s) && forall|k: Seq<char>| s.contains(k) <==> #[trigger] m.contains_key(k)
}

/// Texts have one increasing order.
proof fn lemma_increasing_once(a: Seq<Seq<char>>, b: Seq<Seq<char>>)
    requires
        increasing(a),
        increasing(b),
        forall|k: Seq<char>| a.contains(k) <==> b.contains(k),
    ensures
        a == b,
    decreases a.len(),
{
    if a.len() == 0 {
        if b.len() > 0 {
            assert(b.contains(b[0]));
        }
        assert(a =~= b);
    } else {
        assert(a.contains(a.last()));
        let j = choose|j: int| 0 <= j < b.len() && b[j] == a.last();
        assert(b.contains(b.last()));
        let i = choose|i: int| 0 <= i < a.len() && a[i] == b.last();
        if j < b.len() - 1 {
            assert(text_rank(b[j], b[b.len() - 1]) == Rank::Less);
            lemma_rank_flip(b[j], b[b.len() - 1]);
            if i < a.len() - 1 {
                assert(text_rank(a[i], a[a.len() - 1]) == Rank::Less);
            } else {
                lemma_rank_equal(b[j], b[b.len() - 1]);
            }
        }
        let (x, y) = (a.drop_last(), b.drop_last());
        assert(increasing(x) && increasing(y));
        assert forall|k: Seq<char>| x.contains(k) <==> y.contains(k) by {
            if x.contains(k) {
                let n = choose|n: int| 0 <= n < x.len() && x[n] == k;
                assert(a[n] == k);
                assert(a.contains(k));
                let m = choose|m: int| 0 <= m < b.len() && b[m] == k;
                assert(text_rank(a[n], a[a.len() - 1]) == Rank::Less);
                lemma_rank_equal(a[n], a[a.len() - 1]);
                assert(y[m] == k);
            }
            if y.contains(k) {
                let n = choose|n: int| 0 <= n < y.len() && y[n] == k;
                assert(b[n] == k);
                assert(b.contains(k));
                let m = choose|m: int| 0 <= m < a.len() && a[m] == k;
                assert(text_rank(b[n], b[b.len() - 1]) == Rank::Less);
                lemma_rank_equal(b[n], b[b.len() - 1]);
                assert(x[m] == k);
            }
        }
        lemma_increasing_once(x, y);
        assert(a =~= x.push(a.last()));
        assert(b =~= y.push(b.last()));
    }
}

/// Keys that increase are [`sorted_keys`].
pub proof fn lemma_sorted_keys(m: Map<Seq<char>, Json>, s: Seq<Seq<char>>)
    requires
        increasing(s),
        forall|k: Seq<char>| s.contains(k) <==> m.contains_key(k),
    ensures
        sorted_keys(m) == s,
{
    let t = sorted_keys(m);
    assert(increasing(t) && forall|k: Seq<char>|
        t.contains(k) <==> #[trigger] m.contains_key(k)) by {
        assert(increasing(s) && forall|k: Seq<char>|
            s.contains(k) <==> #[trigger] m.contains_key(k));
    }
    assert forall|k: Seq<char>| s.contains(k) <==> t.contains(k) by {
        assert(m.contains_key(k) || !m.contains_key(k));
    }
    lemma_increasing_once(s, t);
}

/// [`views`] maps each item, and keeps its place.
pub broadcast proof fn lemma_views(s: Seq<Value>)
    ensures
        (#[trigger] views(s)).len() == s.len(),
        forall|i: int| 0 <= i < s.len() ==> #[trigger] views(s)[i] == s[i]@,
    decreases s.len(),
{
    if s.len() > 0 {
        lemma_views(s.drop_last());
    }
}

/// [`views`] of a sequence with one more item.
pub broadcast proof fn lemma_views_push(s: Seq<Value>, v: Value)
    ensures
        #[trigger] views(s.push(v)) == views(s).push(v@),
{
    assert(s.push(v).drop_last() =~= s);
}

proof fn lemma_entry_map(s: Seq<(String, Value)>)
    requires
        ordered(s),
    ensures
        entry_map(s).dom().finite(),
        entry_map(s).dom().len() == s.len(),
        forall|i: int|
            0 <= i < s.len() ==> entry_map(s).contains_key(#[trigger] s[i].0@)
                && entry_map(s)[s[i].0@] == s[i].1@,
        forall|k: Seq<char>| #[trigger]
            entry_map(s).contains_key(k) ==> exists|i: int|
                0 <= i < s.len() && #[trigger] s[i].0@ == k,
    decreases s.len(),
{
    if s.len() > 0 {
        let t = s.drop_last();
        assert(ordered(t));
        lemma_entry_map(t);
        assert(!entry_map(t).contains_key(s.last().0@)) by {
            if entry_map(t).contains_key(s.last().0@) {
                let i = choose|i: int| 0 <= i < t.len() && #[trigger] t[i].0@ == s.last().0@;
                assert(s[i].0@ == s[s.len() - 1].0@);
                lemma_rank_equal(s[i].0@, s[s.len() - 1].0@);
            }
        }
        assert forall|i: int| 0 <= i < s.len() implies entry_map(s).contains_key(
            #[trigger] s[i].0@,
        ) && entry_map(s)[s[i].0@] == s[i].1@ by {
            if i < t.len() {
                assert(t[i] == s[i]);
            }
        }
        assert forall|k: Seq<char>| #[trigger] entry_map(s).contains_key(k) implies exists|i: int|
            0 <= i < s.len() && #[trigger] s[i].0@ == k by {
            if k == s.last().0@ {
                assert(s[s.len() - 1].0@ == k);
            } else {
                assert(entry_map(t).contains_key(k));
                let i = choose|i: int| 0 <= i < t.len() && #[trigger] t[i].0@ == k;
                assert(s[i].0@ == k);
            }
        }
    }
}

impl Object {
    /// The members as a map.
    pub closed spec fn view(&self) -> Map<Seq<char>, Json>
        decreases *self, 1nat,
    {
        entry_map(self.entries@)
    }

    #[verifier::type_invariant]
    spec fn inv(self) -> bool {
        ordered(self.entries@)
    }

    /// The members in key order.
    pub closed spec fn members(self) -> Seq<(String, Value)> {
        self.entries@
    }

    /// The keys in order.
    pub open spec fn keys(self) -> Seq<Seq<char>> {
        Seq::new(self.members().len(), |i: int| self.members()[i].0@)
    }

    /// The value of a member is a part of the object.
    pub proof fn lemma_member_decreases(self, i: int)
        requires
            0 <= i < self.members().len(),
        ensures
            decreases_to!(self => self.members()[i].1),
    {
        assert(decreases_to!(self => self.entries));
        assert(decreases_to!(self.entries => self.entries@));
        assert(decreases_to!(self.entries@ => self.entries@[i]));
        assert(decreases_to!(self.entries@[i] => self.entries@[i].1));
    }

    /// An object without members.
    pub fn new() -> (r: Object)
        ensures
            r@ == Map::<Seq<char>, Json>::empty(),
    {
        Object { entries: Vec::new() }
    }

    /// How many members there are.
    pub fn len(&self) -> (r: usize)
        ensures
            self@.dom().finite(),
            r == self@.dom().len(),
            r == self.members().len(),
            forall|k: Seq<char>| #[trigger]
                self@.contains_key(k) ==> exists|i: int|
                    0 <= i < r && #[trigger] self.members()[i].0@ == k,
            forall|i: int|
                0 <= i < r ==> self@.contains_key(#[trigger] self.members()[i].0@)
                    && self@[self.members()[i].0@] == self.members()[i].1@,
            increasing(self.keys()),
            sorted_keys(self@) == self.keys(),
    {
        proof {
            use_type_invariant(self);
            lemma_entry_map(self.entries@);
            let ks = self.keys();
            assert forall|i: int, j: int| 0 <= i < j < ks.len() implies text_rank(
                #[trigger] ks[i],
                #[trigger] ks[j],
            ) == Rank::Less by {
                assert(text_rank(self.entries@[i].0@, self.entries@[j].0@) == Rank::Less);
            }
            assert forall|k: Seq<char>| ks.contains(k) <==> self@.contains_key(k) by {
                if ks.contains(k) {
                    let i = choose|i: int| 0 <= i < ks.len() && ks[i] == k;
                    assert(self.entries@[i].0@ == k);
                }
                if self@.contains_key(k) {
                    let i = choose|i: int|
                        0 <= i < self.entries@.len() && #[trigger] self.entries@[i].0@ == k;
                    assert(ks[i] == k);
                }
            }
            lemma_sorted_keys(self@, ks);
        }
        self.entries.len()
    }

    /// The key of the member at the given place in key order.
    pub fn key_at(&self, i: usize) -> (r: &String)
        requires
            i < self.members().len(),
        ensures
            *r == self.members()[i as int].0,
    {
        &self.entries[i].0
    }

    /// The value of the member at the given place in key order.
    pub fn value_at(&self, i: usize) -> (r: &Value)
        requires
            i < self.members().len(),
        ensures
            *r == self.members()[i as int].1,
    {
        &self.entries[i].1
    }

    /// The first position whose key does not come before `key`.
    fn position(&self, key: &str) -> (r: usize)
        ensures
            r <= self.entries@.len(),
            forall|i: int|
                0 <= i < r ==> text_rank(#[trigger] self.entries@[i].0@, key@) == Rank::Less,
            r < self.entries@.len() ==> text_rank(self.entries@[r as int].0@, key@) != Rank::Less,
    {
        let mut i: usize = 0;
        while i < self.entries.len() && rank_text(self.entries[i].0.as_str(), key) == Rank::Less
            invariant
                i <= self.entries@.len(),
                forall|j: int|
                    0 <= j < i ==> text_rank(#[trigger] self.entries@[j].0@, key@) == Rank::Less,
            decreases self.entries@.len() - i,
        {
            i = i + 1;
        }
        i
    }

    /// The member with the given key.
    pub fn get(&self, key: &str) -> (r: Option<&Value>)
        ensures
            match r {
                Some(v) => self@.contains_key(key@) && v@ == self@[key@],
                None => !self@.contains_key(key@),
            },
    {
        let i = self.position(key);
        proof {
            use_type_invariant(self);
            lemma_entry_map(self.entries@);
        }
        if i < self.entries.len() && same_text(self.entries[i].0.as_str(), key) {
            Some(&self.entries[i].1)
        } else {
            proof {
                if self@.contains_key(key@) {
                    let j = choose|j: int|
                        0 <= j < self.entries@.len() && #[trigger] self.entries@[j].0@ == key@;
                    lemma_rank_equal(self.entries@[j].0@, key@);
                    if j > i {
                        lemma_rank_flip(self.entries@[i as int].0@, key@);
                        lemma_rank_equal(self.entries@[i as int].0@, key@);
                    }
                }
            }
            None
        }
    }

    /// Sets the member with the given key.
    pub fn insert(&mut self, key: String, value: Value)
        ensures
            final(self)@ == old(self)@.insert(key@, value@),
    {
        let i = self.position(key.as_str());
        let mut e: Vec<(String, Value)> = Vec::new();
        proof {
            use_type_invariant(&*self);
            lemma_entry_map(self.entries@);
        }
        let ghost old_e = self.entries@;
        std::mem::swap(&mut e, &mut self.entries);
        let ghost k = key@;
        let ghost v = value@;
        if i < e.len() && same_text(e[i].0.as_str(), key.as_str()) {
            e.set(i, (key, value));
            proof {
                assert(ordered(e@));
                lemma_entry_map(e@);
                assert(entry_map(e@) =~= entry_map(old_e).insert(k, v)) by {
                    lemma_same_map(old_e, e@, i as int, k, v);
                }
            }
        } else {
            proof {
                if i < old_e.len() {
                    lemma_rank_equal(old_e[i as int].0@, k);
                    lemma_rank_flip(k, old_e[i as int].0@);
                }
            }
            e.insert(i, (key, value));
            proof {
                lemma_insert_ordered(old_e, i as int, e@[i as int]);
                lemma_entry_map(e@);
                lemma_insert_map(old_e, i as int, e@[i as int]);
            }
        }
        self.entries = e;
    }
}

impl Object {
    /// Takes the member with the given key out.
    pub fn remove(&mut self, key: &str) -> (r: Option<Value>)
        ensures
            final(self)@ == old(self)@.remove(key@),
            match r {
                Some(v) => old(self)@.contains_key(key@) && v@ == old(self)@[key@],
                None => !old(self)@.contains_key(key@),
            },
    {
        let found = self.get(key).is_some();
        let i = self.position(key);
        let mut e: Vec<(String, Value)> = Vec::new();
        proof {
            use_type_invariant(&*self);
            lemma_entry_map(self.entries@);
            assert(!self@.contains_key(key@) ==> self@.remove(key@) =~= self@);
        }
        if !found {
            return None;
        }
        let ghost old_e = self.entries@;
        proof {
            let j = choose|j: int| 0 <= j < old_e.len() && #[trigger] old_e[j].0@ == key@;
            lemma_rank_equal(old_e[j].0@, key@);
            if j > i {
                lemma_rank_flip(old_e[i as int].0@, key@);
                lemma_rank_equal(old_e[i as int].0@, key@);
            }
            assert(j == i);
        }
        std::mem::swap(&mut e, &mut self.entries);
        let taken = e.remove(i);
        proof {
            lemma_remove_map(old_e, i as int);
        }
        self.entries = e;
        Some(taken.1)
    }
}

proof fn lemma_remove_map(s: Seq<(String, Value)>, i: int)
    requires
        ordered(s),
        0 <= i < s.len(),
    ensures
        ordered(s.remove(i)),
        entry_map(s.remove(i)) == entry_map(s).remove(s[i].0@),
{
    let t = s.remove(i);
    assert forall|a: int, b: int| 0 <= a < b < t.len() implies text_rank(
        #[trigger] t[a].0@,
        #[trigger] t[b].0@,
    ) == Rank::Less by {
        let a1 = if a < i { a } else { a + 1 };
        let b1 = if b < i { b } else { b + 1 };
        assert(t[a] == s[a1]);
        assert(t[b] == s[b1]);
    }
    lemma_entry_map(s);
    lemma_entry_map(t);
    let k = s[i].0@;
    assert forall|x: Seq<char>| entry_map(t).contains_key(x) <==> #[trigger] entry_map(s).remove(
        k,
    ).contains_key(x) by {
        if entry_map(t).contains_key(x) {
            let j = choose|j: int| 0 <= j < t.len() && #[trigger] t[j].0@ == x;
            let j1 = if j < i { j } else { j + 1 };
            assert(s[j1].0@ == x);
            lemma_rank_equal(s[j1].0@, s[i].0@);
            lemma_rank_equal(s[i].0@, s[j1].0@);
        }
        if entry_map(s).contains_key(x) && x != k {
            let j = choose|j: int| 0 <= j < s.len() && #[trigger] s[j].0@ == x;
            let j1 = if j < i { j } else { j - 1 };
            assert(t[j1].0@ == x);
        }
    }
    assert forall|x: Seq<char>| #[trigger] entry_map(t).contains_key(x) implies entry_map(t)[x]
        == entry_map(s).remove(k)[x] by {
        let j = choose|j: int| 0 <= j < t.len() && #[trigger] t[j].0@ == x;
        let j1 = if j < i { j } else { j + 1 };
        assert(s[j1].0@ == x);
        assert(entry_map(s).remove(k).contains_key(x));
    }
    assert(entry_map(t) =~= entry_map(s).remove(k));
}

impl Clone for Value {
    fn clone(&self) -> (r: Self)
        ensures
            r@ == self@,
        decreases self,
    {
        broadcast use {lemma_views, lemma_views_push};

        match self {
            Value::Null => Value::Null,
            Value::Bool(b) => Value::Bool(*b),
            Value::Number(n) => Value::Number(*n),
            Value::String(s) => Value::String(s.clone()),
            Value::Array(items) => {
                let mut out: Vec<Value> = Vec::new();
                for i in 0..items.len()
                    invariant
                        *self == Value::Array(*items),
                        views(out@) == views(items@.take(i as int)),
                {
                    broadcast use {lemma_views, lemma_views_push};

                    proof {
                        assert(decreases_to!(*self => self->Array_0));
                        assert(decreases_to!(*items => items@));
                        assert(decreases_to!(items@ => items@[i as int]));
                    }
                    let item = items[i].clone();
                    out.push(item);
                    proof {
                        assert(items@.take(i + 1) =~= items@.take(i as int).push(items@[i as int]));
                    }
                }
                proof {
                    assert(items@.take(items@.len() as int) =~= items@);
                }
                Value::Array(out)
            },
            Value::Object(o) => {
                let mut out = Object::new();
                let n = o.len();
                let ghost m = o.members();
                for i in 0..n
                    invariant
                        *self == Value::Object(*o),
                        m == o.members(),
                        n == m.len(),
                        out@ == entry_map(m.take(i as int)),
                {
                    proof {
                        assert(m.take(i + 1).drop_last() =~= m.take(i as int));
                    }
                    let v = o.value_at(i);
                    proof {
                        assert(decreases_to!(*self => self->Object_0));
                        assert(decreases_to!(*o => o.entries));
                        assert(decreases_to!(o.entries => o.entries@));
                        assert(decreases_to!(o.entries@ => o.entries@[i as int]));
                        assert(decreases_to!(o.entries@[i as int] => o.entries@[i as int].1));
                    }
                    let c = v.clone();
                    out.insert(o.key_at(i).clone(), c);
                }
                proof {
                    assert(m.take(n as int) =~= m);
                }
                Value::Object(out)
            },
        }
    }
}

proof fn lemma_same_map(s: Seq<(String, Value)>, t: Seq<(String, Value)>, i: int, k: Seq<char>, v: Json)
    requires
        ordered(s),
        ordered(t),
        0 <= i < s.len(),
        t == s.update(i, t[i]),
        t[i].0@ == k,
        s[i].0@ == k,
        t[i].1@ == v,
    ensures
        entry_map(t) == entry_map(s).insert(k, v),
{
    lemma_entry_map(s);
    lemma_entry_map(t);
    assert forall|x: Seq<char>| entry_map(t).contains_key(x) <==> #[trigger] entry_map(s).insert(
        k,
        v,
    ).contains_key(x) by {
        if entry_map(t).contains_key(x) {
            let j = choose|j: int| 0 <= j < t.len() && #[trigger] t[j].0@ == x;
            assert(s[j].0@ == x);
        }
        if entry_map(s).contains_key(x) {
            let j = choose|j: int| 0 <= j < s.len() && #[trigger] s[j].0@ == x;
            assert(t[j].0@ == x);
        }
    }
    assert forall|x: Seq<char>| #[trigger] entry_map(t).contains_key(x) implies entry_map(t)[x]
        == entry_map(s).insert(k, v)[x] by {
        let j = choose|j: int| 0 <= j < t.len() && #[trigger] t[j].0@ == x;
        if j != i {
            assert(s[j].0@ == x);
            if x == k {
                lemma_rank_equal(s[i].0@, s[j].0@);
                lemma_rank_equal(s[j].0@, s[i].0@);
            }
        }
    }
    assert(entry_map(t) =~= entry_map(s).insert(k, v));
}

proof fn lemma_insert_ordered(s: Seq<(String, Value)>, i: int, e: (String, Value))
    requires
        ordered(s),
        0 <= i <= s.len(),
        forall|j: int| 0 <= j < i ==> text_rank(#[trigger] s[j].0@, e.0@) == Rank::Less,
        i < s.len() ==> text_rank(e.0@, s[i].0@) == Rank::Less,
    ensures
        ordered(s.insert(i, e)),
{
    let t = s.insert(i, e);
    assert forall|a: int, b: int| 0 <= a < b < t.len() implies text_rank(
        #[trigger] t[a].0@,
        #[trigger] t[b].0@,
    ) == Rank::Less by {
        if a < i {
            assert(t[a] == s[a]);
        } else if a > i {
            assert(t[a] == s[a - 1]);
        }
        if b < i {
            assert(t[b] == s[b]);
        } else if b > i {
            assert(t[b] == s[b - 1]);
        }
        if a == i {
            if b - 1 > i {
                lemma_rank_chain(e.0@, s[i].0@, s[b - 1].0@);
            }
        }
    }
}

proof fn lemma_insert_map(s: Seq<(String, Value)>, i: int, e: (String, Value))
    requires
        ordered(s),
        0 <= i <= s.len(),
        ordered(s.insert(i, e)),
    ensures
        entry_map(s.insert(i, e)) == entry_map(s).insert(e.0@, e.1@),
{
    let t = s.insert(i, e);
    lemma_entry_map(s);
    lemma_entry_map(t);
    assert(t[i] == e);
    assert forall|x: Seq<char>| entry_map(t).contains_key(x) <==> #[trigger] entry_map(s).insert(
        e.0@,
        e.1@,
    ).contains_key(x) by {
        if entry_map(t).contains_key(x) {
            let j = choose|j: int| 0 <= j < t.len() && #[trigger] t[j].0@ == x;
            if j < i {
                assert(s[j].0@ == x);
            } else if j > i {
                assert(s[j - 1].0@ == x);
            }
        }
        if entry_map(s).contains_key(x) {
            let j = choose|j: int| 0 <= j < s.len() && #[trigger] s[j].0@ == x;
            if j < i {
                assert(t[j].0@ == x);
            } else {
                assert(t[j + 1].0@ == x);
            }
        }
        if x == e.0@ {
            assert(t[i].0@ == x);
        }
    }
    assert forall|x: Seq<char>| #[trigger] entry_map(t).contains_key(x) implies entry_map(t)[x]
        == entry_map(s).insert(e.0@, e.1@)[x] by {
        let j = choose|j: int| 0 <= j < t.len() && #[trigger] t[j].0@ == x;
        if j != i {
            if x == e.0@ {
                assert(t[i].0@ == x);
                lemma_rank_equal(t[i].0@, t[j].0@);
                lemma_rank_equal(t[j].0@, t[i].0@);
            }
            if j < i {
                assert(s[j].0@ == x);
            } else {
                assert(s[j - 1].0@ == x);
            }
        }
    }
    assert(entry_map(t) =~= entry_map(s).insert(e.0@, e.1@));
}

} // verus!
