//! A JSON document model, the shape `studio.json` and the LLM settings take.
//!
//! Objects keep their entries ordered by key with no key twice, the way a
//! `serde_json::Map` (a `BTreeMap` in this build) keeps them. Numbers are kept
//! by their textual form: the studio never does arithmetic on them, it only
//! carries them from one place to another.

use vstd::prelude::*;
use crate::text::{owned, seq_lt, str_eq, str_lt};

verus! {

broadcast use vstd::std_specs::vec::group_vec_axioms;

/// A JSON value.
#[derive(Debug, PartialEq, Eq)]
pub enum Json {
    Null,
    Bool(bool),
    Number(String),
    Str(String),
    Array(Vec<Json>),
    Object(Vec<(String, Json)>),
}

/// The mathematical JSON value a `Json` stands for.
pub enum JsonV {
    Null,
    Bool(bool),
    Number(Seq<char>),
    Str(Seq<char>),
    Array(Seq<JsonV>),
    Object(Seq<(Seq<char>, JsonV)>),
}

/// The entries of a JSON object.
pub type Entries = Seq<(Seq<char>, JsonV)>;

impl Json {
    pub open spec fn view(&self) -> JsonV
        decreases self,
    {
        match self {
            Json::Null => JsonV::Null,
            Json::Bool(b) => JsonV::Bool(*b),
            Json::Number(n) => JsonV::Number(n@),
            Json::Str(s) => JsonV::Str(s@),
            Json::Array(v) => JsonV::Array(Json::views(v@)),
            Json::Object(o) => JsonV::Object(Json::entries_view(o@)),
        }
    }

    pub open spec fn views(s: Seq<Json>) -> Seq<JsonV>
        decreases s,
    {
        if s.len() == 0 {
            Seq::empty()
        } else {
            seq![s[0].view()] + Json::views(s.subrange(1, s.len() as int))
        }
    }

    pub open spec fn entries_view(s: Seq<(String, Json)>) -> Entries
        decreases s,
    {
        if s.len() == 0 {
            Seq::empty()
        } else {
            seq![(s[0].0@, s[0].1.view())] + Json::entries_view(s.subrange(1, s.len() as int))
        }
    }
}

// ---------------------------------------------------------------------------
// Specifications of the accessors (mirroring `serde_json::Value`'s)
// ---------------------------------------------------------------------------

/// The value stored under `k`, if any (first match).
pub open spec fn obj_get(o: Entries, k: Seq<char>) -> Option<JsonV>
    decreases o.len(),
{
    if o.len() == 0 {
        None
    } else if o[0].0 == k {
        Some(o[0].1)
    } else {
        obj_get(o.drop_first(), k)
    }
}

/// `o` with `k` bound to `v`: an existing binding is replaced in place,
/// otherwise the entry goes before the first greater key.
pub open spec fn obj_insert(o: Entries, k: Seq<char>, v: JsonV) -> Entries
    decreases o.len(),
{
    if o.len() == 0 {
        seq![(k, v)]
    } else if o[0].0 == k {
        seq![(k, v)] + o.drop_first()
    } else if seq_lt(k, o[0].0) {
        seq![(k, v)] + o
    } else {
        seq![o[0]] + obj_insert(o.drop_first(), k, v)
    }
}

/// The entries whose key is not `k`.
pub open spec fn key_is_not(k: Seq<char>) -> spec_fn((Seq<char>, JsonV)) -> bool {
    |e: (Seq<char>, JsonV)| e.0 != k
}

/// `o` without any binding of `k`.
pub open spec fn obj_remove(o: Entries, k: Seq<char>) -> Entries {
    o.filter(key_is_not(k))
}

/// `o` with `k` bound to `v` only if `k` was unbound (`entry().or_insert`).
pub open spec fn obj_or_insert(o: Entries, k: Seq<char>, v: JsonV) -> Entries {
    if obj_get(o, k) is Some {
        o
    } else {
        obj_insert(o, k, v)
    }
}

/// `Value::get`: a field of an object; nothing for any other value.
pub open spec fn jget(j: JsonV, k: Seq<char>) -> Option<JsonV> {
    match j {
        JsonV::Object(o) => obj_get(o, k),
        _ => None,
    }
}

/// `Option<&Value>::and_then(|v| v.get(k))`.
pub open spec fn oget(j: Option<JsonV>, k: Seq<char>) -> Option<JsonV> {
    match j {
        Some(v) => jget(v, k),
        None => None,
    }
}

/// `Value::as_str`.
pub open spec fn as_str(j: Option<JsonV>) -> Option<Seq<char>> {
    match j {
        Some(JsonV::Str(s)) => Some(s),
        _ => None,
    }
}

/// `Value::as_str().unwrap_or("")`.
pub open spec fn str_or_empty(j: Option<JsonV>) -> Seq<char> {
    match j {
        Some(JsonV::Str(s)) => s,
        _ => Seq::empty(),
    }
}

/// `Value::as_object`.
pub open spec fn as_object(j: Option<JsonV>) -> Option<Entries> {
    match j {
        Some(JsonV::Object(o)) => Some(o),
        _ => None,
    }
}

/// `Value::as_object().cloned().unwrap_or_default()`.
pub open spec fn object_or_empty(j: Option<JsonV>) -> Entries {
    match j {
        Some(JsonV::Object(o)) => o,
        _ => Seq::empty(),
    }
}

/// `Value::as_array`.
pub open spec fn as_array(j: Option<JsonV>) -> Option<Seq<JsonV>> {
    match j {
        Some(JsonV::Array(a)) => Some(a),
        _ => None,
    }
}

/// `Value::as_bool() == Some(true)`.
pub open spec fn is_true(j: Option<JsonV>) -> bool {
    j == Some(JsonV::Bool(true))
}

/// The keys of an object, in order.
pub open spec fn obj_keys(o: Entries) -> Seq<Seq<char>> {
    o.map_values(|e: (Seq<char>, JsonV)| e.0)
}

/// Keys strictly increasing: the invariant of a `serde_json::Map`.
pub open spec fn keys_sorted(o: Entries) -> bool {
    forall|i: int, j: int| 0 <= i < j < o.len() ==> seq_lt(#[trigger] o[i].0, #[trigger] o[j].0)
}

// ---------------------------------------------------------------------------
// Lemmas on the view
// ---------------------------------------------------------------------------

pub proof fn lemma_views(s: Seq<Json>)
    ensures
        Json::views(s).len() == s.len(),
        forall|i: int| 0 <= i < s.len() ==> #[trigger] Json::views(s)[i] == s[i].view(),
    decreases s.len(),
{
    if s.len() > 0 {
        let rest = s.subrange(1, s.len() as int);
        lemma_views(rest);
        assert forall|i: int| 0 <= i < s.len() implies #[trigger] Json::views(s)[i] == s[i].view() by {
            if i > 0 {
                assert(rest[i - 1] == s[i]);
            }
        }
    }
}

pub proof fn lemma_entries_view(s: Seq<(String, Json)>)
    ensures
        Json::entries_view(s).len() == s.len(),
        forall|i: int|
            0 <= i < s.len() ==> #[trigger] Json::entries_view(s)[i] == (s[i].0@, s[i].1.view()),
    decreases s.len(),
{
    if s.len() > 0 {
        let rest = s.subrange(1, s.len() as int);
        lemma_entries_view(rest);
        assert forall|i: int| 0 <= i < s.len() implies #[trigger] Json::entries_view(s)[i] == (
        s[i].0@, s[i].1.view()) by {
            if i > 0 {
                assert(rest[i - 1] == s[i]);
            }
        }
    }
}

/// Two exec sequences with pointwise-equal views have equal views.
pub proof fn lemma_entries_view_ext(a: Seq<(String, Json)>, b: Entries)
    requires
        a.len() == b.len(),
        forall|i: int| 0 <= i < a.len() ==> (a[i].0@, a[i].1.view()) == #[trigger] b[i],
    ensures
        Json::entries_view(a) == b,
{
    lemma_entries_view(a);
    assert(Json::entries_view(a) =~= b);
}

pub proof fn lemma_views_ext(a: Seq<Json>, b: Seq<JsonV>)
    requires
        a.len() == b.len(),
        forall|i: int| 0 <= i < a.len() ==> a[i].view() == #[trigger] b[i],
    ensures
        Json::views(a) == b,
{
    lemma_views(a);
    assert(Json::views(a) =~= b);
}

// ---------------------------------------------------------------------------
// Lemmas on the object operations
// ---------------------------------------------------------------------------

/// `obj_get` finds the first entry with the key.
pub proof fn lemma_obj_get_index(o: Entries, k: Seq<char>, i: int)
    requires
        0 <= i < o.len(),
        o[i].0 == k,
        forall|j: int| 0 <= j < i ==> #[trigger] o[j].0 != k,
    ensures
        obj_get(o, k) == Some(o[i].1),
    decreases i,
{
    if i > 0 {
        assert forall|j: int| 0 <= j < i - 1 implies #[trigger] o.drop_first()[j].0 != k by {
            assert(o.drop_first()[j] == o[j + 1]);
        }
        lemma_obj_get_index(o.drop_first(), k, i - 1);
    }
}

/// `obj_get` finds nothing when no entry has the key.
pub proof fn lemma_obj_get_none(o: Entries, k: Seq<char>)
    requires
        forall|j: int| 0 <= j < o.len() ==> #[trigger] o[j].0 != k,
    ensures
        obj_get(o, k) is None,
    decreases o.len(),
{
    if o.len() > 0 {
        assert forall|j: int| 0 <= j < o.len() - 1 implies #[trigger] o.drop_first()[j].0 != k by {
            assert(o.drop_first()[j] == o[j + 1]);
        }
        lemma_obj_get_none(o.drop_first(), k);
    }
}

/// Skipping a prefix that holds neither `k` nor a greater key.
pub proof fn lemma_obj_insert_prefix(o: Entries, k: Seq<char>, v: JsonV, i: int)
    requires
        0 <= i <= o.len(),
        forall|j: int| 0 <= j < i ==> #[trigger] o[j].0 != k && !seq_lt(k, o[j].0),
    ensures
        obj_insert(o, k, v) == o.take(i) + obj_insert(o.skip(i), k, v),
    decreases i,
{
    if i > 0 {
        assert forall|j: int| 0 <= j < i - 1 implies #[trigger] o.drop_first()[j].0 != k && !seq_lt(
            k,
            o.drop_first()[j].0,
        ) by {
            assert(o.drop_first()[j] == o[j + 1]);
        }
        lemma_obj_insert_prefix(o.drop_first(), k, v, i - 1);
        assert(o.drop_first().skip(i - 1) =~= o.skip(i));
        assert(o.take(i) =~= seq![o[0]] + o.drop_first().take(i - 1));
    } else {
        assert(o.skip(0) =~= o);
    }
}

/// A binding just made is what a lookup returns.
pub proof fn lemma_obj_get_insert(o: Entries, k: Seq<char>, v: JsonV, q: Seq<char>)
    ensures
        obj_get(obj_insert(o, k, v), q) == if q == k {
            Some(v)
        } else {
            obj_get(o, q)
        },
    decreases o.len(),
{
    if o.len() == 0 {
        let r = seq![(k, v)];
        assert(r[0] == (k, v));
        assert(r.drop_first() =~= Seq::<(Seq<char>, JsonV)>::empty());
    } else if o[0].0 == k {
        let r = seq![(k, v)] + o.drop_first();
        assert(obj_insert(o, k, v) == r);
        assert(r[0] == (k, v));
        assert(r.drop_first() =~= o.drop_first());
        if q != k {
            assert(obj_get(r, q) == obj_get(o.drop_first(), q));
            assert(obj_get(o, q) == obj_get(o.drop_first(), q));
        }
    } else if seq_lt(k, o[0].0) {
        let r = seq![(k, v)] + o;
        assert(obj_insert(o, k, v) == r);
        assert(r[0] == (k, v));
        assert(r.drop_first() =~= o);
        if q != k {
            assert(obj_get(r, q) == obj_get(o, q));
        }
    } else {
        let t = obj_insert(o.drop_first(), k, v);
        let r = seq![o[0]] + t;
        assert(obj_insert(o, k, v) == r);
        assert(r[0] == o[0]);
        assert(r.drop_first() =~= t);
        lemma_obj_get_insert(o.drop_first(), k, v, q);
        if o[0].0 == q {
            assert(obj_get(r, q) == Some(o[0].1));
            assert(obj_get(o, q) == Some(o[0].1));
        } else {
            assert(obj_get(r, q) == obj_get(t, q));
            assert(obj_get(o, q) == obj_get(o.drop_first(), q));
        }
    }
}

/// After removing a key, nothing is bound to it, and the rest is untouched.
pub proof fn lemma_obj_get_remove(o: Entries, k: Seq<char>, q: Seq<char>)
    ensures
        obj_get(obj_remove(o, k), q) == if q == k {
            None
        } else {
            obj_get(o, q)
        },
    decreases o.len(),
{
    let f = key_is_not(k);
    if o.len() > 0 {
        o.lemma_filter_eq_filter_alt(f);
        lemma_obj_get_remove(o.drop_first(), k, q);
        let rest = o.drop_first().filter(f);
        if o[0].0 != k {
            assert(f(o[0]));
            let r = seq![o[0]] + rest;
            assert(r[0] == o[0]);
            assert(r.drop_first() =~= rest);
        } else {
            assert(!f(o[0]));
        }
    }
}

/// Inserting into sorted entries keeps them sorted.
pub proof fn lemma_obj_insert_sorted(o: Entries, k: Seq<char>, v: JsonV)
    requires
        keys_sorted(o),
    ensures
        keys_sorted(obj_insert(o, k, v)),
        forall|i: int|
            0 <= i < obj_insert(o, k, v).len() ==> (#[trigger] obj_insert(o, k, v)[i].0 == k || (
            exists|j: int| 0 <= j < o.len() && o[j].0 == obj_insert(o, k, v)[i].0)),
    decreases o.len(),
{
    let r = obj_insert(o, k, v);
    if o.len() == 0 {
    } else if o[0].0 == k {
        assert forall|i: int, j: int| 0 <= i < j < r.len() implies seq_lt(
            #[trigger] r[i].0,
            #[trigger] r[j].0,
        ) by {
            assert(r[j] == o[j]);
            if i > 0 {
                assert(r[i] == o[i]);
            }
        }
        assert forall|i: int| 0 <= i < r.len() implies (#[trigger] r[i].0 == k || (exists|j: int|
            0 <= j < o.len() && o[j].0 == r[i].0)) by {
            if i > 0 {
                assert(r[i] == o[i]);
            }
        }
    } else if seq_lt(k, o[0].0) {
        assert forall|i: int, j: int| 0 <= i < j < r.len() implies seq_lt(
            #[trigger] r[i].0,
            #[trigger] r[j].0,
        ) by {
            assert(r[j] == o[j - 1]);
            if i > 0 {
                assert(r[i] == o[i - 1]);
            } else if j - 1 > 0 {
                crate::text::lemma_seq_lt_transitive(k, o[0].0, o[j - 1].0);
            }
        }
        assert forall|i: int| 0 <= i < r.len() implies (#[trigger] r[i].0 == k || (exists|j: int|
            0 <= j < o.len() && o[j].0 == r[i].0)) by {
            if i > 0 {
                assert(r[i] == o[i - 1]);
            }
        }
    } else {
        let t = o.drop_first();
        assert(keys_sorted(t)) by {
            assert forall|i: int, j: int| 0 <= i < j < t.len() implies seq_lt(
                #[trigger] t[i].0,
                #[trigger] t[j].0,
            ) by {
                assert(t[i] == o[i + 1]);
                assert(t[j] == o[j + 1]);
            }
        }
        lemma_obj_insert_sorted(t, k, v);
        let rt = obj_insert(t, k, v);
        crate::text::lemma_seq_lt_total(k, o[0].0);
        assert forall|i: int| 0 <= i < r.len() implies (#[trigger] r[i].0 == k || (exists|j: int|
            0 <= j < o.len() && o[j].0 == r[i].0)) by {
            if i > 0 {
                assert(r[i] == rt[i - 1]);
                if rt[i - 1].0 != k {
                    let j = choose|j: int| 0 <= j < t.len() && t[j].0 == rt[i - 1].0;
                    assert(o[j + 1] == t[j]);
                }
            }
        }
        assert forall|i: int, j: int| 0 <= i < j < r.len() implies seq_lt(
            #[trigger] r[i].0,
            #[trigger] r[j].0,
        ) by {
            assert(r[j] == rt[j - 1]);
            if i > 0 {
                assert(r[i] == rt[i - 1]);
            } else {
                assert(r[0] == o[0]);
                if rt[j - 1].0 == k {
                } else {
                    let m = choose|m: int| 0 <= m < t.len() && t[m].0 == rt[j - 1].0;
                    assert(o[m + 1] == t[m]);
                }
            }
        }
    }
}

// ---------------------------------------------------------------------------
// Construction
// ---------------------------------------------------------------------------

impl Json {
    /// A copy with the same value.
    #[verifier::loop_isolation(false)]
    pub fn duplicate(&self) -> (r: Json)
        ensures
            r.view() == self.view(),
        decreases self,
    {
        match self {
            Json::Null => Json::Null,
            Json::Bool(b) => Json::Bool(*b),
            Json::Number(n) => Json::Number(n.clone()),
            Json::Str(s) => Json::Str(s.clone()),
            Json::Array(v) => {
                let mut out: Vec<Json> = Vec::new();
                let mut i: usize = 0;
                while i < v.len()
                    invariant
                        i <= v.len(),
                        out@.len() == i,
                        forall|j: int| 0 <= j < i ==> (#[trigger] out@[j]).view() == v@[j].view(),
                    decreases v.len() - i,
                {
                    assert(decreases_to!(*self => v@));
                    assert(decreases_to!(v@ => v@[i as int]));
                    let x = v[i].duplicate();
                    out.push(x);
                    i += 1;
                }
                proof {
                    lemma_views(v@);
                    lemma_views_ext(out@, Json::views(v@));
                }
                Json::Array(out)
            },
            Json::Object(o) => {
                let mut out: Vec<(String, Json)> = Vec::new();
                let mut i: usize = 0;
                while i < o.len()
                    invariant
                        i <= o.len(),
                        out@.len() == i,
                        forall|j: int|
                            0 <= j < i ==> (#[trigger] out@[j]).0@ == o@[j].0@ && out@[j].1.view()
                                == o@[j].1.view(),
                    decreases o.len() - i,
                {
                    assert(decreases_to!(*self => o@));
                    assert(decreases_to!(o@ => o@[i as int]));
                    assert(decreases_to!(o@[i as int] => o@[i as int].1));
                    let k = o[i].0.clone();
                    let x = o[i].1.duplicate();
                    out.push((k, x));
                    i += 1;
                }
                proof {
                    lemma_entries_view(o@);
                    lemma_entries_view_ext(out@, Json::entries_view(o@));
                }
                Json::Object(out)
            },
        }
    }

    pub fn str(s: &str) -> (r: Json)
        ensures
            r.view() == JsonV::Str(s@),
    {
        Json::Str(owned(s))
    }

    pub fn empty_object() -> (r: Json)
        ensures
            r.view() == JsonV::Object(Seq::empty()),
    {
        let o: Vec<(String, Json)> = Vec::new();
        proof {
            lemma_entries_view(o@);
        }
        assert(Json::entries_view(o@) =~= Seq::<(Seq<char>, JsonV)>::empty());
        Json::Object(o)
    }

    pub fn array(v: Vec<Json>) -> (r: Json)
        ensures
            r.view() == JsonV::Array(Json::views(v@)),
    {
        Json::Array(v)
    }

    /// `Value::is_null`.
    pub fn is_null(&self) -> (b: bool)
        ensures
            b == (self.view() is Null),
    {
        match self {
            Json::Null => true,
            _ => false,
        }
    }

    /// `Value::is_object`.
    pub fn is_object(&self) -> (b: bool)
        ensures
            b == (self.view() is Object),
    {
        match self {
            Json::Object(_) => true,
            _ => false,
        }
    }

    /// `Value::as_bool() == Some(true)`.
    pub fn is_true(&self) -> (b: bool)
        ensures
            b == is_true(Some(self.view())),
    {
        match self {
            Json::Bool(b) => *b,
            _ => false,
        }
    }

    /// `Value::as_str`.
    pub fn as_str(&self) -> (r: Option<&String>)
        ensures
            match r {
                Some(s) => as_str(Some(self.view())) == Some(s@),
                None => as_str(Some(self.view())) is None,
            },
    {
        match self {
            Json::Str(s) => Some(s),
            _ => None,
        }
    }

    /// `Value::as_object`.
    pub fn as_object(&self) -> (r: Option<&Vec<(String, Json)>>)
        ensures
            match r {
                Some(o) => as_object(Some(self.view())) == Some(Json::entries_view(o@)),
                None => as_object(Some(self.view())) is None,
            },
    {
        match self {
            Json::Object(o) => Some(o),
            _ => None,
        }
    }

    /// `Value::as_array`.
    pub fn as_array(&self) -> (r: Option<&Vec<Json>>)
        ensures
            match r {
                Some(a) => as_array(Some(self.view())) == Some(Json::views(a@)),
                None => as_array(Some(self.view())) is None,
            },
    {
        match self {
            Json::Array(a) => Some(a),
            _ => None,
        }
    }

    /// `Value::get`.
    pub fn get(&self, key: &str) -> (r: Option<&Json>)
        ensures
            opt_view(r) == jget(self.view(), key@),
    {
        match self {
            Json::Object(o) => entries_get(o, key),
            _ => None,
        }
    }
}

/// The view of an optional reference.
pub open spec fn opt_view(r: Option<&Json>) -> Option<JsonV> {
    match r {
        Some(j) => Some(j.view()),
        None => None,
    }
}

/// The view of an optional value.
pub open spec fn opt_json(r: Option<Json>) -> Option<JsonV> {
    match r {
        Some(j) => Some(j.view()),
        None => None,
    }
}

/// `Option<&Value>::and_then(|v| v.get(k))`.
pub fn get_in<'a>(j: Option<&'a Json>, key: &str) -> (r: Option<&'a Json>)
    ensures
        opt_view(r) == oget(opt_view(j), key@),
{
    match j {
        Some(v) => v.get(key),
        None => None,
    }
}

/// Copies of every entry.
pub fn dup_entries(o: &Vec<(String, Json)>) -> (out: Vec<(String, Json)>)
    ensures
        Json::entries_view(out@) == Json::entries_view(o@),
{
    let mut out: Vec<(String, Json)> = Vec::new();
    let mut i: usize = 0;
    while i < o.len()
        invariant
            i <= o.len(),
            out@.len() == i,
            forall|j: int|
                0 <= j < i ==> (#[trigger] out@[j]).0@ == o@[j].0@ && out@[j].1.view()
                    == o@[j].1.view(),
        decreases o.len() - i,
    {
        let k = o[i].0.clone();
        let x = o[i].1.duplicate();
        out.push((k, x));
        i += 1;
    }
    proof {
        lemma_entries_view(o@);
        lemma_entries_view_ext(out@, Json::entries_view(o@));
    }
    out
}

/// `Map::get` on object entries.
pub fn entries_get<'a>(o: &'a Vec<(String, Json)>, key: &str) -> (r: Option<&'a Json>)
    ensures
        opt_view(r) == obj_get(Json::entries_view(o@), key@),
{
    let ghost ev = Json::entries_view(o@);
    proof {
        lemma_entries_view(o@);
    }
    let mut i: usize = 0;
    while i < o.len()
        invariant
            i <= o.len(),
            ev == Json::entries_view(o@),
            ev.len() == o@.len(),
            forall|j: int| 0 <= j < o@.len() ==> #[trigger] ev[j] == (o@[j].0@, o@[j].1.view()),
            forall|j: int| 0 <= j < i ==> #[trigger] ev[j].0 != key@,
        decreases o.len() - i,
    {
        if str_eq(o[i].0.as_str(), key) {
            proof {
                lemma_obj_get_index(ev, key@, i as int);
            }
            return Some(&o[i].1);
        }
        i += 1;
    }
    proof {
        lemma_obj_get_none(ev, key@);
    }
    None
}

/// `Map::insert`: binds `key` to `value`.
pub fn entries_insert(o: &mut Vec<(String, Json)>, key: String, value: Json)
    ensures
        Json::entries_view(final(o)@) == obj_insert(Json::entries_view(old(o)@), key@, value.view()),
{
    let ghost ev = Json::entries_view(o@);
    let ghost kv = key@;
    let ghost vv = value.view();
    proof {
        lemma_entries_view(o@);
    }
    let mut i: usize = 0;
    while i < o.len()
        invariant
            i <= o.len(),
            ev == Json::entries_view(old(o)@),
            o@ == old(o)@,
            ev.len() == o@.len(),
            kv == key@,
            vv == value.view(),
            forall|j: int| 0 <= j < o@.len() ==> #[trigger] ev[j] == (o@[j].0@, o@[j].1.view()),
            forall|j: int| 0 <= j < i ==> #[trigger] ev[j].0 != kv && !seq_lt(kv, ev[j].0),
        decreases o.len() - i,
    {
        let same = str_eq(o[i].0.as_str(), key.as_str());
        if same {
            proof {
                lemma_obj_insert_prefix(ev, kv, vv, i as int);
                assert(ev.skip(i as int)[0] == ev[i as int]);
                assert(ev.skip(i as int).drop_first() =~= ev.skip(i + 1));
            }
            o.set(i, (key, value));
            proof {
                lemma_entries_view(o@);
                let want = ev.take(i as int) + (seq![(kv, vv)] + ev.skip(i + 1));
                assert forall|j: int| 0 <= j < o@.len() implies (o@[j].0@, o@[j].1.view())
                    == #[trigger] want[j] by {
                    if j < i {
                        assert(want[j] == ev[j]);
                    } else if j > i {
                        assert(want[j] == ev[j]);
                    }
                }
                lemma_entries_view_ext(o@, want);
            }
            return;
        }
        let before = str_lt(key.as_str(), o[i].0.as_str());
        if before {
            proof {
                lemma_obj_insert_prefix(ev, kv, vv, i as int);
                assert(ev.skip(i as int)[0] == ev[i as int]);
            }
            o.insert(i, (key, value));
            proof {
                lemma_entries_view(o@);
                let want = ev.take(i as int) + (seq![(kv, vv)] + ev.skip(i as int));
                assert forall|j: int| 0 <= j < o@.len() implies (o@[j].0@, o@[j].1.view())
                    == #[trigger] want[j] by {
                    if j < i {
                        assert(want[j] == ev[j]);
                        assert(o@[j] == old(o)@[j]);
                    } else if j > i {
                        assert(want[j] == ev[j - 1]);
                        assert(o@[j] == old(o)@[j - 1]);
                    }
                }
                lemma_entries_view_ext(o@, want);
            }
            return;
        }
        i += 1;
    }
    proof {
        lemma_obj_insert_prefix(ev, kv, vv, i as int);
        assert(ev.take(i as int) =~= ev);
    }
    o.push((key, value));
    proof {
        lemma_entries_view(o@);
        let want = ev + seq![(kv, vv)];
        assert forall|j: int| 0 <= j < o@.len() implies (o@[j].0@, o@[j].1.view())
            == #[trigger] want[j] by {
            if j < i {
                assert(o@[j] == old(o)@[j]);
            }
        }
        lemma_entries_view_ext(o@, want);
    }
}

/// `Map::remove`: drops every binding of `key`.
pub fn entries_remove(o: &mut Vec<(String, Json)>, key: &str)
    ensures
        Json::entries_view(final(o)@) == obj_remove(Json::entries_view(old(o)@), key@),
{
    let ghost ev = Json::entries_view(o@);
    let ghost f = |e: (Seq<char>, JsonV)| e.0 != key@;
    proof {
        lemma_entries_view(o@);
    }
    let mut kept: Vec<(String, Json)> = Vec::new();
    let mut i: usize = 0;
    while i < o.len()
        invariant
            i <= o.len(),
            o@ == old(o)@,
            ev == Json::entries_view(old(o)@),
            ev.len() == o@.len(),
            f == (|e: (Seq<char>, JsonV)| e.0 != key@),
            forall|j: int| 0 <= j < o@.len() ==> #[trigger] ev[j] == (o@[j].0@, o@[j].1.view()),
            Json::entries_view(kept@) == ev.take(i as int).filter(f),
        decreases o.len() - i,
    {
        let ghost before_kept = kept@;
        proof {
            reveal_with_fuel(Seq::<_>::filter, 1);
            assert(ev.take(i + 1).drop_last() =~= ev.take(i as int));
            assert(ev.take(i + 1).last() == ev[i as int]);
        }
        if !str_eq(o[i].0.as_str(), key) {
            let k = o[i].0.clone();
            let x = o[i].1.duplicate();
            kept.push((k, x));
            proof {
                lemma_entries_view(kept@);
                lemma_entries_view(before_kept);
                lemma_entries_view_ext(kept@, Json::entries_view(before_kept).push(ev[i as int]));
            }
        }
        i += 1;
    }
    assert(ev.take(i as int) =~= ev);
    *o = kept;
}

/// A new object holding `entries`.
pub fn object(entries: Vec<(String, Json)>) -> (r: Json)
    ensures
        r.view() == JsonV::Object(Json::entries_view(entries@)),
{
    Json::Object(entries)
}

} // verus!
