//! A JSON value: what `extract` produces and `render` reads. Objects keep
//! their keys sorted and unique (as a sorted map does), so two objects with
//! the same entries are equal whatever order they were built in.

use crate::text::chars_of;
use vstd::prelude::*;

verus! {

/// A JSON value.
#[derive(Debug, PartialEq)]
pub enum Json {
    Null,
    Bool(bool),
    /// An integer that fits in `i64`.
    Int(i64),
    /// Any other number, as its JSON text.
    Num(String),
    Str(String),
    Array(Vec<Json>),
    /// Entries with sorted, distinct keys.
    Object(Vec<(String, Json)>),
}

impl Clone for Json {
    fn clone(&self) -> (r: Self)
        ensures
            forall|v: JsonV| json_is(*self, v) ==> #[trigger] json_is(r, v),
    {
        clone_json(self)
    }
}

fn clone_json(j: &Json) -> (r: Json)
    ensures
        forall|v: JsonV| json_is(*j, v) ==> #[trigger] json_is(r, v),
    decreases j,
{
    match j {
        Json::Null => {
            let r = Json::Null;
            assert forall|v: JsonV| json_is(*j, v) implies #[trigger] json_is(r, v) by {}
            r
        },
        Json::Bool(b) => {
            let r = Json::Bool(*b);
            assert forall|v: JsonV| json_is(*j, v) implies #[trigger] json_is(r, v) by {}
            r
        },
        Json::Int(n) => {
            let r = Json::Int(*n);
            assert forall|v: JsonV| json_is(*j, v) implies #[trigger] json_is(r, v) by {}
            r
        },
        Json::Num(s) => {
            let r = Json::Num(s.clone());
            assert forall|v: JsonV| json_is(*j, v) implies #[trigger] json_is(r, v) by {}
            r
        },
        Json::Str(s) => {
            let r = Json::Str(s.clone());
            assert forall|v: JsonV| json_is(*j, v) implies #[trigger] json_is(r, v) by {}
            r
        },
        Json::Array(a) => {
            let out = clone_jsons(a);
            let r = Json::Array(out);
            assert forall|v: JsonV| json_is(*j, v) implies #[trigger] json_is(r, v) by {
                if let JsonV::Array(vs) = v {
                    assert forall|k: int| 0 <= k < vs.len() implies json_is(#[trigger] out@[k], vs[k]) by {
                        assert(json_is(a@[k], vs[k]));
                    }
                }
            }
            r
        },
        Json::Object(m) => {
            let out = clone_entries(m);
            let r = Json::Object(out);
            assert forall|v: JsonV| json_is(*j, v) implies #[trigger] json_is(r, v) by {
                if let JsonV::Object(kvs) = v {
                    assert forall|k: int| 0 <= k < kvs.len() implies (#[trigger] out@[k]).0@ == kvs[k].0 && json_is(out@[k].1, kvs[k].1) by {
                        assert(m@[k].0@ == kvs[k].0 && json_is(m@[k].1, kvs[k].1));
                    }
                }
            }
            r
        },
    }
}

fn clone_jsons(a: &Vec<Json>) -> (out: Vec<Json>)
    ensures
        out@.len() == a@.len(),
        forall|k: int, v: JsonV| 0 <= k < a@.len() && json_is(a@[k], v) ==> #[trigger] json_is(out@[k], v),
    decreases a,
{
    let mut out: Vec<Json> = Vec::new();
    let mut i: usize = 0;
    while i < a.len()
        invariant
            i <= a@.len(),
            out@.len() == i,
            forall|k: int, v: JsonV| 0 <= k < i && json_is(a@[k], v) ==> #[trigger] json_is(out@[k], v),
        decreases a@.len() - i,
    {
        out.push(clone_json(&a[i]));
        i = i + 1;
    }
    out
}

fn clone_entries(m: &Vec<(String, Json)>) -> (out: Vec<(String, Json)>)
    ensures
        out@.len() == m@.len(),
        forall|k: int| 0 <= k < m@.len() ==> (#[trigger] out@[k]).0@ == m@[k].0@,
        forall|k: int, v: JsonV| 0 <= k < m@.len() && json_is(m@[k].1, v) ==> #[trigger] json_is(out@[k].1, v),
    decreases m,
{
    let mut out: Vec<(String, Json)> = Vec::new();
    let mut i: usize = 0;
    while i < m.len()
        invariant
            i <= m@.len(),
            out@.len() == i,
            forall|k: int| 0 <= k < i ==> (#[trigger] out@[k]).0@ == m@[k].0@,
            forall|k: int, v: JsonV| 0 <= k < i && json_is(m@[k].1, v) ==> #[trigger] json_is(out@[k].1, v),
        decreases m@.len() - i,
    {
        out.push((m[i].0.clone(), clone_json(&m[i].1)));
        i = i + 1;
    }
    out
}

pub enum JsonV {
    Null,
    Bool(bool),
    Int(i64),
    Num(Seq<char>),
    Str(Seq<char>),
    Array(Seq<JsonV>),
    Object(Seq<(Seq<char>, JsonV)>),
}

/// Whether `j` is the value `v`.
pub open spec fn json_is(j: Json, v: JsonV) -> bool
    decreases v,
{
    match v {
        JsonV::Null => j is Null,
        JsonV::Bool(b) => j matches Json::Bool(x) && x == b,
        JsonV::Int(n) => j matches Json::Int(x) && x == n,
        JsonV::Num(s) => j matches Json::Num(x) && x@ == s,
        JsonV::Str(s) => j matches Json::Str(x) && x@ == s,
        JsonV::Array(vs) => j matches Json::Array(a) && a@.len() == vs.len()
            && forall|k: int| 0 <= k < vs.len() ==> json_is(#[trigger] a@[k], vs[k]),
        JsonV::Object(kvs) => j matches Json::Object(m) && m@.len() == kvs.len()
            && forall|k: int| 0 <= k < kvs.len() ==> (#[trigger] m@[k]).0@ == kvs[k].0 && json_is(m@[k].1, kvs[k].1),
    }
}

/// Whether the entries `m` are the entries `kvs`.
pub open spec fn entries_are(m: Seq<(String, Json)>, kvs: Seq<(Seq<char>, JsonV)>) -> bool {
    &&& m.len() == kvs.len()
    &&& forall|k: int| 0 <= k < kvs.len() ==> (#[trigger] m[k]).0@ == kvs[k].0 && json_is(m[k].1, kvs[k].1)
}

pub open spec fn jsons_are(js: Seq<Json>, vs: Seq<JsonV>) -> bool {
    &&& js.len() == vs.len()
    &&& forall|k: int| 0 <= k < vs.len() ==> json_is(#[trigger] js[k], vs[k])
}

/// Code-point lexicographic order of strings (the order of Rust's `String`).
pub open spec fn str_lt(a: Seq<char>, b: Seq<char>) -> bool
    decreases a.len(),
{
    if a.len() == 0 {
        b.len() > 0
    } else if b.len() == 0 {
        false
    } else if a[0] != b[0] {
        (a[0] as u32) < (b[0] as u32)
    } else {
        str_lt(a.drop_first(), b.drop_first())
    }
}

/// Inserting `(k, v)` into sorted entries: replaces the value of an equal
/// key, else goes before the first greater key.
pub open spec fn obj_insert(kvs: Seq<(Seq<char>, JsonV)>, k: Seq<char>, v: JsonV) -> Seq<(Seq<char>, JsonV)>
    decreases kvs.len(),
{
    if kvs.len() == 0 {
        seq![(k, v)]
    } else if kvs[0].0 == k {
        seq![(k, v)] + kvs.drop_first()
    } else if str_lt(k, kvs[0].0) {
        seq![(k, v)] + kvs
    } else {
        seq![kvs[0]] + obj_insert(kvs.drop_first(), k, v)
    }
}

/// The value of the first entry with key `k`.
pub open spec fn obj_get(kvs: Seq<(Seq<char>, JsonV)>, k: Seq<char>) -> Option<JsonV>
    decreases kvs.len(),
{
    if kvs.len() == 0 {
        None
    } else if kvs[0].0 == k {
        Some(kvs[0].1)
    } else {
        obj_get(kvs.drop_first(), k)
    }
}

/// Whether `a < b` in code-point order.
pub fn less_than(a: &[char], b: &[char]) -> (r: bool)
    ensures
        r == str_lt(a@, b@),
{
    let mut i: usize = 0;
    assert(a@.skip(0) =~= a@);
    assert(b@.skip(0) =~= b@);
    while i < a.len() && i < b.len() && a[i] == b[i]
        invariant
            i <= a@.len(),
            i <= b@.len(),
            str_lt(a@, b@) == str_lt(a@.skip(i as int), b@.skip(i as int)),
        decreases a@.len() - i,
    {
        assert(a@.skip(i as int).drop_first() =~= a@.skip(i + 1));
        assert(b@.skip(i as int).drop_first() =~= b@.skip(i + 1));
        i = i + 1;
    }
    if i == a.len() {
        assert(a@.skip(i as int).len() == 0);
        i < b.len()
    } else if i == b.len() {
        false
    } else {
        assert(a@.skip(i as int)[0] == a@[i as int]);
        assert(b@.skip(i as int)[0] == b@[i as int]);
        (a[i] as u32) < (b[i] as u32)
    }
}

/// Whether the key `e` sorts before `k` (so an insertion of `k` goes after it).
fn goes_after(k: &[char], e: &String) -> (b: bool)
    ensures
        b == (e@ != k@ && !str_lt(k@, e@)),
{
    let ev = chars_of(e.as_str());
    let mut same = ev.len() == k.len();
    let mut i: usize = 0;
    while same && i < k.len()
        invariant
            i <= k@.len(),
            same ==> ev@.len() == k@.len() && forall|j: int| 0 <= j < i ==> ev@[j] == k@[j],
            !same ==> ev@ != k@,
        decreases k@.len() - i,
    {
        if ev[i] != k[i] {
            same = false;
        }
        i = i + 1;
    }
    if same {
        assert(ev@ =~= k@);
        return false;
    }
    !less_than(k, ev.as_slice())
}

/// The member `k` of a value: of an object, its first entry with key `k`;
/// of anything else, none.
pub open spec fn value_get(v: JsonV, k: Seq<char>) -> Option<JsonV> {
    match v {
        JsonV::Object(kvs) => obj_get(kvs, k),
        _ => None,
    }
}

impl Json {
    /// The member `key` of an object (see [`value_get`]).
    #[verifier::loop_isolation(false)]
    pub fn get(&self, key: &str) -> (r: Option<&Json>)
        ensures
            forall|v: JsonV| #[trigger] json_is(*self, v) ==> match value_get(v, key@) {
                None => r is None,
                Some(x) => r matches Some(j) && json_is(*j, x),
            },
    {
        match self {
            Json::Object(m) => {
                let kc = chars_of(key);
                let mut i: usize = 0;
                while i < m.len()
                    invariant
                        i <= m@.len(),
                        kc@ == key@,
                        forall|j: int| 0 <= j < i ==> (#[trigger] m@[j]).0@ != key@,
                    decreases m@.len() - i,
                {
                    if crate::text::eq_str(kc.as_slice(), m[i].0.as_str()) {
                        proof {
                            assert forall|v: JsonV| #[trigger] json_is(*self, v) implies match value_get(v, key@) {
                                None => false,
                                Some(x) => json_is(m@[i as int].1, x),
                            } by {
                                if let JsonV::Object(kvs) = v {
                                    assert(m@[i as int].0@ == kvs[i as int].0);
                                    assert forall|j: int| 0 <= j < i implies kvs[j].0 != key@ by {
                                        assert(m@[j].0@ == kvs[j].0);
                                    }
                                    lemma_obj_get_at(kvs, key@, i as int);
                                }
                            }
                        }
                        return Some(&m[i].1);
                    }
                    i = i + 1;
                }
                proof {
                    assert forall|v: JsonV| #[trigger] json_is(*self, v) implies value_get(v, key@) is None by {
                        if let JsonV::Object(kvs) = v {
                            assert forall|j: int| 0 <= j < kvs.len() implies kvs[j].0 != key@ by {
                                assert(m@[j].0@ == kvs[j].0);
                            }
                            lemma_obj_get_none(kvs, key@);
                        }
                    }
                }
                None
            },
            _ => None,
        }
    }

    /// An empty object.
    pub fn object() -> (r: Json)
        ensures
            json_is(r, JsonV::Object(Seq::empty())),
    {
        Json::Object(Vec::new())
    }

    /// Sets `key` to `value` in an object, keeping keys sorted (see
    /// [`obj_insert`]). Does nothing to a value that is not an object.
    pub fn insert(&mut self, key: String, value: Json)
        ensures
            forall|kvs: Seq<(Seq<char>, JsonV)>, v: JsonV|
                json_is(*old(self), JsonV::Object(kvs)) && json_is(value, v)
                ==> #[trigger] json_is(*final(self), JsonV::Object(obj_insert(kvs, key@, v))),
        *old(self) is Object ==> *final(self) is Object,
    {
        match self {
            Json::Object(m) => {
                let kc = chars_of(key.as_str());
                let ghost m0 = m@;
                let mut i: usize = 0;
                while i < m.len() && goes_after(kc.as_slice(), &m[i].0)
                    invariant
                        m@ == m0,
                        i <= m@.len(),
                        kc@ == key@,
                        forall|j: int| 0 <= j < i ==> (#[trigger] m@[j]).0@ != key@ && !str_lt(key@, m@[j].0@),
                    decreases m@.len() - i,
                {
                    i = i + 1;
                }
                let ghost pre = i;
                let ghost found = i < m@.len() && m@[i as int].0@ == key@;
                proof {
                    assert forall|kvs: Seq<(Seq<char>, JsonV)>, v: JsonV|
                        entries_are(m0, kvs) implies
                        obj_insert(kvs, key@, v) == kvs.take(pre as int) + obj_insert(kvs.skip(pre as int), key@, v) by {
                        assert forall|j: int| 0 <= j < pre implies (#[trigger] kvs[j]).0 != key@ && !str_lt(key@, kvs[j].0) by {
                            assert(m0[j].0@ == kvs[j].0);
                        }
                        lemma_insert_prefix(kvs, key@, v, pre as int);
                    }
                }
                if i < m.len() && m[i].0 == key {
                    m.set(i, (key, value));
                } else {
                    m.insert(i, (key, value));
                }
                proof {
                    assert forall|kvs: Seq<(Seq<char>, JsonV)>, v: JsonV|
                        entries_are(m0, kvs) && json_is(value, v) implies
                        entries_are(m@, obj_insert(kvs, key@, v)) by {
                        assert forall|j: int| 0 <= j < pre implies (#[trigger] kvs[j]).0 != key@ && !str_lt(key@, kvs[j].0) by {
                            assert(m0[j].0@ == kvs[j].0);
                        }
                        lemma_insert_prefix(kvs, key@, v, pre as int);
                        let rest = kvs.skip(pre as int);
                        if found {
                            assert(m0[pre as int].0@ == kvs[pre as int].0);
                            assert(rest[0] == kvs[pre as int]);
                            assert(rest.drop_first() =~= kvs.skip(pre + 1));
                            assert(obj_insert(kvs, key@, v) =~= kvs.update(pre as int, (key@, v)));
                        } else if pre < m0.len() {
                            assert(m0[pre as int].0@ == kvs[pre as int].0);
                            assert(rest[0] == kvs[pre as int]);
                            assert(obj_insert(kvs, key@, v) =~= kvs.insert(pre as int, (key@, v)));
                        } else {
                            assert(rest.len() == 0);
                            assert(obj_insert(kvs, key@, v) =~= kvs.push((key@, v)));
                        }
                    }
                }
            },
            _ => {},
        }
    }
}

pub proof fn lemma_insert_prefix(kvs: Seq<(Seq<char>, JsonV)>, k: Seq<char>, v: JsonV, i: int)
    requires
        0 <= i <= kvs.len(),
        forall|j: int| 0 <= j < i ==> (#[trigger] kvs[j]).0 != k && !str_lt(k, kvs[j].0),
    ensures
        obj_insert(kvs, k, v) == kvs.take(i) + obj_insert(kvs.skip(i), k, v),
    decreases i,
{
    if i == 0 {
        assert(kvs.skip(0) =~= kvs);
        assert(kvs.take(0) + obj_insert(kvs, k, v) =~= obj_insert(kvs, k, v));
    } else {
        let r = kvs.drop_first();
        assert forall|j: int| 0 <= j < i - 1 implies (#[trigger] r[j]).0 != k && !str_lt(k, r[j].0) by {
            assert(r[j] == kvs[j + 1]);
        }
        lemma_insert_prefix(r, k, v, i - 1);
        assert(r.skip(i - 1) =~= kvs.skip(i));
        assert(kvs.take(i) =~= seq![kvs[0]] + r.take(i - 1));
        assert(obj_insert(kvs, k, v) == seq![kvs[0]] + obj_insert(r, k, v));
        assert(seq![kvs[0]] + (r.take(i - 1) + obj_insert(r.skip(i - 1), k, v)) =~= kvs.take(i) + obj_insert(kvs.skip(i), k, v));
    }
}


pub proof fn lemma_obj_get_at(kvs: Seq<(Seq<char>, JsonV)>, k: Seq<char>, i: int)
    requires
        0 <= i < kvs.len(),
        kvs[i].0 == k,
        forall|j: int| 0 <= j < i ==> kvs[j].0 != k,
    ensures
        obj_get(kvs, k) == Some(kvs[i].1),
    decreases i,
{
    if i > 0 {
        let r = kvs.drop_first();
        assert forall|j: int| 0 <= j < i - 1 implies r[j].0 != k by {
            assert(r[j] == kvs[j + 1]);
        }
        lemma_obj_get_at(r, k, i - 1);
    }
}

pub proof fn lemma_obj_get_none(kvs: Seq<(Seq<char>, JsonV)>, k: Seq<char>)
    requires
        forall|j: int| 0 <= j < kvs.len() ==> kvs[j].0 != k,
    ensures
        obj_get(kvs, k) is None,
    decreases kvs.len(),
{
    if kvs.len() > 0 {
        let r = kvs.drop_first();
        assert forall|j: int| 0 <= j < r.len() implies r[j].0 != k by {
            assert(r[j] == kvs[j + 1]);
        }
        lemma_obj_get_none(r, k);
    }
}

/// The value a `Json` holds.
pub open spec fn json_view(j: Json) -> JsonV
    decreases j, 1int, 0int,
{
    match j {
        Json::Null => JsonV::Null,
        Json::Bool(b) => JsonV::Bool(b),
        Json::Int(n) => JsonV::Int(n),
        Json::Num(s) => JsonV::Num(s@),
        Json::Str(s) => JsonV::Str(s@),
        Json::Array(a) => JsonV::Array(views_of(a@, a@.len() as int)),
        Json::Object(m) => JsonV::Object(entries_of(m@, m@.len() as int)),
    }
}

/// The values of the first `k` elements.
pub open spec fn views_of(a: Seq<Json>, k: int) -> Seq<JsonV>
    decreases a, 0int, k,
{
    if k <= 0 || k > a.len() {
        Seq::empty()
    } else {
        views_of(a, k - 1).push(json_view(a[k - 1]))
    }
}

/// The entries of the first `k` members, as values.
pub open spec fn entries_of(m: Seq<(String, Json)>, k: int) -> Seq<(Seq<char>, JsonV)>
    decreases m, 0int, k,
{
    if k <= 0 || k > m.len() {
        Seq::empty()
    } else {
        entries_of(m, k - 1).push((m[k - 1].0@, json_view(m[k - 1].1)))
    }
}

proof fn lemma_views_of(a: Seq<Json>, k: int)
    requires
        0 <= k <= a.len(),
    ensures
        views_of(a, k).len() == k,
        forall|i: int| 0 <= i < k ==> json_is(#[trigger] a[i], views_of(a, k)[i]),
    decreases a, 0int, k,
{
    if k > 0 {
        lemma_views_of(a, k - 1);
        lemma_json_view(a[k - 1]);
        assert forall|i: int| 0 <= i < k implies json_is(#[trigger] a[i], views_of(a, k)[i]) by {
            if i < k - 1 {
                assert(views_of(a, k)[i] == views_of(a, k - 1)[i]);
            }
        }
    }
}

proof fn lemma_entries_of(m: Seq<(String, Json)>, k: int)
    requires
        0 <= k <= m.len(),
    ensures
        entries_of(m, k).len() == k,
        forall|i: int| 0 <= i < k ==> (#[trigger] m[i]).0@ == entries_of(m, k)[i].0 && json_is(m[i].1, entries_of(m, k)[i].1),
    decreases m, 0int, k,
{
    if k > 0 {
        lemma_entries_of(m, k - 1);
        lemma_json_view(m[k - 1].1);
        assert forall|i: int| 0 <= i < k implies (#[trigger] m[i]).0@ == entries_of(m, k)[i].0 && json_is(m[i].1, entries_of(m, k)[i].1) by {
            if i < k - 1 {
                assert(entries_of(m, k)[i] == entries_of(m, k - 1)[i]);
            }
        }
    }
}

/// Every `Json` is the value [`json_view`] gives (so a contract that speaks
/// of every value a `Json` is speaks of at least this one).
pub proof fn lemma_json_view(j: Json)
    ensures
        json_is(j, json_view(j)),
    decreases j, 1int, 0int,
{
    match j {
        Json::Array(a) => lemma_views_of(a@, a@.len() as int),
        Json::Object(m) => lemma_entries_of(m@, m@.len() as int),
        _ => {},
    }
}

/// A `Json` is one value only.
pub proof fn lemma_json_is_unique(j: Json, v: JsonV, w: JsonV)
    requires
        json_is(j, v),
        json_is(j, w),
    ensures
        v == w,
    decreases v,
{
    match v {
        JsonV::Array(vs) => {
            let ws = w->Array_0;
            let a = j->Array_0;
            assert forall|k: int| 0 <= k < vs.len() implies vs[k] == ws[k] by {
                assert(json_is(a@[k], vs[k]));
                assert(json_is(a@[k], ws[k]));
                lemma_json_is_unique(a@[k], vs[k], ws[k]);
            }
            assert(vs =~= ws);
        },
        JsonV::Object(kvs) => {
            let lws = w->Object_0;
            let m = j->Object_0;
            assert forall|k: int| 0 <= k < kvs.len() implies kvs[k] == lws[k] by {
                assert(m@[k].0@ == kvs[k].0 && json_is(m@[k].1, kvs[k].1));
                assert(m@[k].0@ == lws[k].0 && json_is(m@[k].1, lws[k].1));
                lemma_json_is_unique(m@[k].1, kvs[k].1, lws[k].1);
            }
            assert(kvs =~= lws);
        },
        _ => {},
    }
}

/// Reading a key of an object after writing it gives what was written, and
/// reading any other key gives what it held before.
pub proof fn law_get_after_insert(kvs: Seq<(Seq<char>, JsonV)>, k: Seq<char>, v: JsonV, k2: Seq<char>)
    ensures
        obj_get(obj_insert(kvs, k, v), k2) == (if k2 == k { Some(v) } else { obj_get(kvs, k2) }),
    decreases kvs.len(),
{
    if kvs.len() > 0 {
        if kvs[0].0 == k {
            let r = seq![(k, v)] + kvs.drop_first();
            assert(obj_insert(kvs, k, v) == r);
            assert(r[0] == (k, v));
            assert(r.drop_first() =~= kvs.drop_first());
            assert(obj_get(r, k2) == (if k2 == k { Some(v) } else { obj_get(r.drop_first(), k2) }));
        } else if str_lt(k, kvs[0].0) {
            let r = seq![(k, v)] + kvs;
            assert(obj_insert(kvs, k, v) == r);
            assert(r[0] == (k, v));
            assert(r.drop_first() =~= kvs);
            assert(obj_get(r, k2) == (if k2 == k { Some(v) } else { obj_get(r.drop_first(), k2) }));
        } else {
            let r = seq![kvs[0]] + obj_insert(kvs.drop_first(), k, v);
            assert(obj_insert(kvs, k, v) == r);
            assert(r[0] == kvs[0]);
            assert(r.drop_first() =~= obj_insert(kvs.drop_first(), k, v));
            law_get_after_insert(kvs.drop_first(), k, v, k2);
        }
    } else {
        let r = seq![(k, v)];
        assert(obj_insert(kvs, k, v) == r);
        assert(r.drop_first() =~= Seq::<(Seq<char>, JsonV)>::empty());
        assert(obj_get(r, k2) == (if k2 == k { Some(v) } else { obj_get(r.drop_first(), k2) }));
    }
}

} // verus!
