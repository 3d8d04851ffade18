//! The configuration tree the compiler works on, with its mathematical view.
//!
//! An object is a list of `(key, value)` entries; lookups find the first
//! entry with the key. In a well-formed tree ([`json_wf`]) no object holds a
//! key twice, as in a map. Map insertion ([`obj_insert`]) places a new key
//! before the first greater one, the order of a sorted map.
use crate::text::{chars_of, str_eq, str_lt, string_lt};
use vstd::prelude::*;

verus! {

/// A JSON value. Numbers are kept as their decimal text.
#[derive(Debug, PartialEq)]
pub enum Json {
    Null,
    Bool(bool),
    Number(String),
    String(String),
    Array(Vec<Json>),
    Object(Vec<(String, Json)>),
}

/// The mathematical view of a [`Json`] value.
pub enum JsonV {
    Null,
    Bool(bool),
    Number(Seq<char>),
    Str(Seq<char>),
    Array(Seq<JsonV>),
    Object(Seq<(Seq<char>, JsonV)>),
}

pub open spec fn jv(j: Json) -> JsonV
    decreases j,
{
    match j {
        Json::Null => JsonV::Null,
        Json::Bool(b) => JsonV::Bool(b),
        Json::Number(n) => JsonV::Number(n@),
        Json::String(s) => JsonV::Str(s@),
        Json::Array(v) => JsonV::Array(
            Seq::new(v@.len(), |i: int| if 0 <= i < v@.len() { jv(v@[i]) } else { JsonV::Null }),
        ),
        Json::Object(v) => JsonV::Object(
            Seq::new(
                v@.len(),
                |i: int|
                    if 0 <= i < v@.len() {
                        (v@[i].0@, jv(v@[i].1))
                    } else {
                        (Seq::empty(), JsonV::Null)
                    },
            ),
        ),
    }
}

impl View for Json {
    type V = JsonV;

    open spec fn view(&self) -> JsonV {
        jv(*self)
    }
}

/// The view of a list of array items.
pub open spec fn items_v(v: Seq<Json>) -> Seq<JsonV> {
    Seq::new(v.len(), |i: int| jv(v[i]))
}

/// The view of a list of object entries.
pub open spec fn entries_v(v: Seq<(String, Json)>) -> Seq<(Seq<char>, JsonV)> {
    Seq::new(v.len(), |i: int| (v[i].0@, jv(v[i].1)))
}

pub proof fn lemma_jv_array(v: Vec<Json>)
    ensures
        jv(Json::Array(v)) == JsonV::Array(items_v(v@)),
{
    if let JsonV::Array(s) = jv(Json::Array(v)) {
        assert(s.len() == v@.len());
        assert forall|i: int| 0 <= i < s.len() implies s[i] == items_v(v@)[i] by {}
        assert(s =~= items_v(v@));
    }
}

pub proof fn lemma_jv_object(v: Vec<(String, Json)>)
    ensures
        jv(Json::Object(v)) == JsonV::Object(entries_v(v@)),
{
    if let JsonV::Object(s) = jv(Json::Object(v)) {
        assert(s.len() == v@.len());
        assert forall|i: int| 0 <= i < s.len() implies s[i] == entries_v(v@)[i] by {}
        assert(s =~= entries_v(v@));
    }
}

pub proof fn lemma_jv_kind(j: Json)
    ensures
        (jv(j) is Object) == (j is Object),
        (jv(j) is Array) == (j is Array),
        (jv(j) is Null) == (j is Null),
        (jv(j) is Str) == (j is String),
{
}

// ---------------------------------------------------------------------------
// Object model
// ---------------------------------------------------------------------------

pub type Entries = Seq<(Seq<char>, JsonV)>;

pub open spec fn has_key(s: Entries, k: Seq<char>) -> bool {
    exists|i: int| 0 <= i < s.len() && #[trigger] s[i].0 == k
}

/// Index of the first entry with key `k`, or `-1`.
pub open spec fn key_index(s: Entries, k: Seq<char>) -> int {
    if has_key(s, k) {
        choose|i: int|
            0 <= i < s.len() && #[trigger] s[i].0 == k && forall|j: int| 0 <= j < i ==> s[j].0 != k
    } else {
        -1
    }
}

/// The value of the first entry with key `k`.
pub open spec fn obj_get(s: Entries, k: Seq<char>) -> Option<JsonV> {
    if has_key(s, k) {
        Some(s[key_index(s, k)].1)
    } else {
        None
    }
}

/// The position at which a new key `k` goes: before the first greater key.
pub open spec fn insert_pos(s: Entries, k: Seq<char>) -> int {
    if exists|i: int| 0 <= i < s.len() && str_lt(k, #[trigger] s[i].0) {
        choose|i: int|
            0 <= i < s.len() && #[trigger] str_lt(k, s[i].0) && forall|j: int|
                0 <= j < i ==> !str_lt(k, s[j].0)
    } else {
        s.len() as int
    }
}

/// Map insertion: an existing entry is overwritten in place, a new key is
/// placed before the first greater key.
pub open spec fn obj_insert(s: Entries, k: Seq<char>, v: JsonV) -> Entries {
    if has_key(s, k) {
        s.update(key_index(s, k), (k, v))
    } else {
        s.insert(insert_pos(s, k), (k, v))
    }
}

/// Keys in strictly ascending order, the shape of a sorted map.
pub open spec fn sorted_keys(s: Entries) -> bool {
    forall|i: int, j: int| 0 <= i < j < s.len() ==> str_lt(#[trigger] s[i].0, #[trigger] s[j].0)
}

/// No key occurs twice among the entries.
pub open spec fn distinct_keys(s: Entries) -> bool {
    forall|i: int, j: int| 0 <= i < j < s.len() ==> #[trigger] s[i].0 != #[trigger] s[j].0
}

/// Every value among the entries is well formed.
pub open spec fn values_wf(s: Entries) -> bool
    decreases s, 0nat,
{
    forall|i: int| 0 <= i < s.len() ==> json_wf(#[trigger] s[i].1)
}

/// Every item is well formed.
pub open spec fn items_wf(a: Seq<JsonV>) -> bool
    decreases a, 0nat,
{
    forall|i: int| 0 <= i < a.len() ==> json_wf(#[trigger] a[i])
}

/// A well-formed tree: every object, at every depth, holds each key once,
/// as a map does.
pub open spec fn json_wf(j: JsonV) -> bool
    decreases j, 1nat,
{
    match j {
        JsonV::Array(a) => items_wf(a),
        JsonV::Object(es) => distinct_keys(es) && values_wf(es),
        _ => true,
    }
}

pub proof fn lemma_key_index(s: Entries, k: Seq<char>, i: int)
    requires
        0 <= i < s.len(),
        s[i].0 == k,
        forall|j: int| 0 <= j < i ==> s[j].0 != k,
    ensures
        has_key(s, k),
        key_index(s, k) == i,
{
    assert(has_key(s, k));
    let c = key_index(s, k);
    assert(0 <= c < s.len() && s[c].0 == k && forall|j: int| 0 <= j < c ==> s[j].0 != k);
    if c < i {
        assert(s[c].0 != k);
    }
    if c > i {
        assert(s[i].0 != k);
    }
}

pub proof fn lemma_key_index_props(s: Entries, k: Seq<char>)
    requires
        has_key(s, k),
    ensures
        0 <= key_index(s, k) < s.len(),
        s[key_index(s, k)].0 == k,
        forall|j: int| 0 <= j < key_index(s, k) ==> s[j].0 != k,
{
    let w = choose|i: int| 0 <= i < s.len() && #[trigger] s[i].0 == k;
    let m = min_key_index(s, k, w);
}

proof fn min_key_index(s: Entries, k: Seq<char>, w: int) -> (m: int)
    requires
        0 <= w < s.len(),
        s[w].0 == k,
    ensures
        0 <= m < s.len(),
        s[m].0 == k,
        forall|j: int| 0 <= j < m ==> s[j].0 != k,
    decreases w,
{
    if exists|j: int| 0 <= j < w && #[trigger] s[j].0 == k {
        let j = choose|j: int| 0 <= j < w && #[trigger] s[j].0 == k;
        min_key_index(s, k, j)
    } else {
        w
    }
}

pub proof fn lemma_insert_pos(s: Entries, k: Seq<char>, i: int)
    requires
        0 <= i <= s.len(),
        i < s.len() ==> str_lt(k, s[i].0),
        forall|j: int| 0 <= j < i ==> !str_lt(k, #[trigger] s[j].0),
    ensures
        insert_pos(s, k) == i,
{
    if i < s.len() {
        assert(exists|x: int| 0 <= x < s.len() && str_lt(k, #[trigger] s[x].0));
        let c = insert_pos(s, k);
        assert(0 <= c < s.len() && str_lt(k, s[c].0) && forall|j: int|
            0 <= j < c ==> !str_lt(k, s[j].0));
        if c < i {
            assert(!str_lt(k, s[c].0));
        }
        if c > i {
            assert(!str_lt(k, s[i].0));
        }
    } else {
        assert(!(exists|x: int| 0 <= x < s.len() && str_lt(k, #[trigger] s[x].0)));
    }
}

// ---------------------------------------------------------------------------
// Executable operations
// ---------------------------------------------------------------------------

/// A deep copy of `j`.
#[verifier::loop_isolation(false)]
pub fn json_clone(j: &Json) -> (r: Json)
    ensures
        jv(r) == jv(*j),
    decreases j,
{
    match j {
        Json::Null => Json::Null,
        Json::Bool(b) => Json::Bool(*b),
        Json::Number(n) => Json::Number(n.clone()),
        Json::String(s) => Json::String(s.clone()),
        Json::Array(v) => {
            let mut out: Vec<Json> = Vec::new();
            let mut i: usize = 0;
            while i < v.len()
                invariant
                    0 <= i <= v.len(),
                    out@.len() == i,
                    forall|x: int| 0 <= x < i ==> jv(#[trigger] out@[x]) == jv(v@[x]),
                decreases v.len() - i,
            {
                proof {
                    vstd::std_specs::vec::axiom_vec_index_decreases(*v, i as int);
                    assert(decreases_to!(*j => v@[i as int]));
                }
                let c = json_clone(&v[i]);
                out.push(c);
                i = i + 1;
            }
            proof {
                lemma_jv_array(out);
                lemma_jv_array(*v);
                assert(items_v(out@) =~= items_v(v@));
            }
            Json::Array(out)
        },
        Json::Object(v) => {
            let mut out: Vec<(String, Json)> = Vec::new();
            let mut i: usize = 0;
            while i < v.len()
                invariant
                    0 <= i <= v.len(),
                    out@.len() == i,
                    forall|x: int|
                        0 <= x < i ==> (#[trigger] out@[x]).0@ == v@[x].0@ && jv(out@[x].1) == jv(
                            v@[x].1,
                        ),
                decreases v.len() - i,
            {
                proof {
                    vstd::std_specs::vec::axiom_vec_index_decreases(*v, i as int);
                    assert(decreases_to!(v@[i as int] => v@[i as int].1));
                    assert(decreases_to!(*j => v@[i as int].1));
                }
                let c = json_clone(&v[i].1);
                let k = v[i].0.clone();
                out.push((k, c));
                i = i + 1;
            }
            proof {
                lemma_jv_object(out);
                lemma_jv_object(*v);
                assert(entries_v(out@) =~= entries_v(v@));
            }
            Json::Object(out)
        },
    }
}

/// The index of the first entry with key `k`.
pub fn find_key(o: &Vec<(String, Json)>, k: &str) -> (r: Option<usize>)
    ensures
        r matches Some(i) ==> i < o@.len() && i == key_index(entries_v(o@), k@) && has_key(
            entries_v(o@),
            k@,
        ),
        r is None ==> !has_key(entries_v(o@), k@),
{
    let ghost s = entries_v(o@);
    let mut i: usize = 0;
    while i < o.len()
        invariant
            0 <= i <= o.len(),
            s == entries_v(o@),
            forall|j: int| 0 <= j < i ==> s[j].0 != k@,
        decreases o.len() - i,
    {
        if str_eq(o[i].0.as_str(), k) {
            proof {
                lemma_key_index(s, k@, i as int);
            }
            return Some(i);
        }
        i = i + 1;
    }
    None
}

/// The value stored under `k`.
pub fn get_field<'a>(o: &'a Vec<(String, Json)>, k: &str) -> (r: Option<&'a Json>)
    ensures
        r matches Some(x) ==> obj_get(entries_v(o@), k@) == Some(jv(*x)),
        r is None ==> obj_get(entries_v(o@), k@) is None,
{
    match find_key(o, k) {
        Some(i) => Some(&o[i].1),
        None => None,
    }
}

/// Inserts `(k, v)` as a sorted map does.
pub fn insert_field(o: &mut Vec<(String, Json)>, k: String, v: Json)
    ensures
        entries_v(final(o)@) == obj_insert(entries_v(old(o)@), k@, jv(v)),
        json_wf(JsonV::Object(entries_v(old(o)@))) && json_wf(jv(v)) ==> json_wf(
            JsonV::Object(entries_v(final(o)@)),
        ),
{
    let ghost s = entries_v(o@);
    proof {
        if json_wf(JsonV::Object(s)) && json_wf(jv(v)) {
            obj_insert_keeps_wf(s, k@, jv(v));
        }
    }
    match find_key(o, k.as_str()) {
        Some(i) => {
            o.set(i, (k, v));
            assert(entries_v(o@) =~= s.update(i as int, (k@, jv(v))));
        },
        None => {
            let kc = chars_of(k.as_str());
            let mut p: usize = 0;
            while p < o.len() && !string_lt(&kc, &chars_of(o[p].0.as_str()))
                invariant
                    0 <= p <= o.len(),
                    s == entries_v(o@),
                    kc@ == k@,
                    forall|j: int| 0 <= j < p ==> !str_lt(k@, #[trigger] s[j].0),
                decreases o.len() - p,
            {
                p = p + 1;
            }
            proof {
                lemma_insert_pos(s, k@, p as int);
            }
            o.insert(p, (k, v));
            assert(entries_v(o@) =~= s.insert(p as int, (k@, jv(v))));
        },
    }
}

/// Builds a string value.
pub fn json_str(s: &str) -> (r: Json)
    ensures
        jv(r) == JsonV::Str(s@),
{
    Json::String(crate::text::copy_string(s))
}


// ---------------------------------------------------------------------------
// Object laws
// ---------------------------------------------------------------------------

proof fn lemma_insert_pos_bounds(s: Entries, k: Seq<char>)
    ensures
        0 <= insert_pos(s, k) <= s.len(),
        forall|j: int| 0 <= j < insert_pos(s, k) ==> !str_lt(k, #[trigger] s[j].0),
        insert_pos(s, k) < s.len() ==> str_lt(k, s[insert_pos(s, k)].0),
{
    if exists|i: int| 0 <= i < s.len() && str_lt(k, #[trigger] s[i].0) {
        let w = choose|i: int| 0 <= i < s.len() && str_lt(k, #[trigger] s[i].0);
        let m = min_lt_index(s, k, w);
        lemma_insert_pos(s, k, m);
    } else {
        assert forall|j: int| 0 <= j < s.len() implies !str_lt(k, #[trigger] s[j].0) by {}
    }
}

proof fn min_lt_index(s: Entries, k: Seq<char>, w: int) -> (m: int)
    requires
        0 <= w < s.len(),
        str_lt(k, s[w].0),
    ensures
        0 <= m < s.len(),
        str_lt(k, s[m].0),
        forall|j: int| 0 <= j < m ==> !str_lt(k, #[trigger] s[j].0),
    decreases w,
{
    if exists|j: int| 0 <= j < w && str_lt(k, #[trigger] s[j].0) {
        let j = choose|j: int| 0 <= j < w && str_lt(k, #[trigger] s[j].0);
        min_lt_index(s, k, j)
    } else {
        w
    }
}

/// Reading an object after a write: the written key gives the written value,
/// every other key gives what it gave before.
#[verifier::spinoff_prover]
#[verifier::rlimit(50)]
pub proof fn obj_read_after_write(s: Entries, k: Seq<char>, v: JsonV, k2: Seq<char>)
    ensures
        obj_get(obj_insert(s, k, v), k) == Some(v),
        k2 != k ==> obj_get(obj_insert(s, k, v), k2) == obj_get(s, k2),
{
    let t = obj_insert(s, k, v);
    if has_key(s, k) {
        lemma_key_index_props(s, k);
        let i = key_index(s, k);
        assert forall|j: int| 0 <= j < i implies t[j].0 != k by {}
        lemma_key_index(t, k, i);
        if k2 != k {
            if has_key(s, k2) {
                lemma_key_index_props(s, k2);
                let j2 = key_index(s, k2);
                assert forall|j: int| 0 <= j < j2 implies t[j].0 != k2 by {
                    if j == i {
                    } else {
                    }
                }
                lemma_key_index(t, k2, j2);
            } else {
                assert(!has_key(t, k2)) by {
                    if has_key(t, k2) {
                        let w = choose|x: int| 0 <= x < t.len() && #[trigger] t[x].0 == k2;
                        assert(s[w].0 == k2);
                    }
                }
            }
        }
    } else {
        lemma_insert_pos_bounds(s, k);
        let p = insert_pos(s, k);
        assert forall|j: int| 0 <= j < p implies t[j].0 != k by {
            assert(t[j] == s[j]);
        }
        lemma_key_index(t, k, p);
        if k2 != k {
            if has_key(s, k2) {
                lemma_key_index_props(s, k2);
                let j2 = key_index(s, k2);
                let j3 = if j2 < p {
                    j2
                } else {
                    j2 + 1
                };
                assert(t[j3] == s[j2]);
                assert forall|j: int| 0 <= j < j3 implies t[j].0 != k2 by {
                    if j < p {
                        assert(t[j] == s[j]);
                    } else if j > p {
                        assert(t[j] == s[j - 1]);
                    }
                }
                lemma_key_index(t, k2, j3);
            } else {
                assert(!has_key(t, k2)) by {
                    if has_key(t, k2) {
                        let w = choose|x: int| 0 <= x < t.len() && #[trigger] t[x].0 == k2;
                        if w < p {
                            assert(t[w] == s[w]);
                        } else if w > p {
                            assert(t[w] == s[w - 1]);
                        }
                    }
                }
            }
        }
    }
}

/// Writing into a well-formed object keeps it well formed: a present key is
/// overwritten in place, a new key is added once.
pub proof fn obj_insert_keeps_wf(s: Entries, k: Seq<char>, v: JsonV)
    requires
        json_wf(JsonV::Object(s)),
        json_wf(v),
    ensures
        json_wf(JsonV::Object(obj_insert(s, k, v))),
{
    let t = obj_insert(s, k, v);
    if has_key(s, k) {
        lemma_key_index_props(s, k);
        let p = key_index(s, k);
        assert forall|i: int, j: int| 0 <= i < j < t.len() implies #[trigger] t[i].0 != #[trigger] t[j].0 by {
            assert(t[i].0 == s[i].0 && t[j].0 == s[j].0);
        }
        assert forall|i: int| 0 <= i < t.len() implies json_wf(#[trigger] t[i].1) by {
            if i != p {
                assert(t[i] == s[i]);
            }
        }
    } else {
        lemma_insert_pos_bounds(s, k);
        let p = insert_pos(s, k);
        assert forall|i: int, j: int| 0 <= i < j < t.len() implies #[trigger] t[i].0 != #[trigger] t[j].0 by {
            if j < p {
                assert(t[i] == s[i] && t[j] == s[j]);
            } else if j == p {
                assert(t[i] == s[i]);
            } else if i < p {
                assert(t[i] == s[i] && t[j] == s[j - 1]);
            } else if i == p {
                assert(t[j] == s[j - 1]);
            } else {
                assert(t[i] == s[i - 1] && t[j] == s[j - 1]);
            }
        }
        assert forall|i: int| 0 <= i < t.len() implies json_wf(#[trigger] t[i].1) by {
            if i < p {
                assert(t[i] == s[i]);
            } else if i > p {
                assert(t[i] == s[i - 1]);
            }
        }
    }
}

/// Writing into an object whose keys ascend keeps them ascending.
pub proof fn obj_insert_keeps_sorted(s: Entries, k: Seq<char>, v: JsonV)
    requires
        sorted_keys(s),
    ensures
        sorted_keys(obj_insert(s, k, v)),
{
    let t = obj_insert(s, k, v);
    if has_key(s, k) {
        lemma_key_index_props(s, k);
        assert forall|i: int, j: int| 0 <= i < j < t.len() implies str_lt(#[trigger] t[i].0, #[trigger] t[j].0) by {
            assert(t[i].0 == s[i].0);
            assert(t[j].0 == s[j].0);
        }
    } else {
        lemma_insert_pos_bounds(s, k);
        let p = insert_pos(s, k);
        assert forall|j: int| 0 <= j < p implies str_lt(#[trigger] s[j].0, k) by {
            crate::text::lemma_str_lt_total(s[j].0, k);
            if s[j].0 == k {
                assert(has_key(s, k));
            }
        }
        assert forall|i: int, j: int| 0 <= i < j < t.len() implies str_lt(#[trigger] t[i].0, #[trigger] t[j].0) by {
            if j < p {
                assert(t[i] == s[i] && t[j] == s[j]);
            } else if j == p {
                assert(t[i] == s[i]);
            } else if i < p {
                assert(t[i] == s[i] && t[j] == s[j - 1]);
            } else if i == p {
                assert(t[j] == s[j - 1]);
                if j - 1 > p {
                    assert(str_lt(s[p].0, s[j - 1].0));
                    crate::text::lemma_str_lt_trans(k, s[p].0, s[j - 1].0);
                }
            } else {
                assert(t[i] == s[i - 1] && t[j] == s[j - 1]);
            }
        }
    }
}

} // verus!
