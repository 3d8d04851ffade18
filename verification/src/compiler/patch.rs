//! The override engine: how a patch document changes a configuration tree.
//!
//! A patch key `name` replaces the field, `name-start` / `name-end` put items
//! before / after a list, `name-merge` merges into a map, `name-force`
//! overwrites unconditionally, and `<name>` names a field literally.
use crate::compiler::schema::{field_behavior, field_behavior_spec};
use crate::json::{
    items_wf, json_wf, obj_insert_keeps_wf, values_wf, entries_v, find_key, get_field, has_key, insert_field, items_v, json_clone, jv, key_index,
    lemma_jv_array, lemma_jv_kind, lemma_jv_object, obj_get, obj_insert, obj_read_after_write,
    Entries, Json, JsonV,
};
use crate::model::{FieldBehavior, ListStyle, ParsedKey, PatchModifier, PatchOperations, SchemaId};
use crate::text::{
    chars_of, copy_string, ends_with, range_eq, str_eq, string_from_range, trim, trim_bounds,
};
use vstd::prelude::*;

verus! {

// ---------------------------------------------------------------------------
// Keys
// ---------------------------------------------------------------------------

/// The inside of a literal key `<name>`.
pub open spec fn literal_inner(k: Seq<char>) -> Option<Seq<char>> {
    if k.len() >= 2 && k[0] == '<' && k[k.len() - 1] == '>' {
        Some(k.subrange(1, k.len() - 1))
    } else {
        None
    }
}

/// A key with its literal brackets removed.
pub open spec fn unescape(k: Seq<char>) -> Seq<char> {
    match literal_inner(k) {
        Some(inner) => inner,
        None => k,
    }
}

/// A patch key split into base field and modifier.
pub open spec fn parse_key(k: Seq<char>) -> (Seq<char>, PatchModifier) {
    match literal_inner(k) {
        Some(inner) => (inner, PatchModifier::Replace),
        None => if ends_with(k, "-start"@) {
            (k.take(k.len() - "-start"@.len()), PatchModifier::Start)
        } else if ends_with(k, "-end"@) {
            (k.take(k.len() - "-end"@.len()), PatchModifier::End)
        } else if ends_with(k, "-merge"@) {
            (k.take(k.len() - "-merge"@.len()), PatchModifier::Merge)
        } else if ends_with(k, "-force"@) {
            (k.take(k.len() - "-force"@.len()), PatchModifier::Force)
        } else {
            (k, PatchModifier::Replace)
        },
    }
}

fn literal_key_inner(key: &str) -> (r: Option<&str>)
    ensures
        r matches Some(x) ==> literal_inner(key@) == Some(x@),
        r is None ==> literal_inner(key@) is None,
{
    let n = key.unicode_len();
    if n >= 2 && key.get_char(0) == '<' && key.get_char(n - 1) == '>' {
        Some(key.substring_char(1, n - 1))
    } else {
        None
    }
}

fn unescape_literal_key(key: &str) -> (r: String)
    ensures
        r@ == unescape(key@),
{
    match literal_key_inner(key) {
        Some(inner) => copy_string(inner),
        None => copy_string(key),
    }
}

/// Whether `key` ends with `suffix`; if so, the length of what precedes it.
fn strip_suffix_len(key: &str, suffix: &str) -> (r: Option<usize>)
    ensures
        r matches Some(n) ==> ends_with(key@, suffix@) && n == key@.len() - suffix@.len(),
        r is None ==> !ends_with(key@, suffix@),
{
    let k = chars_of(key);
    let s = chars_of(suffix);
    if s.len() > k.len() {
        return None;
    }
    let start = k.len() - s.len();
    if range_eq(&k, start, k.len(), &s) {
        Some(start)
    } else {
        None
    }
}

fn parse_modifier_key(key: &str) -> (r: ParsedKey<'_>)
    ensures
        r.base@ == parse_key(key@).0,
        r.modifier == parse_key(key@).1,
{
    if let Some(inner) = literal_key_inner(key) {
        return ParsedKey { base: inner, modifier: PatchModifier::Replace };
    }
    if let Some(n) = strip_suffix_len(key, "-start") {
        return ParsedKey { base: key.substring_char(0, n), modifier: PatchModifier::Start };
    }
    if let Some(n) = strip_suffix_len(key, "-end") {
        return ParsedKey { base: key.substring_char(0, n), modifier: PatchModifier::End };
    }
    if let Some(n) = strip_suffix_len(key, "-merge") {
        return ParsedKey { base: key.substring_char(0, n), modifier: PatchModifier::Merge };
    }
    if let Some(n) = strip_suffix_len(key, "-force") {
        return ParsedKey { base: key.substring_char(0, n), modifier: PatchModifier::Force };
    }
    ParsedKey { base: key, modifier: PatchModifier::Replace }
}

// ---------------------------------------------------------------------------
// Raw values: copies whose object keys lose their literal brackets
// ---------------------------------------------------------------------------

/// `v` with every object key unescaped, objects rebuilt by map insertion.
#[verifier::opaque]
pub open spec fn raw(v: JsonV) -> JsonV
    decreases v, 1nat,
{
    match v {
        JsonV::Array(items) => JsonV::Array(
            Seq::new(items.len(), |i: int| if 0 <= i < items.len() { raw(items[i]) } else { JsonV::Null }),
        ),
        JsonV::Object(s) => JsonV::Object(raw_entries(s)),
        _ => v,
    }
}

/// The entries of `s` inserted in order, keys unescaped and values raw.
pub open spec fn raw_entries(s: Entries) -> Entries
    decreases s, 0nat,
{
    if s.len() == 0 {
        seq![]
    } else {
        let last = s[s.len() - 1];
        obj_insert(raw_entries(s.subrange(0, s.len() - 1)), unescape(last.0), raw(last.1))
    }
}

pub open spec fn raw_items(a: Seq<JsonV>) -> Seq<JsonV> {
    Seq::new(a.len(), |i: int| raw(a[i]))
}

pub proof fn lemma_raw_array(a: Seq<JsonV>)
    ensures
        raw(JsonV::Array(a)) == JsonV::Array(raw_items(a)),
{
    reveal(raw);
    if let JsonV::Array(t) = raw(JsonV::Array(a)) {
        assert(t =~= raw_items(a));
    }
}

/// A raw copy of `value`.
#[verifier::loop_isolation(false)]
pub fn clone_raw_value(value: &Json) -> (r: Json)
    ensures
        jv(r) == raw(jv(*value)),
        json_wf(jv(r)),
    decreases value,
{
    proof {
        reveal(raw);
        lemma_raw_wf(jv(*value));
    }
    match value {
        Json::Object(object) => {
            let mut out: Vec<(String, Json)> = Vec::new();
            let mut i: usize = 0;
            proof {
                lemma_jv_object(*object);
                assert(entries_v(object@).subrange(0, 0) =~= Seq::<(Seq<char>, JsonV)>::empty());
                assert(entries_v(out@) =~= Seq::<(Seq<char>, JsonV)>::empty());
            }
            while i < object.len()
                invariant
                    0 <= i <= object.len(),
                    *value == Json::Object(*object),
                    entries_v(out@) == raw_entries(entries_v(object@).subrange(0, i as int)),
                decreases object.len() - i,
            {
                proof {
                    vstd::std_specs::vec::axiom_vec_index_decreases(*object, i as int);
                    assert(decreases_to!(object@[i as int] => object@[i as int].1));
                }
                let key = unescape_literal_key(object[i].0.as_str());
                let item = clone_raw_value(&object[i].1);
                insert_field(&mut out, key, item);
                proof {
                    let s = entries_v(object@).subrange(0, i + 1);
                    assert(s.subrange(0, s.len() - 1) =~= entries_v(object@).subrange(0, i as int));
                }
                i = i + 1;
            }
            proof {
                lemma_jv_object(out);
                assert(entries_v(object@).subrange(0, object@.len() as int) =~= entries_v(object@));
                assert(jv(*value) == JsonV::Object(entries_v(object@)));
                assert(raw(jv(*value)) == JsonV::Object(raw_entries(entries_v(object@))));
                assert(entries_v(out@) == raw_entries(entries_v(object@)));
                assert(jv(Json::Object(out)) == JsonV::Object(entries_v(out@)));
            }
            Json::Object(out)
        },
        Json::Array(items) => {
            let mut out: Vec<Json> = Vec::new();
            let mut i: usize = 0;
            while i < items.len()
                invariant
                    0 <= i <= items.len(),
                    *value == Json::Array(*items),
                    out@.len() == i,
                    forall|x: int| 0 <= x < i ==> jv(#[trigger] out@[x]) == raw(jv(items@[x])),
                decreases items.len() - i,
            {
                proof {
                    vstd::std_specs::vec::axiom_vec_index_decreases(*items, i as int);
                }
                let item = clone_raw_value(&items[i]);
                out.push(item);
                i = i + 1;
            }
            proof {
                lemma_jv_array(out);
                lemma_jv_array(*items);
                let a = items_v(items@);
                lemma_raw_array(a);
                assert(items_v(out@) =~= raw_items(a));
            }
            Json::Array(out)
        },
        Json::Null => Json::Null,
        Json::Bool(b) => Json::Bool(*b),
        Json::Number(n) => Json::Number(n.clone()),
        Json::String(t) => Json::String(t.clone()),
    }
}

// ---------------------------------------------------------------------------
// List items
// ---------------------------------------------------------------------------

/// The items a list modifier contributes: none for `null`, the raw items of
/// an array, or the raw value itself.
pub open spec fn collect_items(v: JsonV) -> Seq<JsonV> {
    match v {
        JsonV::Null => seq![],
        JsonV::Array(items) => raw_items(items),
        _ => seq![raw(v)],
    }
}

fn collect_array_items(value: &Json) -> (r: Vec<Json>)
    ensures
        items_v(r@) == collect_items(jv(*value)),
{
    match value {
        Json::Null => {
            let r: Vec<Json> = Vec::new();
            assert(items_v(r@) =~= Seq::<JsonV>::empty());
            r
        },
        Json::Array(items) => {
            let c = clone_raw_value(value);
            proof {
                lemma_jv_array(*items);
                lemma_raw_array(items_v(items@));
            }
            match c {
                Json::Array(out) => {
                    proof {
                        lemma_jv_array(out);
                    }
                    out
                },
                _ => {
                    proof {
                        lemma_jv_array(*items);
                    }
                    Vec::new()
                },
            }
        },
        _ => {
            let mut r: Vec<Json> = Vec::new();
            r.push(clone_raw_value(value));
            assert(items_v(r@) =~= seq![raw(jv(*value))]);
            r
        },
    }
}

/// The trimmed, non-empty `name` of an object item.
#[verifier::opaque]
pub open spec fn name_of(v: JsonV) -> Option<Seq<char>> {
    match v {
        JsonV::Object(s) => match obj_get(s, "name"@) {
            Some(JsonV::Str(n)) => if trim(n).len() > 0 {
                Some(trim(n))
            } else {
                None
            },
            _ => None,
        },
        _ => None,
    }
}

/// Keeps, of the items that share a name, only the last; unnamed items stay.
pub open spec fn dedup_named(items: Seq<JsonV>) -> Seq<JsonV>
    decreases items.len(),
{
    if items.len() == 0 {
        seq![]
    } else {
        let rest = items.drop_first();
        let keep = match name_of(items[0]) {
            Some(n) => !(exists|j: int| 0 <= j < rest.len() && name_of(#[trigger] rest[j]) == Some(n)),
            None => true,
        };
        if keep {
            seq![items[0]] + dedup_named(rest)
        } else {
            dedup_named(rest)
        }
    }
}

fn extract_name(value: &Json) -> (r: Option<String>)
    ensures
        r matches Some(n) ==> name_of(jv(*value)) == Some(n@),
        r is None ==> name_of(jv(*value)) is None,
{
    proof {
        reveal(name_of);
    }
    match value {
        Json::Object(o) => {
            proof {
                lemma_jv_object(*o);
            }
            match get_field(o, "name") {
                Some(Json::String(n)) => {
                    let v = chars_of(n.as_str());
                    let (a, b) = trim_bounds(&v, 0, v.len());
                    assert(v@.subrange(0, v@.len() as int) =~= v@);
                    if a < b {
                        Some(string_from_range(&v, a, b))
                    } else {
                        None
                    }
                },
                _ => None,
            }
        },
        _ => None,
    }
}

pub open spec fn seen_has(seen: Seq<String>, n: Seq<char>) -> bool {
    exists|k: int| 0 <= k < seen.len() && #[trigger] seen[k]@ == n
}

/// Some item of `all` at or after `from` is named `n`.
pub open spec fn named_from(all: Seq<JsonV>, from: int, n: Seq<char>) -> bool {
    exists|j: int| from <= j < all.len() && name_of(#[trigger] all[j]) == Some(n)
}

pub proof fn lemma_dedup_skip(all: Seq<JsonV>, i: int)
    requires
        0 <= i < all.len(),
    ensures
        dedup_named(all.skip(i)) == if kept(all, i) {
            seq![all[i]] + dedup_named(all.skip(i + 1))
        } else {
            dedup_named(all.skip(i + 1))
        },
{
    let s = all.skip(i);
    let tail = all.skip(i + 1);
    assert(s.drop_first() =~= tail);
    assert(s[0] == all[i]);
    if let Some(n) = name_of(all[i]) {
        if exists|j: int| 0 <= j < tail.len() && name_of(#[trigger] tail[j]) == Some(n) {
            let j = choose|j: int| 0 <= j < tail.len() && name_of(#[trigger] tail[j]) == Some(n);
            assert(tail[j] == all[i + 1 + j]);
            assert(named_from(all, i + 1, n));
        }
        if named_from(all, i + 1, n) {
            let j = choose|j: int| i + 1 <= j < all.len() && name_of(#[trigger] all[j]) == Some(n);
            assert(tail[j - i - 1] == all[j]);
        }
    }
}

fn name_seen(seen: &Vec<String>, n: &String) -> (r: bool)
    ensures
        r == seen_has(seen@, n@),
{
    let mut k: usize = 0;
    while k < seen.len()
        invariant
            0 <= k <= seen@.len(),
            forall|x: int| 0 <= x < k ==> seen@[x]@ != n@,
        decreases seen.len() - k,
    {
        if seen[k] == *n {
            return true;
        }
        k = k + 1;
    }
    false
}

/// Whether item `i` of `all` survives deduplication.
pub open spec fn kept(all: Seq<JsonV>, i: int) -> bool {
    match name_of(all[i]) {
        Some(n) => !named_from(all, i + 1, n),
        None => true,
    }
}

fn dedup_named_items(items: Vec<Json>) -> (r: Vec<Json>)
    ensures
        items_v(r@) == dedup_named(items_v(items@)),
{
    let ghost all = items_v(items@);
    let n = items.len();
    // Decide, from the back, which items stay.
    let mut seen: Vec<String> = Vec::new();
    let mut flags_rev: Vec<bool> = Vec::new();
    let mut i = n;
    while i > 0
        invariant
            n == items@.len() == all.len(),
            all == items_v(items@),
            0 <= i <= n,
            flags_rev@.len() == n - i,
            forall|k: int| 0 <= k < n - i ==> #[trigger] flags_rev@[k] == kept(all, n - 1 - k),
            forall|m: Seq<char>| #[trigger] seen_has(seen@, m) <==> named_from(all, i as int, m),
        decreases i,
    {
        i = i - 1;
        let name = extract_name(&items[i]);
        proof {
            assert(jv(items@[i as int]) == all[i as int]);
        }
        let keep = match &name {
            Some(m) => !name_seen(&seen, m),
            None => true,
        };
        flags_rev.push(keep);
        let ghost seen0 = seen@;
        match name {
            Some(m) => {
                seen.push(m);
            },
            None => {},
        }
        proof {
            assert forall|m: Seq<char>| #[trigger] seen_has(seen@, m) <==> named_from(all, i as int, m) by {
                assert(seen_has(seen0, m) <==> named_from(all, i + 1, m));
                if named_from(all, i as int, m) {
                    let j = choose|j: int| i <= j < all.len() && name_of(#[trigger] all[j]) == Some(m);
                    if j > i {
                        assert(named_from(all, i + 1, m));
                        let k = choose|k: int| 0 <= k < seen0.len() && #[trigger] seen0[k]@ == m;
                        assert(seen@[k] == seen0[k]);
                    } else {
                        assert(seen@[seen@.len() - 1]@ == m);
                    }
                }
                if seen_has(seen@, m) {
                    let k = choose|k: int| 0 <= k < seen@.len() && #[trigger] seen@[k]@ == m;
                    if k < seen0.len() {
                        assert(seen0[k]@ == m);
                        assert(named_from(all, i + 1, m));
                    } else {
                        assert(name_of(all[i as int]) == Some(m));
                    }
                }
            }
        }
    }
    // Keep the marked items, in their order.
    let mut r: Vec<Json> = Vec::new();
    let mut j: usize = 0;
    proof {
        assert(all.skip(0) =~= all);
        assert(items_v(r@) + dedup_named(all.skip(0)) =~= dedup_named(all));
    }
    for item in it: items
        invariant
            n == all.len(),
            it.seq() == items@,
            all == items_v(items@),
            j == it.index(),
            flags_rev@.len() == n,
            forall|k: int| 0 <= k < n ==> #[trigger] flags_rev@[k] == kept(all, n - 1 - k),
            items_v(r@) + dedup_named(all.skip(j as int)) == dedup_named(all),
    {
        proof {
            assert(jv(item) == all[j as int]);
            lemma_dedup_skip(all, j as int);
        }
        let ghost r0 = items_v(r@);
        if flags_rev[n - 1 - j] {
            r.push(item);
            proof {
                assert(items_v(r@) =~= r0.push(all[j as int]));
                assert(items_v(r@) + dedup_named(all.skip(j + 1)) =~= r0 + (seq![all[j as int]] + dedup_named(all.skip(j + 1))));
            }
        }
        j = j + 1;
    }
    proof {
        assert(all.skip(n as int) =~= Seq::<JsonV>::empty());
        assert(items_v(r@) =~= items_v(r@) + dedup_named(all.skip(n as int)));
    }
    r
}

// ---------------------------------------------------------------------------
// Raw merge
// ---------------------------------------------------------------------------

proof fn lemma_key_index_value(s: Entries, k: Seq<char>)
    requires
        has_key(s, k),
    ensures
        obj_get(s, k) == Some(s[key_index(s, k)].1),
        0 <= key_index(s, k) < s.len(),
        s[key_index(s, k)].0 == k,
{
    crate::json::lemma_key_index_props(s, k);
}

/// The entries of an object, or none for any other value.
pub open spec fn entries_or_empty(v: JsonV) -> Entries {
    match v {
        JsonV::Object(s) => s,
        _ => seq![],
    }
}

/// `patch` merged into `target`: objects merge key by key (keys unescaped),
/// anything else is replaced by a raw copy of the patch.
pub open spec fn merge_raw(target: JsonV, patch: JsonV) -> JsonV
    decreases patch, 1nat,
{
    match patch {
        JsonV::Object(ps) => JsonV::Object(merge_entries(entries_or_empty(target), ps)),
        _ => raw(patch),
    }
}

/// The patch entries `ps` merged, in order, into the entries `t`.
pub open spec fn merge_entries(t: Entries, ps: Entries) -> Entries
    decreases ps, 0nat,
{
    if ps.len() == 0 {
        t
    } else {
        let t1 = merge_entries(t, ps.subrange(0, ps.len() - 1));
        merge_step(t1, unescape(ps[ps.len() - 1].0), ps[ps.len() - 1].1)
    }
}

/// One patch entry `(k, v)` merged into the entries `t1`.
pub open spec fn merge_step(t1: Entries, k: Seq<char>, v: JsonV) -> Entries
    decreases v, 2nat,
{
    if obj_get(t1, k) matches Some(JsonV::Object(_)) && v is Object {
        obj_insert(t1, k, merge_raw(obj_get(t1, k).unwrap(), v))
    } else {
        obj_insert(t1, k, raw(v))
    }
}

/// The entries of `target`, which is left `null`.
fn take_entries(target: &mut Json) -> (r: Vec<(String, Json)>)
    ensures
        entries_v(r@) == entries_or_empty(jv(*old(target))),
{
    let mut tmp = Json::Null;
    std::mem::swap(&mut tmp, target);
    match tmp {
        Json::Object(v) => {
            proof {
                lemma_jv_object(v);
            }
            v
        },
        _ => {
            let v: Vec<(String, Json)> = Vec::new();
            assert(entries_v(v@) =~= Seq::<(Seq<char>, JsonV)>::empty());
            v
        },
    }
}

proof fn lemma_remove_insert<A>(s: Seq<A>, i: int, x: A)
    requires
        0 <= i < s.len(),
    ensures
        s.remove(i).insert(i, x) == s.update(i, x),
{
    assert(s.remove(i).insert(i, x) =~= s.update(i, x));
}

/// Merges `patch` into `target` as [`merge_raw`] states.
fn merge_raw_map(target: &mut Json, patch: &Json)
    ensures
        jv(*final(target)) == merge_raw(jv(*old(target)), jv(*patch)),
    decreases patch, 1nat,
{
    match patch {
        Json::Object(p) => {
            proof {
                lemma_jv_object(*p);
            }
            let mut t = take_entries(target);
            merge_entries_into(&mut t, p);
            proof {
                lemma_jv_object(t);
            }
            *target = Json::Object(t);
        },
        _ => {
            *target = clone_raw_value(patch);
        },
    }
}

proof fn lemma_merge_entries_step(t0: Entries, ps: Entries, i: int)
    requires
        0 <= i < ps.len(),
    ensures
        merge_entries(t0, ps.subrange(0, i + 1)) == merge_step(
            merge_entries(t0, ps.subrange(0, i)),
            unescape(ps[i].0),
            ps[i].1,
        ),
{
    let q = ps.subrange(0, i + 1);
    assert(q.subrange(0, q.len() - 1) =~= ps.subrange(0, i));
    assert(q[q.len() - 1] == ps[i]);
    assert(q.len() > 0);
    assert(merge_entries(t0, q) == merge_step(
        merge_entries(t0, q.subrange(0, q.len() - 1)),
        unescape(q[q.len() - 1].0),
        q[q.len() - 1].1,
    ));
}

/// Merges the patch entries `p` into the entries `t`.
fn merge_entries_into(t: &mut Vec<(String, Json)>, p: &Vec<(String, Json)>)
    ensures
        entries_v(final(t)@) == merge_entries(entries_v(old(t)@), entries_v(p@)),
    decreases p, 0nat,
{
    let ghost t0 = entries_v(t@);
    let ghost ps = entries_v(p@);
    let mut i: usize = 0;
    proof {
        assert(ps.subrange(0, 0) =~= Seq::<(Seq<char>, JsonV)>::empty());
    }
    while i < p.len()
        invariant
            0 <= i <= p.len(),
            ps == entries_v(p@),
            entries_v(t@) == merge_entries(t0, ps.subrange(0, i as int)),
        decreases p.len() - i,
    {
        proof {
            vstd::std_specs::vec::axiom_vec_index_decreases(*p, i as int);
            assert(decreases_to!(p@[i as int] => p@[i as int].1));
            lemma_merge_entries_step(t0, ps, i as int);
            assert(ps[i as int] == (p@[i as int].0@, jv(p@[i as int].1)));
        }
        let key = unescape_literal_key(p[i].0.as_str());
        merge_one(t, key, &p[i].1);
        i = i + 1;
    }
    proof {
        assert(ps.subrange(0, p@.len() as int) =~= ps);
    }
}

/// Merges one patch entry into `t`.
proof fn lemma_merge_step_plain(t1: Entries, k: Seq<char>, v: JsonV)
    requires
        !(obj_get(t1, k) matches Some(JsonV::Object(_)) && v is Object),
    ensures
        merge_step(t1, k, v) == obj_insert(t1, k, raw(v)),
{
}

proof fn lemma_merge_step_nested(t1: Entries, k: Seq<char>, v: JsonV)
    requires
        obj_get(t1, k) matches Some(JsonV::Object(_)),
        v is Object,
    ensures
        merge_step(t1, k, v) == obj_insert(t1, k, merge_raw(obj_get(t1, k).unwrap(), v)),
{
}

fn merge_one(t: &mut Vec<(String, Json)>, key: String, value: &Json)
    ensures
        entries_v(final(t)@) == merge_step(entries_v(old(t)@), key@, jv(*value)),
    decreases value, 2nat,
{
    let ghost t1 = entries_v(t@);
    let ghost v = jv(*value);
    proof {
        lemma_jv_kind(*value);
    }
    if let Some(j) = find_key(t, key.as_str()) {
        let both = match (&t[j].1, value) {
            (Json::Object(_), Json::Object(_)) => true,
            _ => false,
        };
        proof {
            lemma_key_index_value(t1, key@);
            assert(t1[j as int].1 == jv(t@[j as int].1));
            lemma_jv_kind(t@[j as int].1);
        }
        if both {
            let ghost before = t@;
            let (k, mut e) = t.remove(j);
            let ghost e0 = jv(e);
            proof {
                assert(e0 is Object);
                lemma_merge_step_nested(t1, key@, v);
            }
            merge_raw_map(&mut e, value);
            t.insert(j, (k, e));
            proof {
                lemma_remove_insert(before, j as int, (k, e));
                assert(entries_v(t@) =~= t1.update(j as int, (key@, jv(e))));
            }
            return;
        } else {
            proof {
                lemma_merge_step_plain(t1, key@, v);
            }
        }
    } else {
        proof {
            assert(obj_get(t1, key@) is None);
            lemma_merge_step_plain(t1, key@, v);
        }
    }
    let c = clone_raw_value(value);
    insert_field(t, key, c);
}

// ---------------------------------------------------------------------------
// Grouping patch keys by base field
// ---------------------------------------------------------------------------

/// For one base field, the index of the patch entry each modifier takes.
pub struct OpsIdx {
    pub replace: Option<nat>,
    pub start: Option<nat>,
    pub end: Option<nat>,
    pub merge: Option<nat>,
    pub force: Option<nat>,
}

pub open spec fn no_ops() -> OpsIdx {
    OpsIdx { replace: None, start: None, end: None, merge: None, force: None }
}

pub open spec fn set_op(o: OpsIdx, m: PatchModifier, i: nat) -> OpsIdx {
    match m {
        PatchModifier::Replace => OpsIdx { replace: Some(i), start: o.start, end: o.end, merge: o.merge, force: o.force },
        PatchModifier::Start => OpsIdx { replace: o.replace, start: Some(i), end: o.end, merge: o.merge, force: o.force },
        PatchModifier::End => OpsIdx { replace: o.replace, start: o.start, end: Some(i), merge: o.merge, force: o.force },
        PatchModifier::Merge => OpsIdx { replace: o.replace, start: o.start, end: o.end, merge: Some(i), force: o.force },
        PatchModifier::Force => OpsIdx { replace: o.replace, start: o.start, end: o.end, merge: o.merge, force: Some(i) },
    }
}

pub type Groups = Seq<(Seq<char>, OpsIdx)>;

/// Index of the group for base field `b`, or `-1`.
pub open spec fn group_index(g: Groups, b: Seq<char>) -> int {
    if exists|i: int| 0 <= i < g.len() && #[trigger] g[i].0 == b {
        choose|i: int| 0 <= i < g.len() && #[trigger] g[i].0 == b && forall|j: int| 0 <= j < i ==> g[j].0 != b
    } else {
        -1
    }
}

/// The patch entries grouped by base field, groups in order of first
/// appearance; a later key with the same base and modifier wins.
pub open spec fn group_keys(s: Entries) -> Groups
    decreases s.len(),
{
    if s.len() == 0 {
        seq![]
    } else {
        group_add(group_keys(s.take(s.len() - 1)), s[s.len() - 1].0, (s.len() - 1) as nat)
    }
}

/// The groups `g` after patch entry `i`, with key `key`, is recorded.
pub open spec fn group_add(g: Groups, key: Seq<char>, i: nat) -> Groups {
    let b = parse_key(key).0;
    let m = parse_key(key).1;
    let p = group_index(g, b);
    if p < 0 {
        g.push((b, set_op(no_ops(), m, i)))
    } else {
        g.update(p, (b, set_op(g[p].1, m, i)))
    }
}

/// The exec groups `r` hold the bases and values that `g` describes.
pub open spec fn groups_match(r: Seq<(String, PatchOperations)>, g: Groups, s: Entries) -> bool {
    &&& r.len() == g.len()
    &&& forall|k: int| 0 <= k < r.len() ==> (#[trigger] r[k]).0@ == g[k].0 && ops_match(r[k].1, g[k].1, s)
}

pub open spec fn opt_match(x: Option<Json>, i: Option<nat>, s: Entries) -> bool {
    match (x, i) {
        (None, None) => true,
        (Some(j), Some(k)) => k < s.len() && jv(j) == s[k as int].1,
        _ => false,
    }
}

/// The values held by `ops` are the patch values that `o` indexes.
pub open spec fn ops_match(ops: PatchOperations, o: OpsIdx, s: Entries) -> bool {
    &&& opt_match(ops.replace, o.replace, s)
    &&& opt_match(ops.start, o.start, s)
    &&& opt_match(ops.end, o.end, s)
    &&& opt_match(ops.merge, o.merge, s)
    &&& opt_match(ops.force, o.force, s)
}

proof fn lemma_group_index(g: Groups, b: Seq<char>, i: int)
    requires
        -1 <= i < g.len(),
        i >= 0 ==> g[i].0 == b,
        forall|j: int| 0 <= j < (if i >= 0 { i } else { g.len() as int }) ==> g[j].0 != b,
    ensures
        group_index(g, b) == i,
{
    if i >= 0 {
        let c = group_index(g, b);
        assert(0 <= c < g.len() && g[c].0 == b && forall|j: int| 0 <= j < c ==> g[j].0 != b);
        if c < i {
            assert(g[c].0 != b);
        }
        if c > i {
            assert(g[i].0 != b);
        }
    } else {
        assert(!(exists|x: int| 0 <= x < g.len() && #[trigger] g[x].0 == b));
    }
}

fn set_operation(ops: &mut PatchOperations, m: PatchModifier, v: Json, Ghost(o): Ghost<OpsIdx>, Ghost(s): Ghost<Entries>, Ghost(i): Ghost<nat>)
    requires
        ops_match(*old(ops), o, s),
        i < s.len(),
        jv(v) == s[i as int].1,
    ensures
        ops_match(*final(ops), set_op(o, m, i), s),
{
    match m {
        PatchModifier::Replace => ops.replace = Some(v),
        PatchModifier::Start => ops.start = Some(v),
        PatchModifier::End => ops.end = Some(v),
        PatchModifier::Merge => ops.merge = Some(v),
        PatchModifier::Force => ops.force = Some(v),
    }
}

fn record_key(
    grouped: &mut Vec<(String, PatchOperations)>,
    key: &str,
    value: Json,
    Ghost(g): Ghost<Groups>,
    Ghost(s): Ghost<Entries>,
    Ghost(i): Ghost<nat>,
)
    requires
        groups_match(old(grouped)@, g, s),
        i < s.len(),
        jv(value) == s[i as int].1,
    ensures
        groups_match(final(grouped)@, group_add(g, key@, i), s),
{
    let parsed = parse_modifier_key(key);
    let base = copy_string(parsed.base);
    let mut j: usize = 0;
    while j < grouped.len() && !str_eq(grouped[j].0.as_str(), base.as_str())
        invariant
            0 <= j <= grouped@.len(),
            forall|x: int| 0 <= x < j ==> grouped@[x].0@ != base@,
        decreases grouped.len() - j,
    {
        j = j + 1;
    }
    assert forall|x: int| 0 <= x < j implies g[x].0 != base@ by {
        assert(grouped@[x].0@ == g[x].0);
    }
    if j == grouped.len() {
        proof {
            lemma_group_index(g, base@, -1);
        }
        let mut ops = PatchOperations::default();
        set_operation(&mut ops, parsed.modifier, value, Ghost(no_ops()), Ghost(s), Ghost(i));
        grouped.push((base, ops));
        proof {
            let g2 = group_add(g, key@, i);
            assert forall|k: int| 0 <= k < grouped@.len() implies (#[trigger] grouped@[k]).0@ == g2[k].0
                && ops_match(grouped@[k].1, g2[k].1, s) by {
                if k < g.len() {
                    assert(grouped@[k] == old(grouped)@[k]);
                }
            }
        }
    } else {
        proof {
            assert(grouped@[j as int].0@ == g[j as int].0);
            lemma_group_index(g, base@, j as int);
        }
        let ghost before = grouped@;
        let (b, mut ops) = grouped.remove(j);
        set_operation(&mut ops, parsed.modifier, value, Ghost(g[j as int].1), Ghost(s), Ghost(i));
        grouped.insert(j, (b, ops));
        proof {
            lemma_remove_insert(before, j as int, (b, ops));
            let g2 = group_add(g, key@, i);
            assert forall|k: int| 0 <= k < grouped@.len() implies (#[trigger] grouped@[k]).0@ == g2[k].0
                && ops_match(grouped@[k].1, g2[k].1, s) by {
                if k != j {
                    assert(grouped@[k] == before[k]);
                }
            }
        }
    }
}

/// The patch keys of `map` grouped by base field, as [`group_keys`] states.
fn group_patch_keys(map: &Vec<(String, Json)>) -> (r: Vec<(String, PatchOperations)>)
    ensures
        groups_match(r@, group_keys(entries_v(map@)), entries_v(map@)),
{
    let ghost s = entries_v(map@);
    let mut grouped: Vec<(String, PatchOperations)> = Vec::new();
    let mut i: usize = 0;
    proof {
        assert(s.take(0) =~= Seq::<(Seq<char>, JsonV)>::empty());
    }
    while i < map.len()
        invariant
            0 <= i <= map.len(),
            s == entries_v(map@),
            groups_match(grouped@, group_keys(s.take(i as int)), s),
        decreases map.len() - i,
    {
        proof {
            let q = s.take(i + 1);
            assert(q.take(q.len() - 1) =~= s.take(i as int));
            assert(q[i as int] == s[i as int]);
        }
        let value = json_clone(&map[i].1);
        record_key(&mut grouped, map[i].0.as_str(), value, Ghost(group_keys(s.take(i as int))), Ghost(s), Ghost(i as nat));
        i = i + 1;
    }
    proof {
        assert(s.take(map@.len() as int) =~= s);
    }
    grouped
}

// ---------------------------------------------------------------------------
// Applying a patch document
// ---------------------------------------------------------------------------

/// The patch value that index `o` names.
pub open spec fn opv(o: Option<nat>, s: Entries) -> Option<JsonV> {
    match o {
        Some(i) => if i < s.len() {
            Some(s[i as int].1)
        } else {
            None
        },
        None => None,
    }
}

pub open spec fn opt_items(v: Option<JsonV>) -> Seq<JsonV> {
    match v {
        Some(x) => collect_items(x),
        None => seq![],
    }
}

/// The value under `k`, or an empty object when there is none.
pub open spec fn get_or_empty(t: Entries, k: Seq<char>) -> JsonV {
    match obj_get(t, k) {
        Some(v) => v,
        None => JsonV::Object(seq![]),
    }
}

/// The items of the array under `k`, or none.
pub open spec fn existing_items(t: Entries, k: Seq<char>) -> Seq<JsonV> {
    match obj_get(t, k) {
        Some(JsonV::Array(a)) => a,
        _ => seq![],
    }
}

/// `base` after its `-merge` value, if any, is merged in.
pub open spec fn with_merge(t: Entries, base: Seq<char>, o: OpsIdx, s: Entries) -> Entries {
    match opv(o.merge, s) {
        Some(m) => obj_insert(t, base, merge_raw(get_or_empty(t, base), m)),
        None => t,
    }
}

/// A list field: `-start` items, then the replacement's items or the
/// existing items, then `-end` items; named lists keep the last of each name.
pub open spec fn list_result(t: Entries, base: Seq<char>, style: ListStyle, o: OpsIdx, s: Entries) -> Entries {
    let middle = match opv(o.replace, s) {
        Some(r) => collect_items(r),
        None => existing_items(t, base),
    };
    let items = opt_items(opv(o.start, s)) + middle + opt_items(opv(o.end, s));
    obj_insert(
        t,
        base,
        JsonV::Array(
            if style == ListStyle::NamedObjects {
                dedup_named(items)
            } else {
                items
            },
        ),
    )
}

pub open spec fn apply_list(t: Entries, base: Seq<char>, style: ListStyle, o: OpsIdx, s: Entries) -> Entries {
    match opv(o.force, s) {
        Some(f) => obj_insert(t, base, raw(f)),
        None => list_result(t, base, style, o, s),
    }
}

/// `base` replaced by `r`: an object patches the current value under its schema,
/// anything else is stored as a raw copy.
pub open spec fn replace_with(t: Entries, base: Seq<char>, r: JsonV, schema: SchemaId) -> Entries
    decreases r, 1nat,
{
    if r is Object {
        obj_insert(t, base, apply_doc(get_or_empty(t, base), r, schema))
    } else {
        obj_insert(t, base, raw(r))
    }
}

/// `patch` applied to `target` under `schema`.
pub open spec fn apply_doc(target: JsonV, patch: JsonV, schema: SchemaId) -> JsonV
    decreases patch, 0nat,
{
    match patch {
        JsonV::Object(s) => JsonV::Object(apply_groups(entries_or_empty(target), s, group_keys(s), schema)),
        _ => raw(patch),
    }
}

/// The groups `g` of the patch entries `s` applied, in order, to `t`.
pub open spec fn apply_groups(t: Entries, s: Entries, g: Groups, schema: SchemaId) -> Entries
    decreases s, (g.len() + 1) as nat,
{
    if g.len() == 0 {
        t
    } else {
        let t1 = apply_groups(t, s, g.take(g.len() - 1), schema);
        let b = g[g.len() - 1].0;
        let o = g[g.len() - 1].1;
        match field_behavior_spec(schema, b) {
            Some(bh) => apply_field_spec(t1, b, bh, o, s),
            None => apply_generic(t1, b, o, s),
        }
    }
}

/// A field that the schema knows, patched by its behaviour.
pub open spec fn apply_field_spec(t: Entries, base: Seq<char>, b: FieldBehavior, o: OpsIdx, s: Entries) -> Entries
    decreases s, 0nat,
{
    match opv(o.force, s) {
        Some(f) => obj_insert(t, base, raw(f)),
        None => match b {
            FieldBehavior::Scalar => match opv(o.replace, s) {
                Some(r) => obj_insert(t, base, raw(r)),
                None => t,
            },
            FieldBehavior::List(style) => list_result(t, base, style, o, s),
            FieldBehavior::Mapping => {
                let t1 = with_merge(t, base, o, s);
                match opv(o.replace, s) {
                    Some(r) => obj_insert(t1, base, raw(r)),
                    None => t1,
                }
            },
            FieldBehavior::Object(schema) => {
                let t1 = match o.replace {
                    Some(i) => if i < s.len() {
                        replace_with(t, base, s[i as int].1, schema)
                    } else {
                        t
                    },
                    None => t,
                };
                with_merge(t1, base, o, s)
            },
            FieldBehavior::Rules => list_result(t, base, ListStyle::Plain, o, s),
        },
    }
}

/// A field the schema does not know: merge, then replace, then list edges.
pub open spec fn apply_generic(t: Entries, base: Seq<char>, o: OpsIdx, s: Entries) -> Entries
    decreases s, 0nat,
{
    match opv(o.force, s) {
        Some(f) => obj_insert(t, base, raw(f)),
        None => {
            let t1 = with_merge(t, base, o, s);
            let t2 = match o.replace {
                Some(i) => if i < s.len() {
                    replace_with(t1, base, s[i as int].1, SchemaId::Root)
                } else {
                    t1
                },
                None => t1,
            };
            if o.start is Some || o.end is Some {
                obj_insert(
                    t2,
                    base,
                    JsonV::Array(
                        opt_items(opv(o.start, s)) + existing_items(t2, base) + opt_items(opv(o.end, s)),
                    ),
                )
            } else {
                t2
            }
        },
    }
}

/// Removes the value under `key`, or yields an empty object when there is none.
fn take_field(t: &mut Vec<(String, Json)>, key: &str) -> (r: (Json, Option<usize>))
    ensures
        jv(r.0) == get_or_empty(entries_v(old(t)@), key@),
        r.1 matches Some(i) ==> has_key(entries_v(old(t)@), key@) && i == key_index(
            entries_v(old(t)@),
            key@,
        ) && final(t)@ == old(t)@.remove(i as int),
        r.1 is None ==> !has_key(entries_v(old(t)@), key@) && final(t)@ == old(t)@,
{
    match find_key(t, key) {
        Some(i) => {
            proof {
                lemma_key_index_value(entries_v(t@), key@);
            }
            let (_k, v) = t.remove(i);
            (v, Some(i))
        },
        None => {
            let e: Vec<(String, Json)> = Vec::new();
            proof {
                lemma_jv_object(e);
                assert(entries_v(e@) =~= Seq::<(Seq<char>, JsonV)>::empty());
            }
            (Json::Object(e), None)
        },
    }
}

/// Stores `v` under `key` where [`take_field`] removed it.
fn put_field(t: &mut Vec<(String, Json)>, key: &str, slot: Option<usize>, v: Json, Ghost(orig): Ghost<Seq<(String, Json)>>)
    requires
        slot matches Some(i) ==> has_key(entries_v(orig), key@) && i == key_index(entries_v(orig), key@)
            && old(t)@ == orig.remove(i as int),
        slot is None ==> !has_key(entries_v(orig), key@) && old(t)@ == orig,
    ensures
        entries_v(final(t)@) == obj_insert(entries_v(orig), key@, jv(v)),
{
    let k = copy_string(key);
    match slot {
        Some(i) => {
            proof {
                lemma_key_index_value(entries_v(orig), key@);
            }
            t.insert(i, (k, v));
            proof {
                lemma_remove_insert(orig, i as int, (k, v));
                assert(entries_v(t@) =~= entries_v(orig).update(i as int, (key@, jv(v))));
            }
        },
        None => {
            insert_field(t, k, v);
        },
    }
}

/// Merges `m` into the value under `base`.
fn merge_into_field(t: &mut Vec<(String, Json)>, base: &str, m: &Json)
    ensures
        entries_v(final(t)@) == obj_insert(entries_v(old(t)@), base@, merge_raw(get_or_empty(entries_v(old(t)@), base@), jv(*m))),
{
    let ghost orig = t@;
    let (mut e, slot) = take_field(t, base);
    merge_raw_map(&mut e, m);
    put_field(t, base, slot, e, Ghost(orig));
}

/// Stores a raw copy of `v` under `base`.
fn set_raw_field(t: &mut Vec<(String, Json)>, base: &str, v: &Json)
    ensures
        entries_v(final(t)@) == obj_insert(entries_v(old(t)@), base@, raw(jv(*v))),
{
    let c = clone_raw_value(v);
    insert_field(t, copy_string(base), c);
}

/// Replaces `base` by `r` as [`replace_with`] states.
fn apply_replacement(t: &mut Vec<(String, Json)>, base: &str, r: &Json, schema: SchemaId)
    ensures
        entries_v(final(t)@) == replace_with(entries_v(old(t)@), base@, jv(*r), schema),
    decreases jv(*r), 1nat,
{
    proof {
        lemma_jv_kind(*r);
    }
    if let Json::Object(_) = r {
        let ghost orig = t@;
        let (mut e, slot) = take_field(t, base);
        apply_nested_object_with_schema(&mut e, r, schema);
        put_field(t, base, slot, e, Ghost(orig));
    } else {
        set_raw_field(t, base, r);
    }
}

/// Appends clones of the items of the array under `base`.
#[verifier::loop_isolation(false)]
fn push_existing_items(items: &mut Vec<Json>, t: &Vec<(String, Json)>, base: &str)
    ensures
        items_v(final(items)@) == items_v(old(items)@) + existing_items(entries_v(t@), base@),
{
    match get_field(t, base) {
        Some(Json::Array(existing)) => {
            proof {
                lemma_jv_array(*existing);
            }
            let mut i: usize = 0;
            let ghost start = items_v(items@);
            while i < existing.len()
                invariant
                    0 <= i <= existing.len(),
                    items_v(items@) == start + items_v(existing@).take(i as int),
                decreases existing.len() - i,
            {
                let ghost prev = items@;
                let c = json_clone(&existing[i]);
                items.push(c);
                proof {
                    assert(items@ == prev.push(c));
                    assert(items_v(items@) =~= items_v(prev).push(jv(c)));
                    assert(items_v(existing@)[i as int] == jv(existing@[i as int]));
                    assert(items_v(existing@).take(i + 1) =~= items_v(existing@).take(i as int).push(
                        items_v(existing@)[i as int],
                    ));
                }
                i = i + 1;
            }
            assert(items_v(existing@).take(existing@.len() as int) =~= items_v(existing@));
        },
        Some(other) => {
            proof {
                lemma_jv_kind(*other);
            }
            assert(items_v(items@) =~= items_v(items@) + Seq::<JsonV>::empty());
        },
        None => {
            assert(items_v(items@) =~= items_v(items@) + Seq::<JsonV>::empty());
        },
    }
}

/// Appends the items a list modifier contributes.
fn push_collected(items: &mut Vec<Json>, v: &Option<Json>, Ghost(o): Ghost<Option<nat>>, Ghost(s): Ghost<Entries>)
    requires
        opt_match(*v, o, s),
    ensures
        items_v(final(items)@) == items_v(old(items)@) + opt_items(opv(o, s)),
{
    match v {
        Some(x) => {
            let mut c = collect_array_items(x);
            let ghost a = items_v(items@);
            let ghost b = items_v(c@);
            items.append(&mut c);
            assert(items_v(items@) =~= a + b);
        },
        None => {
            assert(items_v(items@) =~= items_v(items@) + Seq::<JsonV>::empty());
        },
    }
}

fn apply_list_field(
    target_object: &mut Vec<(String, Json)>,
    base_key: &str,
    style: ListStyle,
    operations: PatchOperations,
    Ghost(o): Ghost<OpsIdx>,
    Ghost(s): Ghost<Entries>,
)
    requires
        ops_match(operations, o, s),
    ensures
        entries_v(final(target_object)@) == apply_list(entries_v(old(target_object)@), base_key@, style, o, s),
{
    if let Some(force) = &operations.force {
        set_raw_field(target_object, base_key, force);
        return;
    }
    let mut items: Vec<Json> = Vec::new();
    assert(items_v(items@) =~= Seq::<JsonV>::empty());
    push_collected(&mut items, &operations.start, Ghost(o.start), Ghost(s));
    if operations.replace.is_some() {
        push_collected(&mut items, &operations.replace, Ghost(o.replace), Ghost(s));
    } else {
        push_existing_items(&mut items, target_object, base_key);
    }
    push_collected(&mut items, &operations.end, Ghost(o.end), Ghost(s));
    let ghost collected = items_v(items@);
    proof {
        let middle = match opv(o.replace, s) {
            Some(r) => collect_items(r),
            None => existing_items(entries_v(target_object@), base_key@),
        };
        assert(collected =~= opt_items(opv(o.start, s)) + middle + opt_items(opv(o.end, s)));
    }
    let items = match style {
        ListStyle::NamedObjects => dedup_named_items(items),
        ListStyle::Plain => items,
    };
    let arr = Json::Array(items);
    proof {
        lemma_jv_array(items);
    }
    insert_field(target_object, copy_string(base_key), arr);
}

fn apply_field(
    target_object: &mut Vec<(String, Json)>,
    base_key: &str,
    behavior: FieldBehavior,
    operations: PatchOperations,
    Ghost(o): Ghost<OpsIdx>,
    Ghost(s): Ghost<Entries>,
)
    requires
        ops_match(operations, o, s),
    ensures
        entries_v(final(target_object)@) == apply_field_spec(entries_v(old(target_object)@), base_key@, behavior, o, s),
    decreases s, 0nat,
{
    if let Some(force) = &operations.force {
        set_raw_field(target_object, base_key, force);
        return;
    }
    match behavior {
        FieldBehavior::Scalar => {
            if let Some(replace) = &operations.replace {
                set_raw_field(target_object, base_key, replace);
            }
        },
        FieldBehavior::List(style) => {
            apply_list_field(target_object, base_key, style, operations, Ghost(o), Ghost(s));
        },
        FieldBehavior::Mapping => {
            if let Some(merge) = &operations.merge {
                merge_into_field(target_object, base_key, merge);
            }
            if let Some(replace) = &operations.replace {
                set_raw_field(target_object, base_key, replace);
            }
        },
        FieldBehavior::Object(schema) => {
            if let Some(replace) = &operations.replace {
                proof {
                    let i = o.replace.unwrap();
                    assert(decreases_to!(s => s[i as int]));
                    assert(decreases_to!(s => jv(*replace)));
                }
                apply_replacement(target_object, base_key, replace, schema);
            }
            if let Some(merge) = &operations.merge {
                merge_into_field(target_object, base_key, merge);
            }
        },
        FieldBehavior::Rules => {
            apply_list_field(target_object, base_key, ListStyle::Plain, operations, Ghost(o), Ghost(s));
        },
    }
}

fn apply_generic_field(
    target_object: &mut Vec<(String, Json)>,
    base_key: &str,
    operations: PatchOperations,
    Ghost(o): Ghost<OpsIdx>,
    Ghost(s): Ghost<Entries>,
)
    requires
        ops_match(operations, o, s),
    ensures
        entries_v(final(target_object)@) == apply_generic(entries_v(old(target_object)@), base_key@, o, s),
    decreases s, 0nat,
{
    if let Some(force) = &operations.force {
        set_raw_field(target_object, base_key, force);
        return;
    }
    if let Some(merge) = &operations.merge {
        merge_into_field(target_object, base_key, merge);
    }
    if let Some(replace) = &operations.replace {
        proof {
            let i = o.replace.unwrap();
            assert(decreases_to!(s => s[i as int]));
            assert(decreases_to!(s => jv(*replace)));
        }
        apply_replacement(target_object, base_key, replace, SchemaId::Root);
    }
    if operations.start.is_some() || operations.end.is_some() {
        let mut items: Vec<Json> = Vec::new();
        assert(items_v(items@) =~= Seq::<JsonV>::empty());
        push_collected(&mut items, &operations.start, Ghost(o.start), Ghost(s));
        push_existing_items(&mut items, target_object, base_key);
        push_collected(&mut items, &operations.end, Ghost(o.end), Ghost(s));
        let arr = Json::Array(items);
        proof {
            lemma_jv_array(items);
        }
        insert_field(target_object, copy_string(base_key), arr);
    }
}

proof fn lemma_apply_groups_step(t0: Entries, s: Entries, g: Groups, k: int, schema: SchemaId)
    requires
        0 <= k < g.len(),
    ensures
        apply_groups(t0, s, g.take(k + 1), schema) == ({
            let t1 = apply_groups(t0, s, g.take(k), schema);
            match field_behavior_spec(schema, g[k].0) {
                Some(bh) => apply_field_spec(t1, g[k].0, bh, g[k].1, s),
                None => apply_generic(t1, g[k].0, g[k].1, s),
            }
        }),
{
    let q = g.take(k + 1);
    assert(q.take(q.len() - 1) =~= g.take(k));
    assert(q[q.len() - 1] == g[k]);
}

/// Applies `patch` to `target` under `schema`, as [`apply_doc`] states.
fn apply_nested_object_with_schema(target: &mut Json, patch: &Json, schema: SchemaId)
    ensures
        jv(*final(target)) == apply_doc(jv(*old(target)), jv(*patch), schema),
    decreases jv(*patch), 0nat,
{
    match patch {
        Json::Object(p) => {
            proof {
                lemma_jv_object(*p);
            }
            let ghost s = entries_v(p@);
            let ghost g = group_keys(s);
            let ghost t0 = entries_or_empty(jv(*target));
            let mut t = take_entries(target);
            let mut grouped = group_patch_keys(p);
            let n = grouped.len();
            let mut k: usize = 0;
            proof {
                assert(g.skip(0) =~= g);
                assert(g.take(0) =~= Seq::<(Seq<char>, OpsIdx)>::empty());
            }
            while grouped.len() > 0
                invariant
                    n == g.len(),
                    k + grouped@.len() == n,
                    s == entries_v(p@),
                    jv(*patch) == JsonV::Object(s),
                    groups_match(grouped@, g.skip(k as int), s),
                    entries_v(t@) == apply_groups(t0, s, g.take(k as int), schema),
                decreases grouped.len(),
            {
                let ghost before = grouped@;
                let (base, ops) = grouped.remove(0);
                proof {
                    assert(base@ == g[k as int].0);
                    assert(ops_match(ops, g[k as int].1, s));
                    assert(groups_match(grouped@, g.skip(k + 1), s)) by {
                        assert forall|x: int| 0 <= x < grouped@.len() implies (#[trigger] grouped@[x]).0@
                            == g.skip(k + 1)[x].0 && ops_match(grouped@[x].1, g.skip(k + 1)[x].1, s) by {
                            assert(grouped@[x] == before[x + 1]);
                        }
                    }
                    lemma_apply_groups_step(t0, s, g, k as int, schema);
                    assert(decreases_to!(jv(*patch) => jv(*patch)->Object_0));
                }
                match field_behavior(schema, base.as_str()) {
                    Some(behavior) => {
                        apply_field(&mut t, base.as_str(), behavior, ops, Ghost(g[k as int].1), Ghost(s));
                    },
                    None => {
                        apply_generic_field(&mut t, base.as_str(), ops, Ghost(g[k as int].1), Ghost(s));
                    },
                }
                k = k + 1;
            }
            proof {
                assert(g.take(n as int) =~= g);
                lemma_jv_object(t);
            }
            *target = Json::Object(t);
        },
        _ => {
            *target = clone_raw_value(patch);
        },
    }
}

/// Applies an override document to the configuration root.
pub fn apply_override_document(target: &mut Json, patch: &Json)
    ensures
        jv(*final(target)) == apply_doc(jv(*old(target)), jv(*patch), SchemaId::Root),
        json_wf(jv(*old(target))) ==> json_wf(jv(*final(target))),
{
    proof {
        if json_wf(jv(*target)) {
            lemma_apply_doc_wf(jv(*target), jv(*patch), SchemaId::Root);
        }
    }
    apply_nested_object_with_schema(target, patch, SchemaId::Root);
}


// ---------------------------------------------------------------------------
// Laws of the override engine
// ---------------------------------------------------------------------------

proof fn lemma_insert_frame(t: Entries, base: Seq<char>, v: JsonV, k: Seq<char>)
    requires
        k != base,
    ensures
        obj_get(obj_insert(t, base, v), k) == obj_get(t, k),
{
    obj_read_after_write(t, base, v, k);
}

proof fn lemma_with_merge_frame(t: Entries, base: Seq<char>, o: OpsIdx, s: Entries, k: Seq<char>)
    requires
        k != base,
    ensures
        obj_get(with_merge(t, base, o, s), k) == obj_get(t, k),
{
    match opv(o.merge, s) {
        Some(m) => lemma_insert_frame(t, base, merge_raw(get_or_empty(t, base), m), k),
        None => {},
    }
}

proof fn lemma_replace_frame(t: Entries, base: Seq<char>, r: JsonV, schema: SchemaId, k: Seq<char>)
    requires
        k != base,
    ensures
        obj_get(replace_with(t, base, r, schema), k) == obj_get(t, k),
{
    if r is Object {
        lemma_insert_frame(t, base, apply_doc(get_or_empty(t, base), r, schema), k);
    } else {
        lemma_insert_frame(t, base, raw(r), k);
    }
}

proof fn lemma_list_frame(t: Entries, base: Seq<char>, style: ListStyle, o: OpsIdx, s: Entries, k: Seq<char>)
    requires
        k != base,
    ensures
        obj_get(list_result(t, base, style, o, s), k) == obj_get(t, k),
{
    let middle = match opv(o.replace, s) {
        Some(r) => collect_items(r),
        None => existing_items(t, base),
    };
    let items = opt_items(opv(o.start, s)) + middle + opt_items(opv(o.end, s));
    lemma_insert_frame(
        t,
        base,
        JsonV::Array(
            if style == ListStyle::NamedObjects {
                dedup_named(items)
            } else {
                items
            },
        ),
        k,
    );
}

proof fn lemma_field_frame(t: Entries, base: Seq<char>, b: FieldBehavior, o: OpsIdx, s: Entries, k: Seq<char>)
    requires
        k != base,
    ensures
        obj_get(apply_field_spec(t, base, b, o, s), k) == obj_get(t, k),
{
    match opv(o.force, s) {
        Some(f) => lemma_insert_frame(t, base, raw(f), k),
        None => match b {
            FieldBehavior::Scalar => match opv(o.replace, s) {
                Some(r) => lemma_insert_frame(t, base, raw(r), k),
                None => {},
            },
            FieldBehavior::List(style) => lemma_list_frame(t, base, style, o, s, k),
            FieldBehavior::Mapping => {
                let t1 = with_merge(t, base, o, s);
                lemma_with_merge_frame(t, base, o, s, k);
                match opv(o.replace, s) {
                    Some(r) => lemma_insert_frame(t1, base, raw(r), k),
                    None => {},
                }
            },
            FieldBehavior::Object(schema) => {
                let t1 = match o.replace {
                    Some(i) => if i < s.len() {
                        replace_with(t, base, s[i as int].1, schema)
                    } else {
                        t
                    },
                    None => t,
                };
                match o.replace {
                    Some(i) => if i < s.len() {
                        lemma_replace_frame(t, base, s[i as int].1, schema, k);
                    },
                    None => {},
                }
                lemma_with_merge_frame(t1, base, o, s, k);
            },
            FieldBehavior::Rules => lemma_list_frame(t, base, ListStyle::Plain, o, s, k),
        },
    }
}

proof fn lemma_generic_frame(t: Entries, base: Seq<char>, o: OpsIdx, s: Entries, k: Seq<char>)
    requires
        k != base,
    ensures
        obj_get(apply_generic(t, base, o, s), k) == obj_get(t, k),
{
    match opv(o.force, s) {
        Some(f) => lemma_insert_frame(t, base, raw(f), k),
        None => {
            let t1 = with_merge(t, base, o, s);
            lemma_with_merge_frame(t, base, o, s, k);
            let t2 = match o.replace {
                Some(i) => if i < s.len() {
                    replace_with(t1, base, s[i as int].1, SchemaId::Root)
                } else {
                    t1
                },
                None => t1,
            };
            match o.replace {
                Some(i) => if i < s.len() {
                    lemma_replace_frame(t1, base, s[i as int].1, SchemaId::Root, k);
                },
                None => {},
            }
            if o.start is Some || o.end is Some {
                lemma_insert_frame(
                    t2,
                    base,
                    JsonV::Array(
                        opt_items(opv(o.start, s)) + existing_items(t2, base) + opt_items(opv(o.end, s)),
                    ),
                    k,
                );
            }
        },
    }
}

proof fn lemma_groups_frame(t: Entries, s: Entries, g: Groups, schema: SchemaId, k: Seq<char>)
    requires
        forall|j: int| 0 <= j < g.len() ==> (#[trigger] g[j]).0 != k,
    ensures
        obj_get(apply_groups(t, s, g, schema), k) == obj_get(t, k),
    decreases g.len(),
{
    if g.len() > 0 {
        let g0 = g.take(g.len() - 1);
        assert forall|j: int| 0 <= j < g0.len() implies (#[trigger] g0[j]).0 != k by {
            assert(g0[j] == g[j]);
        }
        lemma_groups_frame(t, s, g0, schema, k);
        let t1 = apply_groups(t, s, g0, schema);
        let b = g[g.len() - 1].0;
        let o = g[g.len() - 1].1;
        match field_behavior_spec(schema, b) {
            Some(bh) => lemma_field_frame(t1, b, bh, o, s, k),
            None => lemma_generic_frame(t1, b, o, s, k),
        }
    }
}

/// The bases that the keys of `s` name.
pub open spec fn key_bases(s: Entries) -> Seq<Seq<char>> {
    Seq::new(s.len(), |i: int| parse_key(s[i].0).0)
}

proof fn min_group_index(g: Groups, b: Seq<char>, w: int) -> (m: int)
    requires
        0 <= w < g.len(),
        g[w].0 == b,
    ensures
        0 <= m < g.len(),
        g[m].0 == b,
        forall|j: int| 0 <= j < m ==> g[j].0 != b,
    decreases w,
{
    if exists|j: int| 0 <= j < w && #[trigger] g[j].0 == b {
        let j = choose|j: int| 0 <= j < w && #[trigger] g[j].0 == b;
        min_group_index(g, b, j)
    } else {
        w
    }
}

proof fn lemma_group_add_bases(g0: Groups, key: Seq<char>, i: nat, bs: Seq<Seq<char>>)
    requires
        forall|j: int| 0 <= j < g0.len() ==> bs.contains((#[trigger] g0[j]).0),
        bs.contains(parse_key(key).0),
    ensures
        forall|j: int| 0 <= j < group_add(g0, key, i).len() ==> bs.contains((#[trigger] group_add(g0, key, i)[j]).0),
{
    let b = parse_key(key).0;
    let p = group_index(g0, b);
    if exists|x: int| 0 <= x < g0.len() && #[trigger] g0[x].0 == b {
        let w = choose|x: int| 0 <= x < g0.len() && #[trigger] g0[x].0 == b;
        let m = min_group_index(g0, b, w);
        lemma_group_index(g0, b, m);
    } else {
        assert(p == -1);
    }
    let g = group_add(g0, key, i);
    assert forall|j: int| 0 <= j < g.len() implies bs.contains((#[trigger] g[j]).0) by {
        if j < g0.len() && (p < 0 || j != p) {
            assert(g[j] == g0[j]);
        } else {
            assert(g[j].0 == b);
        }
    }
}

proof fn lemma_group_bases(s: Entries)
    ensures
        forall|j: int| 0 <= j < group_keys(s).len() ==> key_bases(s).contains((#[trigger] group_keys(s)[j]).0),
    decreases s.len(),
{
    if s.len() > 0 {
        let s0 = s.take(s.len() - 1);
        lemma_group_bases(s0);
        let g0 = group_keys(s0);
        let bs = key_bases(s);
        assert forall|j: int| 0 <= j < g0.len() implies bs.contains((#[trigger] g0[j]).0) by {
            let x = g0[j].0;
            assert(key_bases(s0).contains(x));
            let w = choose|w: int| 0 <= w < key_bases(s0).len() && key_bases(s0)[w] == x;
            assert(bs[w] == x);
        }
        assert(bs[s.len() - 1] == parse_key(s[s.len() - 1].0).0);
        lemma_group_add_bases(g0, s[s.len() - 1].0, (s.len() - 1) as nat, bs);
    }
}

/// An override changes only the fields it names: a key of the target that
/// no patch key names (once its modifier is stripped) keeps its value.
pub proof fn override_keeps_unnamed_fields(t: Entries, s: Entries, schema: SchemaId, k: Seq<char>)
    requires
        forall|i: int| 0 <= i < s.len() ==> parse_key(#[trigger] s[i].0).0 != k,
    ensures
        obj_get(entries_or_empty(apply_doc(JsonV::Object(t), JsonV::Object(s), schema)), k) == obj_get(t, k),
{
    let g = group_keys(s);
    lemma_group_bases(s);
    assert forall|j: int| 0 <= j < g.len() implies (#[trigger] g[j]).0 != k by {
        assert(key_bases(s).contains(g[j].0));
        let w = choose|w: int| 0 <= w < key_bases(s).len() && key_bases(s)[w] == g[j].0;
        assert(parse_key(s[w].0).0 != k);
    }
    lemma_groups_frame(t, s, g, schema, k);
}


/// Index of the last patch key that names base `b` with modifier `m`.
pub open spec fn last_op(s: Entries, b: Seq<char>, m: PatchModifier) -> Option<nat>
    decreases s.len(),
{
    if s.len() == 0 {
        None
    } else if parse_key(s.last().0) == (b, m) {
        Some((s.len() - 1) as nat)
    } else {
        last_op(s.drop_last(), b, m)
    }
}

/// The operations that the keys of `s` give base `b`: the last key of each modifier.
pub open spec fn ops_of(s: Entries, b: Seq<char>) -> OpsIdx {
    OpsIdx {
        replace: last_op(s, b, PatchModifier::Replace),
        start: last_op(s, b, PatchModifier::Start),
        end: last_op(s, b, PatchModifier::End),
        merge: last_op(s, b, PatchModifier::Merge),
        force: last_op(s, b, PatchModifier::Force),
    }
}

/// The shape of the groups: one group per base, in first-use order, each
/// holding the last key of every modifier.
pub open spec fn groups_wf(s: Entries, g: Groups) -> bool {
    &&& forall|j: int| 0 <= j < g.len() ==> (#[trigger] g[j]).1 == ops_of(s, g[j].0)
    &&& forall|j1: int, j2: int| 0 <= j1 < g.len() && 0 <= j2 < g.len() && j1 != j2 ==> (#[trigger] g[j1]).0 != (#[trigger] g[j2]).0
    &&& forall|b: Seq<char>| key_bases(s).contains(b) <==> exists|j: int| 0 <= j < g.len() && (#[trigger] g[j]).0 == b
}

proof fn lemma_ops_of_push(s0: Entries, e: (Seq<char>, JsonV), c: Seq<char>)
    ensures
        parse_key(e.0).0 != c ==> ops_of(s0.push(e), c) == ops_of(s0, c),
        parse_key(e.0).0 == c ==> ops_of(s0.push(e), c) == set_op(ops_of(s0, c), parse_key(e.0).1, s0.len()),
{
    let s = s0.push(e);
    assert(s.drop_last() =~= s0);
    assert(s.last() == e);
}

proof fn lemma_no_base_no_ops(s: Entries, b: Seq<char>)
    requires
        !key_bases(s).contains(b),
    ensures
        ops_of(s, b) == no_ops(),
    decreases s.len(),
{
    if s.len() > 0 {
        let s0 = s.drop_last();
        assert(key_bases(s)[s.len() - 1] == parse_key(s.last().0).0);
        assert(!key_bases(s0).contains(b)) by {
            if key_bases(s0).contains(b) {
                let w = choose|w: int| 0 <= w < key_bases(s0).len() && key_bases(s0)[w] == b;
                assert(key_bases(s)[w] == b);
            }
        }
        lemma_no_base_no_ops(s0, b);
    }
}

#[verifier::rlimit(40)]
proof fn lemma_group_keys_wf(s: Entries)
    ensures
        groups_wf(s, group_keys(s)),
    decreases s.len(),
{
    let g = group_keys(s);
    if s.len() == 0 {
        assert forall|b: Seq<char>| key_bases(s).contains(b) <==> exists|j: int| 0 <= j < g.len() && (#[trigger] g[j]).0 == b by {}
    } else {
        let s0 = s.take(s.len() - 1);
        assert(s0 == s.drop_last());
        lemma_group_keys_wf(s0);
        let g0 = group_keys(s0);
        let e = s[s.len() - 1];
        assert(s =~= s0.push(e));
        let b = parse_key(e.0).0;
        let m = parse_key(e.0).1;
        let i = (s.len() - 1) as nat;
        assert(g == group_add(g0, e.0, i));
        let p = group_index(g0, b);
        if exists|x: int| 0 <= x < g0.len() && #[trigger] g0[x].0 == b {
            let w = choose|x: int| 0 <= x < g0.len() && #[trigger] g0[x].0 == b;
            let mi = min_group_index(g0, b, w);
            lemma_group_index(g0, b, mi);
            assert(g == g0.update(p, (b, set_op(g0[p].1, m, i))));
            assert forall|j: int| 0 <= j < g.len() implies (#[trigger] g[j]).1 == ops_of(s, g[j].0) by {
                lemma_ops_of_push(s0, e, g[j].0);
                if j != p {
                    assert(g[j] == g0[j]);
                    assert(g0[j].0 != g0[p].0);
                }
            }
            assert forall|j1: int, j2: int| 0 <= j1 < g.len() && 0 <= j2 < g.len() && j1 != j2 implies (#[trigger] g[j1]).0 != (#[trigger] g[j2]).0 by {
                assert(g[j1].0 == g0[j1].0);
                assert(g[j2].0 == g0[j2].0);
            }
            assert forall|c: Seq<char>| key_bases(s).contains(c) <==> exists|j: int| 0 <= j < g.len() && (#[trigger] g[j]).0 == c by {
                if key_bases(s).contains(c) {
                    let w2 = choose|w2: int| 0 <= w2 < key_bases(s).len() && key_bases(s)[w2] == c;
                    if w2 < s0.len() {
                        assert(key_bases(s0)[w2] == c);
                        assert(key_bases(s0).contains(c));
                        let j = choose|j: int| 0 <= j < g0.len() && (#[trigger] g0[j]).0 == c;
                        assert(g[j].0 == c);
                    } else {
                        assert(g[p].0 == c);
                    }
                }
                if exists|j: int| 0 <= j < g.len() && (#[trigger] g[j]).0 == c {
                    let j = choose|j: int| 0 <= j < g.len() && (#[trigger] g[j]).0 == c;
                    assert(g0[j].0 == c);
                    assert(key_bases(s0).contains(c));
                    let w3 = choose|w3: int| 0 <= w3 < key_bases(s0).len() && key_bases(s0)[w3] == c;
                    assert(key_bases(s)[w3] == c);
                }
            }
        } else {
            assert(p == -1);
            assert(g == g0.push((b, set_op(no_ops(), m, i))));
            assert(!key_bases(s0).contains(b));
            lemma_no_base_no_ops(s0, b);
            assert forall|j: int| 0 <= j < g.len() implies (#[trigger] g[j]).1 == ops_of(s, g[j].0) by {
                lemma_ops_of_push(s0, e, g[j].0);
                if j < g0.len() {
                    assert(g[j] == g0[j]);
                }
            }
            assert forall|j1: int, j2: int| 0 <= j1 < g.len() && 0 <= j2 < g.len() && j1 != j2 implies (#[trigger] g[j1]).0 != (#[trigger] g[j2]).0 by {
                if j1 < g0.len() && j2 < g0.len() {
                    assert(g[j1] == g0[j1] && g[j2] == g0[j2]);
                } else if j1 < g0.len() {
                    assert(g[j1] == g0[j1]);
                } else {
                    assert(g[j2] == g0[j2]);
                }
            }
            assert forall|c: Seq<char>| key_bases(s).contains(c) <==> exists|j: int| 0 <= j < g.len() && (#[trigger] g[j]).0 == c by {
                if key_bases(s).contains(c) {
                    let w2 = choose|w2: int| 0 <= w2 < key_bases(s).len() && key_bases(s)[w2] == c;
                    if w2 < s0.len() {
                        assert(key_bases(s0)[w2] == c);
                        assert(key_bases(s0).contains(c));
                        let j = choose|j: int| 0 <= j < g0.len() && (#[trigger] g0[j]).0 == c;
                        assert(g[j].0 == c);
                    } else {
                        assert(g[g0.len() as int].0 == c);
                    }
                }
                if exists|j: int| 0 <= j < g.len() && (#[trigger] g[j]).0 == c {
                    let j = choose|j: int| 0 <= j < g.len() && (#[trigger] g[j]).0 == c;
                    if j < g0.len() {
                        assert(g0[j].0 == c);
                        assert(key_bases(s0).contains(c));
                        let w3 = choose|w3: int| 0 <= w3 < key_bases(s0).len() && key_bases(s0)[w3] == c;
                        assert(key_bases(s)[w3] == c);
                    } else {
                        assert(key_bases(s)[s.len() - 1] == c);
                    }
                }
            }
        }
    }
}

proof fn lemma_groups_force(t: Entries, s: Entries, g: Groups, schema: SchemaId, k: Seq<char>, p: int, i: nat)
    requires
        0 <= p < g.len(),
        g[p].0 == k,
        g[p].1.force == Some(i),
        i < s.len(),
        forall|j: int| 0 <= j < g.len() && j != p ==> (#[trigger] g[j]).0 != k,
    ensures
        obj_get(apply_groups(t, s, g, schema), k) == Some(raw(s[i as int].1)),
    decreases g.len(),
{
    let g0 = g.take(g.len() - 1);
    let t1 = apply_groups(t, s, g0, schema);
    let b = g[g.len() - 1].0;
    let o = g[g.len() - 1].1;
    if p == g.len() - 1 {
        match field_behavior_spec(schema, b) {
            Some(bh) => {
                assert(apply_field_spec(t1, b, bh, o, s) == obj_insert(t1, k, raw(s[i as int].1)));
            },
            None => {
                assert(apply_generic(t1, b, o, s) == obj_insert(t1, k, raw(s[i as int].1)));
            },
        }
        obj_read_after_write(t1, k, raw(s[i as int].1), k);
    } else {
        assert forall|j: int| 0 <= j < g0.len() && j != p implies (#[trigger] g0[j]).0 != k by {
            assert(g0[j] == g[j]);
        }
        lemma_groups_force(t, s, g0, schema, k, p, i);
        match field_behavior_spec(schema, b) {
            Some(bh) => lemma_field_frame(t1, b, bh, o, s, k),
            None => lemma_generic_frame(t1, b, o, s, k),
        }
    }
}

/// A `name-force` key overwrites the field: the field ends as a raw copy of
/// the value of the last such key, whatever else the patch says of it.
pub proof fn override_force_overwrites(t: Entries, s: Entries, schema: SchemaId, k: Seq<char>, i: nat)
    requires
        last_op(s, k, PatchModifier::Force) == Some(i),
    ensures
        i < s.len(),
        obj_get(entries_or_empty(apply_doc(JsonV::Object(t), JsonV::Object(s), schema)), k) == Some(raw(s[i as int].1)),
{
    lemma_last_op_bound(s, k, PatchModifier::Force);
    let g = group_keys(s);
    lemma_group_keys_wf(s);
    assert(key_bases(s)[i as int] == k);
    assert(key_bases(s).contains(k));
    let p = choose|j: int| 0 <= j < g.len() && (#[trigger] g[j]).0 == k;
    assert(g[p].1 == ops_of(s, k));
    assert forall|j: int| 0 <= j < g.len() && j != p implies (#[trigger] g[j]).0 != k by {}
    lemma_groups_force(t, s, g, schema, k, p, i);
}

proof fn lemma_last_op_bound(s: Entries, b: Seq<char>, m: PatchModifier)
    ensures
        last_op(s, b, m) matches Some(i) ==> i < s.len() && parse_key(s[i as int].0) == (b, m),
    decreases s.len(),
{
    if s.len() > 0 {
        lemma_last_op_bound(s.drop_last(), b, m);
    }
}


/// The list a list field ends with: `-start` items, the replacement's items
/// or else the existing ones, then `-end` items; a list of named objects keeps
/// the last item of each name.
pub open spec fn edited_list(t: Entries, s: Entries, k: Seq<char>, style: ListStyle) -> Seq<JsonV> {
    let o = ops_of(s, k);
    let middle = match opv(o.replace, s) {
        Some(r) => collect_items(r),
        None => existing_items(t, k),
    };
    let items = opt_items(opv(o.start, s)) + middle + opt_items(opv(o.end, s));
    if style == ListStyle::NamedObjects {
        dedup_named(items)
    } else {
        items
    }
}

pub open spec fn list_style_of(schema: SchemaId, k: Seq<char>) -> Option<ListStyle> {
    match field_behavior_spec(schema, k) {
        Some(FieldBehavior::List(style)) => Some(style),
        Some(FieldBehavior::Rules) => Some(ListStyle::Plain),
        _ => None,
    }
}

proof fn lemma_groups_list(t: Entries, s: Entries, g: Groups, schema: SchemaId, k: Seq<char>, p: int, style: ListStyle)
    requires
        0 <= p < g.len(),
        g[p].0 == k,
        g[p].1 == ops_of(s, k),
        ops_of(s, k).force is None,
        list_style_of(schema, k) == Some(style),
        forall|j: int| 0 <= j < g.len() && j != p ==> (#[trigger] g[j]).0 != k,
    ensures
        obj_get(apply_groups(t, s, g, schema), k) == Some(JsonV::Array(edited_list(t, s, k, style))),
    decreases g.len(),
{
    let g0 = g.take(g.len() - 1);
    let t1 = apply_groups(t, s, g0, schema);
    let b = g[g.len() - 1].0;
    let o = g[g.len() - 1].1;
    if p == g.len() - 1 {
        assert forall|j: int| 0 <= j < g0.len() implies (#[trigger] g0[j]).0 != k by {
            assert(g0[j] == g[j]);
        }
        lemma_groups_frame(t, s, g0, schema, k);
        assert(existing_items(t1, k) == existing_items(t, k));
        let bh = field_behavior_spec(schema, b)->0;
        assert(apply_field_spec(t1, b, bh, o, s) == list_result(t1, k, style, o, s));
        obj_read_after_write(t1, k, JsonV::Array(edited_list(t, s, k, style)), k);
    } else {
        assert forall|j: int| 0 <= j < g0.len() && j != p implies (#[trigger] g0[j]).0 != k by {
            assert(g0[j] == g[j]);
        }
        lemma_groups_list(t, s, g0, schema, k, p, style);
        match field_behavior_spec(schema, b) {
            Some(bh) => lemma_field_frame(t1, b, bh, o, s, k),
            None => lemma_generic_frame(t1, b, o, s, k),
        }
    }
}

/// A list field that the patch names without `-force` ends as
/// [`edited_list`] of the target's list: `-start` items first, `-end` items
/// last.
pub proof fn override_list_edits(t: Entries, s: Entries, schema: SchemaId, k: Seq<char>, style: ListStyle)
    requires
        key_bases(s).contains(k),
        last_op(s, k, PatchModifier::Force) is None,
        list_style_of(schema, k) == Some(style),
    ensures
        obj_get(entries_or_empty(apply_doc(JsonV::Object(t), JsonV::Object(s), schema)), k) == Some(
            JsonV::Array(edited_list(t, s, k, style)),
        ),
{
    let g = group_keys(s);
    lemma_group_keys_wf(s);
    let p = choose|j: int| 0 <= j < g.len() && (#[trigger] g[j]).0 == k;
    assert forall|j: int| 0 <= j < g.len() && j != p implies (#[trigger] g[j]).0 != k by {}
    lemma_groups_list(t, s, g, schema, k, p, style);
}


proof fn lemma_dedup_subset(items: Seq<JsonV>)
    ensures
        forall|x: int| 0 <= x < dedup_named(items).len() ==> items.contains(#[trigger] dedup_named(items)[x]),
    decreases items.len(),
{
    if items.len() > 0 {
        let rest = items.drop_first();
        lemma_dedup_subset(rest);
        let d = dedup_named(items);
        let dr = dedup_named(rest);
        assert forall|x: int| 0 <= x < d.len() implies items.contains(#[trigger] d[x]) by {
            if d.len() == dr.len() + 1 && x == 0 {
                assert(items[0] == d[0]);
            } else {
                let y = if d.len() == dr.len() + 1 {
                    x - 1
                } else {
                    x
                };
                assert(d[x] == dr[y]);
                assert(rest.contains(dr[y]));
                let w = choose|w: int| 0 <= w < rest.len() && rest[w] == dr[y];
                assert(items[w + 1] == rest[w]);
            }
        }
    }
}

/// A list of named objects, once deduplicated, holds at most one item of
/// each name.
pub proof fn named_lists_have_unique_names(items: Seq<JsonV>)
    ensures
        forall|i: int, j: int|
            0 <= i < j < dedup_named(items).len() && name_of(#[trigger] dedup_named(items)[i]) is Some ==> name_of(
                #[trigger] dedup_named(items)[j],
            ) != name_of(dedup_named(items)[i]),
    decreases items.len(),
{
    if items.len() > 0 {
        let rest = items.drop_first();
        named_lists_have_unique_names(rest);
        lemma_dedup_subset(rest);
        let d = dedup_named(items);
        let dr = dedup_named(rest);
        let keep = match name_of(items[0]) {
            Some(n) => !(exists|j: int| 0 <= j < rest.len() && name_of(#[trigger] rest[j]) == Some(n)),
            None => true,
        };
        assert forall|i: int, j: int|
            0 <= i < j < d.len() && name_of(#[trigger] d[i]) is Some implies name_of(#[trigger] d[j]) != name_of(d[i]) by {
            if keep {
                assert(d == seq![items[0]] + dr);
                if i == 0 {
                    assert(d[j] == dr[j - 1]);
                    assert(rest.contains(dr[j - 1]));
                    let w = choose|w: int| 0 <= w < rest.len() && rest[w] == dr[j - 1];
                    if name_of(d[j]) == name_of(d[0]) {
                        assert(name_of(rest[w]) == name_of(items[0]));
                    }
                } else {
                    assert(d[i] == dr[i - 1]);
                    assert(d[j] == dr[j - 1]);
                }
            } else {
                assert(d == dr);
            }
        }
    }
}

/// An override document without keys leaves an object target as it is.
pub proof fn empty_override_changes_nothing(t: Entries, schema: SchemaId)
    ensures
        apply_doc(JsonV::Object(t), JsonV::Object(Seq::empty()), schema) == JsonV::Object(t),
{
    let s = Seq::<(Seq<char>, JsonV)>::empty();
    assert(group_keys(s) == Seq::<(Seq<char>, OpsIdx)>::empty());
}

// ---------------------------------------------------------------------------
// Overrides keep the tree well formed
// ---------------------------------------------------------------------------

proof fn lemma_raw_wf(v: JsonV)
    ensures
        json_wf(raw(v)),
    decreases v, 1nat,
{
    reveal(raw);
    match v {
        JsonV::Array(items) => {
            let r = raw_items(items);
            lemma_raw_array(items);
            assert forall|i: int| 0 <= i < r.len() implies json_wf(#[trigger] r[i]) by {
                lemma_raw_wf(items[i]);
            }
        },
        JsonV::Object(es) => lemma_raw_entries_wf(es),
        _ => {},
    }
}

proof fn lemma_raw_entries_wf(s: Entries)
    ensures
        json_wf(JsonV::Object(raw_entries(s))),
    decreases s, 0nat,
{
    reveal(raw);
    if s.len() == 0 {
        let e: Entries = seq![];
        assert(crate::json::distinct_keys(e));
        assert(values_wf(e));
        assert(raw_entries(s) == e);
    } else {
        let last = s[s.len() - 1];
        assert(raw_entries(s) == obj_insert(raw_entries(s.subrange(0, s.len() - 1)), unescape(last.0), raw(last.1)));
        lemma_raw_entries_wf(s.subrange(0, s.len() - 1));
        assert(decreases_to!(s => s[s.len() - 1]));
        lemma_raw_wf(last.1);
        obj_insert_keeps_wf(raw_entries(s.subrange(0, s.len() - 1)), unescape(last.0), raw(last.1));
    }
}

proof fn lemma_collect_wf(v: JsonV)
    ensures
        items_wf(collect_items(v)),
{
    match v {
        JsonV::Null => {},
        JsonV::Array(items) => {
            let r = raw_items(items);
            assert forall|i: int| 0 <= i < r.len() implies json_wf(#[trigger] r[i]) by {
                lemma_raw_wf(items[i]);
            }
        },
        _ => {
            lemma_raw_wf(v);
            let r = collect_items(v);
            assert forall|i: int| 0 <= i < r.len() implies json_wf(#[trigger] r[i]) by {
                assert(r[i] == raw(v));
            }
        },
    }
}

proof fn lemma_opt_items_wf(v: Option<JsonV>)
    ensures
        items_wf(opt_items(v)),
{
    match v {
        Some(x) => lemma_collect_wf(x),
        None => {},
    }
}

proof fn lemma_items_concat_wf(a: Seq<JsonV>, b: Seq<JsonV>)
    requires
        items_wf(a),
        items_wf(b),
    ensures
        items_wf(a + b),
{
    let c = a + b;
    assert forall|i: int| 0 <= i < c.len() implies json_wf(#[trigger] c[i]) by {
        if i < a.len() {
            assert(c[i] == a[i]);
        } else {
            assert(c[i] == b[i - a.len()]);
        }
    }
}

proof fn lemma_dedup_wf(items: Seq<JsonV>)
    requires
        items_wf(items),
    ensures
        items_wf(dedup_named(items)),
    decreases items.len(),
{
    if items.len() > 0 {
        let rest = items.drop_first();
        assert forall|i: int| 0 <= i < rest.len() implies json_wf(#[trigger] rest[i]) by {
            assert(rest[i] == items[i + 1]);
        }
        lemma_dedup_wf(rest);
        let one = seq![items[0]];
        assert forall|i: int| 0 <= i < one.len() implies json_wf(#[trigger] one[i]) by {
            assert(json_wf(items[0]));
        }
        lemma_items_concat_wf(one, dedup_named(rest));
    }
}

proof fn lemma_get_wf(t: Entries, k: Seq<char>)
    requires
        json_wf(JsonV::Object(t)),
    ensures
        json_wf(get_or_empty(t, k)),
        items_wf(existing_items(t, k)),
        obj_get(t, k) matches Some(x) ==> json_wf(x),
{
    if has_key(t, k) {
        crate::json::lemma_key_index_props(t, k);
        assert(json_wf(t[key_index(t, k)].1));
    } else {
        let e: Entries = seq![];
        assert(crate::json::distinct_keys(e));
        assert(values_wf(e));
    }
}

proof fn lemma_merge_raw_wf(target: JsonV, patch: JsonV)
    requires
        json_wf(target),
    ensures
        json_wf(merge_raw(target, patch)),
    decreases patch, 1nat,
{
    match patch {
        JsonV::Object(ps) => {
            let e: Entries = seq![];
            assert(crate::json::distinct_keys(e));
            assert(values_wf(e));
            lemma_merge_entries_wf(entries_or_empty(target), ps);
        },
        _ => lemma_raw_wf(patch),
    }
}

proof fn lemma_merge_entries_wf(t: Entries, ps: Entries)
    requires
        json_wf(JsonV::Object(t)),
    ensures
        json_wf(JsonV::Object(merge_entries(t, ps))),
    decreases ps, 0nat,
{
    if ps.len() > 0 {
        let t1 = merge_entries(t, ps.subrange(0, ps.len() - 1));
        lemma_merge_entries_wf(t, ps.subrange(0, ps.len() - 1));
        assert(decreases_to!(ps => ps[ps.len() - 1]));
        lemma_merge_step_wf(t1, unescape(ps[ps.len() - 1].0), ps[ps.len() - 1].1);
    }
}

proof fn lemma_merge_step_wf(t1: Entries, k: Seq<char>, v: JsonV)
    requires
        json_wf(JsonV::Object(t1)),
    ensures
        json_wf(JsonV::Object(merge_step(t1, k, v))),
    decreases v, 2nat,
{
    lemma_get_wf(t1, k);
    if obj_get(t1, k) matches Some(JsonV::Object(_)) && v is Object {
        lemma_merge_raw_wf(obj_get(t1, k).unwrap(), v);
        obj_insert_keeps_wf(t1, k, merge_raw(obj_get(t1, k).unwrap(), v));
    } else {
        lemma_raw_wf(v);
        obj_insert_keeps_wf(t1, k, raw(v));
    }
}

proof fn lemma_with_merge_wf(t: Entries, base: Seq<char>, o: OpsIdx, s: Entries)
    requires
        json_wf(JsonV::Object(t)),
    ensures
        json_wf(JsonV::Object(with_merge(t, base, o, s))),
{
    match opv(o.merge, s) {
        Some(m) => {
            lemma_get_wf(t, base);
            lemma_merge_raw_wf(get_or_empty(t, base), m);
            obj_insert_keeps_wf(t, base, merge_raw(get_or_empty(t, base), m));
        },
        None => {},
    }
}

proof fn lemma_list_result_wf(t: Entries, base: Seq<char>, style: ListStyle, o: OpsIdx, s: Entries)
    requires
        json_wf(JsonV::Object(t)),
    ensures
        json_wf(JsonV::Object(list_result(t, base, style, o, s))),
{
    let middle = match opv(o.replace, s) {
        Some(r) => collect_items(r),
        None => existing_items(t, base),
    };
    lemma_get_wf(t, base);
    match opv(o.replace, s) {
        Some(r) => lemma_collect_wf(r),
        None => {},
    }
    lemma_opt_items_wf(opv(o.start, s));
    lemma_opt_items_wf(opv(o.end, s));
    lemma_items_concat_wf(opt_items(opv(o.start, s)), middle);
    lemma_items_concat_wf(opt_items(opv(o.start, s)) + middle, opt_items(opv(o.end, s)));
    let items = opt_items(opv(o.start, s)) + middle + opt_items(opv(o.end, s));
    lemma_dedup_wf(items);
    let arr = JsonV::Array(
        if style == ListStyle::NamedObjects {
            dedup_named(items)
        } else {
            items
        },
    );
    obj_insert_keeps_wf(t, base, arr);
}

proof fn lemma_force_wf(t: Entries, base: Seq<char>, f: JsonV)
    requires
        json_wf(JsonV::Object(t)),
    ensures
        json_wf(JsonV::Object(obj_insert(t, base, raw(f)))),
{
    lemma_raw_wf(f);
    obj_insert_keeps_wf(t, base, raw(f));
}

proof fn lemma_apply_doc_wf(target: JsonV, patch: JsonV, schema: SchemaId)
    requires
        json_wf(target),
    ensures
        json_wf(apply_doc(target, patch, schema)),
    decreases patch, 0nat,
{
    match patch {
        JsonV::Object(s) => {
            let e: Entries = seq![];
            assert(crate::json::distinct_keys(e));
            assert(values_wf(e));
            lemma_apply_groups_wf(entries_or_empty(target), s, group_keys(s), schema);
        },
        _ => lemma_raw_wf(patch),
    }
}

proof fn lemma_apply_groups_wf(t: Entries, s: Entries, g: Groups, schema: SchemaId)
    requires
        json_wf(JsonV::Object(t)),
    ensures
        json_wf(JsonV::Object(apply_groups(t, s, g, schema))),
    decreases s, (g.len() + 1) as nat,
{
    if g.len() > 0 {
        let t1 = apply_groups(t, s, g.take(g.len() - 1), schema);
        lemma_apply_groups_wf(t, s, g.take(g.len() - 1), schema);
        let b = g[g.len() - 1].0;
        let o = g[g.len() - 1].1;
        match field_behavior_spec(schema, b) {
            Some(bh) => lemma_field_spec_wf(t1, b, bh, o, s),
            None => lemma_generic_apply_wf(t1, b, o, s),
        }
    }
}

proof fn lemma_field_spec_wf(t: Entries, base: Seq<char>, b: FieldBehavior, o: OpsIdx, s: Entries)
    requires
        json_wf(JsonV::Object(t)),
    ensures
        json_wf(JsonV::Object(apply_field_spec(t, base, b, o, s))),
    decreases s, 0nat,
{
    match opv(o.force, s) {
        Some(f) => lemma_force_wf(t, base, f),
        None => match b {
            FieldBehavior::Scalar => match opv(o.replace, s) {
                Some(r) => lemma_force_wf(t, base, r),
                None => {},
            },
            FieldBehavior::List(style) => lemma_list_result_wf(t, base, style, o, s),
            FieldBehavior::Mapping => {
                lemma_with_merge_wf(t, base, o, s);
                match opv(o.replace, s) {
                    Some(r) => lemma_force_wf(with_merge(t, base, o, s), base, r),
                    None => {},
                }
            },
            FieldBehavior::Object(schema) => {
                let t1 = match o.replace {
                    Some(i) => if i < s.len() {
                        replace_with(t, base, s[i as int].1, schema)
                    } else {
                        t
                    },
                    None => t,
                };
                match o.replace {
                    Some(i) => if i < s.len() {
                        assert(decreases_to!(s => s[i as int]));
                        lemma_replace_wf(t, base, s[i as int].1, schema);
                    },
                    None => {},
                }
                lemma_with_merge_wf(t1, base, o, s);
            },
            FieldBehavior::Rules => lemma_list_result_wf(t, base, ListStyle::Plain, o, s),
        },
    }
}

proof fn lemma_generic_apply_wf(t: Entries, base: Seq<char>, o: OpsIdx, s: Entries)
    requires
        json_wf(JsonV::Object(t)),
    ensures
        json_wf(JsonV::Object(apply_generic(t, base, o, s))),
    decreases s, 0nat,
{
    match opv(o.force, s) {
        Some(f) => lemma_force_wf(t, base, f),
        None => {
            let t1 = with_merge(t, base, o, s);
            lemma_with_merge_wf(t, base, o, s);
            let t2 = match o.replace {
                Some(i) => if i < s.len() {
                    replace_with(t1, base, s[i as int].1, SchemaId::Root)
                } else {
                    t1
                },
                None => t1,
            };
            match o.replace {
                Some(i) => if i < s.len() {
                    assert(decreases_to!(s => s[i as int]));
                    lemma_replace_wf(t1, base, s[i as int].1, SchemaId::Root);
                },
                None => {},
            }
            if o.start is Some || o.end is Some {
                lemma_get_wf(t2, base);
                lemma_opt_items_wf(opv(o.start, s));
                lemma_opt_items_wf(opv(o.end, s));
                lemma_items_concat_wf(opt_items(opv(o.start, s)), existing_items(t2, base));
                lemma_items_concat_wf(
                    opt_items(opv(o.start, s)) + existing_items(t2, base),
                    opt_items(opv(o.end, s)),
                );
                obj_insert_keeps_wf(
                    t2,
                    base,
                    JsonV::Array(
                        opt_items(opv(o.start, s)) + existing_items(t2, base) + opt_items(opv(o.end, s)),
                    ),
                );
            }
        },
    }
}

proof fn lemma_replace_wf(t: Entries, base: Seq<char>, r: JsonV, schema: SchemaId)
    requires
        json_wf(JsonV::Object(t)),
    ensures
        json_wf(JsonV::Object(replace_with(t, base, r, schema))),
    decreases r, 1nat,
{
    if r is Object {
        lemma_get_wf(t, base);
        lemma_apply_doc_wf(get_or_empty(t, base), r, schema);
        obj_insert_keeps_wf(t, base, apply_doc(get_or_empty(t, base), r, schema));
    } else {
        lemma_force_wf(t, base, r);
    }
}

/// An override keeps a well-formed tree well formed, whatever the override
/// holds: every key it writes lands once in its object, and what it copies
/// in is rebuilt as a map.
pub proof fn override_keeps_tree_well_formed(target: JsonV, patch: JsonV, schema: SchemaId)
    requires
        json_wf(target),
    ensures
        json_wf(apply_doc(target, patch, schema)),
{
    lemma_apply_doc_wf(target, patch, schema);
}

/// A raw copy is a well-formed tree, whatever it copies.
pub proof fn raw_copies_are_well_formed(v: JsonV)
    ensures
        json_wf(raw(v)),
{
    lemma_raw_wf(v);
}

// ---------------------------------------------------------------------------
// Merging keeps what the patch does not name
// ---------------------------------------------------------------------------

/// No entry of the patch `ps` names `key` once its literal brackets are removed.
pub open spec fn names_not(ps: Entries, key: Seq<char>) -> bool {
    forall|j: int| 0 <= j < ps.len() ==> unescape(#[trigger] ps[j].0) != key
}

/// Entry `j` is the only one of the patch `ps` that names `key`.
pub open spec fn names_once(ps: Entries, key: Seq<char>, j: int) -> bool {
    &&& 0 <= j < ps.len()
    &&& unescape(ps[j].0) == key
    &&& forall|j2: int| 0 <= j2 < ps.len() && j2 != j ==> unescape(#[trigger] ps[j2].0) != key
}

proof fn lemma_merge_entries_unnamed(t: Entries, ps: Entries, key: Seq<char>)
    requires
        names_not(ps, key),
    ensures
        obj_get(merge_entries(t, ps), key) == obj_get(t, key),
    decreases ps.len(),
{
    if ps.len() > 0 {
        let pre = ps.subrange(0, ps.len() - 1);
        assert forall|j: int| 0 <= j < pre.len() implies unescape(#[trigger] pre[j].0) != key by {
            assert(pre[j] == ps[j]);
        }
        lemma_merge_entries_unnamed(t, pre, key);
        let t1 = merge_entries(t, pre);
        let k = unescape(ps[ps.len() - 1].0);
        let v = ps[ps.len() - 1].1;
        assert(k != key);
        assert(merge_entries(t, ps) == merge_step(t1, k, v));
        if obj_get(t1, k) matches Some(JsonV::Object(_)) && v is Object {
            assert(merge_step(t1, k, v) == obj_insert(t1, k, merge_raw(obj_get(t1, k).unwrap(), v)));
            obj_read_after_write(t1, k, merge_raw(obj_get(t1, k).unwrap(), v), key);
        } else {
            assert(merge_step(t1, k, v) == obj_insert(t1, k, raw(v)));
            obj_read_after_write(t1, k, raw(v), key);
        }
    }
}

proof fn lemma_merge_entries_named(t: Entries, ps: Entries, key: Seq<char>, j: int)
    requires
        names_once(ps, key, j),
    ensures
        obj_get(merge_entries(t, ps), key) == Some(
            if obj_get(t, key) matches Some(JsonV::Object(_)) && ps[j].1 is Object {
                merge_raw(obj_get(t, key).unwrap(), ps[j].1)
            } else {
                raw(ps[j].1)
            },
        ),
    decreases ps.len(),
{
    let pre = ps.subrange(0, ps.len() - 1);
    let t1 = merge_entries(t, pre);
    let k = unescape(ps[ps.len() - 1].0);
    let v = ps[ps.len() - 1].1;
    if j == ps.len() - 1 {
        assert forall|x: int| 0 <= x < pre.len() implies unescape(#[trigger] pre[x].0) != key by {
            assert(pre[x] == ps[x]);
        }
        lemma_merge_entries_unnamed(t, pre, key);
        assert(merge_entries(t, ps) == merge_step(t1, k, v));
        if obj_get(t1, k) matches Some(JsonV::Object(_)) && v is Object {
            assert(merge_step(t1, k, v) == obj_insert(t1, k, merge_raw(obj_get(t1, k).unwrap(), v)));
            obj_read_after_write(t1, k, merge_raw(obj_get(t1, k).unwrap(), v), key);
        } else {
            assert(merge_step(t1, k, v) == obj_insert(t1, k, raw(v)));
            obj_read_after_write(t1, k, raw(v), key);
        }
    } else {
        assert(pre[j] == ps[j]);
        assert forall|x: int| 0 <= x < pre.len() && x != j implies unescape(#[trigger] pre[x].0) != key by {
            assert(pre[x] == ps[x]);
        }
        lemma_merge_entries_named(t, pre, key, j);
        assert(k != key);
        assert(merge_entries(t, ps) == merge_step(t1, k, v));
        if obj_get(t1, k) matches Some(JsonV::Object(_)) && v is Object {
            assert(merge_step(t1, k, v) == obj_insert(t1, k, merge_raw(obj_get(t1, k).unwrap(), v)));
            obj_read_after_write(t1, k, merge_raw(obj_get(t1, k).unwrap(), v), key);
        } else {
            assert(merge_step(t1, k, v) == obj_insert(t1, k, raw(v)));
            obj_read_after_write(t1, k, raw(v), key);
        }
    }
}

/// Merging an object patch `ps` into an object `te` keeps every key of `te`
/// that the patch does not name, and a key that one patch entry names reads
/// that entry's value: merged into the old value when both are objects, a
/// raw copy otherwise.
pub proof fn merge_keeps_unnamed_keys(te: Entries, ps: Entries, key: Seq<char>)
    ensures
        merge_raw(JsonV::Object(te), JsonV::Object(ps)) is Object,
        names_not(ps, key) ==> obj_get(merge_raw(JsonV::Object(te), JsonV::Object(ps))->Object_0, key) == obj_get(
            te,
            key,
        ),
        forall|j: int|
            names_once(ps, key, j) ==> obj_get(merge_raw(JsonV::Object(te), JsonV::Object(ps))->Object_0, key)
                == Some(
                if obj_get(te, key) matches Some(JsonV::Object(_)) && ps[j].1 is Object {
                    merge_raw(obj_get(te, key).unwrap(), ps[j].1)
                } else {
                    raw(ps[j].1)
                },
            ),
{
    if names_not(ps, key) {
        lemma_merge_entries_unnamed(te, ps, key);
    }
    assert forall|j: int| names_once(ps, key, j) implies obj_get(
        merge_raw(JsonV::Object(te), JsonV::Object(ps))->Object_0,
        key,
    ) == Some(
        if obj_get(te, key) matches Some(JsonV::Object(_)) && ps[j].1 is Object {
            merge_raw(obj_get(te, key).unwrap(), ps[j].1)
        } else {
            raw(ps[j].1)
        },
    ) by {
        lemma_merge_entries_named(te, ps, key, j);
    }
}

/// Fields into which a `-merge` key merges: mappings, nested sections, and
/// fields the schema does not know.
pub open spec fn merging_field(schema: SchemaId, k: Seq<char>) -> bool {
    match field_behavior_spec(schema, k) {
        None => true,
        Some(FieldBehavior::Mapping) => true,
        Some(FieldBehavior::Object(_)) => true,
        Some(_) => false,
    }
}

proof fn lemma_groups_merge(t: Entries, s: Entries, g: Groups, schema: SchemaId, k: Seq<char>, p: int, i: nat)
    requires
        0 <= p < g.len(),
        g[p].0 == k,
        g[p].1 == (OpsIdx { replace: None, start: None, end: None, merge: Some(i), force: None }),
        i < s.len(),
        merging_field(schema, k),
        forall|j: int| 0 <= j < g.len() && j != p ==> (#[trigger] g[j]).0 != k,
    ensures
        obj_get(apply_groups(t, s, g, schema), k) == Some(merge_raw(get_or_empty(t, k), s[i as int].1)),
    decreases g.len(),
{
    let g0 = g.take(g.len() - 1);
    let t1 = apply_groups(t, s, g0, schema);
    let b = g[g.len() - 1].0;
    let o = g[g.len() - 1].1;
    if p == g.len() - 1 {
        assert forall|j: int| 0 <= j < g0.len() implies (#[trigger] g0[j]).0 != k by {
            assert(g0[j] == g[j]);
        }
        lemma_groups_frame(t, s, g0, schema, k);
        assert(get_or_empty(t1, k) == get_or_empty(t, k));
        match field_behavior_spec(schema, b) {
            Some(bh) => {
                assert(apply_field_spec(t1, b, bh, o, s) == with_merge(t1, k, o, s));
            },
            None => {
                assert(apply_generic(t1, b, o, s) == with_merge(t1, k, o, s));
            },
        }
        obj_read_after_write(t1, k, merge_raw(get_or_empty(t1, k), s[i as int].1), k);
    } else {
        assert forall|j: int| 0 <= j < g0.len() && j != p implies (#[trigger] g0[j]).0 != k by {
            assert(g0[j] == g[j]);
        }
        lemma_groups_merge(t, s, g0, schema, k, p, i);
        match field_behavior_spec(schema, b) {
            Some(bh) => lemma_field_frame(t1, b, bh, o, s, k),
            None => lemma_generic_frame(t1, b, o, s, k),
        }
    }
}

/// A `name-merge` key with an object value `m`, the only key the patch has
/// for a mapping field `name` that holds an object `te`, leaves `name` an
/// object that keeps every key of `te` that `m` does not name, and in which
/// each key that one entry of `m` names reads that entry's value, merged
/// into the old value when both are objects.
pub proof fn override_merge_keeps_existing(
    t: Entries,
    s: Entries,
    schema: SchemaId,
    k: Seq<char>,
    i: nat,
    te: Entries,
    m: Entries,
    key: Seq<char>,
)
    requires
        ops_of(s, k) == (OpsIdx { replace: None, start: None, end: None, merge: Some(i), force: None }),
        merging_field(schema, k),
        obj_get(t, k) == Some(JsonV::Object(te)),
        i < s.len() && s[i as int].1 == JsonV::Object(m),
    ensures
        parse_key(s[i as int].0) == (k, PatchModifier::Merge),
        obj_get(entries_or_empty(apply_doc(JsonV::Object(t), JsonV::Object(s), schema)), k) matches Some(
            JsonV::Object(r),
        ) && (names_not(m, key) ==> obj_get(r, key) == obj_get(te, key)) && (forall|j: int|
            names_once(m, key, j) ==> obj_get(r, key) == Some(
                if obj_get(te, key) matches Some(JsonV::Object(_)) && m[j].1 is Object {
                    merge_raw(obj_get(te, key).unwrap(), m[j].1)
                } else {
                    raw(m[j].1)
                },
            )),
{
    lemma_last_op_bound(s, k, PatchModifier::Merge);
    let g = group_keys(s);
    lemma_group_keys_wf(s);
    assert(key_bases(s)[i as int] == k);
    assert(key_bases(s).contains(k));
    let p = choose|j: int| 0 <= j < g.len() && (#[trigger] g[j]).0 == k;
    assert(g[p].1 == ops_of(s, k));
    assert forall|j: int| 0 <= j < g.len() && j != p implies (#[trigger] g[j]).0 != k by {}
    lemma_groups_merge(t, s, g, schema, k, p, i);
    assert(get_or_empty(t, k) == JsonV::Object(te));
    merge_keeps_unnamed_keys(te, m, key);
}

} // verus!
