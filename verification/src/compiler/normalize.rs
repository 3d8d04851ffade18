//! The compiled root written out in a fixed shape: known keys in schema
//! order, every other key after them in ascending order, nested sections
//! by their own schemas. The result is a tree whose objects keep the order
//! in which their keys are written.
use crate::compiler::schema::{ordered_keys, ordered_keys_spec};
use crate::json::{
    distinct_keys, entries_v, find_key, items_v, json_wf, jv, key_index, lemma_jv_array, lemma_jv_kind,
    lemma_jv_object, values_wf,
    lemma_key_index, lemma_key_index_props, has_key, obj_get, Entries, Json, JsonV,
};
use crate::model::SchemaId;
use crate::text::{chars_of, str_eq, str_le, str_lt, string_lt};
use vstd::prelude::*;

verus! {

// ---------------------------------------------------------------------------
// Ordered mappings
// ---------------------------------------------------------------------------

/// Mapping insertion: an existing key keeps its place and takes the new
/// value, a new key goes last.
pub open spec fn map_put(m: Entries, k: Seq<char>, v: JsonV) -> Entries {
    if has_key(m, k) {
        m.update(key_index(m, k), (k, v))
    } else {
        m.push((k, v))
    }
}

/// The keys of `keys`, each with its value in `src`, put into `m` in order;
/// keys that `src` lacks are passed over.
pub open spec fn put_keys(m: Entries, src: Entries, keys: Seq<Seq<char>>) -> Entries
    decreases keys.len(),
{
    if keys.len() == 0 {
        m
    } else {
        let m2 = put_keys(m, src, keys.drop_last());
        match obj_get(src, keys.last()) {
            Some(x) => map_put(m2, keys.last(), x),
            None => m2,
        }
    }
}

/// Where `k` goes in the ascending list `s`: after every key not greater.
pub open spec fn sorted_pos(s: Seq<Seq<char>>, k: Seq<char>) -> nat
    decreases s.len(),
{
    if s.len() == 0 || str_lt(k, s[0]) {
        0
    } else {
        1 + sorted_pos(s.drop_first(), k)
    }
}

/// `ks` in ascending order.
pub open spec fn sort_keys(ks: Seq<Seq<char>>) -> Seq<Seq<char>>
    decreases ks.len(),
{
    if ks.len() == 0 {
        seq![]
    } else {
        let s = sort_keys(ks.drop_last());
        s.insert(sorted_pos(s, ks.last()) as int, ks.last())
    }
}

pub open spec fn keys_of(es: Entries) -> Seq<Seq<char>> {
    Seq::new(es.len(), |i: int| es[i].0)
}

/// The keys of `es` that `ok` does not list, in entry order.
pub open spec fn other_keys(es: Entries, ok: Seq<Seq<char>>) -> Seq<Seq<char>>
    decreases es.len(),
{
    if es.len() == 0 {
        seq![]
    } else {
        other_keys(es.drop_last(), ok) + if ok.contains(es.last().0) {
            seq![]
        } else {
            seq![es.last().0]
        }
    }
}

// ---------------------------------------------------------------------------
// Normal forms
// ---------------------------------------------------------------------------

/// How the value of a field is written.
pub enum FieldNorm {
    Schema(SchemaId),
    List(SchemaId),
    Objects(Option<SchemaId>),
    Generic,
}

/// The sections that have an order of their own.
pub open spec fn field_norm(schema: SchemaId, key: Seq<char>) -> FieldNorm {
    match schema {
        SchemaId::Root => if key == "dns"@ {
            FieldNorm::Schema(SchemaId::Dns)
        } else if key == "external-controller-cors"@ {
            FieldNorm::Schema(SchemaId::ExternalControllerCors)
        } else if key == "profile"@ {
            FieldNorm::Schema(SchemaId::Profile)
        } else if key == "tun"@ {
            FieldNorm::Schema(SchemaId::Tun)
        } else if key == "sniffer"@ {
            FieldNorm::Schema(SchemaId::Sniffer)
        } else if key == "geox-url"@ {
            FieldNorm::Schema(SchemaId::GeoxUrl)
        } else if key == "clash-for-android"@ {
            FieldNorm::Schema(SchemaId::App)
        } else if key == "proxies"@ {
            FieldNorm::List(SchemaId::ProxyItem)
        } else if key == "proxy-groups"@ {
            FieldNorm::List(SchemaId::ProxyGroupItem)
        } else if key == "rule-providers"@ || key == "proxy-providers"@ {
            FieldNorm::Objects(Some(SchemaId::ProviderItem))
        } else if key == "hosts"@ || key == "sub-rules"@ {
            FieldNorm::Objects(None)
        } else {
            FieldNorm::Generic
        },
        SchemaId::Dns => if key == "fallback-filter"@ {
            FieldNorm::Schema(SchemaId::DnsFallbackFilter)
        } else {
            FieldNorm::Generic
        },
        SchemaId::Sniffer => if key == "sniff"@ {
            FieldNorm::Schema(SchemaId::Sniff)
        } else {
            FieldNorm::Generic
        },
        SchemaId::Sniff => if key == "HTTP"@ || key == "TLS"@ || key == "QUIC"@ {
            FieldNorm::Schema(SchemaId::Protocol)
        } else {
            FieldNorm::Generic
        },
        _ => FieldNorm::Generic,
    }
}

/// A value with every object's keys in ascending order.
pub open spec fn norm_generic(v: JsonV) -> JsonV
    decreases v,
{
    match v {
        JsonV::Array(items) => JsonV::Array(generic_items(items)),
        JsonV::Object(es) => JsonV::Object(put_keys(seq![], generic_entries(es), sort_keys(keys_of(es)))),
        _ => v,
    }
}

/// Every item in its generic form.
pub open spec fn generic_items(items: Seq<JsonV>) -> Seq<JsonV>
    decreases items,
{
    Seq::new(
        items.len(),
        |i: int|
            if 0 <= i < items.len() {
                norm_generic(items[i])
            } else {
                JsonV::Null
            },
    )
}

/// Every value of `es` in its generic form.
pub open spec fn generic_entries(es: Entries) -> Entries
    decreases es,
{
    Seq::new(
        es.len(),
        |i: int|
            if 0 <= i < es.len() {
                (es[i].0, norm_generic(es[i].1))
            } else {
                (seq![], JsonV::Null)
            },
    )
}

/// An object by `schema`: its ordered keys first, by their own forms, then
/// the other keys in ascending order.
pub open spec fn norm_schema(v: JsonV, schema: SchemaId) -> JsonV
    decreases v, 0nat,
{
    match v {
        JsonV::Object(es) => {
            let ok = ordered_keys_spec(schema);
            let first = put_keys(seq![], field_entries(es, schema), ok);
            JsonV::Object(put_keys(first, generic_entries(es), sort_keys(other_keys(es, ok))))
        },
        _ => norm_generic(v),
    }
}

/// Every value of `es` in the form its field asks for.
pub open spec fn field_entries(es: Entries, schema: SchemaId) -> Entries
    decreases es, 3nat,
{
    Seq::new(
        es.len(),
        |i: int|
            if 0 <= i < es.len() {
                (es[i].0, norm_field(schema, es[i].0, es[i].1))
            } else {
                (seq![], JsonV::Null)
            },
    )
}

/// A field's value in the form its section asks for.
pub open spec fn norm_field(schema: SchemaId, key: Seq<char>, v: JsonV) -> JsonV
    decreases v, 2nat,
{
    match field_norm(schema, key) {
        FieldNorm::Schema(s) => norm_schema(v, s),
        FieldNorm::List(s) => norm_list(v, s),
        FieldNorm::Objects(s) => norm_objects(v, s),
        FieldNorm::Generic => norm_generic(v),
    }
}

/// A list of objects, each by `item`.
pub open spec fn norm_list(v: JsonV, item: SchemaId) -> JsonV
    decreases v, 1nat,
{
    match v {
        JsonV::Array(items) => JsonV::Array(schema_items(items, item)),
        _ => norm_generic(v),
    }
}

/// Every item by `item`.
pub open spec fn schema_items(items: Seq<JsonV>, item: SchemaId) -> Seq<JsonV>
    decreases items, 3nat,
{
    Seq::new(
        items.len(),
        |i: int|
            if 0 <= i < items.len() {
                norm_schema(items[i], item)
            } else {
                JsonV::Null
            },
    )
}

/// A map of named objects in ascending key order, each object by `item` when given.
pub open spec fn norm_objects(v: JsonV, item: Option<SchemaId>) -> JsonV
    decreases v, 1nat,
{
    match v {
        JsonV::Object(es) => JsonV::Object(put_keys(seq![], object_entries(es, item), sort_keys(keys_of(es)))),
        _ => norm_generic(v),
    }
}

/// Every object of `es` by `item` when given, every other value generic.
pub open spec fn object_entries(es: Entries, item: Option<SchemaId>) -> Entries
    decreases es, 3nat,
{
    Seq::new(
        es.len(),
        |i: int|
            if 0 <= i < es.len() {
                (
                    es[i].0,
                    match item {
                        Some(s) => if es[i].1 is Object {
                            norm_schema(es[i].1, s)
                        } else {
                            norm_generic(es[i].1)
                        },
                        None => norm_generic(es[i].1),
                    },
                )
            } else {
                (seq![], JsonV::Null)
            },
    )
}

/// The root in its written form.
pub open spec fn norm_root(v: JsonV) -> JsonV {
    norm_schema(v, SchemaId::Root)
}


// ---------------------------------------------------------------------------
// Executable normalisation
// ---------------------------------------------------------------------------

pub open spec fn strings_v(v: Seq<String>) -> Seq<Seq<char>> {
    Seq::new(v.len(), |i: int| v[i]@)
}

fn map_put_exec(m: &mut Vec<(String, Json)>, k: String, v: Json)
    ensures
        entries_v(final(m)@) == map_put(entries_v(old(m)@), k@, jv(v)),
{
    let ghost before = entries_v(m@);
    match find_key(m, k.as_str()) {
        Some(i) => {
            let ghost kv = (k@, jv(v));
            m.set(i, (k, v));
            assert(entries_v(m@) =~= before.update(i as int, kv));
        },
        None => {
            let ghost kv = (k@, jv(v));
            m.push((k, v));
            assert(entries_v(m@) =~= before.push(kv));
        },
    }
}

fn put_keys_exec(m: &mut Vec<(String, Json)>, src: &Vec<(String, Json)>, keys: &Vec<String>)
    ensures
        entries_v(final(m)@) == put_keys(entries_v(old(m)@), entries_v(src@), strings_v(keys@)),
{
    let ghost m0 = entries_v(m@);
    let ghost ks = strings_v(keys@);
    let mut i: usize = 0;
    assert(ks.take(0) =~= Seq::<Seq<char>>::empty());
    while i < keys.len()
        invariant
            0 <= i <= keys.len(),
            ks == strings_v(keys@),
            entries_v(m@) == put_keys(m0, entries_v(src@), ks.take(i as int)),
        decreases keys.len() - i,
    {
        proof {
            assert(ks.take(i + 1).drop_last() =~= ks.take(i as int));
            assert(ks.take(i + 1).last() == keys@[i as int]@);
        }
        match crate::json::get_field(src, keys[i].as_str()) {
            Some(x) => {
                let c = crate::json::json_clone(x);
                map_put_exec(m, keys[i].clone(), c);
            },
            None => {},
        }
        i = i + 1;
    }
    assert(ks.take(keys@.len() as int) =~= ks);
}

fn sorted_pos_exec(s: &Vec<String>, k: &String) -> (r: usize)
    ensures
        r == sorted_pos(strings_v(s@), k@),
        r <= s@.len(),
{
    let ghost v = strings_v(s@);
    let kc = chars_of(k.as_str());
    let mut p: usize = 0;
    while p < s.len() && !string_lt(&kc, &chars_of(s[p].as_str()))
        invariant
            0 <= p <= s.len(),
            v == strings_v(s@),
            kc@ == k@,
            forall|j: int| 0 <= j < p ==> !str_lt(k@, #[trigger] v[j]),
        decreases s.len() - p,
    {
        p = p + 1;
    }
    proof {
        lemma_sorted_pos(v, k@, p as int);
    }
    p
}

proof fn lemma_sorted_pos(s: Seq<Seq<char>>, k: Seq<char>, n: int)
    requires
        0 <= n <= s.len(),
        forall|j: int| 0 <= j < n ==> !str_lt(k, #[trigger] s[j]),
        n == s.len() || str_lt(k, s[n]),
    ensures
        sorted_pos(s, k) == n,
    decreases n,
{
    if n > 0 {
        lemma_sorted_pos(s.drop_first(), k, n - 1);
    }
}

/// `ks` sorted in ascending order.
fn sort_key_list(ks: &Vec<String>) -> (r: Vec<String>)
    ensures
        strings_v(r@) == sort_keys(strings_v(ks@)),
{
    let ghost all = strings_v(ks@);
    let mut out: Vec<String> = Vec::new();
    let mut i: usize = 0;
    assert(all.take(0) =~= Seq::<Seq<char>>::empty());
    assert(strings_v(out@) =~= Seq::<Seq<char>>::empty());
    while i < ks.len()
        invariant
            0 <= i <= ks.len(),
            all == strings_v(ks@),
            strings_v(out@) == sort_keys(all.take(i as int)),
        decreases ks.len() - i,
    {
        let ghost before = strings_v(out@);
        proof {
            assert(all.take(i + 1).drop_last() =~= all.take(i as int));
            assert(all.take(i + 1).last() == ks@[i as int]@);
        }
        let k = ks[i].clone();
        let p = sorted_pos_exec(&out, &k);
        out.insert(p, k);
        assert(strings_v(out@) =~= before.insert(p as int, ks@[i as int]@));
        i = i + 1;
    }
    assert(all.take(ks@.len() as int) =~= all);
    out
}

fn entry_keys(es: &Vec<(String, Json)>) -> (r: Vec<String>)
    ensures
        strings_v(r@) == keys_of(entries_v(es@)),
{
    let mut out: Vec<String> = Vec::new();
    let mut i: usize = 0;
    while i < es.len()
        invariant
            0 <= i <= es.len(),
            out@.len() == i,
            forall|x: int| 0 <= x < i ==> #[trigger] out@[x]@ == es@[x].0@,
        decreases es.len() - i,
    {
        out.push(es[i].0.clone());
        i = i + 1;
    }
    assert(strings_v(out@) =~= keys_of(entries_v(es@)));
    out
}

fn other_key_list(es: &Vec<(String, Json)>, ok: &[&str]) -> (r: Vec<String>)
    ensures
        strings_v(r@) == other_keys(entries_v(es@), ok@.map_values(|o: &str| o@)),
{
    let ghost e = entries_v(es@);
    let ghost okv = ok@.map_values(|o: &str| o@);
    let mut out: Vec<String> = Vec::new();
    let mut i: usize = 0;
    assert(e.take(0) =~= Seq::<(Seq<char>, JsonV)>::empty());
    assert(strings_v(out@) =~= Seq::<Seq<char>>::empty());
    while i < es.len()
        invariant
            0 <= i <= es.len(),
            e == entries_v(es@),
            okv == ok@.map_values(|o: &str| o@),
            strings_v(out@) == other_keys(e.take(i as int), okv),
        decreases es.len() - i,
    {
        let ghost before = strings_v(out@);
        proof {
            assert(e.take(i + 1).drop_last() =~= e.take(i as int));
            assert(e.take(i + 1).last().0 == es@[i as int].0@);
        }
        if !crate::compiler::schema::key_in(es[i].0.as_str(), ok) {
            out.push(es[i].0.clone());
            assert(strings_v(out@) =~= before + seq![es@[i as int].0@]);
        } else {
            assert(strings_v(out@) =~= before + Seq::<Seq<char>>::empty());
        }
        i = i + 1;
    }
    assert(e.take(es@.len() as int) =~= e);
    out
}

fn str_list(ss: &[&str]) -> (r: Vec<String>)
    ensures
        strings_v(r@) == ss@.map_values(|s: &str| s@),
{
    let mut out: Vec<String> = Vec::new();
    let mut i: usize = 0;
    while i < ss.len()
        invariant
            0 <= i <= ss.len(),
            out@.len() == i,
            forall|x: int| 0 <= x < i ==> #[trigger] out@[x]@ == ss@[x]@,
        decreases ss.len() - i,
    {
        out.push(crate::text::copy_string(ss[i]));
        i = i + 1;
    }
    assert(strings_v(out@) =~= ss@.map_values(|s: &str| s@));
    out
}

/// How the field `key` of a `schema` section is written.
pub fn field_norm_of(schema: SchemaId, key: &str) -> (r: FieldNorm)
    ensures
        r == field_norm(schema, key@),
{
    match schema {
        SchemaId::Root => if str_eq(key, "dns") {
            FieldNorm::Schema(SchemaId::Dns)
        } else if str_eq(key, "external-controller-cors") {
            FieldNorm::Schema(SchemaId::ExternalControllerCors)
        } else if str_eq(key, "profile") {
            FieldNorm::Schema(SchemaId::Profile)
        } else if str_eq(key, "tun") {
            FieldNorm::Schema(SchemaId::Tun)
        } else if str_eq(key, "sniffer") {
            FieldNorm::Schema(SchemaId::Sniffer)
        } else if str_eq(key, "geox-url") {
            FieldNorm::Schema(SchemaId::GeoxUrl)
        } else if str_eq(key, "clash-for-android") {
            FieldNorm::Schema(SchemaId::App)
        } else if str_eq(key, "proxies") {
            FieldNorm::List(SchemaId::ProxyItem)
        } else if str_eq(key, "proxy-groups") {
            FieldNorm::List(SchemaId::ProxyGroupItem)
        } else if str_eq(key, "rule-providers") || str_eq(key, "proxy-providers") {
            FieldNorm::Objects(Some(SchemaId::ProviderItem))
        } else if str_eq(key, "hosts") || str_eq(key, "sub-rules") {
            FieldNorm::Objects(None)
        } else {
            FieldNorm::Generic
        },
        SchemaId::Dns => if str_eq(key, "fallback-filter") {
            FieldNorm::Schema(SchemaId::DnsFallbackFilter)
        } else {
            FieldNorm::Generic
        },
        SchemaId::Sniffer => if str_eq(key, "sniff") {
            FieldNorm::Schema(SchemaId::Sniff)
        } else {
            FieldNorm::Generic
        },
        SchemaId::Sniff => if str_eq(key, "HTTP") || str_eq(key, "TLS") || str_eq(key, "QUIC") {
            FieldNorm::Schema(SchemaId::Protocol)
        } else {
            FieldNorm::Generic
        },
        _ => FieldNorm::Generic,
    }
}

/// A value with every object's keys in ascending order.
#[verifier::loop_isolation(false)]
pub fn normalize_generic_value(value: &Json) -> (r: Json)
    ensures
        jv(r) == norm_generic(jv(*value)),
        json_wf(jv(r)),
    decreases value,
{
    proof {
        lemma_generic_wf(jv(*value));
    }
    match value {
        Json::Array(items) => {
            let mut out: Vec<Json> = Vec::new();
            let mut i: usize = 0;
            while i < items.len()
                invariant
                    0 <= i <= items.len(),
                    out@.len() == i,
                    forall|x: int| 0 <= x < i ==> jv(#[trigger] out@[x]) == norm_generic(jv(items@[x])),
                decreases items.len() - i,
            {
                proof {
                    vstd::std_specs::vec::axiom_vec_index_decreases(*items, i as int);
                    assert(decreases_to!(*value => items@[i as int]));
                }
                let c = normalize_generic_value(&items[i]);
                out.push(c);
                i = i + 1;
            }
            proof {
                lemma_jv_array(out);
                lemma_jv_array(*items);
                assert(items_v(out@) =~= generic_items(items_v(items@)));
            }
            Json::Array(out)
        },
        Json::Object(es) => {
            let mut ges: Vec<(String, Json)> = Vec::new();
            let mut i: usize = 0;
            while i < es.len()
                invariant
                    0 <= i <= es.len(),
                    ges@.len() == i,
                    forall|x: int|
                        0 <= x < i ==> (#[trigger] ges@[x]).0@ == es@[x].0@ && jv(ges@[x].1) == norm_generic(
                            jv(es@[x].1),
                        ),
                decreases es.len() - i,
            {
                proof {
                    vstd::std_specs::vec::axiom_vec_index_decreases(*es, i as int);
                    assert(decreases_to!(es@[i as int] => es@[i as int].1));
                    assert(decreases_to!(*value => es@[i as int].1));
                }
                let c = normalize_generic_value(&es[i].1);
                ges.push((es[i].0.clone(), c));
                i = i + 1;
            }
            let keys = sort_key_list(&entry_keys(es));
            let mut m: Vec<(String, Json)> = Vec::new();
            assert(entries_v(m@) =~= Seq::<(Seq<char>, JsonV)>::empty());
            put_keys_exec(&mut m, &ges, &keys);
            proof {
                lemma_jv_object(*es);
                lemma_jv_object(m);
                let ev = entries_v(es@);
                assert(entries_v(ges@) =~= generic_entries(ev));
            }
            Json::Object(m)
        },
        _ => {
            proof {
                lemma_jv_kind(*value);
            }
            crate::json::json_clone(value)
        },
    }
}


/// An object by `schema`; a value that is no object is written generically.
#[verifier::loop_isolation(false)]
pub fn normalize_object_with_schema(value: &Json, schema: SchemaId) -> (r: Json)
    ensures
        jv(r) == norm_schema(jv(*value), schema),
        json_wf(jv(r)),
    decreases value, 0nat,
{
    proof {
        lemma_schema_wf(jv(*value), schema);
        lemma_jv_kind(*value);
    }
    match value {
        Json::Object(es) => {
            let mut fes: Vec<(String, Json)> = Vec::new();
            let mut ges: Vec<(String, Json)> = Vec::new();
            let mut i: usize = 0;
            while i < es.len()
                invariant
                    0 <= i <= es.len(),
                    fes@.len() == i,
                    ges@.len() == i,
                    forall|x: int|
                        0 <= x < i ==> (#[trigger] fes@[x]).0@ == es@[x].0@ && jv(fes@[x].1) == norm_field(
                            schema,
                            es@[x].0@,
                            jv(es@[x].1),
                        ),
                    forall|x: int|
                        0 <= x < i ==> (#[trigger] ges@[x]).0@ == es@[x].0@ && jv(ges@[x].1) == norm_generic(
                            jv(es@[x].1),
                        ),
                decreases es.len() - i,
            {
                proof {
                    vstd::std_specs::vec::axiom_vec_index_decreases(*es, i as int);
                    assert(decreases_to!(es@[i as int] => es@[i as int].1));
                    assert(decreases_to!(*value => es@[i as int].1));
                }
                let f = normalize_field_value(schema, es[i].0.as_str(), &es[i].1);
                fes.push((es[i].0.clone(), f));
                let g = normalize_generic_value(&es[i].1);
                ges.push((es[i].0.clone(), g));
                i = i + 1;
            }
            let ok = ordered_keys(schema);
            let ok_list = str_list(ok);
            let mut m: Vec<(String, Json)> = Vec::new();
            assert(entries_v(m@) =~= Seq::<(Seq<char>, JsonV)>::empty());
            put_keys_exec(&mut m, &fes, &ok_list);
            let rest = sort_key_list(&other_key_list(es, ok));
            put_keys_exec(&mut m, &ges, &rest);
            proof {
                lemma_jv_object(*es);
                lemma_jv_object(m);
                let ev = entries_v(es@);
                assert(entries_v(fes@) =~= field_entries(ev, schema));
                assert(entries_v(ges@) =~= generic_entries(ev));
            }
            Json::Object(m)
        },
        _ => normalize_generic_value(value),
    }
}

/// A field's value in the form its section asks for.
pub fn normalize_field_value(schema: SchemaId, key: &str, value: &Json) -> (r: Json)
    ensures
        jv(r) == norm_field(schema, key@, jv(*value)),
        json_wf(jv(r)),
    decreases value, 2nat,
{
    proof {
        lemma_field_wf(schema, key@, jv(*value));
    }
    match field_norm_of(schema, key) {
        FieldNorm::Schema(s) => normalize_object_with_schema(value, s),
        FieldNorm::List(s) => normalize_object_list(value, s),
        FieldNorm::Objects(s) => normalize_object_map(value, s),
        FieldNorm::Generic => normalize_generic_value(value),
    }
}

/// A list of objects, each by `item_schema`.
#[verifier::loop_isolation(false)]
pub fn normalize_object_list(value: &Json, item_schema: SchemaId) -> (r: Json)
    ensures
        jv(r) == norm_list(jv(*value), item_schema),
        json_wf(jv(r)),
    decreases value, 1nat,
{
    proof {
        lemma_list_wf(jv(*value), item_schema);
        lemma_jv_kind(*value);
    }
    match value {
        Json::Array(items) => {
            let mut out: Vec<Json> = Vec::new();
            let mut i: usize = 0;
            while i < items.len()
                invariant
                    0 <= i <= items.len(),
                    out@.len() == i,
                    forall|x: int| 0 <= x < i ==> jv(#[trigger] out@[x]) == norm_schema(jv(items@[x]), item_schema),
                decreases items.len() - i,
            {
                proof {
                    vstd::std_specs::vec::axiom_vec_index_decreases(*items, i as int);
                    assert(decreases_to!(*value => items@[i as int]));
                }
                let c = normalize_object_with_schema(&items[i], item_schema);
                out.push(c);
                i = i + 1;
            }
            proof {
                lemma_jv_array(out);
                lemma_jv_array(*items);
                assert(items_v(out@) =~= schema_items(items_v(items@), item_schema));
            }
            Json::Array(out)
        },
        _ => normalize_generic_value(value),
    }
}

/// A map of named objects in ascending key order.
#[verifier::loop_isolation(false)]
pub fn normalize_object_map(value: &Json, item_schema: Option<SchemaId>) -> (r: Json)
    ensures
        jv(r) == norm_objects(jv(*value), item_schema),
        json_wf(jv(r)),
    decreases value, 1nat,
{
    proof {
        lemma_objects_wf(jv(*value), item_schema);
        lemma_jv_kind(*value);
    }
    match value {
        Json::Object(es) => {
            let mut nes: Vec<(String, Json)> = Vec::new();
            let mut i: usize = 0;
            while i < es.len()
                invariant
                    0 <= i <= es.len(),
                    nes@.len() == i,
                    forall|x: int|
                        0 <= x < i ==> (#[trigger] nes@[x]).0@ == es@[x].0@ && jv(nes@[x].1) == match item_schema {
                            Some(s) => if jv(es@[x].1) is Object {
                                norm_schema(jv(es@[x].1), s)
                            } else {
                                norm_generic(jv(es@[x].1))
                            },
                            None => norm_generic(jv(es@[x].1)),
                        },
                decreases es.len() - i,
            {
                proof {
                    vstd::std_specs::vec::axiom_vec_index_decreases(*es, i as int);
                    assert(decreases_to!(es@[i as int] => es@[i as int].1));
                    assert(decreases_to!(*value => es@[i as int].1));
                    lemma_jv_kind(es@[i as int].1);
                }
                let is_object = match &es[i].1 {
                    Json::Object(_) => true,
                    _ => false,
                };
                let c = match item_schema {
                    Some(s) => if is_object {
                        normalize_object_with_schema(&es[i].1, s)
                    } else {
                        normalize_generic_value(&es[i].1)
                    },
                    None => normalize_generic_value(&es[i].1),
                };
                nes.push((es[i].0.clone(), c));
                i = i + 1;
            }
            let keys = sort_key_list(&entry_keys(es));
            let mut m: Vec<(String, Json)> = Vec::new();
            assert(entries_v(m@) =~= Seq::<(Seq<char>, JsonV)>::empty());
            put_keys_exec(&mut m, &nes, &keys);
            proof {
                lemma_jv_object(*es);
                lemma_jv_object(m);
                let ev = entries_v(es@);
                assert(entries_v(nes@) =~= object_entries(ev, item_schema));
            }
            Json::Object(m)
        },
        _ => normalize_generic_value(value),
    }
}

/// The compiled root in its written form.
pub fn normalize_root(value: &Json) -> (r: Json)
    ensures
        jv(r) == norm_root(jv(*value)),
        json_wf(jv(r)),
{
    normalize_object_with_schema(value, SchemaId::Root)
}


/// The ascending order of a key list.
pub open spec fn ascending(s: Seq<Seq<char>>) -> bool {
    forall|i: int, j: int| 0 <= i < j < s.len() ==> !str_lt(#[trigger] s[j], #[trigger] s[i])
}

proof fn lemma_sorted_pos_props(s: Seq<Seq<char>>, k: Seq<char>)
    ensures
        sorted_pos(s, k) <= s.len(),
        forall|j: int| 0 <= j < sorted_pos(s, k) ==> !str_lt(k, #[trigger] s[j]),
        sorted_pos(s, k) < s.len() ==> str_lt(k, s[sorted_pos(s, k) as int]),
    decreases s.len(),
{
    if s.len() > 0 && !str_lt(k, s[0]) {
        lemma_sorted_pos_props(s.drop_first(), k);
        assert forall|j: int| 0 <= j < sorted_pos(s, k) implies !str_lt(k, #[trigger] s[j]) by {
            if j > 0 {
                assert(s[j] == s.drop_first()[j - 1]);
            }
        }
    }
}

/// Sorting keys gives them in ascending order, each key as often as before.
pub proof fn sorted_keys_ascend(ks: Seq<Seq<char>>)
    ensures
        ascending(sort_keys(ks)),
        sort_keys(ks).to_multiset() == ks.to_multiset(),
    decreases ks.len(),
{
    if ks.len() > 0 {
        let s = sort_keys(ks.drop_last());
        sorted_keys_ascend(ks.drop_last());
        let k = ks.last();
        lemma_sorted_pos_props(s, k);
        let p = sorted_pos(s, k) as int;
        let r = s.insert(p, k);
        assert forall|i: int, j: int| 0 <= i < j < r.len() implies !str_lt(#[trigger] r[j], #[trigger] r[i]) by {
            if j < p {
                assert(r[i] == s[i] && r[j] == s[j]);
            } else if j == p {
                assert(r[i] == s[i]);
                assert(!str_lt(k, s[i]));
            } else if i < p {
                assert(r[i] == s[i] && r[j] == s[j - 1]);
                if str_lt(s[j - 1], s[i]) {
                    assert(!str_lt(k, s[i]));
                    assert(str_lt(k, s[p]));
                    if j - 1 > p {
                        assert(!str_lt(s[j - 1], s[p]));
                    }
                    crate::text::lemma_str_lt_total(k, s[i]);
                    if k == s[i] {
                        crate::text::lemma_str_lt_trans(s[j - 1], s[i], s[p]);
                        if j - 1 == p {
                            crate::text::lemma_str_lt_asym(s[p], s[i]);
                        }
                    } else {
                        crate::text::lemma_str_lt_trans(s[j - 1], s[i], k);
                        crate::text::lemma_str_lt_trans(s[j - 1], k, s[p]);
                        if j - 1 == p {
                            crate::text::lemma_str_lt_irreflexive(s[p]);
                        }
                    }
                }
            } else if i == p {
                assert(r[j] == s[j - 1]);
                if str_lt(s[j - 1], k) {
                    if j - 1 == p {
                        crate::text::lemma_str_lt_asym(k, s[p]);
                    } else {
                        assert(!str_lt(s[j - 1], s[p]));
                        crate::text::lemma_str_lt_trans(s[j - 1], k, s[p]);
                    }
                }
            } else {
                assert(r[i] == s[i - 1] && r[j] == s[j - 1]);
            }
        }
        broadcast use vstd::multiset::group_multiset_axioms;
        let ks0 = ks.drop_last();
        assert(ks =~= ks0.push(k));
        ks0.to_multiset_ensures();
        r.to_multiset_ensures();
        assert(r.remove(p) =~= s);
        assert(r[p] == k);
        assert(s.to_multiset() == r.to_multiset().remove(k));
        assert(r.to_multiset().count(k) > 0);
        assert(s.to_multiset().insert(k) =~= r.to_multiset());
        assert(ks0.push(k).to_multiset() =~= ks0.to_multiset().insert(k));
        assert(sort_keys(ks) == r);
        assert(ks.to_multiset() == ks0.to_multiset().insert(k));
    } else {
        assert(ks =~= Seq::<Seq<char>>::empty());
    }
}


// ---------------------------------------------------------------------------
// Laws of normalisation
// ---------------------------------------------------------------------------

proof fn lemma_map_put_read(m: Entries, k: Seq<char>, v: JsonV, k2: Seq<char>)
    ensures
        obj_get(map_put(m, k, v), k2) == if k2 == k {
            Some(v)
        } else {
            obj_get(m, k2)
        },
{
    let t = map_put(m, k, v);
    if has_key(m, k) {
        lemma_key_index_props(m, k);
        let i = key_index(m, k);
        assert forall|j: int| 0 <= j < i implies t[j].0 != k by {}
        lemma_key_index(t, k, i);
        if k2 != k {
            if has_key(m, k2) {
                lemma_key_index_props(m, k2);
                let j2 = key_index(m, k2);
                assert forall|j: int| 0 <= j < j2 implies t[j].0 != k2 by {}
                lemma_key_index(t, k2, j2);
            } else {
                assert(!has_key(t, k2)) by {
                    if has_key(t, k2) {
                        let w = choose|x: int| 0 <= x < t.len() && #[trigger] t[x].0 == k2;
                        assert(m[w].0 == k2);
                    }
                }
            }
        }
    } else {
        let p = m.len() as int;
        assert forall|j: int| 0 <= j < p implies t[j].0 != k by {
            assert(t[j] == m[j]);
        }
        lemma_key_index(t, k, p);
        if k2 != k {
            if has_key(m, k2) {
                lemma_key_index_props(m, k2);
                let j2 = key_index(m, k2);
                assert(t[j2] == m[j2]);
                assert forall|j: int| 0 <= j < j2 implies t[j].0 != k2 by {
                    assert(t[j] == m[j]);
                }
                lemma_key_index(t, k2, j2);
            } else {
                assert(!has_key(t, k2)) by {
                    if has_key(t, k2) {
                        let w = choose|x: int| 0 <= x < t.len() && #[trigger] t[x].0 == k2;
                        if w < p {
                            assert(t[w] == m[w]);
                        }
                    }
                }
            }
        }
    }
}

/// Reading a key after the keys `keys` were put from `src`.
proof fn lemma_put_keys_read(m: Entries, src: Entries, keys: Seq<Seq<char>>, k: Seq<char>)
    ensures
        obj_get(put_keys(m, src, keys), k) == if keys.contains(k) && obj_get(src, k) is Some {
            obj_get(src, k)
        } else {
            obj_get(m, k)
        },
    decreases keys.len(),
{
    if keys.len() > 0 {
        let d = keys.drop_last();
        lemma_put_keys_read(m, src, d, k);
        let m2 = put_keys(m, src, d);
        match obj_get(src, keys.last()) {
            Some(x) => lemma_map_put_read(m2, keys.last(), x, k),
            None => {},
        }
        assert(keys.contains(k) == (d.contains(k) || keys.last() == k)) by {
            if keys.contains(k) {
                let i = choose|i: int| 0 <= i < keys.len() && keys[i] == k;
                if i < d.len() {
                    assert(d[i] == k);
                }
            }
            if d.contains(k) {
                let i = choose|i: int| 0 <= i < d.len() && d[i] == k;
                assert(keys[i] == k);
            }
            if keys.last() == k {
                assert(keys[keys.len() - 1] == k);
            }
        }
    }
}

/// The keys of an object, sorted, are the keys it has.
proof fn lemma_sorted_keys_contain(es: Entries, k: Seq<char>)
    ensures
        sort_keys(keys_of(es)).contains(k) == has_key(es, k),
{
    sorted_keys_ascend(keys_of(es));
    let ks = keys_of(es);
    let sk = sort_keys(ks);
    ks.to_multiset_ensures();
    sk.to_multiset_ensures();
    assert(sk.to_multiset().count(k) == ks.to_multiset().count(k));
    assert(sk.contains(k) == ks.contains(k));
    if has_key(es, k) {
        let i = choose|i: int| 0 <= i < es.len() && #[trigger] es[i].0 == k;
        assert(ks[i] == k);
        assert(ks.contains(k));
    }
    if ks.contains(k) {
        let i = choose|i: int| 0 <= i < ks.len() && ks[i] == k;
        assert(es[i].0 == k);
    }
}

/// Values mapped entry by entry are read through the same keys.
proof fn lemma_mapped_read(es: Entries, ms: Entries, k: Seq<char>)
    requires
        ms.len() == es.len(),
        forall|i: int| 0 <= i < es.len() ==> #[trigger] ms[i].0 == es[i].0,
    ensures
        has_key(ms, k) == has_key(es, k),
        has_key(es, k) ==> key_index(ms, k) == key_index(es, k),
{
    if has_key(es, k) {
        lemma_key_index_props(es, k);
        let i = key_index(es, k);
        assert(ms[i].0 == k);
        assert forall|j: int| 0 <= j < i implies ms[j].0 != k by {
            assert(ms[j].0 == es[j].0);
        }
        lemma_key_index(ms, k, i);
    } else {
        assert(!has_key(ms, k)) by {
            if has_key(ms, k) {
                let w = choose|x: int| 0 <= x < ms.len() && #[trigger] ms[x].0 == k;
                assert(es[w].0 == k);
            }
        }
    }
}

/// Generic normalisation keeps every field of an object and adds none: each
/// key reads the normal form of its value.
pub proof fn generic_normalization_keeps_fields(es: Entries, k: Seq<char>)
    ensures
        obj_get(norm_generic(JsonV::Object(es))->Object_0, k) == match obj_get(es, k) {
            Some(v) => Some(norm_generic(v)),
            None => None,
        },
{
    let g = generic_entries(es);
    let sk = sort_keys(keys_of(es));
    let e = Seq::<(Seq<char>, JsonV)>::empty();
    assert(norm_generic(JsonV::Object(es))->Object_0 == put_keys(e, g, sk));
    lemma_put_keys_read(e, g, sk, k);
    lemma_sorted_keys_contain(es, k);
    lemma_mapped_read(es, g, k);
    assert(!has_key(e, k));
    if has_key(es, k) {
        lemma_key_index_props(es, k);
        let i = key_index(es, k);
        assert(g[i].1 == norm_generic(es[i].1));
        assert(obj_get(g, k) == Some(norm_generic(es[i].1)));
    } else {
        assert(obj_get(g, k) is None);
    }
}

/// Normalising an object by its schema keeps every field and adds none: a
/// key the schema orders reads its value in the form its field asks for,
/// any other key reads its generic form.
pub proof fn schema_normalization_keeps_fields(es: Entries, schema: SchemaId, k: Seq<char>)
    ensures
        obj_get(norm_schema(JsonV::Object(es), schema)->Object_0, k) == match obj_get(es, k) {
            Some(v) => Some(
                if ordered_keys_spec(schema).contains(k) {
                    norm_field(schema, k, v)
                } else {
                    norm_generic(v)
                },
            ),
            None => None,
        },
{
    let ok = ordered_keys_spec(schema);
    let fe = field_entries(es, schema);
    let ge = generic_entries(es);
    let e = Seq::<(Seq<char>, JsonV)>::empty();
    let first = put_keys(e, fe, ok);
    let others = sort_keys(other_keys(es, ok));
    assert(norm_schema(JsonV::Object(es), schema)->Object_0 == put_keys(first, ge, others));
    lemma_put_keys_read(first, ge, others, k);
    lemma_put_keys_read(e, fe, ok, k);
    lemma_mapped_read(es, fe, k);
    lemma_mapped_read(es, ge, k);
    assert(!has_key(e, k));
    lemma_other_keys_contain(es, ok, k);
    sorted_keys_ascend(other_keys(es, ok));
    other_keys(es, ok).to_multiset_ensures();
    others.to_multiset_ensures();
    assert(others.to_multiset().count(k) == other_keys(es, ok).to_multiset().count(k));
    assert(others.contains(k) == other_keys(es, ok).contains(k));
    if has_key(es, k) {
        lemma_key_index_props(es, k);
        let i = key_index(es, k);
        assert(fe[i].1 == norm_field(schema, es[i].0, es[i].1));
        assert(ge[i].1 == norm_generic(es[i].1));
        assert(obj_get(fe, k) == Some(norm_field(schema, k, es[i].1)));
        assert(obj_get(ge, k) == Some(norm_generic(es[i].1)));
    } else {
        assert(obj_get(fe, k) is None);
        assert(obj_get(ge, k) is None);
    }
}

proof fn lemma_other_keys_contain(es: Entries, ok: Seq<Seq<char>>, k: Seq<char>)
    ensures
        other_keys(es, ok).contains(k) == (has_key(es, k) && !ok.contains(k)),
    decreases es.len(),
{
    if es.len() > 0 {
        let d = es.drop_last();
        lemma_other_keys_contain(d, ok, k);
        let a = other_keys(d, ok);
        let b = if ok.contains(es.last().0) {
            Seq::<Seq<char>>::empty()
        } else {
            seq![es.last().0]
        };
        assert(other_keys(es, ok) == a + b);
        assert(b.contains(k) == (!ok.contains(es.last().0) && es.last().0 == k)) by {
            if !ok.contains(es.last().0) {
                assert(b[0] == es.last().0);
            }
        }
        assert(has_key(es, k) == (has_key(d, k) || es.last().0 == k)) by {
            if has_key(es, k) {
                let i = choose|i: int| 0 <= i < es.len() && #[trigger] es[i].0 == k;
                if i < d.len() {
                    assert(d[i].0 == k);
                }
            }
            if has_key(d, k) {
                let i = choose|i: int| 0 <= i < d.len() && #[trigger] d[i].0 == k;
                assert(es[i].0 == k);
            }
            if es.last().0 == k {
                assert(es[es.len() - 1].0 == k);
            }
        }
        assert((a + b).contains(k) == (a.contains(k) || b.contains(k))) by {
            if (a + b).contains(k) {
                let i = choose|i: int| 0 <= i < (a + b).len() && (a + b)[i] == k;
                if i < a.len() {
                    assert(a[i] == k);
                } else {
                    assert(b[i - a.len()] == k);
                }
            }
            if a.contains(k) {
                let i = choose|i: int| 0 <= i < a.len() && a[i] == k;
                assert((a + b)[i] == k);
            }
            if b.contains(k) {
                let i = choose|i: int| 0 <= i < b.len() && b[i] == k;
                assert((a + b)[a.len() + i] == k);
            }
        }
    }
}

/// The keys of `l` that `src` has, each once, in the order they first come
/// in `l`, after the keys `acc`.
pub open spec fn put_order(acc: Seq<Seq<char>>, src: Entries, l: Seq<Seq<char>>) -> Seq<Seq<char>>
    decreases l.len(),
{
    if l.len() == 0 {
        acc
    } else {
        let a = put_order(acc, src, l.drop_last());
        if has_key(src, l.last()) && !a.contains(l.last()) {
            a.push(l.last())
        } else {
            a
        }
    }
}

proof fn lemma_keys_of_has(m: Entries, k: Seq<char>)
    ensures
        keys_of(m).contains(k) == has_key(m, k),
{
    if has_key(m, k) {
        let i = choose|i: int| 0 <= i < m.len() && #[trigger] m[i].0 == k;
        assert(keys_of(m)[i] == k);
    }
    if keys_of(m).contains(k) {
        let i = choose|i: int| 0 <= i < keys_of(m).len() && keys_of(m)[i] == k;
        assert(m[i].0 == k);
    }
}

proof fn lemma_put_keys_order(m: Entries, src: Entries, l: Seq<Seq<char>>)
    ensures
        keys_of(put_keys(m, src, l)) == put_order(keys_of(m), src, l),
    decreases l.len(),
{
    if l.len() > 0 {
        let d = l.drop_last();
        lemma_put_keys_order(m, src, d);
        let m2 = put_keys(m, src, d);
        let k = l.last();
        lemma_keys_of_has(m2, k);
        match obj_get(src, k) {
            Some(x) => {
                let t = map_put(m2, k, x);
                if has_key(m2, k) {
                    lemma_key_index_props(m2, k);
                    assert(keys_of(t) =~= keys_of(m2));
                } else {
                    assert(keys_of(t) =~= keys_of(m2).push(k));
                }
            },
            None => {},
        }
    }
}

/// Keys that `src` has, none of them yet in `acc`, each once, follow `acc`
/// as they are.
proof fn lemma_put_order_fresh(acc: Seq<Seq<char>>, src: Entries, l: Seq<Seq<char>>)
    requires
        l.no_duplicates(),
        forall|i: int| 0 <= i < l.len() ==> has_key(src, #[trigger] l[i]) && !acc.contains(l[i]),
    ensures
        put_order(acc, src, l) == acc + l,
    decreases l.len(),
{
    if l.len() == 0 {
        assert(acc + l =~= acc);
    } else {
        let d = l.drop_last();
        assert forall|i: int| 0 <= i < d.len() implies has_key(src, #[trigger] d[i]) && !acc.contains(d[i]) by {
            assert(d[i] == l[i]);
        }
        lemma_put_order_fresh(acc, src, d);
        let k = l.last();
        assert(l[l.len() - 1] == k);
        assert(!(acc + d).contains(k)) by {
            if (acc + d).contains(k) {
                let i = choose|i: int| 0 <= i < (acc + d).len() && (acc + d)[i] == k;
                if i < acc.len() {
                    assert(acc[i] == k);
                } else {
                    assert(d[i - acc.len()] == l[i - acc.len()]);
                }
            }
        }
        assert((acc + d).push(k) =~= acc + l);
    }
}

proof fn lemma_put_order_present(src1: Entries, src2: Entries, acc: Seq<Seq<char>>, l: Seq<Seq<char>>)
    requires
        forall|k: Seq<char>| has_key(src1, k) == has_key(src2, k),
    ensures
        put_order(acc, src1, l) == put_order(acc, src2, l),
    decreases l.len(),
{
    if l.len() > 0 {
        lemma_put_order_present(src1, src2, acc, l.drop_last());
    }
}

proof fn lemma_other_keys_distinct(es: Entries, ok: Seq<Seq<char>>)
    requires
        keys_of(es).no_duplicates(),
    ensures
        other_keys(es, ok).no_duplicates(),
    decreases es.len(),
{
    if es.len() > 0 {
        let d = es.drop_last();
        assert(keys_of(d) =~= keys_of(es).drop_last());
        lemma_other_keys_distinct(d, ok);
        let k = es.last().0;
        lemma_other_keys_contain(d, ok, k);
        assert(!has_key(d, k)) by {
            if has_key(d, k) {
                let i = choose|i: int| 0 <= i < d.len() && #[trigger] d[i].0 == k;
                assert(keys_of(es)[i] == keys_of(es)[es.len() - 1]);
            }
        }
        let a = other_keys(d, ok);
        if !ok.contains(k) {
            assert(other_keys(es, ok) == a.push(k));
            assert forall|i: int, j: int|
                0 <= i < a.push(k).len() && 0 <= j < a.push(k).len() && i != j implies a.push(k)[i] != a.push(k)[j] by {
                if i < a.len() && j < a.len() {
                } else if i < a.len() {
                    assert(a[i] != k) by {
                        if a[i] == k {
                            assert(a.contains(k));
                        }
                    }
                } else if j < a.len() {
                    assert(a[j] != k) by {
                        if a[j] == k {
                            assert(a.contains(k));
                        }
                    }
                }
            }
        } else {
            assert(other_keys(es, ok) =~= a);
        }
    }
}

proof fn lemma_sorted_distinct(ks: Seq<Seq<char>>)
    requires
        ks.no_duplicates(),
    ensures
        sort_keys(ks).no_duplicates(),
{
    sorted_keys_ascend(ks);
    ks.lemma_multiset_has_no_duplicates();
    let s = sort_keys(ks);
    assert forall|x: Seq<char>| s.to_multiset().contains(x) implies s.to_multiset().count(x) == 1 by {
        assert(ks.to_multiset().contains(x));
    }
    s.lemma_multiset_has_no_duplicates_conv();
}

/// Normalising an object by its schema writes the keys the schema orders
/// first, in schema order, then every other key in ascending order.
pub proof fn schema_normalization_orders_keys(es: Entries, schema: SchemaId)
    requires
        keys_of(es).no_duplicates(),
    ensures
        keys_of(norm_schema(JsonV::Object(es), schema)->Object_0) == put_order(
            seq![],
            es,
            ordered_keys_spec(schema),
        ) + sort_keys(other_keys(es, ordered_keys_spec(schema))),
        ascending(sort_keys(other_keys(es, ordered_keys_spec(schema)))),
{
    let ok = ordered_keys_spec(schema);
    let fe = field_entries(es, schema);
    let ge = generic_entries(es);
    let e = Seq::<(Seq<char>, JsonV)>::empty();
    let first = put_keys(e, fe, ok);
    let others = sort_keys(other_keys(es, ok));
    assert(norm_schema(JsonV::Object(es), schema)->Object_0 == put_keys(first, ge, others));
    assert forall|k: Seq<char>| has_key(fe, k) == has_key(es, k) by {
        lemma_mapped_read(es, fe, k);
    }
    assert forall|k: Seq<char>| has_key(ge, k) == has_key(es, k) by {
        lemma_mapped_read(es, ge, k);
    }
    lemma_put_keys_order(e, fe, ok);
    assert(keys_of(e) =~= Seq::<Seq<char>>::empty());
    lemma_put_order_present(fe, es, seq![], ok);
    let a = keys_of(first);
    lemma_put_keys_order(first, ge, others);
    lemma_other_keys_distinct(es, ok);
    lemma_sorted_distinct(other_keys(es, ok));
    sorted_keys_ascend(other_keys(es, ok));
    other_keys(es, ok).to_multiset_ensures();
    others.to_multiset_ensures();
    assert forall|i: int| 0 <= i < others.len() implies has_key(ge, #[trigger] others[i]) && !a.contains(
        others[i],
    ) by {
        let k = others[i];
        assert(others.contains(k));
        assert(others.to_multiset().count(k) == other_keys(es, ok).to_multiset().count(k));
        assert(other_keys(es, ok).contains(k));
        lemma_other_keys_contain(es, ok, k);
        lemma_put_order_within(seq![], es, ok, k);
    }
    lemma_put_order_fresh(a, ge, others);
}

/// What `put_order` lists comes from `acc` or from `l`.
proof fn lemma_put_order_within(acc: Seq<Seq<char>>, src: Entries, l: Seq<Seq<char>>, k: Seq<char>)
    ensures
        put_order(acc, src, l).contains(k) ==> acc.contains(k) || l.contains(k),
    decreases l.len(),
{
    if l.len() > 0 {
        let d = l.drop_last();
        lemma_put_order_within(acc, src, d, k);
        let a = put_order(acc, src, d);
        if d.contains(k) {
            let i = choose|i: int| 0 <= i < d.len() && d[i] == k;
            assert(l[i] == k);
        }
        if put_order(acc, src, l).contains(k) && !a.contains(k) {
            let i = choose|i: int| 0 <= i < put_order(acc, src, l).len() && put_order(acc, src, l)[i] == k;
            if i < a.len() {
                assert(a[i] == k);
            } else {
                assert(l[l.len() - 1] == k);
            }
        }
    }
}

/// Generic normalisation writes an object's keys in ascending order.
pub proof fn generic_normalization_orders_keys(es: Entries)
    requires
        keys_of(es).no_duplicates(),
    ensures
        keys_of(norm_generic(JsonV::Object(es))->Object_0) == sort_keys(keys_of(es)),
        ascending(sort_keys(keys_of(es))),
{
    let g = generic_entries(es);
    let sk = sort_keys(keys_of(es));
    let e = Seq::<(Seq<char>, JsonV)>::empty();
    assert(norm_generic(JsonV::Object(es))->Object_0 == put_keys(e, g, sk));
    lemma_put_keys_order(e, g, sk);
    assert(keys_of(e) =~= Seq::<Seq<char>>::empty());
    lemma_sorted_distinct(keys_of(es));
    sorted_keys_ascend(keys_of(es));
    assert forall|i: int| 0 <= i < sk.len() implies has_key(g, #[trigger] sk[i]) && !Seq::<Seq<char>>::empty().contains(
        sk[i],
    ) by {
        let k = sk[i];
        assert(sk.contains(k));
        lemma_sorted_keys_contain(es, k);
        lemma_mapped_read(es, g, k);
    }
    lemma_put_order_fresh(seq![], g, sk);
    assert(Seq::<Seq<char>>::empty() + sk =~= sk);
}

// ---------------------------------------------------------------------------
// Well-formed output
// ---------------------------------------------------------------------------

proof fn lemma_map_put_wf(m: Entries, k: Seq<char>, v: JsonV)
    requires
        json_wf(JsonV::Object(m)),
        json_wf(v),
    ensures
        json_wf(JsonV::Object(map_put(m, k, v))),
{
    let t = map_put(m, k, v);
    if has_key(m, k) {
        lemma_key_index_props(m, k);
        let p = key_index(m, k);
        assert forall|i: int, j: int| 0 <= i < j < t.len() implies #[trigger] t[i].0 != #[trigger] t[j].0 by {
            assert(t[i].0 == m[i].0 && t[j].0 == m[j].0);
        }
        assert forall|i: int| 0 <= i < t.len() implies json_wf(#[trigger] t[i].1) by {
            if i != p {
                assert(t[i] == m[i]);
            }
        }
    } else {
        assert forall|i: int, j: int| 0 <= i < j < t.len() implies #[trigger] t[i].0 != #[trigger] t[j].0 by {
            assert(t[i] == m[i]);
            if j < m.len() {
                assert(t[j] == m[j]);
            } else if m[i].0 == k {
                assert(has_key(m, k));
            }
        }
        assert forall|i: int| 0 <= i < t.len() implies json_wf(#[trigger] t[i].1) by {
            if i < m.len() {
                assert(t[i] == m[i]);
            }
        }
    }
}

proof fn lemma_put_keys_wf(m: Entries, src: Entries, keys: Seq<Seq<char>>)
    requires
        json_wf(JsonV::Object(m)),
        values_wf(src),
    ensures
        json_wf(JsonV::Object(put_keys(m, src, keys))),
    decreases keys.len(),
{
    if keys.len() > 0 {
        lemma_put_keys_wf(m, src, keys.drop_last());
        let m2 = put_keys(m, src, keys.drop_last());
        match obj_get(src, keys.last()) {
            Some(x) => {
                lemma_key_index_props(src, keys.last());
                assert(json_wf(src[key_index(src, keys.last())].1));
                lemma_map_put_wf(m2, keys.last(), x);
            },
            None => {},
        }
    }
}

proof fn lemma_empty_wf()
    ensures
        json_wf(JsonV::Object(seq![])),
{
    let e: Entries = seq![];
    assert(distinct_keys(e));
    assert(values_wf(e));
}

proof fn lemma_generic_wf(v: JsonV)
    ensures
        json_wf(norm_generic(v)),
    decreases v,
{
    match v {
        JsonV::Array(items) => {
            let g = generic_items(items);
            assert forall|i: int| 0 <= i < g.len() implies json_wf(#[trigger] g[i]) by {
                lemma_generic_wf(items[i]);
            }
        },
        JsonV::Object(es) => {
            let ge = generic_entries(es);
            assert forall|i: int| 0 <= i < ge.len() implies json_wf(#[trigger] ge[i].1) by {
                assert(decreases_to!(es => es[i]));
                lemma_generic_wf(es[i].1);
            }
            lemma_empty_wf();
            lemma_put_keys_wf(seq![], ge, sort_keys(keys_of(es)));
        },
        _ => {},
    }
}

proof fn lemma_schema_wf(v: JsonV, schema: SchemaId)
    ensures
        json_wf(norm_schema(v, schema)),
    decreases v, 0nat,
{
    match v {
        JsonV::Object(es) => {
            let ok = ordered_keys_spec(schema);
            let fe = field_entries(es, schema);
            let ge = generic_entries(es);
            assert forall|i: int| 0 <= i < fe.len() implies json_wf(#[trigger] fe[i].1) by {
                assert(decreases_to!(es => es[i]));
                lemma_field_wf(schema, es[i].0, es[i].1);
            }
            assert forall|i: int| 0 <= i < ge.len() implies json_wf(#[trigger] ge[i].1) by {
                lemma_generic_wf(es[i].1);
            }
            lemma_empty_wf();
            lemma_put_keys_wf(seq![], fe, ok);
            lemma_put_keys_wf(put_keys(seq![], fe, ok), ge, sort_keys(other_keys(es, ok)));
        },
        _ => lemma_generic_wf(v),
    }
}

proof fn lemma_field_wf(schema: SchemaId, key: Seq<char>, v: JsonV)
    ensures
        json_wf(norm_field(schema, key, v)),
    decreases v, 1nat,
{
    match field_norm(schema, key) {
        FieldNorm::Schema(s) => lemma_schema_wf(v, s),
        FieldNorm::List(s) => lemma_list_wf(v, s),
        FieldNorm::Objects(s) => lemma_objects_wf(v, s),
        FieldNorm::Generic => lemma_generic_wf(v),
    }
}

proof fn lemma_list_wf(v: JsonV, item: SchemaId)
    ensures
        json_wf(norm_list(v, item)),
    decreases v, 0nat,
{
    match v {
        JsonV::Array(items) => {
            let g = schema_items(items, item);
            assert forall|i: int| 0 <= i < g.len() implies json_wf(#[trigger] g[i]) by {
                lemma_schema_wf(items[i], item);
            }
        },
        _ => lemma_generic_wf(v),
    }
}

proof fn lemma_objects_wf(v: JsonV, item: Option<SchemaId>)
    ensures
        json_wf(norm_objects(v, item)),
    decreases v, 0nat,
{
    match v {
        JsonV::Object(es) => {
            let oe = object_entries(es, item);
            assert forall|i: int| 0 <= i < oe.len() implies json_wf(#[trigger] oe[i].1) by {
                assert(decreases_to!(es => es[i]));
                match item {
                    Some(s) => if es[i].1 is Object {
                        lemma_schema_wf(es[i].1, s);
                    } else {
                        lemma_generic_wf(es[i].1);
                    },
                    None => lemma_generic_wf(es[i].1),
                }
            }
            lemma_empty_wf();
            lemma_put_keys_wf(seq![], oe, sort_keys(keys_of(es)));
        },
        _ => lemma_generic_wf(v),
    }
}

/// The written form is a well-formed tree whatever tree it is given: no
/// object in it, at any depth, holds a key twice.
pub proof fn normalization_yields_well_formed_trees(v: JsonV, schema: SchemaId)
    ensures
        json_wf(norm_root(v)),
        json_wf(norm_schema(v, schema)),
        json_wf(norm_generic(v)),
{
    lemma_schema_wf(v, SchemaId::Root);
    lemma_schema_wf(v, schema);
    lemma_generic_wf(v);
}

} // verus!
