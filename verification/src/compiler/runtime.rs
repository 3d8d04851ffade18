//! The runtime patch applied to every compiled profile: fixed runtime keys,
//! DNS defaults, listener filtering and provider file paths, and the check
//! that every provider file stays inside the profile.
use crate::compiler::digest::{hex_lower, is_hex_char, lemma_hex_chars, sha256_hex, sha256_of};
use crate::compiler::paths::{
    body_comps, home_relative, norm, normalize_path, parts_v, path_comps, path_components,
    provider_base, provider_base_dir, provider_file, provider_path_spec, push_path, render,
    render_parts, runtime_home, runtime_home_dir, join_path, normalize_provider_path,
    parts_start_with, profile_provider_path, is_abs, lemma_body_name, lemma_literal_name, lemma_plain_cat, plain_at, no_backslash, lone_blank_parent, provider_target, provider_tail, lemma_plain_nb, blank_below_home, backslash_below_home, lemma_comps_push,
    provider_file_in_scope, normalized_provider_path_in_scope, lemma_valid_not_abs, plain, valid_name,
    Comp,
};
use crate::compiler::schema::{
    default_fake_ip_filter, default_fake_ip_filter_spec, default_fake_ip_range,
    default_name_servers, default_name_servers_spec,
};
use crate::json::{
    distinct_keys, has_key, items_wf, json_wf, key_index, lemma_key_index_props, obj_insert_keeps_wf,
    values_wf, entries_v, get_field, insert_field, items_v, json_clone, json_str, jv, lemma_jv_array,
    lemma_jv_kind, lemma_jv_object, obj_get, obj_insert, obj_read_after_write, Entries, Json, JsonV,
};
use crate::text::{
    concat2, concat3, copy_string, eq_ignore_ascii_case, eq_ignore_case, push_str, str_eq, trim, trim_end, trim_start,
    trim_text,
};
use vstd::prelude::*;
use vstd::utf8::encode_utf8;

verus! {

// ---------------------------------------------------------------------------
// Reading fields
// ---------------------------------------------------------------------------

/// The entries of the object under `k`, or none when `k` holds no object.
pub open spec fn fobj(o: Entries, k: Seq<char>) -> Entries {
    match obj_get(o, k) {
        Some(JsonV::Object(e)) => e,
        _ => seq![],
    }
}

/// The items of the array under `k`, or none when `k` holds no array.
pub open spec fn farr(o: Entries, k: Seq<char>) -> Seq<JsonV> {
    match obj_get(o, k) {
        Some(JsonV::Array(a)) => a,
        _ => seq![],
    }
}

/// The string under `k`.
pub open spec fn get_str(o: Entries, k: Seq<char>) -> Option<Seq<char>> {
    match obj_get(o, k) {
        Some(JsonV::Str(s)) => Some(s),
        _ => None,
    }
}

/// The boolean under `k`.
pub open spec fn get_bool(o: Entries, k: Seq<char>) -> Option<bool> {
    match obj_get(o, k) {
        Some(JsonV::Bool(b)) => Some(b),
        _ => None,
    }
}

/// The boolean under `k2` of the object under `k1`.
pub open spec fn nested_bool(o: Entries, k1: Seq<char>, k2: Seq<char>) -> Option<bool> {
    match obj_get(o, k1) {
        Some(JsonV::Object(e)) => get_bool(e, k2),
        _ => None,
    }
}

/// `k` holds a string that is not blank.
pub open spec fn non_empty_str(o: Entries, k: Seq<char>) -> bool {
    match get_str(o, k) {
        Some(s) => trim(s).len() > 0,
        None => false,
    }
}

pub open spec fn str_values(ss: Seq<Seq<char>>) -> Seq<JsonV> {
    Seq::new(ss.len(), |i: int| JsonV::Str(ss[i]))
}

fn field_object(o: &Vec<(String, Json)>, key: &str) -> (r: Vec<(String, Json)>)
    ensures
        entries_v(r@) == fobj(entries_v(o@), key@),
{
    let empty: Vec<(String, Json)> = Vec::new();
    assert(entries_v(empty@) =~= Seq::<(Seq<char>, JsonV)>::empty());
    match get_field(o, key) {
        Some(x) => {
            let c = json_clone(x);
            proof {
                lemma_jv_kind(c);
            }
            match c {
                Json::Object(e) => {
                    proof {
                        lemma_jv_object(e);
                    }
                    e
                },
                _ => empty,
            }
        },
        None => empty,
    }
}

fn field_array(o: &Vec<(String, Json)>, key: &str) -> (r: Vec<Json>)
    ensures
        items_v(r@) == farr(entries_v(o@), key@),
{
    let empty: Vec<Json> = Vec::new();
    assert(items_v(empty@) =~= Seq::<JsonV>::empty());
    match get_field(o, key) {
        Some(x) => {
            let c = json_clone(x);
            proof {
                lemma_jv_kind(c);
            }
            match c {
                Json::Array(e) => {
                    proof {
                        lemma_jv_array(e);
                    }
                    e
                },
                _ => empty,
            }
        },
        None => empty,
    }
}

fn field_str<'a>(o: &'a Vec<(String, Json)>, key: &str) -> (r: Option<&'a String>)
    ensures
        r matches Some(s) ==> get_str(entries_v(o@), key@) == Some(s@),
        r is None ==> get_str(entries_v(o@), key@) is None,
{
    match get_field(o, key) {
        Some(x) => {
            proof {
                lemma_jv_kind(*x);
            }
            match x {
                Json::String(s) => Some(s),
                _ => None,
            }
        },
        None => None,
    }
}

fn field_bool(o: &Vec<(String, Json)>, key: &str) -> (r: Option<bool>)
    ensures
        r == get_bool(entries_v(o@), key@),
{
    match get_field(o, key) {
        Some(x) => {
            proof {
                lemma_jv_kind(*x);
            }
            match x {
                Json::Bool(b) => Some(*b),
                _ => None,
            }
        },
        None => None,
    }
}

fn nested_bool_field(o: &Vec<(String, Json)>, k1: &str, k2: &str) -> (r: Option<bool>)
    ensures
        r == nested_bool(entries_v(o@), k1@, k2@),
{
    match get_field(o, k1) {
        Some(x) => {
            proof {
                lemma_jv_kind(*x);
            }
            match x {
                Json::Object(e) => {
                    proof {
                        lemma_jv_object(*e);
                    }
                    field_bool(e, k2)
                },
                _ => None,
            }
        },
        None => None,
    }
}

/// Whether `key` holds a string that is not blank.
fn has_non_empty_string(o: &Vec<(String, Json)>, key: &str) -> (r: bool)
    ensures
        r == non_empty_str(entries_v(o@), key@),
{
    match field_str(o, key) {
        Some(s) => {
            let t = trim_text(s.as_str());
            !t.as_str().is_empty()
        },
        None => false,
    }
}

fn str_array(ss: &[&str]) -> (r: Vec<Json>)
    ensures
        items_v(r@) == str_values(ss@.map_values(|s: &str| s@)),
{
    let mut out: Vec<Json> = Vec::new();
    let mut i: usize = 0;
    while i < ss.len()
        invariant
            0 <= i <= ss.len(),
            items_v(out@) == str_values(ss@.map_values(|s: &str| s@).take(i as int)),
        decreases ss.len() - i,
    {
        let ghost before = items_v(out@);
        let ghost names = ss@.map_values(|s: &str| s@);
        let item = json_str(ss[i]);
        out.push(item);
        assert(items_v(out@) =~= before.push(JsonV::Str(names[i as int])));
        assert(names.take(i + 1) =~= names.take(i as int).push(names[i as int]));
        assert(str_values(names.take(i + 1)) =~= str_values(names.take(i as int)).push(JsonV::Str(names[i as int])));
        i = i + 1;
    }
    assert(ss@.map_values(|s: &str| s@).take(ss@.len() as int) =~= ss@.map_values(|s: &str| s@));
    out
}

fn put_object(o: &mut Vec<(String, Json)>, key: &str, e: Vec<(String, Json)>)
    ensures
        entries_v(final(o)@) == obj_insert(entries_v(old(o)@), key@, JsonV::Object(entries_v(e@))),
{
    proof {
        lemma_jv_object(e);
    }
    insert_field(o, copy_string(key), Json::Object(e));
}

fn put_array(o: &mut Vec<(String, Json)>, key: &str, a: Vec<Json>)
    ensures
        entries_v(final(o)@) == obj_insert(entries_v(old(o)@), key@, JsonV::Array(items_v(a@))),
{
    proof {
        lemma_jv_array(a);
    }
    insert_field(o, copy_string(key), Json::Array(a));
}

fn put_bool(o: &mut Vec<(String, Json)>, key: &str, b: bool)
    ensures
        entries_v(final(o)@) == obj_insert(entries_v(old(o)@), key@, JsonV::Bool(b)),
{
    insert_field(o, copy_string(key), Json::Bool(b));
}

fn put_number(o: &mut Vec<(String, Json)>, key: &str, n: &str)
    ensures
        entries_v(final(o)@) == obj_insert(entries_v(old(o)@), key@, JsonV::Number(n@)),
{
    insert_field(o, copy_string(key), Json::Number(copy_string(n)));
}

fn put_str(o: &mut Vec<(String, Json)>, key: &str, s: &str)
    ensures
        entries_v(final(o)@) == obj_insert(entries_v(old(o)@), key@, JsonV::Str(s@)),
{
    insert_field(o, copy_string(key), json_str(s));
}


// ---------------------------------------------------------------------------
// Fixed runtime keys and DNS
// ---------------------------------------------------------------------------

/// `interface-name` emptied and `routing-mark` zeroed.
pub open spec fn stage_base(o: Entries) -> Entries {
    obj_insert(
        obj_insert(o, "interface-name"@, JsonV::Str(""@)),
        "routing-mark"@,
        JsonV::Number("0"@),
    )
}

/// `external-ui` set to `./ui` when an external controller is configured.
pub open spec fn stage_ui(o: Entries) -> Entries {
    if non_empty_str(o, "external-controller"@) || non_empty_str(o, "external-controller-tls"@) {
        obj_insert(o, "external-ui"@, JsonV::Str("./ui"@))
    } else {
        o
    }
}

/// The profile store flags switched on.
pub open spec fn stage_profile(o: Entries) -> Entries {
    obj_insert(
        o,
        "profile"@,
        JsonV::Object(
            obj_insert(
                obj_insert(fobj(o, "profile"@), "store-selected"@, JsonV::Bool(true)),
                "store-fake-ip"@,
                JsonV::Bool(true),
            ),
        ),
    )
}

/// The DNS section written into a profile whose DNS is off.
pub open spec fn dns_defaults(d: Entries) -> Entries {
    let d1 = obj_insert(d, "enable"@, JsonV::Bool(true));
    let d2 = obj_insert(d1, "use-hosts"@, JsonV::Bool(true));
    let d3 = obj_insert(
        d2,
        "default-nameserver"@,
        JsonV::Array(str_values(default_name_servers_spec())),
    );
    let d4 = obj_insert(d3, "nameserver"@, JsonV::Array(str_values(default_name_servers_spec())));
    let d5 = obj_insert(d4, "enhanced-mode"@, JsonV::Str("fake-ip"@));
    let d6 = obj_insert(d5, "fake-ip-range"@, JsonV::Str("28.0.0.0/8"@));
    obj_insert(d6, "fake-ip-filter"@, JsonV::Array(str_values(default_fake_ip_filter_spec())))
}

pub open spec fn dns_enabled(o: Entries) -> bool {
    match nested_bool(o, "dns"@, "enable"@) {
        Some(b) => b,
        None => false,
    }
}

/// DNS defaults and the system resolver flag, unless DNS is enabled.
pub open spec fn stage_dns(o: Entries) -> Entries {
    if dns_enabled(o) {
        o
    } else {
        let a = obj_insert(o, "dns"@, JsonV::Object(dns_defaults(fobj(o, "dns"@))));
        obj_insert(
            a,
            "clash-for-android"@,
            JsonV::Object(
                obj_insert(fobj(a, "clash-for-android"@), "append-system-dns"@, JsonV::Bool(true)),
            ),
        )
    }
}

pub open spec fn system_dns() -> JsonV {
    JsonV::Str("system://"@)
}

/// `system://` added to the name servers once.
pub open spec fn with_system_dns(ns: Seq<JsonV>) -> Seq<JsonV> {
    if ns.contains(system_dns()) {
        ns
    } else {
        ns.push(system_dns())
    }
}

/// The system resolver appended when the flag (or, absent a flag, `append`) asks for it.
pub open spec fn stage_system_dns(o: Entries, append: bool) -> Entries {
    let flag = match nested_bool(o, "clash-for-android"@, "append-system-dns"@) {
        Some(b) => b,
        None => append,
    };
    if flag {
        let d = fobj(o, "dns"@);
        obj_insert(
            o,
            "dns"@,
            JsonV::Object(obj_insert(d, "nameserver"@, JsonV::Array(with_system_dns(farr(d, "nameserver"@))))),
        )
    } else {
        o
    }
}

// ---------------------------------------------------------------------------
// Listeners
// ---------------------------------------------------------------------------

/// A listener stays unless its type is `tproxy`, `redir` or `tun`.
pub open spec fn keeps_listener(l: JsonV) -> bool {
    match l {
        JsonV::Object(e) => match get_str(e, "type"@) {
            Some(t) => !(t == "tproxy"@ || t == "redir"@ || t == "tun"@),
            None => true,
        },
        _ => true,
    }
}

pub open spec fn kept_listeners(ls: Seq<JsonV>) -> Seq<JsonV>
    decreases ls.len(),
{
    if ls.len() == 0 {
        seq![]
    } else {
        kept_listeners(ls.drop_last()) + if keeps_listener(ls.last()) {
            seq![ls.last()]
        } else {
            seq![]
        }
    }
}

/// Transparent-proxy listeners removed from a `listeners` array.
pub open spec fn listeners_patched(o: Entries) -> Entries {
    match obj_get(o, "listeners"@) {
        Some(JsonV::Array(ls)) => obj_insert(o, "listeners"@, JsonV::Array(kept_listeners(ls))),
        _ => o,
    }
}

// ---------------------------------------------------------------------------
// Providers
// ---------------------------------------------------------------------------

/// `mrs` for a rule provider in that format, `yaml` otherwise.
pub open spec fn provider_ext(p: Entries, prefix: Seq<char>) -> Seq<char> {
    if prefix == "rules"@ && (match get_str(p, "format"@) {
        Some(f) => eq_ignore_case(f, "mrs"@),
        None => false,
    }) {
        "mrs"@
    } else {
        "yaml"@
    }
}

pub open spec fn is_inline(p: Entries) -> bool {
    match get_str(p, "type"@) {
        Some(t) => eq_ignore_case(t, "inline"@),
        None => false,
    }
}

/// The file name of a provider fetched from `url`.
pub open spec fn url_file(url: Seq<char>, ext: Seq<char>) -> Seq<char> {
    hex_lower(sha256_of(encode_utf8(url))) + seq!['.'] + ext
}

/// One provider with its `path` rewritten into the profile's provider directory.
pub open spec fn patch_provider(p: Entries, pd: Seq<char>, prefix: Seq<char>) -> Entries {
    let ext = provider_ext(p, prefix);
    let path = get_str(p, "path"@);
    if path is Some && trim(path->0).len() > 0 {
        obj_insert(p, "path"@, JsonV::Str(provider_path_spec(path->0, pd, prefix, ext)))
    } else if is_inline(p) {
        p
    } else {
        match get_str(p, "url"@) {
            Some(url) => obj_insert(p, "path"@, JsonV::Str(provider_file(pd, prefix, url_file(url, ext)))),
            None => p,
        }
    }
}

pub open spec fn patch_entry(e: (Seq<char>, JsonV), pd: Seq<char>, prefix: Seq<char>) -> (Seq<char>, JsonV) {
    match e.1 {
        JsonV::Object(p) => (e.0, JsonV::Object(patch_provider(p, pd, prefix))),
        _ => e,
    }
}

/// Every object provider of group `field` patched.
pub open spec fn providers_group(o: Entries, field: Seq<char>, prefix: Seq<char>, pd: Seq<char>) -> Entries {
    match obj_get(o, field) {
        Some(JsonV::Object(ps)) => obj_insert(
            o,
            field,
            JsonV::Object(Seq::new(ps.len(), |i: int| patch_entry(ps[i], pd, prefix))),
        ),
        _ => o,
    }
}

/// Proxy and rule providers patched.
pub open spec fn providers_patched(o: Entries, pd: Seq<char>) -> Entries {
    providers_group(providers_group(o, "proxy-providers"@, "proxies"@, pd), "rule-providers"@, "rules"@, pd)
}

/// The patch after the fixed keys: DNS, listeners and providers. The system
/// resolver flag as it stood before DNS defaults were written is the fallback.
pub open spec fn runtime_tail(o3: Entries, pd: Seq<char>) -> Entries {
    let append = match nested_bool(o3, "clash-for-android"@, "append-system-dns"@) {
        Some(b) => b,
        None => false,
    };
    let o5 = stage_system_dns(stage_dns(o3), append);
    providers_patched(listeners_patched(o5), pd)
}

/// The whole runtime patch of a root object.
pub open spec fn static_runtime(o: Entries, pd: Seq<char>) -> Entries {
    runtime_tail(stage_profile(stage_ui(stage_base(o))), pd)
}

/// The runtime patch of a root value; a root that is no object stays as it is.
pub open spec fn runtime_patched(root: JsonV, pd: Seq<char>) -> JsonV {
    match root {
        JsonV::Object(o) => JsonV::Object(static_runtime(o, pd)),
        _ => root,
    }
}


// ---------------------------------------------------------------------------
// Executable patch
// ---------------------------------------------------------------------------

fn apply_stage_base(o: &mut Vec<(String, Json)>)
    ensures
        entries_v(final(o)@) == stage_base(entries_v(old(o)@)),
{
    put_str(o, "interface-name", "");
    put_number(o, "routing-mark", "0");
}

fn apply_stage_ui(o: &mut Vec<(String, Json)>)
    ensures
        entries_v(final(o)@) == stage_ui(entries_v(old(o)@)),
{
    if has_non_empty_string(o, "external-controller") || has_non_empty_string(
        o,
        "external-controller-tls",
    ) {
        put_str(o, "external-ui", "./ui");
    }
}

fn apply_stage_profile(o: &mut Vec<(String, Json)>)
    ensures
        entries_v(final(o)@) == stage_profile(entries_v(old(o)@)),
{
    let mut p = field_object(o, "profile");
    put_bool(&mut p, "store-selected", true);
    put_bool(&mut p, "store-fake-ip", true);
    put_object(o, "profile", p);
}

fn fill_dns_defaults(d: &mut Vec<(String, Json)>)
    ensures
        entries_v(final(d)@) == dns_defaults(entries_v(old(d)@)),
{
    put_bool(d, "enable", true);
    put_bool(d, "use-hosts", true);
    put_array(d, "default-nameserver", str_array(default_name_servers()));
    put_array(d, "nameserver", str_array(default_name_servers()));
    put_str(d, "enhanced-mode", "fake-ip");
    put_str(d, "fake-ip-range", default_fake_ip_range());
    put_array(d, "fake-ip-filter", str_array(default_fake_ip_filter()));
}

fn apply_stage_dns(o: &mut Vec<(String, Json)>)
    ensures
        entries_v(final(o)@) == stage_dns(entries_v(old(o)@)),
{
    let enabled = match nested_bool_field(o, "dns", "enable") {
        Some(b) => b,
        None => false,
    };
    if !enabled {
        let mut d = field_object(o, "dns");
        fill_dns_defaults(&mut d);
        put_object(o, "dns", d);
        let mut c = field_object(o, "clash-for-android");
        put_bool(&mut c, "append-system-dns", true);
        put_object(o, "clash-for-android", c);
    }
}

fn contains_system_dns(ns: &Vec<Json>) -> (r: bool)
    ensures
        r == items_v(ns@).contains(system_dns()),
{
    let mut i: usize = 0;
    while i < ns.len()
        invariant
            0 <= i <= ns.len(),
            forall|j: int| 0 <= j < i ==> items_v(ns@)[j] != system_dns(),
        decreases ns.len() - i,
    {
        let hit = match &ns[i] {
            Json::String(s) => str_eq(s.as_str(), "system://"),
            _ => false,
        };
        proof {
            lemma_jv_kind(ns@[i as int]);
        }
        if hit {
            assert(items_v(ns@)[i as int] == system_dns());
            return true;
        }
        i = i + 1;
    }
    false
}

fn apply_stage_system_dns(o: &mut Vec<(String, Json)>, append: bool)
    ensures
        entries_v(final(o)@) == stage_system_dns(entries_v(old(o)@), append),
{
    let flag = match nested_bool_field(o, "clash-for-android", "append-system-dns") {
        Some(b) => b,
        None => append,
    };
    if flag {
        let mut d = field_object(o, "dns");
        let mut ns = field_array(&d, "nameserver");
        if !contains_system_dns(&ns) {
            let ghost before = items_v(ns@);
            ns.push(json_str("system://"));
            assert(items_v(ns@) =~= before.push(system_dns()));
        }
        put_array(&mut d, "nameserver", ns);
        put_object(o, "dns", d);
    }
}

fn listener_kept(l: &Json) -> (r: bool)
    ensures
        r == keeps_listener(jv(*l)),
{
    proof {
        lemma_jv_kind(*l);
    }
    match l {
        Json::Object(e) => {
            proof {
                lemma_jv_object(*e);
            }
            match field_str(e, "type") {
                Some(t) => !(str_eq(t.as_str(), "tproxy") || str_eq(t.as_str(), "redir") || str_eq(
                    t.as_str(),
                    "tun",
                )),
                None => true,
            }
        },
        _ => true,
    }
}

fn keep_listeners(items: &Vec<Json>) -> (r: Vec<Json>)
    ensures
        items_v(r@) == kept_listeners(items_v(items@)),
{
    let ghost all = items_v(items@);
    let mut out: Vec<Json> = Vec::new();
    let mut i: usize = 0;
    proof {
        assert(all.take(0) =~= Seq::<JsonV>::empty());
        assert(items_v(out@) =~= Seq::<JsonV>::empty());
    }
    while i < items.len()
        invariant
            0 <= i <= items.len(),
            all == items_v(items@),
            items_v(out@) == kept_listeners(all.take(i as int)),
        decreases items.len() - i,
    {
        let ghost before = items_v(out@);
        proof {
            assert(all.take(i + 1).drop_last() =~= all.take(i as int));
            assert(all.take(i + 1).last() == jv(items@[i as int]));
        }
        if listener_kept(&items[i]) {
            let c = json_clone(&items[i]);
            out.push(c);
            assert(items_v(out@) =~= before + seq![jv(items@[i as int])]);
        } else {
            assert(items_v(out@) =~= before + Seq::<JsonV>::empty());
        }
        i = i + 1;
    }
    assert(all.take(items@.len() as int) =~= all);
    out
}

/// Removes transparent-proxy listeners.
fn patch_listeners(o: &mut Vec<(String, Json)>)
    ensures
        entries_v(final(o)@) == listeners_patched(entries_v(old(o)@)),
{
    let is_array = match get_field(o, "listeners") {
        Some(x) => {
            proof {
                lemma_jv_kind(*x);
            }
            match x {
                Json::Array(_) => true,
                _ => false,
            }
        },
        None => false,
    };
    if is_array {
        let items = field_array(o, "listeners");
        let kept = keep_listeners(&items);
        put_array(o, "listeners", kept);
    }
}

fn provider_extension(p: &Vec<(String, Json)>, prefix: &str) -> (r: &'static str)
    ensures
        r@ == provider_ext(entries_v(p@), prefix@),
{
    let mrs = match field_str(p, "format") {
        Some(f) => eq_ignore_ascii_case(f.as_str(), "mrs"),
        None => false,
    };
    if str_eq(prefix, "rules") && mrs {
        "mrs"
    } else {
        "yaml"
    }
}

fn is_inline_provider(p: &Vec<(String, Json)>) -> (r: bool)
    ensures
        r == is_inline(entries_v(p@)),
{
    match field_str(p, "type") {
        Some(t) => eq_ignore_ascii_case(t.as_str(), "inline"),
        None => false,
    }
}

fn set_configured_path(p: &mut Vec<(String, Json)>, path: &str, profile_dir: &str, prefix: &str, ext: &str)
    ensures
        entries_v(final(p)@) == obj_insert(
            entries_v(old(p)@),
            "path"@,
            JsonV::Str(provider_path_spec(path@, profile_dir@, prefix@, ext@)),
        ),
{
    let np = normalize_provider_path(path, profile_dir, prefix, ext);
    put_str(p, "path", np.as_str());
}

fn set_url_path(p: &mut Vec<(String, Json)>, url: &str, profile_dir: &str, prefix: &str, ext: &str)
    ensures
        entries_v(final(p)@) == obj_insert(
            entries_v(old(p)@),
            "path"@,
            JsonV::Str(provider_file(profile_dir@, prefix@, url_file(url@, ext@))),
        ),
{
    let bytes = url.as_bytes();
    assert(bytes@ == encode_utf8(url@));
    let mut name = sha256_hex(bytes);
    crate::text::push_char(&mut name, '.');
    push_str(&mut name, ext);
    assert(name@ =~= url_file(url@, ext@));
    let fp = profile_provider_path(profile_dir, prefix, name.as_str());
    put_str(p, "path", fp.as_str());
}

fn owned_field_str(p: &Vec<(String, Json)>, key: &str) -> (r: Option<String>)
    ensures
        r matches Some(s) ==> get_str(entries_v(p@), key@) == Some(s@),
        r is None ==> get_str(entries_v(p@), key@) is None,
{
    match field_str(p, key) {
        Some(s) => Some(s.clone()),
        None => None,
    }
}

fn patch_provider_object(p: &mut Vec<(String, Json)>, profile_dir: &str, prefix: &str)
    ensures
        entries_v(final(p)@) == patch_provider(entries_v(old(p)@), profile_dir@, prefix@),
{
    let ext = provider_extension(p, prefix);
    if let Some(path) = owned_field_str(p, "path") {
        let t = trim_text(path.as_str());
        if !t.as_str().is_empty() {
            set_configured_path(p, path.as_str(), profile_dir, prefix, ext);
            return;
        }
    }
    if is_inline_provider(p) {
        return;
    }
    if let Some(url) = owned_field_str(p, "url") {
        set_url_path(p, url.as_str(), profile_dir, prefix, ext);
    }
}

fn patch_entry_value(v: Json, profile_dir: &str, prefix: &str) -> (r: Json)
    ensures
        jv(r) == patch_entry((seq![], jv(v)), profile_dir@, prefix@).1,
{
    proof {
        lemma_jv_kind(v);
    }
    match v {
        Json::Object(mut e) => {
            proof {
                lemma_jv_object(e);
            }
            patch_provider_object(&mut e, profile_dir, prefix);
            proof {
                lemma_jv_object(e);
            }
            Json::Object(e)
        },
        other => other,
    }
}

fn patch_provider_group(o: &mut Vec<(String, Json)>, field: &str, prefix: &str, profile_dir: &str)
    ensures
        entries_v(final(o)@) == providers_group(entries_v(old(o)@), field@, prefix@, profile_dir@),
{
    let is_object = match get_field(o, field) {
        Some(x) => {
            proof {
                lemma_jv_kind(*x);
            }
            match x {
                Json::Object(_) => true,
                _ => false,
            }
        },
        None => false,
    };
    if !is_object {
        return;
    }
    let mut ps = field_object(o, field);
    let ghost ps0 = entries_v(ps@);
    let mut i: usize = 0;
    while i < ps.len()
        invariant
            0 <= i <= ps.len(),
            ps@.len() == ps0.len(),
            forall|j: int| 0 <= j < i ==> #[trigger] entries_v(ps@)[j] == patch_entry(ps0[j], profile_dir@, prefix@),
            forall|j: int| i <= j < ps@.len() ==> #[trigger] entries_v(ps@)[j] == ps0[j],
        decreases ps.len() - i,
    {
        let ghost before = ps@;
        let (k, v) = ps.remove(i);
        proof {
            assert(entries_v(before)[i as int] == ps0[i as int]);
        }
        let nv = patch_entry_value(v, profile_dir, prefix);
        ps.insert(i, (k, nv));
        proof {
            assert(ps@ =~= before.update(i as int, (k, nv)));
            assert forall|j: int| 0 <= j < i + 1 implies #[trigger] entries_v(ps@)[j] == patch_entry(ps0[j], profile_dir@, prefix@) by {
                if j < i {
                    assert(entries_v(ps@)[j] == entries_v(before)[j]);
                }
            }
            assert forall|j: int| i + 1 <= j < ps@.len() implies #[trigger] entries_v(ps@)[j] == ps0[j] by {
                assert(entries_v(ps@)[j] == entries_v(before)[j]);
            }
        }
        i = i + 1;
    }
    let ghost done = entries_v(ps@);
    assert(done =~= Seq::new(ps0.len(), |j: int| patch_entry(ps0[j], profile_dir@, prefix@)));
    put_object(o, field, ps);
}

/// Rewrites the file paths of proxy and rule providers.
pub fn patch_providers(object: &mut Vec<(String, Json)>, profile_dir: &str)
    ensures
        entries_v(final(object)@) == providers_patched(entries_v(old(object)@), profile_dir@),
        json_wf(JsonV::Object(entries_v(old(object)@))) ==> json_wf(
            JsonV::Object(entries_v(final(object)@)),
        ),
{
    proof {
        if json_wf(JsonV::Object(entries_v(object@))) {
            providers_keep_tree_well_formed(entries_v(object@), profile_dir@);
        }
    }
    patch_provider_group(object, "proxy-providers", "proxies", profile_dir);
    patch_provider_group(object, "rule-providers", "rules", profile_dir);
}

/// Applies the runtime patch to the compiled root.
pub fn patch_static_runtime(root: &mut Json, profile_dir: &str)
    ensures
        jv(*final(root)) == runtime_patched(jv(*old(root)), profile_dir@),
        json_wf(jv(*old(root))) ==> json_wf(jv(*final(root))),
{
    proof {
        if json_wf(jv(*root)) {
            runtime_patch_keeps_tree_well_formed(jv(*root), profile_dir@);
        }
    }
    let mut tmp = Json::Null;
    std::mem::swap(&mut tmp, root);
    proof {
        lemma_jv_kind(tmp);
    }
    match tmp {
        Json::Object(mut o) => {
            proof {
                lemma_jv_object(o);
            }
            apply_stage_base(&mut o);
            apply_stage_ui(&mut o);
            apply_stage_profile(&mut o);
            let append = match nested_bool_field(&o, "clash-for-android", "append-system-dns") {
                Some(b) => b,
                None => false,
            };
            apply_stage_dns(&mut o);
            apply_stage_system_dns(&mut o, append);
            patch_listeners(&mut o);
            patch_providers(&mut o, profile_dir);
            proof {
                lemma_jv_object(o);
            }
            *root = Json::Object(o);
        },
        other => {
            *root = other;
        },
    }
}


// ---------------------------------------------------------------------------
// Provider scope check
// ---------------------------------------------------------------------------

/// The normalised provider directory of group `prefix`.
pub open spec fn expected_base(pd: Seq<char>, prefix: Seq<char>) -> Seq<Comp> {
    norm(path_comps(provider_base(pd, prefix)))
}

/// A relative provider path resolved against the runtime home.
pub open spec fn resolved_path(pd: Seq<char>, path: Seq<char>) -> Seq<Comp> {
    norm(path_comps(push_path(render(runtime_home(pd)), path)))
}

/// The trimmed, non-empty `path` of a provider.
pub open spec fn configured_path(p: Entries) -> Option<Seq<char>> {
    match get_str(p, "path"@) {
        Some(s) => if trim(s).len() > 0 {
            Some(trim(s))
        } else {
            None
        },
        None => None,
    }
}

/// The error a provider entry gives, if any.
pub open spec fn provider_error(
    name: Seq<char>,
    v: JsonV,
    field: Seq<char>,
    prefix: Seq<char>,
    pd: Seq<char>,
) -> Option<Seq<char>> {
    match v {
        JsonV::Object(p) => {
            let path = configured_path(p);
            if is_inline(p) && path is None {
                None
            } else if path is None {
                Some(field + "."@ + name + " missing normalized path"@)
            } else {
                let path = path->0;
                let base = expected_base(pd, prefix);
                if is_abs(path) || !base.is_prefix_of(resolved_path(pd, path)) {
                    Some(
                        field + "."@ + name + " path escaped profile scope: "@ + path
                            + " (expected under "@ + render(base) + ")"@,
                    )
                } else {
                    None
                }
            }
        },
        _ => Some(field + "."@ + name + " must be an object"@),
    }
}

/// The first error among the provider entries `es`.
pub open spec fn first_provider_error(
    es: Entries,
    field: Seq<char>,
    prefix: Seq<char>,
    pd: Seq<char>,
) -> Option<Seq<char>>
    decreases es.len(),
{
    if es.len() == 0 {
        None
    } else {
        match provider_error(es[0].0, es[0].1, field, prefix, pd) {
            Some(m) => Some(m),
            None => first_provider_error(es.drop_first(), field, prefix, pd),
        }
    }
}

pub open spec fn group_error(o: Entries, field: Seq<char>, prefix: Seq<char>, pd: Seq<char>) -> Option<Seq<char>> {
    match obj_get(o, field) {
        Some(JsonV::Object(ps)) => first_provider_error(ps, field, prefix, pd),
        _ => None,
    }
}

/// The first provider whose file lies outside the profile, in order: proxy
/// providers, then rule providers.
pub open spec fn provider_scope_error(o: Entries, pd: Seq<char>) -> Option<Seq<char>> {
    match group_error(o, "proxy-providers"@, "proxies"@, pd) {
        Some(m) => Some(m),
        None => group_error(o, "rule-providers"@, "rules"@, pd),
    }
}

fn entry_error(name: &str, v: &Json, field: &str, prefix: &str, profile_dir: &str) -> (r: Option<String>)
    ensures
        r matches Some(m) ==> provider_error(name@, jv(*v), field@, prefix@, profile_dir@) == Some(m@),
        r is None ==> provider_error(name@, jv(*v), field@, prefix@, profile_dir@) is None,
{
    proof {
        lemma_jv_kind(*v);
    }
    match v {
        Json::Object(p) => {
            proof {
                lemma_jv_object(*p);
            }
            let path: Option<String> = match field_str(p, "path") {
                Some(s) => {
                    let t = trim_text(s.as_str());
                    if t.as_str().is_empty() {
                        None
                    } else {
                        Some(t)
                    }
                },
                None => None,
            };
            match path {
                None => {
                    if is_inline_provider(p) {
                        None
                    } else {
                        let mut m = concat3(field, ".", name);
                        push_str(&mut m, " missing normalized path");
                        Some(m)
                    }
                },
                Some(path) => scope_error(name, path.as_str(), field, prefix, profile_dir),
            }
        },
        _ => {
            let mut m = concat3(field, ".", name);
            push_str(&mut m, " must be an object");
            Some(m)
        },
    }
}

fn scope_error(name: &str, path: &str, field: &str, prefix: &str, profile_dir: &str) -> (r: Option<String>)
    ensures
        r matches Some(m) ==> (is_abs(path@) || !expected_base(profile_dir@, prefix@).is_prefix_of(
            resolved_path(profile_dir@, path@),
        )) && m@ == field@ + "."@ + name@ + " path escaped profile scope: "@ + path@
            + " (expected under "@ + render(expected_base(profile_dir@, prefix@)) + ")"@,
        r is None ==> !(is_abs(path@) || !expected_base(profile_dir@, prefix@).is_prefix_of(
            resolved_path(profile_dir@, path@),
        )),
{
    let base_text = provider_base_dir(profile_dir, prefix);
    let base = normalize_path(&path_components(base_text.as_str()));
    let home = render_parts(&runtime_home_dir(profile_dir));
    let joined = join_path(home.as_str(), path);
    let resolved = normalize_path(&path_components(joined.as_str()));
    let absolute = !path.is_empty() && first_char_is_slash(path);
    if absolute || !parts_start_with(&resolved, &base) {
        let shown = render_parts(&base);
        let mut m = concat3(field, ".", name);
        push_str(&mut m, " path escaped profile scope: ");
        push_str(&mut m, path);
        push_str(&mut m, " (expected under ");
        push_str(&mut m, shown.as_str());
        push_str(&mut m, ")");
        Some(m)
    } else {
        None
    }
}

fn first_char_is_slash(p: &str) -> (r: bool)
    requires
        p@.len() > 0,
    ensures
        r == is_abs(p@),
{
    let v = crate::text::chars_of(p);
    v[0] == '/'
}

proof fn lemma_first_error_step(es: Entries, i: int, field: Seq<char>, prefix: Seq<char>, pd: Seq<char>)
    requires
        0 <= i < es.len(),
    ensures
        first_provider_error(es.skip(i), field, prefix, pd) == match provider_error(es[i].0, es[i].1, field, prefix, pd) {
            Some(m) => Some(m),
            None => first_provider_error(es.skip(i + 1), field, prefix, pd),
        },
{
    assert(es.skip(i).drop_first() =~= es.skip(i + 1));
    assert(es.skip(i)[0] == es[i]);
}

fn check_group(object: &Vec<(String, Json)>, field: &str, prefix: &str, profile_dir: &str) -> (r: Option<String>)
    ensures
        r matches Some(m) ==> group_error(entries_v(object@), field@, prefix@, profile_dir@) == Some(m@),
        r is None ==> group_error(entries_v(object@), field@, prefix@, profile_dir@) is None,
{
    match get_field(object, field) {
        Some(x) => {
            proof {
                lemma_jv_kind(*x);
            }
            match x {
                Json::Object(ps) => {
                    proof {
                        lemma_jv_object(*ps);
                    }
                    let ghost es = entries_v(ps@);
                    let mut i: usize = 0;
                    proof {
                        assert(es.skip(0) =~= es);
                    }
                    assert(group_error(entries_v(object@), field@, prefix@, profile_dir@)
                        == first_provider_error(es, field@, prefix@, profile_dir@));
                    while i < ps.len()
                        invariant
                            0 <= i <= ps.len(),
                            es == entries_v(ps@),
                            group_error(entries_v(object@), field@, prefix@, profile_dir@)
                                == first_provider_error(es, field@, prefix@, profile_dir@),
                            first_provider_error(es.skip(i as int), field@, prefix@, profile_dir@)
                                == first_provider_error(es, field@, prefix@, profile_dir@),
                        decreases ps.len() - i,
                    {
                        proof {
                            lemma_first_error_step(es, i as int, field@, prefix@, profile_dir@);
                            assert(es[i as int].0 == ps@[i as int].0@);
                            assert(es[i as int].1 == jv(ps@[i as int].1));
                        }
                        match entry_error(ps[i].0.as_str(), &ps[i].1, field, prefix, profile_dir) {
                            Some(m) => {
                                return Some(m);
                            },
                            None => {},
                        }
                        i = i + 1;
                    }
                    proof {
                        assert(es.skip(i as int) =~= Seq::<(Seq<char>, JsonV)>::empty());
                    }
                    None
                },
                _ => None,
            }
        },
        None => None,
    }
}

/// Checks that every provider file lies under the profile's provider directory.
pub fn validate_provider_paths(object: &Vec<(String, Json)>, profile_dir: &str) -> (r: Result<(), String>)
    ensures
        r matches Err(m) ==> provider_scope_error(entries_v(object@), profile_dir@) == Some(m@),
        r is Ok ==> provider_scope_error(entries_v(object@), profile_dir@) is None,
{
    match check_group(object, "proxy-providers", "proxies", profile_dir) {
        Some(m) => {
            return Err(m);
        },
        None => {},
    }
    match check_group(object, "rule-providers", "rules", profile_dir) {
        Some(m) => Err(m),
        None => Ok(()),
    }
}


// ---------------------------------------------------------------------------
// Laws of the runtime patch
// ---------------------------------------------------------------------------

proof fn lemma_ne_by_len(a: Seq<char>, b: Seq<char>)
    requires
        a.len() != b.len(),
    ensures
        a != b,
{
}

proof fn lemma_top_keys_distinct()
    ensures
        "interface-name"@ != "routing-mark"@,
        "interface-name"@ != "external-ui"@,
        "interface-name"@ != "profile"@,
        "interface-name"@ != "dns"@,
        "interface-name"@ != "clash-for-android"@,
        "interface-name"@ != "listeners"@,
        "interface-name"@ != "proxy-providers"@,
        "interface-name"@ != "rule-providers"@,
        "routing-mark"@ != "external-ui"@,
        "routing-mark"@ != "profile"@,
        "routing-mark"@ != "dns"@,
        "routing-mark"@ != "clash-for-android"@,
        "routing-mark"@ != "listeners"@,
        "routing-mark"@ != "proxy-providers"@,
        "routing-mark"@ != "rule-providers"@,
        "profile"@ != "external-ui"@,
        "profile"@ != "dns"@,
        "profile"@ != "clash-for-android"@,
        "profile"@ != "listeners"@,
        "profile"@ != "proxy-providers"@,
        "profile"@ != "rule-providers"@,
        "dns"@ != "clash-for-android"@,
        "dns"@ != "listeners"@,
        "dns"@ != "proxy-providers"@,
        "dns"@ != "rule-providers"@,
        "listeners"@ != "proxy-providers"@,
        "listeners"@ != "rule-providers"@,
        "listeners"@ != "external-ui"@,
        "listeners"@ != "clash-for-android"@,
{
    reveal_strlit("interface-name");
    reveal_strlit("routing-mark");
    reveal_strlit("external-ui");
    reveal_strlit("profile");
    reveal_strlit("dns");
    reveal_strlit("clash-for-android");
    reveal_strlit("listeners");
    reveal_strlit("proxy-providers");
    reveal_strlit("rule-providers");
    let a = "interface-name"@;
    let b = "routing-mark"@;
    let c = "external-ui"@;
    let d = "profile"@;
    let e = "dns"@;
    let f = "clash-for-android"@;
    let g = "listeners"@;
    let h = "proxy-providers"@;
    let i = "rule-providers"@;
    assert(a.len() == 14 && b.len() == 12 && c.len() == 11 && d.len() == 7 && e.len() == 3);
    assert(f.len() == 17 && g.len() == 9 && h.len() == 15 && i.len() == 14);
    lemma_ne_by_len(a, b);
    lemma_ne_by_len(a, c);
    lemma_ne_by_len(a, d);
    lemma_ne_by_len(a, e);
    lemma_ne_by_len(a, f);
    lemma_ne_by_len(a, g);
    lemma_ne_by_len(a, h);
    assert(a[0] != i[0]);
    lemma_ne_by_len(b, c);
    lemma_ne_by_len(b, d);
    lemma_ne_by_len(b, e);
    lemma_ne_by_len(b, f);
    lemma_ne_by_len(b, g);
    lemma_ne_by_len(b, h);
    lemma_ne_by_len(b, i);
    lemma_ne_by_len(d, c);
    lemma_ne_by_len(d, e);
    lemma_ne_by_len(d, f);
    lemma_ne_by_len(d, g);
    lemma_ne_by_len(d, h);
    lemma_ne_by_len(d, i);
    lemma_ne_by_len(e, f);
    lemma_ne_by_len(g, c);
    lemma_ne_by_len(g, f);
    lemma_ne_by_len(e, g);
    lemma_ne_by_len(e, h);
    lemma_ne_by_len(e, i);
    lemma_ne_by_len(g, h);
    lemma_ne_by_len(g, i);
}

proof fn lemma_dns_keys_distinct()
    ensures
        "enable"@ != "use-hosts"@,
        "enable"@ != "default-nameserver"@,
        "enable"@ != "nameserver"@,
        "enable"@ != "enhanced-mode"@,
        "enable"@ != "fake-ip-range"@,
        "enable"@ != "fake-ip-filter"@,
        "store-selected"@ != "store-fake-ip"@,
{
    reveal_strlit("enable");
    reveal_strlit("use-hosts");
    reveal_strlit("default-nameserver");
    reveal_strlit("nameserver");
    reveal_strlit("enhanced-mode");
    reveal_strlit("fake-ip-range");
    reveal_strlit("fake-ip-filter");
    reveal_strlit("store-selected");
    reveal_strlit("store-fake-ip");
    lemma_ne_by_len("enable"@, "use-hosts"@);
    lemma_ne_by_len("enable"@, "default-nameserver"@);
    lemma_ne_by_len("enable"@, "nameserver"@);
    lemma_ne_by_len("enable"@, "enhanced-mode"@);
    lemma_ne_by_len("enable"@, "fake-ip-range"@);
    lemma_ne_by_len("enable"@, "fake-ip-filter"@);
    lemma_ne_by_len("store-selected"@, "store-fake-ip"@);
}

/// Writing `v` under `w` leaves every other key as it was.
proof fn lemma_put_other(o: Entries, w: Seq<char>, v: JsonV, k: Seq<char>)
    requires
        k != w,
    ensures
        obj_get(obj_insert(o, w, v), k) == obj_get(o, k),
{
    obj_read_after_write(o, w, v, k);
}

proof fn lemma_stage_ui_keeps(o: Entries, k: Seq<char>)
    requires
        k != "external-ui"@,
    ensures
        obj_get(stage_ui(o), k) == obj_get(o, k),
{
    if non_empty_str(o, "external-controller"@) || non_empty_str(o, "external-controller-tls"@) {
        lemma_put_other(o, "external-ui"@, JsonV::Str("./ui"@), k);
    }
}

proof fn lemma_stage_dns_keeps(o: Entries, k: Seq<char>)
    requires
        k != "dns"@,
        k != "clash-for-android"@,
    ensures
        obj_get(stage_dns(o), k) == obj_get(o, k),
{
    if !dns_enabled(o) {
        let a = obj_insert(o, "dns"@, JsonV::Object(dns_defaults(fobj(o, "dns"@))));
        lemma_put_other(o, "dns"@, JsonV::Object(dns_defaults(fobj(o, "dns"@))), k);
        lemma_put_other(
            a,
            "clash-for-android"@,
            JsonV::Object(obj_insert(fobj(a, "clash-for-android"@), "append-system-dns"@, JsonV::Bool(true))),
            k,
        );
    }
}

proof fn lemma_stage_system_dns_keeps(o: Entries, append: bool, k: Seq<char>)
    requires
        k != "dns"@,
    ensures
        obj_get(stage_system_dns(o, append), k) == obj_get(o, k),
{
    let d = fobj(o, "dns"@);
    lemma_put_other(
        o,
        "dns"@,
        JsonV::Object(obj_insert(d, "nameserver"@, JsonV::Array(with_system_dns(farr(d, "nameserver"@))))),
        k,
    );
}

proof fn lemma_listeners_keeps(o: Entries, k: Seq<char>)
    requires
        k != "listeners"@,
    ensures
        obj_get(listeners_patched(o), k) == obj_get(o, k),
{
    match obj_get(o, "listeners"@) {
        Some(JsonV::Array(ls)) => lemma_put_other(o, "listeners"@, JsonV::Array(kept_listeners(ls)), k),
        _ => {},
    }
}

proof fn lemma_providers_keeps(o: Entries, pd: Seq<char>, k: Seq<char>)
    requires
        k != "proxy-providers"@,
        k != "rule-providers"@,
    ensures
        obj_get(providers_patched(o, pd), k) == obj_get(o, k),
{
    let o1 = providers_group(o, "proxy-providers"@, "proxies"@, pd);
    match obj_get(o, "proxy-providers"@) {
        Some(JsonV::Object(ps)) => lemma_put_other(
            o,
            "proxy-providers"@,
            JsonV::Object(Seq::new(ps.len(), |i: int| patch_entry(ps[i], pd, "proxies"@))),
            k,
        ),
        _ => {},
    }
    match obj_get(o1, "rule-providers"@) {
        Some(JsonV::Object(ps)) => lemma_put_other(
            o1,
            "rule-providers"@,
            JsonV::Object(Seq::new(ps.len(), |i: int| patch_entry(ps[i], pd, "rules"@))),
            k,
        ),
        _ => {},
    }
}

proof fn lemma_tail_keeps(o3: Entries, pd: Seq<char>, k: Seq<char>)
    requires
        k != "dns"@,
        k != "clash-for-android"@,
        k != "listeners"@,
        k != "proxy-providers"@,
        k != "rule-providers"@,
    ensures
        obj_get(runtime_tail(o3, pd), k) == obj_get(o3, k),
{
    let append = match nested_bool(o3, "clash-for-android"@, "append-system-dns"@) {
        Some(b) => b,
        None => false,
    };
    let o4 = stage_dns(o3);
    let o5 = stage_system_dns(o4, append);
    let o6 = listeners_patched(o5);
    lemma_stage_dns_keeps(o3, k);
    lemma_stage_system_dns_keeps(o4, append, k);
    lemma_listeners_keeps(o5, k);
    lemma_providers_keeps(o6, pd, k);
}

proof fn lemma_base_stage(o: Entries)
    ensures
        obj_get(stage_base(o), "interface-name"@) == Some(JsonV::Str(""@)),
        obj_get(stage_base(o), "routing-mark"@) == Some(JsonV::Number("0"@)),
{
    lemma_top_keys_distinct();
    let b0 = obj_insert(o, "interface-name"@, JsonV::Str(""@));
    obj_read_after_write(o, "interface-name"@, JsonV::Str(""@), "interface-name"@);
    obj_read_after_write(b0, "routing-mark"@, JsonV::Number("0"@), "interface-name"@);
}

#[verifier::rlimit(60)]
proof fn lemma_profile_stage(o2: Entries)
    ensures
        obj_get(stage_profile(o2), "interface-name"@) == obj_get(o2, "interface-name"@),
        obj_get(stage_profile(o2), "routing-mark"@) == obj_get(o2, "routing-mark"@),
        nested_bool(stage_profile(o2), "profile"@, "store-selected"@) == Some(true),
        nested_bool(stage_profile(o2), "profile"@, "store-fake-ip"@) == Some(true),
{
    lemma_top_keys_distinct();
    lemma_dns_keys_distinct();
    let p1 = obj_insert(fobj(o2, "profile"@), "store-selected"@, JsonV::Bool(true));
    let pe = obj_insert(p1, "store-fake-ip"@, JsonV::Bool(true));
    obj_read_after_write(o2, "profile"@, JsonV::Object(pe), "profile"@);
    obj_read_after_write(p1, "store-fake-ip"@, JsonV::Bool(true), "store-selected"@);
    obj_read_after_write(fobj(o2, "profile"@), "store-selected"@, JsonV::Bool(true), "store-selected"@);
    lemma_put_other(o2, "profile"@, JsonV::Object(pe), "interface-name"@);
    lemma_put_other(o2, "profile"@, JsonV::Object(pe), "routing-mark"@);
}

proof fn lemma_fixed_keys_head(o: Entries)
    ensures
        obj_get(stage_profile(stage_ui(stage_base(o))), "interface-name"@) == Some(JsonV::Str(""@)),
        obj_get(stage_profile(stage_ui(stage_base(o))), "routing-mark"@) == Some(JsonV::Number("0"@)),
        nested_bool(stage_profile(stage_ui(stage_base(o))), "profile"@, "store-selected"@) == Some(true),
        nested_bool(stage_profile(stage_ui(stage_base(o))), "profile"@, "store-fake-ip"@) == Some(true),
{
    lemma_top_keys_distinct();
    let o1 = stage_base(o);
    lemma_base_stage(o);
    lemma_stage_ui_keeps(o1, "interface-name"@);
    lemma_stage_ui_keeps(o1, "routing-mark"@);
    lemma_profile_stage(stage_ui(o1));
}

/// The keys that the runtime patch writes last hold their runtime values:
/// `interface-name` is empty, `routing-mark` is zero and both profile store
/// flags are on.
pub proof fn runtime_patch_fixed_keys(o: Entries, pd: Seq<char>)
    ensures
        obj_get(static_runtime(o, pd), "interface-name"@) == Some(JsonV::Str(""@)),
        obj_get(static_runtime(o, pd), "routing-mark"@) == Some(JsonV::Number("0"@)),
        nested_bool(static_runtime(o, pd), "profile"@, "store-selected"@) == Some(true),
        nested_bool(static_runtime(o, pd), "profile"@, "store-fake-ip"@) == Some(true),
{
    lemma_top_keys_distinct();
    let o3 = stage_profile(stage_ui(stage_base(o)));
    lemma_fixed_keys_head(o);
    lemma_tail_keeps(o3, pd, "interface-name"@);
    lemma_tail_keeps(o3, pd, "routing-mark"@);
    lemma_tail_keeps(o3, pd, "profile"@);
}

#[verifier::rlimit(60)]
proof fn lemma_dns_defaults_enable(d: Entries)
    ensures
        obj_get(dns_defaults(d), "enable"@) == Some(JsonV::Bool(true)),
{
    lemma_dns_keys_distinct();
    let d1 = obj_insert(d, "enable"@, JsonV::Bool(true));
    let d2 = obj_insert(d1, "use-hosts"@, JsonV::Bool(true));
    let d3 = obj_insert(d2, "default-nameserver"@, JsonV::Array(str_values(default_name_servers_spec())));
    let d4 = obj_insert(d3, "nameserver"@, JsonV::Array(str_values(default_name_servers_spec())));
    let d5 = obj_insert(d4, "enhanced-mode"@, JsonV::Str("fake-ip"@));
    let d6 = obj_insert(d5, "fake-ip-range"@, JsonV::Str("28.0.0.0/8"@));
    obj_read_after_write(d, "enable"@, JsonV::Bool(true), "enable"@);
    lemma_put_other(d1, "use-hosts"@, JsonV::Bool(true), "enable"@);
    lemma_put_other(d2, "default-nameserver"@, JsonV::Array(str_values(default_name_servers_spec())), "enable"@);
    lemma_put_other(d3, "nameserver"@, JsonV::Array(str_values(default_name_servers_spec())), "enable"@);
    lemma_put_other(d4, "enhanced-mode"@, JsonV::Str("fake-ip"@), "enable"@);
    lemma_put_other(d5, "fake-ip-range"@, JsonV::Str("28.0.0.0/8"@), "enable"@);
    lemma_put_other(d6, "fake-ip-filter"@, JsonV::Array(str_values(default_fake_ip_filter_spec())), "enable"@);
}

#[verifier::rlimit(60)]
proof fn lemma_stage_dns_enable(o3: Entries)
    ensures
        nested_bool(stage_dns(o3), "dns"@, "enable"@) == Some(true),
{
    lemma_top_keys_distinct();
    if !dns_enabled(o3) {
        let dd = dns_defaults(fobj(o3, "dns"@));
        lemma_dns_defaults_enable(fobj(o3, "dns"@));
        let a = obj_insert(o3, "dns"@, JsonV::Object(dd));
        obj_read_after_write(o3, "dns"@, JsonV::Object(dd), "dns"@);
        lemma_put_other(
            a,
            "clash-for-android"@,
            JsonV::Object(obj_insert(fobj(a, "clash-for-android"@), "append-system-dns"@, JsonV::Bool(true))),
            "dns"@,
        );
    }
}

#[verifier::rlimit(60)]
proof fn lemma_system_dns_enable(o4: Entries, append: bool)
    requires
        nested_bool(o4, "dns"@, "enable"@) == Some(true),
    ensures
        nested_bool(stage_system_dns(o4, append), "dns"@, "enable"@) == Some(true),
{
    lemma_dns_keys_distinct();
    let flag = match nested_bool(o4, "clash-for-android"@, "append-system-dns"@) {
        Some(b) => b,
        None => append,
    };
    if flag {
        let d = fobj(o4, "dns"@);
        let nd = obj_insert(d, "nameserver"@, JsonV::Array(with_system_dns(farr(d, "nameserver"@))));
        obj_read_after_write(o4, "dns"@, JsonV::Object(nd), "dns"@);
        lemma_put_other(d, "nameserver"@, JsonV::Array(with_system_dns(farr(d, "nameserver"@))), "enable"@);
    }
}

/// DNS is on after the runtime patch, whatever the profile said.
pub proof fn runtime_patch_enables_dns(o: Entries, pd: Seq<char>)
    ensures
        nested_bool(static_runtime(o, pd), "dns"@, "enable"@) == Some(true),
{
    lemma_top_keys_distinct();
    let o3 = stage_profile(stage_ui(stage_base(o)));
    let append = match nested_bool(o3, "clash-for-android"@, "append-system-dns"@) {
        Some(b) => b,
        None => false,
    };
    let o4 = stage_dns(o3);
    lemma_stage_dns_enable(o3);
    let o5 = stage_system_dns(o4, append);
    lemma_system_dns_enable(o4, append);
    let o6 = listeners_patched(o5);
    lemma_listeners_keeps(o5, "dns"@);
    lemma_providers_keeps(o6, pd, "dns"@);
}

proof fn lemma_kept_listeners(ls: Seq<JsonV>)
    ensures
        forall|i: int| 0 <= i < kept_listeners(ls).len() ==> keeps_listener(#[trigger] kept_listeners(ls)[i]),
    decreases ls.len(),
{
    if ls.len() > 0 {
        lemma_kept_listeners(ls.drop_last());
        let k0 = kept_listeners(ls.drop_last());
        assert forall|i: int| 0 <= i < kept_listeners(ls).len() implies keeps_listener(#[trigger] kept_listeners(ls)[i]) by {
            if i < k0.len() {
                assert(kept_listeners(ls)[i] == k0[i]);
            }
        }
    }
}

/// No `tproxy`, `redir` or `tun` listener is left after the runtime patch.
pub proof fn runtime_patch_drops_transparent_listeners(o: Entries, pd: Seq<char>)
    ensures
        obj_get(static_runtime(o, pd), "listeners"@) matches Some(JsonV::Array(ls)) ==> forall|i: int|
            0 <= i < ls.len() ==> keeps_listener(#[trigger] ls[i]),
{
    lemma_top_keys_distinct();
    lemma_dns_keys_distinct();
    let o3 = stage_profile(stage_ui(stage_base(o)));
    let append = match nested_bool(o3, "clash-for-android"@, "append-system-dns"@) {
        Some(b) => b,
        None => false,
    };
    let o5 = stage_system_dns(stage_dns(o3), append);
    let o6 = listeners_patched(o5);
    lemma_providers_keeps(o6, pd, "listeners"@);
    match obj_get(o5, "listeners"@) {
        Some(JsonV::Array(ls)) => {
            obj_read_after_write(o5, "listeners"@, JsonV::Array(kept_listeners(ls)), "listeners"@);
            lemma_kept_listeners(ls);
        },
        _ => {},
    }
}


// ---------------------------------------------------------------------------
// Laws of the provider scope
// ---------------------------------------------------------------------------

/// A provider that the runtime patch can place inside the profile: an object
/// with a non-blank `path` without backslashes that, when absolute, has no
/// `..`, and whose rewritten file is not a single name reading `..` once its
/// trailing whitespace is trimmed; or an inline provider; or one fetched from
/// a `url`.
pub open spec fn placeable(v: JsonV, pd: Seq<char>, prefix: Seq<char>) -> bool {
    match v {
        JsonV::Object(p) => {
            let fallback = is_inline(p) || get_str(p, "url"@) is Some;
            match get_str(p, "path"@) {
                Some(s) => if trim(s).len() > 0 {
                    &&& no_backslash(s)
                    &&& is_abs(s) ==> !path_comps(s).contains(Comp::ParentDir)
                    &&& !lone_blank_parent(
                        provider_target(s, pd, prefix, provider_ext(p, prefix)),
                        provider_base(pd, prefix),
                    )
                } else {
                    fallback
                },
                None => fallback,
            }
        },
        _ => false,
    }
}

/// Every provider of group `field`, whose files go under `prefix`, is placeable.
pub open spec fn group_placeable(o: Entries, field: Seq<char>, prefix: Seq<char>, pd: Seq<char>) -> bool {
    match obj_get(o, field) {
        Some(JsonV::Object(ps)) => forall|i: int| 0 <= i < ps.len() ==> placeable(#[trigger] ps[i].1, pd, prefix),
        _ => true,
    }
}

proof fn lemma_url_file_name(url: Seq<char>, ext: Seq<char>)
    requires
        valid_name(ext),
        plain(ext),
    ensures
        !is_abs(url_file(url, ext)),
        !body_comps(url_file(url, ext)).contains(Comp::ParentDir),
        plain(url_file(url, ext)),
        valid_name(url_file(url, ext)),
{
    let d = sha256_of(encode_utf8(url));
    let h = hex_lower(d);
    lemma_hex_chars(d);
    let f = url_file(url, ext);
    assert(f == h + seq!['.'] + ext);
    assert(plain(h)) by {
        assert forall|i: int| 0 <= i < h.len() implies #[trigger] plain_at(h, i) by {
            assert(is_hex_char(h[i]));
        }
    }
    assert(plain(seq!['.'])) by {
        assert(plain_at(seq!['.'], 0));
    }
    lemma_plain_cat(h, seq!['.']);
    lemma_plain_cat(h + seq!['.'], ext);
    assert(!f.contains('/')) by {
        if f.contains('/') {
            let j = choose|j: int| 0 <= j < f.len() && f[j] == '/';
            if j < h.len() {
                assert(f[j] == h[j]);
                assert(is_hex_char(h[j]));
            } else if j > h.len() {
                assert(f[j] == ext[j - h.len() - 1]);
                assert(ext.contains('/'));
            }
        }
    }
    assert(f != seq!['.']);
    assert(f != seq!['.', '.']) by {
        if f == seq!['.', '.'] {
            assert(h.len() == 0);
            assert(ext =~= seq!['.']);
        }
    }
    lemma_body_name(f);
    lemma_valid_not_abs(f);
}

/// A plain file name is no lone `..`.
proof fn lemma_url_file_not_parent(pd: Seq<char>, prefix: Seq<char>, rel: Seq<char>)
    requires
        valid_name(prefix),
        valid_name(rel),
        plain(rel),
    ensures
        !lone_blank_parent(push_path(provider_base(pd, prefix), provider_tail(rel)), provider_base(pd, prefix)),
{
    let base = provider_base(pd, prefix);
    let x = push_path(base, rel);
    assert(provider_tail(rel) == rel);
    lemma_valid_not_abs(rel);
    lemma_valid_not_abs(prefix);
    assert(base.len() > 0);
    lemma_comps_push(base, rel);
    lemma_body_name(rel);
    assert(path_comps(x) == path_comps(base) + seq![Comp::Normal(rel)]);
    assert(path_comps(x).last() == Comp::Normal(rel));
    assert(plain_at(rel, rel.len() - 1));
    crate::text::lemma_trail_ws(rel, 0);
    assert(rel.take(rel.len() as int) =~= rel);
    assert(trim_end(rel) == rel);
}

proof fn lemma_group_names()
    ensures
        valid_name("proxies"@),
        plain("proxies"@),
        valid_name("rules"@),
        plain("rules"@),
        valid_name("yaml"@),
        plain("yaml"@),
        valid_name("mrs"@),
        plain("mrs"@),
{
    reveal_strlit("proxies");
    reveal_strlit("rules");
    reveal_strlit("yaml");
    reveal_strlit("mrs");
    assert("proxies"@.len() == 7 && "rules"@.len() == 5 && "yaml"@.len() == 4 && "mrs"@.len() == 3);
    lemma_literal_name("proxies"@);
    lemma_literal_name("rules"@);
    lemma_literal_name("yaml"@);
    lemma_literal_name("mrs"@);
}

/// A placeable provider, once patched, passes the scope check.
#[verifier::rlimit(100)]
proof fn lemma_patched_provider_ok(name: Seq<char>, v: JsonV, field: Seq<char>, prefix: Seq<char>, pd: Seq<char>)
    requires
        is_abs(pd),
        !path_comps(pd).contains(Comp::ParentDir),
        !backslash_below_home(pd, prefix),
        !blank_below_home(pd, prefix),
        prefix == "proxies"@ || prefix == "rules"@,
        placeable(v, pd, prefix),
    ensures
        provider_error(name, JsonV::Object(patch_provider(v->Object_0, pd, prefix)), field, prefix, pd) is None,
{
    lemma_group_names();
    let p = v->Object_0;
    let ext = provider_ext(p, prefix);
    let path = get_str(p, "path"@);
    if path is Some && trim(path->0).len() > 0 {
        let s = path->0;
        let np = provider_path_spec(s, pd, prefix, ext);
        normalized_provider_path_in_scope(s, pd, prefix, ext);
        obj_read_after_write(p, "path"@, JsonV::Str(np), "path"@);
    } else if is_inline(p) {
    } else {
        let url = get_str(p, "url"@)->0;
        let rel = url_file(url, ext);
        lemma_url_file_name(url, ext);
        lemma_plain_nb(rel);
        lemma_url_file_not_parent(pd, prefix, rel);
        provider_file_in_scope(pd, prefix, rel);
        let np = provider_file(pd, prefix, rel);
        obj_read_after_write(p, "path"@, JsonV::Str(np), "path"@);
    }
}

proof fn lemma_no_provider_error(es: Entries, field: Seq<char>, prefix: Seq<char>, pd: Seq<char>)
    requires
        forall|i: int| 0 <= i < es.len() ==> (provider_error(#[trigger] es[i].0, es[i].1, field, prefix, pd) is None),
    ensures
        first_provider_error(es, field, prefix, pd) is None,
    decreases es.len(),
{
    if es.len() > 0 {
        let d = es.drop_first();
        assert forall|i: int| 0 <= i < d.len() implies (provider_error(#[trigger] d[i].0, d[i].1, field, prefix, pd)
            is None) by {
            assert(d[i] == es[i + 1]);
        }
        lemma_no_provider_error(d, field, prefix, pd);
        assert(provider_error(es[0].0, es[0].1, field, prefix, pd) is None);
    }
}

proof fn lemma_group_in_scope(o: Entries, field: Seq<char>, prefix: Seq<char>, pd: Seq<char>)
    requires
        is_abs(pd),
        !path_comps(pd).contains(Comp::ParentDir),
        !backslash_below_home(pd, prefix),
        !blank_below_home(pd, prefix),
        prefix == "proxies"@ || prefix == "rules"@,
        group_placeable(o, field, prefix, pd),
    ensures
        group_error(providers_group(o, field, prefix, pd), field, prefix, pd) is None,
{
    match obj_get(o, field) {
        Some(JsonV::Object(ps)) => {
            let qs = Seq::new(ps.len(), |i: int| patch_entry(ps[i], pd, prefix));
            obj_read_after_write(o, field, JsonV::Object(qs), field);
            assert forall|i: int| 0 <= i < qs.len() implies (provider_error(#[trigger] qs[i].0, qs[i].1, field, prefix, pd)
                is None) by {
                assert(placeable(ps[i].1, pd, prefix));
                lemma_patched_provider_ok(ps[i].0, ps[i].1, field, prefix, pd);
            }
            lemma_no_provider_error(qs, field, prefix, pd);
        },
        _ => {},
    }
}

proof fn lemma_provider_keys_distinct()
    ensures
        "proxy-providers"@ != "rule-providers"@,
        "proxy-providers"@ != "external-ui"@,
        "rule-providers"@ != "external-ui"@,
        "proxy-providers"@ != "clash-for-android"@,
        "rule-providers"@ != "clash-for-android"@,
{
    reveal_strlit("proxy-providers");
    reveal_strlit("rule-providers");
    reveal_strlit("external-ui");
    reveal_strlit("clash-for-android");
    assert("proxy-providers"@.len() == 15 && "rule-providers"@.len() == 14);
    assert("external-ui"@.len() == 11 && "clash-for-android"@.len() == 17);
    lemma_ne_by_len("proxy-providers"@, "rule-providers"@);
    lemma_ne_by_len("proxy-providers"@, "external-ui"@);
    lemma_ne_by_len("rule-providers"@, "external-ui"@);
    lemma_ne_by_len("proxy-providers"@, "clash-for-android"@);
    lemma_ne_by_len("rule-providers"@, "clash-for-android"@);
}

/// The provider groups reach the provider patch as they stood in the profile.
proof fn lemma_groups_reach_providers(o: Entries, k: Seq<char>)
    requires
        k == "proxy-providers"@ || k == "rule-providers"@,
    ensures
        ({
            let o3 = stage_profile(stage_ui(stage_base(o)));
            let append = match nested_bool(o3, "clash-for-android"@, "append-system-dns"@) {
                Some(b) => b,
                None => false,
            };
            obj_get(listeners_patched(stage_system_dns(stage_dns(o3), append)), k) == obj_get(o, k)
        }),
{
    lemma_top_keys_distinct();
    lemma_provider_keys_distinct();
    let o1 = obj_insert(o, "interface-name"@, JsonV::Str(""@));
    lemma_put_other(o, "interface-name"@, JsonV::Str(""@), k);
    lemma_put_other(o1, "routing-mark"@, JsonV::Number("0"@), k);
    let o2 = stage_ui(stage_base(o));
    lemma_stage_ui_keeps(stage_base(o), k);
    lemma_put_other(
        o2,
        "profile"@,
        JsonV::Object(
            obj_insert(
                obj_insert(fobj(o2, "profile"@), "store-selected"@, JsonV::Bool(true)),
                "store-fake-ip"@,
                JsonV::Bool(true),
            ),
        ),
        k,
    );
    let o3 = stage_profile(o2);
    let append = match nested_bool(o3, "clash-for-android"@, "append-system-dns"@) {
        Some(b) => b,
        None => false,
    };
    lemma_stage_dns_keeps(o3, k);
    lemma_stage_system_dns_keeps(stage_dns(o3), append, k);
    lemma_listeners_keeps(stage_system_dns(stage_dns(o3), append), k);
}

/// After `patch_providers`, every proxy and rule provider that the patch can
/// place inside the profile has a path that passes the scope check of
/// `validate_provider_paths`: relative, and under the profile's provider
/// directory of its group. The profile directory is absolute and without
/// `..`; no name of it past the runtime home holds a backslash, and none
/// right below the home starts with whitespace.
pub proof fn patched_providers_pass_scope_check(o: Entries, pd: Seq<char>)
    requires
        is_abs(pd),
        !path_comps(pd).contains(Comp::ParentDir),
        !backslash_below_home(pd, "proxies"@),
        !backslash_below_home(pd, "rules"@),
        !blank_below_home(pd, "proxies"@),
        !blank_below_home(pd, "rules"@),
        group_placeable(o, "proxy-providers"@, "proxies"@, pd),
        group_placeable(o, "rule-providers"@, "rules"@, pd),
    ensures
        provider_scope_error(providers_patched(o, pd), pd) is None,
{
    lemma_provider_keys_distinct();
    let pp = "proxy-providers"@;
    let rp = "rule-providers"@;
    let o7 = providers_group(o, pp, "proxies"@, pd);
    lemma_group_in_scope(o, pp, "proxies"@, pd);
    match obj_get(o, pp) {
        Some(JsonV::Object(ps)) => {
            lemma_put_other(o, pp, JsonV::Object(Seq::new(ps.len(), |i: int| patch_entry(ps[i], pd, "proxies"@))), rp);
        },
        _ => {},
    }
    assert(group_placeable(o7, rp, "rules"@, pd));
    let o8 = providers_group(o7, rp, "rules"@, pd);
    lemma_group_in_scope(o7, rp, "rules"@, pd);
    match obj_get(o7, rp) {
        Some(JsonV::Object(ps)) => {
            lemma_put_other(o7, rp, JsonV::Object(Seq::new(ps.len(), |i: int| patch_entry(ps[i], pd, "rules"@))), pp);
        },
        _ => {},
    }
    assert(group_error(o8, pp, "proxies"@, pd) == group_error(o7, pp, "proxies"@, pd));
}

/// After the runtime patch, every proxy and rule provider that the patch can
/// place inside the profile has a path that passes the scope check: relative,
/// and under the profile's provider directory of its group. The profile
/// directory is absolute and without `..`; no name of it past the runtime
/// home holds a backslash, and none right below the home starts with
/// whitespace.
pub proof fn runtime_patch_keeps_providers_in_scope(o: Entries, pd: Seq<char>)
    requires
        is_abs(pd),
        !path_comps(pd).contains(Comp::ParentDir),
        !backslash_below_home(pd, "proxies"@),
        !backslash_below_home(pd, "rules"@),
        !blank_below_home(pd, "proxies"@),
        !blank_below_home(pd, "rules"@),
        group_placeable(o, "proxy-providers"@, "proxies"@, pd),
        group_placeable(o, "rule-providers"@, "rules"@, pd),
    ensures
        provider_scope_error(static_runtime(o, pd), pd) is None,
{
    let o3 = stage_profile(stage_ui(stage_base(o)));
    let append = match nested_bool(o3, "clash-for-android"@, "append-system-dns"@) {
        Some(b) => b,
        None => false,
    };
    let o6 = listeners_patched(stage_system_dns(stage_dns(o3), append));
    lemma_groups_reach_providers(o, "proxy-providers"@);
    lemma_groups_reach_providers(o, "rule-providers"@);
    assert(static_runtime(o, pd) == providers_patched(o6, pd));
    patched_providers_pass_scope_check(o6, pd);
}

// ---------------------------------------------------------------------------
// The runtime patch keeps the tree well formed
// ---------------------------------------------------------------------------

proof fn lemma_field_wf(o: Entries, k: Seq<char>)
    requires
        json_wf(JsonV::Object(o)),
    ensures
        json_wf(JsonV::Object(fobj(o, k))),
        items_wf(farr(o, k)),
        obj_get(o, k) matches Some(x) ==> json_wf(x),
{
    if has_key(o, k) {
        lemma_key_index_props(o, k);
        assert(json_wf(o[key_index(o, k)].1));
    }
    let e: Entries = seq![];
    assert(distinct_keys(e));
    assert(values_wf(e));
}

proof fn lemma_str_values_wf(ss: Seq<Seq<char>>)
    ensures
        items_wf(str_values(ss)),
{
    let v = str_values(ss);
    assert forall|i: int| 0 <= i < v.len() implies json_wf(#[trigger] v[i]) by {}
}

proof fn lemma_fixed_stages_wf(o: Entries)
    requires
        json_wf(JsonV::Object(o)),
    ensures
        json_wf(JsonV::Object(stage_profile(stage_ui(stage_base(o))))),
{
    obj_insert_keeps_wf(o, "interface-name"@, JsonV::Str(""@));
    let o1 = obj_insert(o, "interface-name"@, JsonV::Str(""@));
    obj_insert_keeps_wf(o1, "routing-mark"@, JsonV::Number("0"@));
    let o2 = stage_base(o);
    if non_empty_str(o2, "external-controller"@) || non_empty_str(o2, "external-controller-tls"@) {
        obj_insert_keeps_wf(o2, "external-ui"@, JsonV::Str("./ui"@));
    }
    let o3 = stage_ui(o2);
    lemma_field_wf(o3, "profile"@);
    let p = fobj(o3, "profile"@);
    obj_insert_keeps_wf(p, "store-selected"@, JsonV::Bool(true));
    let p1 = obj_insert(p, "store-selected"@, JsonV::Bool(true));
    obj_insert_keeps_wf(p1, "store-fake-ip"@, JsonV::Bool(true));
    obj_insert_keeps_wf(o3, "profile"@, JsonV::Object(obj_insert(p1, "store-fake-ip"@, JsonV::Bool(true))));
}

proof fn lemma_dns_defaults_wf(d: Entries)
    requires
        json_wf(JsonV::Object(d)),
    ensures
        json_wf(JsonV::Object(dns_defaults(d))),
{
    lemma_str_values_wf(default_name_servers_spec());
    lemma_str_values_wf(default_fake_ip_filter_spec());
    let d1 = obj_insert(d, "enable"@, JsonV::Bool(true));
    obj_insert_keeps_wf(d, "enable"@, JsonV::Bool(true));
    let d2 = obj_insert(d1, "use-hosts"@, JsonV::Bool(true));
    obj_insert_keeps_wf(d1, "use-hosts"@, JsonV::Bool(true));
    let ns = JsonV::Array(str_values(default_name_servers_spec()));
    let d3 = obj_insert(d2, "default-nameserver"@, ns);
    obj_insert_keeps_wf(d2, "default-nameserver"@, ns);
    let d4 = obj_insert(d3, "nameserver"@, ns);
    obj_insert_keeps_wf(d3, "nameserver"@, ns);
    let d5 = obj_insert(d4, "enhanced-mode"@, JsonV::Str("fake-ip"@));
    obj_insert_keeps_wf(d4, "enhanced-mode"@, JsonV::Str("fake-ip"@));
    let d6 = obj_insert(d5, "fake-ip-range"@, JsonV::Str("28.0.0.0/8"@));
    obj_insert_keeps_wf(d5, "fake-ip-range"@, JsonV::Str("28.0.0.0/8"@));
    obj_insert_keeps_wf(
        d6,
        "fake-ip-filter"@,
        JsonV::Array(str_values(default_fake_ip_filter_spec())),
    );
}

proof fn lemma_dns_stages_wf(o: Entries, append: bool)
    requires
        json_wf(JsonV::Object(o)),
    ensures
        json_wf(JsonV::Object(stage_system_dns(stage_dns(o), append))),
{
    if !dns_enabled(o) {
        lemma_field_wf(o, "dns"@);
        lemma_dns_defaults_wf(fobj(o, "dns"@));
        let a = obj_insert(o, "dns"@, JsonV::Object(dns_defaults(fobj(o, "dns"@))));
        obj_insert_keeps_wf(o, "dns"@, JsonV::Object(dns_defaults(fobj(o, "dns"@))));
        lemma_field_wf(a, "clash-for-android"@);
        let c = fobj(a, "clash-for-android"@);
        obj_insert_keeps_wf(c, "append-system-dns"@, JsonV::Bool(true));
        obj_insert_keeps_wf(
            a,
            "clash-for-android"@,
            JsonV::Object(obj_insert(c, "append-system-dns"@, JsonV::Bool(true))),
        );
    }
    let o4 = stage_dns(o);
    let flag = match nested_bool(o4, "clash-for-android"@, "append-system-dns"@) {
        Some(b) => b,
        None => append,
    };
    if flag {
        lemma_field_wf(o4, "dns"@);
        let d = fobj(o4, "dns"@);
        lemma_field_wf(d, "nameserver"@);
        let ns = farr(d, "nameserver"@);
        let w = with_system_dns(ns);
        assert forall|i: int| 0 <= i < w.len() implies json_wf(#[trigger] w[i]) by {
            if i < ns.len() {
                assert(w[i] == ns[i]);
            }
        }
        obj_insert_keeps_wf(d, "nameserver"@, JsonV::Array(w));
        obj_insert_keeps_wf(o4, "dns"@, JsonV::Object(obj_insert(d, "nameserver"@, JsonV::Array(w))));
    }
}

proof fn lemma_kept_listeners_wf(ls: Seq<JsonV>)
    requires
        items_wf(ls),
    ensures
        items_wf(kept_listeners(ls)),
    decreases ls.len(),
{
    if ls.len() > 0 {
        let init = ls.drop_last();
        assert forall|i: int| 0 <= i < init.len() implies json_wf(#[trigger] init[i]) by {
            assert(init[i] == ls[i]);
        }
        lemma_kept_listeners_wf(init);
        let k = kept_listeners(ls);
        let a = kept_listeners(init);
        assert forall|i: int| 0 <= i < k.len() implies json_wf(#[trigger] k[i]) by {
            if i < a.len() {
                assert(k[i] == a[i]);
            } else {
                assert(k[i] == ls.last());
            }
        }
    }
}

proof fn lemma_listeners_wf(o: Entries)
    requires
        json_wf(JsonV::Object(o)),
    ensures
        json_wf(JsonV::Object(listeners_patched(o))),
{
    lemma_field_wf(o, "listeners"@);
    match obj_get(o, "listeners"@) {
        Some(JsonV::Array(ls)) => {
            lemma_kept_listeners_wf(ls);
            obj_insert_keeps_wf(o, "listeners"@, JsonV::Array(kept_listeners(ls)));
        },
        _ => {},
    }
}

proof fn lemma_providers_group_wf(o: Entries, field: Seq<char>, prefix: Seq<char>, pd: Seq<char>)
    requires
        json_wf(JsonV::Object(o)),
    ensures
        json_wf(JsonV::Object(providers_group(o, field, prefix, pd))),
{
    lemma_field_wf(o, field);
    match obj_get(o, field) {
        Some(JsonV::Object(ps)) => {
            let q = Seq::new(ps.len(), |i: int| patch_entry(ps[i], pd, prefix));
            assert forall|i: int, j: int| 0 <= i < j < q.len() implies #[trigger] q[i].0 != #[trigger] q[j].0 by {
                assert(q[i].0 == ps[i].0 && q[j].0 == ps[j].0);
                assert(ps[i].0 != ps[j].0);
            }
            assert forall|i: int| 0 <= i < q.len() implies json_wf(#[trigger] q[i].1) by {
                assert(json_wf(ps[i].1));
                match ps[i].1 {
                    JsonV::Object(p) => {
                        let ext = provider_ext(p, prefix);
                        let path = get_str(p, "path"@);
                        if path is Some && trim(path->0).len() > 0 {
                            obj_insert_keeps_wf(p, "path"@, JsonV::Str(provider_path_spec(path->0, pd, prefix, ext)));
                        } else if !is_inline(p) {
                            match get_str(p, "url"@) {
                                Some(url) => obj_insert_keeps_wf(
                                    p,
                                    "path"@,
                                    JsonV::Str(provider_file(pd, prefix, url_file(url, ext))),
                                ),
                                None => {},
                            }
                        }
                    },
                    _ => {},
                }
            }
            obj_insert_keeps_wf(o, field, JsonV::Object(q));
        },
        _ => {},
    }
}

/// The runtime patch keeps a well-formed root well formed: every key it
/// writes lands once in its object.
pub proof fn runtime_patch_keeps_tree_well_formed(root: JsonV, pd: Seq<char>)
    requires
        json_wf(root),
    ensures
        json_wf(runtime_patched(root, pd)),
{
    if let JsonV::Object(o) = root {
        lemma_fixed_stages_wf(o);
        let o3 = stage_profile(stage_ui(stage_base(o)));
        let append = match nested_bool(o3, "clash-for-android"@, "append-system-dns"@) {
            Some(b) => b,
            None => false,
        };
        lemma_dns_stages_wf(o3, append);
        let o5 = stage_system_dns(stage_dns(o3), append);
        lemma_listeners_wf(o5);
        providers_keep_tree_well_formed(listeners_patched(o5), pd);
    }
}

/// Rewriting provider paths keeps a well-formed object well formed.
pub proof fn providers_keep_tree_well_formed(o: Entries, pd: Seq<char>)
    requires
        json_wf(JsonV::Object(o)),
    ensures
        json_wf(JsonV::Object(providers_patched(o, pd))),
{
    lemma_providers_group_wf(o, "proxy-providers"@, "proxies"@, pd);
    lemma_providers_group_wf(
        providers_group(o, "proxy-providers"@, "proxies"@, pd),
        "rule-providers"@,
        "rules"@,
        pd,
    );
}

// ---------------------------------------------------------------------------
// Which listeners the runtime patch removes
// ---------------------------------------------------------------------------

/// A transparent-proxy listener: an object whose `type` is the string
/// `tproxy`, `redir` or `tun`.
pub open spec fn transparent_listener(l: JsonV) -> bool {
    match l {
        JsonV::Object(e) => obj_get(e, "type"@) == Some(JsonV::Str("tproxy"@)) || obj_get(e, "type"@) == Some(
            JsonV::Str("redir"@),
        ) || obj_get(e, "type"@) == Some(JsonV::Str("tun"@)),
        _ => false,
    }
}

proof fn lemma_kept_is_filter(ls: Seq<JsonV>)
    ensures
        kept_listeners(ls) == ls.filter(|l: JsonV| !transparent_listener(l)),
    decreases ls.len(),
{
    reveal_with_fuel(Seq::filter, 1);
    if ls.len() > 0 {
        lemma_kept_is_filter(ls.drop_last());
        let l = ls.last();
        assert(keeps_listener(l) == !transparent_listener(l));
        let f = ls.drop_last().filter(|l: JsonV| !transparent_listener(l));
        if keeps_listener(l) {
            assert(f + seq![l] =~= f.push(l));
        } else {
            assert(f + Seq::<JsonV>::empty() =~= f);
        }
    } else {
        assert(kept_listeners(ls) =~= ls);
    }
}

/// The stages before the listener filter leave `listeners` as it was.
proof fn lemma_listeners_reach_filter(o: Entries)
    ensures
        ({
            let o3 = stage_profile(stage_ui(stage_base(o)));
            let append = match nested_bool(o3, "clash-for-android"@, "append-system-dns"@) {
                Some(b) => b,
                None => false,
            };
            obj_get(stage_system_dns(stage_dns(o3), append), "listeners"@) == obj_get(o, "listeners"@)
        }),
{
    let k = "listeners"@;
    lemma_top_keys_distinct();
    let o1 = obj_insert(o, "interface-name"@, JsonV::Str(""@));
    lemma_put_other(o, "interface-name"@, JsonV::Str(""@), k);
    lemma_put_other(o1, "routing-mark"@, JsonV::Number("0"@), k);
    let o2 = stage_ui(stage_base(o));
    lemma_stage_ui_keeps(stage_base(o), k);
    lemma_put_other(
        o2,
        "profile"@,
        JsonV::Object(
            obj_insert(
                obj_insert(fobj(o2, "profile"@), "store-selected"@, JsonV::Bool(true)),
                "store-fake-ip"@,
                JsonV::Bool(true),
            ),
        ),
        k,
    );
    let o3 = stage_profile(o2);
    let append = match nested_bool(o3, "clash-for-android"@, "append-system-dns"@) {
        Some(b) => b,
        None => false,
    };
    lemma_stage_dns_keeps(o3, k);
    lemma_stage_system_dns_keeps(stage_dns(o3), append, k);
}

/// The runtime patch removes from `listeners` exactly the transparent-proxy
/// listeners, objects whose `type` is `tproxy`, `redir` or `tun`: none of
/// them is left, and every other item stays, in order. A `listeners` value
/// that is no array stays as it was.
pub proof fn runtime_patch_filters_listeners(o: Entries, pd: Seq<char>)
    ensures
        obj_get(o, "listeners"@) matches Some(JsonV::Array(ls)) ==> obj_get(static_runtime(o, pd), "listeners"@)
            == Some(JsonV::Array(ls.filter(|l: JsonV| !transparent_listener(l)))),
        obj_get(static_runtime(o, pd), "listeners"@) matches Some(JsonV::Array(out)) ==> forall|i: int|
            0 <= i < out.len() ==> !transparent_listener(#[trigger] out[i]),
        !(obj_get(o, "listeners"@) matches Some(JsonV::Array(_))) ==> obj_get(static_runtime(o, pd), "listeners"@)
            == obj_get(o, "listeners"@),
{
    let k = "listeners"@;
    lemma_top_keys_distinct();
    let o3 = stage_profile(stage_ui(stage_base(o)));
    let append = match nested_bool(o3, "clash-for-android"@, "append-system-dns"@) {
        Some(b) => b,
        None => false,
    };
    let o5 = stage_system_dns(stage_dns(o3), append);
    lemma_listeners_reach_filter(o);
    let o6 = listeners_patched(o5);
    lemma_providers_keeps(o6, pd, k);
    assert(static_runtime(o, pd) == providers_patched(o6, pd));
    match obj_get(o5, k) {
        Some(JsonV::Array(ls)) => {
            obj_read_after_write(o5, k, JsonV::Array(kept_listeners(ls)), k);
            lemma_kept_is_filter(ls);
            ls.filter_lemma(|l: JsonV| !transparent_listener(l));
        },
        _ => {},
    }
}

} // verus!
