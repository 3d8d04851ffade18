use yume_override::cli::{cli_command, exit_code, CliCommand};
use yume_override::compiler::normalize::{normalize_generic_value, normalize_root};
use yume_override::compiler::patch::{apply_override_document, clone_raw_value};
use yume_override::compiler::runtime::{patch_static_runtime, validate_provider_paths};
use yume_override::compiler::schema::{field_behavior, ordered_keys};
use yume_override::compiler::{check_schema_version, finish_root, output_path_for};
use yume_override::engine::yaml::add_yaml_tags_to_proxies_short_id;
use yume_override::engine::{override_kind, OverrideKind};
use yume_override::json::Json;
use yume_override::model::{CliMode, FieldBehavior, SchemaId};

fn s(v: &str) -> Json {
    Json::String(v.to_string())
}

fn obj(entries: Vec<(&str, Json)>) -> Json {
    Json::Object(entries.into_iter().map(|(k, v)| (k.to_string(), v)).collect())
}

fn field<'a>(j: &'a Json, k: &str) -> Option<&'a Json> {
    match j {
        Json::Object(es) => es.iter().find(|(key, _)| key == k).map(|(_, v)| v),
        _ => None,
    }
}

fn keys(j: &Json) -> Vec<String> {
    match j {
        Json::Object(es) => es.iter().map(|(k, _)| k.clone()).collect(),
        _ => Vec::new(),
    }
}

#[test]
fn runtime_patch_sets_fixed_keys_and_dns() {
    let mut root = obj(vec![
        ("external-controller", s("127.0.0.1:9090")),
        (
            "listeners",
            Json::Array(vec![
                obj(vec![("name", s("a")), ("type", s("tun"))]),
                obj(vec![("name", s("b")), ("type", s("mixed"))]),
            ]),
        ),
        ("mode", s("rule")),
    ]);
    patch_static_runtime(&mut root, "/data/files/profiles/p");
    assert_eq!(field(&root, "interface-name"), Some(&s("")));
    assert_eq!(field(&root, "routing-mark"), Some(&Json::Number("0".to_string())));
    assert_eq!(field(&root, "external-ui"), Some(&s("./ui")));
    let profile = field(&root, "profile").expect("profile");
    assert_eq!(field(profile, "store-selected"), Some(&Json::Bool(true)));
    let dns = field(&root, "dns").expect("dns");
    assert_eq!(field(dns, "enable"), Some(&Json::Bool(true)));
    assert_eq!(field(dns, "enhanced-mode"), Some(&s("fake-ip")));
    match field(dns, "nameserver") {
        Some(Json::Array(ns)) => assert_eq!(ns.last(), Some(&s("system://"))),
        _ => panic!("nameserver"),
    }
    match field(&root, "listeners") {
        Some(Json::Array(ls)) => {
            assert_eq!(ls.len(), 1);
            assert_eq!(field(&ls[0], "name"), Some(&s("b")));
        },
        _ => panic!("listeners"),
    }
}

#[test]
fn runtime_patch_keeps_enabled_dns() {
    let mut root = obj(vec![(
        "dns",
        obj(vec![("enable", Json::Bool(true)), ("nameserver", Json::Array(vec![s("1.1.1.1")]))]),
    )]);
    patch_static_runtime(&mut root, "/p");
    let dns = field(&root, "dns").expect("dns");
    assert_eq!(field(dns, "nameserver"), Some(&Json::Array(vec![s("1.1.1.1")])));
    assert!(field(dns, "enhanced-mode").is_none());
}

#[test]
fn runtime_patch_leaves_non_objects() {
    let mut root = Json::Array(vec![]);
    patch_static_runtime(&mut root, "/p");
    assert_eq!(root, Json::Array(vec![]));
}

#[test]
fn provider_scope_check_refuses_escapes() {
    let root = vec![(
        "rule-providers".to_string(),
        obj(vec![("x", obj(vec![("path", s("../../../etc/x.yaml")), ("type", s("http"))]))]),
    )];
    let err = validate_provider_paths(&root, "/data/files/profiles/p").expect_err("escape");
    assert!(err.starts_with("rule-providers.x path escaped profile scope: ../../../etc/x.yaml (expected under /data/files/profiles/p/providers/rules)"));

    let root = vec![("proxy-providers".to_string(), obj(vec![("y", s("text"))]))];
    assert_eq!(
        validate_provider_paths(&root, "/p").err(),
        Some("proxy-providers.y must be an object".to_string())
    );

    let root = vec![("proxy-providers".to_string(), obj(vec![("z", obj(vec![("type", s("http"))]))]))];
    assert_eq!(
        validate_provider_paths(&root, "/p").err(),
        Some("proxy-providers.z missing normalized path".to_string())
    );

    let root = vec![("proxy-providers".to_string(), obj(vec![("z", obj(vec![("type", s("Inline"))]))]))];
    assert!(validate_provider_paths(&root, "/p").is_ok());
}

#[test]
fn finishing_requires_an_object_root() {
    assert_eq!(
        finish_root(s("x"), "/p").err(),
        Some("compiled root config must be an object".to_string())
    );
    let done = finish_root(obj(vec![("mode", s("rule"))]), "/data/files/profiles/p").expect("finish");
    assert_eq!(field(&done, "mode"), Some(&s("rule")));
}

#[test]
fn request_checks() {
    assert!(check_schema_version(1).is_ok());
    assert_eq!(check_schema_version(2).err(), Some("unsupported schema version: 2".to_string()));
    assert_eq!(output_path_for("  /tmp/out.yaml "), Ok("/tmp/out.yaml".to_string()));
    assert_eq!(output_path_for("  ").err(), Some("compile mode requires outputPath".to_string()));
}

#[test]
fn normalized_root_orders_known_keys_first() {
    let root = obj(vec![
        ("a-custom", s("x")),
        ("dns", obj(vec![("zzz", Json::Bool(true)), ("enable", Json::Bool(true))])),
        ("mode", s("rule")),
    ]);
    let out = normalize_root(&root);
    let k = keys(&out);
    assert_eq!(k.last(), Some(&"a-custom".to_string()));
    assert!(k.iter().position(|x| x == "mode") < k.iter().position(|x| x == "dns"));
    let dns = field(&out, "dns").expect("dns");
    assert_eq!(keys(dns), vec!["enable".to_string(), "zzz".to_string()]);
}

#[test]
fn generic_normal_form_sorts_keys() {
    let v = obj(vec![("b", s("1")), ("a", Json::Array(vec![obj(vec![("d", Json::Null), ("c", Json::Null)])]))]);
    let out = normalize_generic_value(&v);
    assert_eq!(keys(&out), vec!["a".to_string(), "b".to_string()]);
    match field(&out, "a") {
        Some(Json::Array(items)) => assert_eq!(keys(&items[0]), vec!["c".to_string(), "d".to_string()]),
        _ => panic!("a"),
    }
}

#[test]
fn override_document_modifiers() {
    let mut root = obj(vec![
        ("mode", s("rule")),
        ("rules", Json::Array(vec![s("MATCH,DIRECT")])),
    ]);
    let patch = obj(vec![
        ("mode", s("global")),
        ("tun-force", s("off")),
        ("rules-start", Json::Array(vec![s("DOMAIN,a,PROXY")])),
    ]);
    apply_override_document(&mut root, &patch);
    assert_eq!(field(&root, "mode"), Some(&s("global")));
    assert_eq!(field(&root, "tun"), Some(&s("off")));
    assert_eq!(
        field(&root, "rules"),
        Some(&Json::Array(vec![s("DOMAIN,a,PROXY"), s("MATCH,DIRECT")]))
    );
}

#[test]
fn raw_values_unescape_literal_keys() {
    let v = obj(vec![("<a-start>", s("x"))]);
    assert_eq!(clone_raw_value(&v), obj(vec![("a-start", s("x"))]));
}

#[test]
fn schema_lookups() {
    assert!(matches!(field_behavior(SchemaId::Root, "dns"), Some(FieldBehavior::Object(SchemaId::Dns))));
    assert!(field_behavior(SchemaId::Root, "no-such-key").is_none());
    assert!(ordered_keys(SchemaId::Root).contains(&"mode"));
}

#[test]
fn override_kinds() {
    assert_eq!(override_kind("yml"), Ok(OverrideKind::Yaml));
    assert_eq!(override_kind("js"), Ok(OverrideKind::Js));
    assert_eq!(
        override_kind("toml").err(),
        Some("unsupported override extension: toml".to_string())
    );
}

#[test]
fn cli_words_and_exit_codes() {
    assert_eq!(cli_command(Some("compile")), CliCommand::Run(CliMode::Compile));
    assert_eq!(cli_command(Some("helper")), CliCommand::Helper);
    assert_eq!(cli_command(Some("x")), CliCommand::Unknown);
    assert_eq!(cli_command(None), CliCommand::Missing);
    assert_eq!(exit_code(true, CliMode::Compile), 0);
    assert_eq!(exit_code(false, CliMode::Compile), 3);
    assert_eq!(exit_code(false, CliMode::Preview), 2);
}

#[test]
fn short_id_tagging_skips_special_values() {
    let source = "proxies:\n  - name: a\n    reality-opts:\n      short-id: null\n  - name: b\n    reality-opts:\n      short-id: \"q\"\n      short-id: 12 # c\n";
    let out = add_yaml_tags_to_proxies_short_id(source, false);
    assert!(out.contains("short-id: null"));
    assert!(out.contains("short-id: !!str \"q\""));
    assert!(out.contains("short-id: !!str 12 # c"));
    let untouched = "mode: rule\n";
    assert_eq!(add_yaml_tags_to_proxies_short_id(untouched, false), untouched);
    let nested = "group:\n  proxies:\n    - name: a\n      reality-opts:\n        short-id: 1\n";
    assert!(!add_yaml_tags_to_proxies_short_id(nested, false).contains("!!str"));
    assert!(add_yaml_tags_to_proxies_short_id(nested, true).contains("short-id: !!str 1"));
}

#[test]
fn patched_providers_stay_in_profile_scope() {
    let pd = "/data/files/profiles/p";
    let mut root = obj(vec![
        (
            "proxy-providers",
            obj(vec![
                ("a", obj(vec![("type", s("http")), ("url", s("https://example.com/sub"))])),
                ("b", obj(vec![("type", s("file")), ("path", s("./proxies/b"))])),
                ("c", obj(vec![("type", s("inline"))])),
            ]),
        ),
        (
            "rule-providers",
            obj(vec![
                ("d", obj(vec![("path", s("../../../etc/passwd")), ("format", s("mrs"))])),
                ("e", obj(vec![("path", s("/data/files/profiles/p/providers/rules/e.yaml"))])),
                ("f", obj(vec![("path", s("/elsewhere/ruleset/f.txt"))])),
                ("g", obj(vec![("path", s("./My Rules/ads list"))])),
                ("h", obj(vec![("path", s("x/ y"))])),
                ("i", obj(vec![("path", s(" a /b.txt "))])),
            ]),
        ),
    ]);
    patch_static_runtime(&mut root, pd);
    let rules = field(&root, "rule-providers").expect("rule-providers");
    assert_eq!(field(field(rules, "d").unwrap(), "path"), Some(&s("../profiles/p/providers/rules/etc/passwd.mrs")));
    assert_eq!(field(field(rules, "e").unwrap(), "path"), Some(&s("../profiles/p/providers/rules/e.yaml")));
    assert_eq!(field(field(rules, "f").unwrap(), "path"), Some(&s("../profiles/p/providers/rules/f.txt")));
    assert_eq!(
        field(field(rules, "g").unwrap(), "path"),
        Some(&s("../profiles/p/providers/rules/My Rules/ads list.yaml"))
    );
    assert_eq!(field(field(rules, "h").unwrap(), "path"), Some(&s("../profiles/p/providers/rules/x/ y.yaml")));
    assert_eq!(field(field(rules, "i").unwrap(), "path"), Some(&s("../profiles/p/providers/rules/ a /b.txt ")));
    let proxies = field(&root, "proxy-providers").expect("proxy-providers");
    assert_eq!(field(field(proxies, "b").unwrap(), "path"), Some(&s("../profiles/p/providers/proxies/b.yaml")));
    match field(field(proxies, "a").unwrap(), "path") {
        Some(Json::String(p)) => {
            assert!(p.starts_with("../profiles/p/providers/proxies/"));
            assert!(p.ends_with(".yaml"));
        },
        other => panic!("url provider path: {:?}", other),
    }
    match root {
        Json::Object(entries) => assert!(validate_provider_paths(&entries, pd).is_ok()),
        _ => panic!("object root"),
    }
}

#[test]
fn short_id_tagging_is_idempotent() {
    let doc = "proxies:\n  - name: a\n    reality-opts:\n      short-id: 0123\n      public-key: k\n  - name: b\n    reality-opts:\n      short-id: \"\" # empty\nrules:\n  - MATCH,DIRECT";
    let once = add_yaml_tags_to_proxies_short_id(doc, false);
    assert!(once.contains("short-id: !!str 0123"));
    assert_eq!(add_yaml_tags_to_proxies_short_id(&once, false), once);
}

#[test]
fn empty_override_leaves_the_root() {
    let mut root = obj(vec![("mode", s("rule")), ("proxies", Json::Array(vec![s("a")]))]);
    let before = obj(vec![("mode", s("rule")), ("proxies", Json::Array(vec![s("a")]))]);
    apply_override_document(&mut root, &Json::Object(Vec::new()));
    assert_eq!(root, before);
}

#[test]
fn normalization_keeps_every_field() {
    let root = obj(vec![
        ("zeta", s("z")),
        ("mode", s("rule")),
        ("alpha", Json::Array(vec![s("a")])),
        ("dns", obj(vec![("enable", Json::Bool(true))])),
    ]);
    let out = normalize_root(&root);
    let mut k = keys(&out);
    k.sort();
    assert_eq!(k, vec!["alpha", "dns", "mode", "zeta"]);
    assert_eq!(field(&out, "zeta"), Some(&s("z")));
    assert_eq!(field(&out, "alpha"), Some(&Json::Array(vec![s("a")])));
}

#[test]
fn behaviour_and_order_tables_agree() {
    let schemas = [
        SchemaId::Root,
        SchemaId::Dns,
        SchemaId::DnsFallbackFilter,
        SchemaId::Sniffer,
        SchemaId::Sniff,
        SchemaId::Protocol,
        SchemaId::Tun,
        SchemaId::ExternalControllerCors,
        SchemaId::Profile,
        SchemaId::GeoxUrl,
        SchemaId::App,
    ];
    for schema in schemas {
        for key in ordered_keys(schema) {
            assert!(field_behavior(schema, key).is_some(), "{key}");
        }
        assert!(field_behavior(schema, "no-such-key").is_none());
    }
}

#[test]
fn normalized_trees_hold_each_key_once() {
    let v = obj(vec![
        ("b", s("1")),
        ("a", obj(vec![("x", s("first")), ("x", s("second"))])),
        ("b", s("2")),
    ]);
    let out = normalize_generic_value(&v);
    assert_eq!(keys(&out), vec!["a".to_string(), "b".to_string()]);
    assert_eq!(field(&out, "b"), Some(&s("1")));
    let inner = field(&out, "a").unwrap();
    assert_eq!(keys(inner), vec!["x".to_string()]);
    assert_eq!(field(inner, "x"), Some(&s("first")));
}

#[test]
fn overrides_copy_objects_with_each_key_once() {
    let mut root = obj(vec![("mode", s("rule"))]);
    let patch = obj(vec![("extra", obj(vec![("k", s("one")), ("<k>", s("two"))]))]);
    apply_override_document(&mut root, &patch);
    let extra = field(&root, "extra").unwrap();
    assert_eq!(keys(extra), vec!["k".to_string()]);
    assert_eq!(field(extra, "k"), Some(&s("two")));
    let copy = clone_raw_value(&obj(vec![("z", s("1")), ("z", s("2"))]));
    assert_eq!(keys(&copy), vec!["z".to_string()]);
    assert_eq!(field(&copy, "z"), Some(&s("2")));
}

#[test]
fn profile_directories_with_blank_names_stay_in_scope() {
    let pd = "/data/ files/profiles /p ";
    let mut root = obj(vec![(
        "rule-providers",
        obj(vec![
            ("d", obj(vec![("path", s("../../../etc/passwd"))])),
            ("e", obj(vec![("url", s("https://example.com/rules"))])),
        ]),
    )]);
    patch_static_runtime(&mut root, pd);
    let rules = field(&root, "rule-providers").expect("rule-providers");
    assert_eq!(
        field(field(rules, "d").unwrap(), "path"),
        Some(&s("../profiles /p /providers/rules/etc/passwd.yaml"))
    );
    match root {
        Json::Object(entries) => assert!(validate_provider_paths(&entries, pd).is_ok()),
        _ => panic!("object root"),
    }
}

#[test]
fn backslashes_above_the_runtime_home_stay_in_scope() {
    let pd = "/da\\ta/files/profiles/p";
    let mut root = obj(vec![(
        "proxy-providers",
        obj(vec![("a", obj(vec![("path", s("./sub/a.yaml"))]))]),
    )]);
    patch_static_runtime(&mut root, pd);
    let proxies = field(&root, "proxy-providers").expect("proxy-providers");
    assert_eq!(
        field(field(proxies, "a").unwrap(), "path"),
        Some(&s("../profiles/p/providers/proxies/sub/a.yaml"))
    );
    match root {
        Json::Object(entries) => assert!(validate_provider_paths(&entries, pd).is_ok()),
        _ => panic!("object root"),
    }
}
