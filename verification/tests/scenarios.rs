use age::secrecy::ExposeSecret;
use std::io::Write;
use yume_override::compiler::paths::normalize_provider_path;
use yume_override::compiler::runtime::{patch_providers, validate_provider_paths};
use yume_override::compiler::{
    decode_source, decrypt_age_source, encrypted_yaml_refusal, is_age_encrypted,
    validate_geosite_matcher,
};
use yume_override::engine::yaml::add_yaml_tags_to_proxies_short_id;
use yume_override::engine::{apply_yaml_override, js_failure_messages};
use yume_override::io::{load_override, LoadStep, LoadedOverrides};
use yume_override::json::Json;
use yume_override::model::OverrideSpec;

fn s(v: &str) -> Json {
    Json::String(v.to_string())
}

fn obj(entries: Vec<(&str, Json)>) -> Json {
    Json::Object(entries.into_iter().map(|(k, v)| (k.to_string(), v)).collect())
}

fn field<'a>(j: &'a Json, k: &str) -> Option<&'a Json> {
    match j {
        Json::Object(es) => es.iter().find(|(key, _)| key == k).map(|(_, v)| v),
        _ => None,
    }
}

fn text(j: Option<&Json>) -> Option<&str> {
    match j {
        Some(Json::String(v)) => Some(v.as_str()),
        _ => None,
    }
}

const PROFILE_DIR: &str = "/data/files/profiles/test-profile";

fn provider_path_from_runtime_home(file_name: &str) -> String {
    format!("../profiles/test-profile/providers/rules/{file_name}")
}

fn rule_provider(path: &str, url: &str, format: &str) -> Json {
    obj(vec![
        ("behavior", s("domain")),
        ("format", s(format)),
        ("interval", Json::Number("86400".to_string())),
        ("path", s(path)),
        ("type", s("http")),
        ("url", s(url)),
    ])
}

fn patched_rule_provider_path(name: &str, provider: Json) -> Option<String> {
    let mut root = vec![
        ("mode".to_string(), s("rule")),
        ("rule-providers".to_string(), obj(vec![(name, provider)])),
    ];
    patch_providers(&mut root, PROFILE_DIR);
    assert!(validate_provider_paths(&root, PROFILE_DIR).is_ok());
    let root = Json::Object(root);
    let providers = field(&root, "rule-providers")?;
    text(field(field(providers, name)?, "path")).map(|p| p.to_string())
}

#[test]
fn yaml_short_id_is_tagged_as_string() {
    let source = r#"
proxies:
  - name: example
    reality-opts:
      short-id: abc123
"#;
    let processed = add_yaml_tags_to_proxies_short_id(source, false);
    assert!(processed.contains("short-id: !!str abc123"));
}

#[test]
fn geosite_matcher_accepts_known_values() {
    let root = vec![
        ("geosite-matcher".to_string(), s("mph")),
        ("mode".to_string(), s("rule")),
    ];
    assert!(validate_geosite_matcher(&root).is_ok());
    let root = Json::Object(root);
    assert_eq!(text(field(&root, "geosite-matcher")), Some("mph"));
}

#[test]
fn geosite_matcher_rejects_other_values() {
    let root = vec![
        ("geosite-matcher".to_string(), s("invalid")),
        ("mode".to_string(), s("rule")),
    ];
    let err = validate_geosite_matcher(&root).expect_err("invalid matcher must fail");
    assert!(
        err.contains("geosite-matcher must be one of"),
        "unexpected error message: {err}"
    );
}

#[test]
fn yaml_override_document_applies_in_merge_order() {
    let mut root = obj(vec![
        ("mode", s("rule")),
        (
            "proxies",
            Json::Array(vec![obj(vec![
                ("name", s("A")),
                ("port", Json::Number("80".to_string())),
                ("server", s("one")),
                ("type", s("http")),
            ])]),
        ),
    ]);
    let patch = obj(vec![(
        "proxies-end",
        Json::Array(vec![obj(vec![
            ("name", s("B")),
            ("type", s("http")),
            ("server", s("two")),
            ("port", Json::Number("81".to_string())),
        ])]),
    )]);
    apply_yaml_override(&mut root, "test.yaml", Ok(patch)).expect("apply yaml override");
    match field(&root, "proxies") {
        Some(Json::Array(items)) => {
            assert_eq!(items.len(), 2);
            assert_eq!(text(field(&items[1], "name")), Some("B"));
        },
        _ => panic!("proxies"),
    }
}

#[test]
fn yaml_override_parse_error_names_the_path() {
    let mut root = obj(vec![("mode", s("rule"))]);
    let error = apply_yaml_override(
        &mut root,
        "/tmp/custom-routing.yaml",
        Err("did not find expected '-' indicator".to_string()),
    )
    .expect_err("broken yaml override should fail");
    assert!(
        error.contains("/tmp/custom-routing.yaml"),
        "unexpected error message: {error}"
    );
    assert_eq!(root, obj(vec![("mode", s("rule"))]));
}

#[test]
fn js_failure_messages_report_a_warning() {
    let (log, warning) = js_failure_messages(false, "broken.js", "Error: boom");
    assert!(warning.contains("skip JS override"));
    assert!(warning.contains("boom"));
    assert!(log.contains("脚本执行失败"));
}

#[test]
fn js_log_lines_are_redacted_when_encrypted() {
    let (log, warning) = js_failure_messages(true, "encrypted.js", "secret mode");
    assert!(log.contains("(redacted, encrypted profile)"));
    assert!(!log.contains("secret mode"));
    assert!(!warning.contains("secret mode"));
}

#[test]
fn empty_override_file_is_skipped_with_a_warning() {
    let spec = OverrideSpec { path: "/tmp/empty.js".to_string(), ext: "js".to_string() };
    match load_override(&spec, "  \n".to_string(), false) {
        LoadStep::Skip(w) => assert!(w.contains("skip empty override file")),
        LoadStep::Load(_) => panic!("blank override must be skipped"),
    }
}

#[test]
fn empty_override_warning_hides_path_when_encrypted() {
    let spec = OverrideSpec { path: "/tmp/secret-dir/empty.js".to_string(), ext: "js".to_string() };
    match load_override(&spec, "  \n".to_string(), true) {
        LoadStep::Skip(w) => {
            assert!(w.contains("skip empty override file"));
            assert!(!w.contains("secret-dir"));
        },
        LoadStep::Load(_) => panic!("blank override must be skipped"),
    }
}

#[test]
fn provider_path_under_providers_dir_is_kept() {
    let path = patched_rule_provider_path(
        "geolocation-!cn",
        rule_provider(
            "providers/rules/geolocation-!cn.yaml",
            "https://example.com/geolocation-!cn.yaml",
            "yaml",
        ),
    );
    assert_eq!(path, Some(provider_path_from_runtime_home("geolocation-!cn.yaml")));
}

#[test]
fn dot_provider_path_is_kept() {
    let path = patched_rule_provider_path(
        "ads_domain",
        rule_provider(
            "./providers/rules/ads_domain.mrs",
            "https://example.com/ads_domain.mrs",
            "mrs",
        ),
    );
    assert_eq!(path, Some(provider_path_from_runtime_home("ads_domain.mrs")));
}

#[test]
fn legacy_ruleset_provider_path_is_rewritten() {
    let path = patched_rule_provider_path(
        "advertising",
        rule_provider(
            "./ruleset/advertising.yaml",
            "https://example.com/advertising.yaml",
            "yaml",
        ),
    );
    assert_eq!(path, Some(provider_path_from_runtime_home("advertising.yaml")));
}

#[test]
fn absolute_provider_path_is_made_relative() {
    let absolute = format!("{PROFILE_DIR}/providers/rules/geolocation-!cn.yaml");
    let path = patched_rule_provider_path(
        "geolocation-!cn",
        rule_provider(&absolute, "https://example.com/geolocation-!cn.yaml", "yaml"),
    );
    assert_eq!(path, Some(provider_path_from_runtime_home("geolocation-!cn.yaml")));
    assert_eq!(
        normalize_provider_path(&absolute, PROFILE_DIR, "rules", "yaml"),
        provider_path_from_runtime_home("geolocation-!cn.yaml")
    );
}

#[test]
fn encrypted_source_requires_a_secret_key() {
    let err = decrypt_age_source(b"age-encryption.org/v1\n", None).expect_err("missing key should fail");
    assert!(err.contains("requires ageSecretKey"));
    let err = decode_source(b"age-encryption.org/v1\n".to_vec(), Some("   ")).expect_err("blank key");
    assert!(err.contains("requires ageSecretKey"));
}

#[test]
fn encrypted_source_refuses_yaml_output() {
    assert!(is_age_encrypted(b"age-encryption.org/v1\n-> X25519"));
    assert!(is_age_encrypted(b"-----BEGIN AGE ENCRYPTED FILE-----\n"));
    assert!(!is_age_encrypted(b"mode: rule\n"));
    let err = encrypted_yaml_refusal(true).expect_err("encrypted yaml output should fail");
    assert!(err.contains("YAML output is disabled"));
    assert!(encrypted_yaml_refusal(false).is_ok());
}

#[test]
fn encrypted_source_decodes_with_its_key() {
    let identity = age::x25519::Identity::generate();
    let recipient = identity.to_public();
    let mut ciphertext = Vec::new();
    let mut writer = age::Encryptor::with_recipients(std::iter::once(&recipient as _))
        .expect("create age encryptor")
        .wrap_output(&mut ciphertext)
        .expect("wrap age output");
    writer.write_all(b"mode: rule\nmixed-port: 7890\n").expect("write age plaintext");
    writer.finish().expect("finish age encryption");
    let key = identity.to_string();
    let (text, encrypted) =
        decode_source(ciphertext, Some(key.expose_secret())).expect("decrypt source");
    assert!(encrypted);
    assert!(text.contains("mode: rule"));
}

#[test]
fn loaded_overrides_keep_request_order() {
    let a = OverrideSpec { path: "/o/a.yaml".to_string(), ext: " YAML ".to_string() };
    let b = OverrideSpec { path: "/o/b.js".to_string(), ext: "js".to_string() };
    let c = OverrideSpec { path: "/o/c.js".to_string(), ext: "JS".to_string() };
    let mut loaded = LoadedOverrides::new();
    loaded.record(load_override(&a, "mode: rule\n".to_string(), false));
    loaded.record(load_override(&b, " \t\n".to_string(), false));
    loaded.record(load_override(&c, "function main(p) { return p; }".to_string(), false));
    assert_eq!(loaded.warnings, vec!["skip empty override file: /o/b.js".to_string()]);
    assert_eq!(loaded.items.len(), 2);
    assert_eq!(loaded.items[0].path, "/o/a.yaml");
    assert_eq!(loaded.items[0].ext, "yaml");
    assert_eq!(loaded.items[1].path, "/o/c.js");
    assert_eq!(loaded.items[1].ext, "js");
}

#[test]
fn age_decryption_tries_each_key_in_order() {
    let right = age::x25519::Identity::generate();
    let wrong = age::x25519::Identity::generate();
    let recipient = right.to_public();
    let mut ciphertext = Vec::new();
    let mut writer = age::Encryptor::with_recipients(std::iter::once(&recipient as _))
        .expect("create age encryptor")
        .wrap_output(&mut ciphertext)
        .expect("wrap age output");
    writer.write_all(b"mode: rule\n").expect("write age plaintext");
    writer.finish().expect("finish age encryption");
    let wrong_key = wrong.to_string().expose_secret().to_string();
    let right_key = right.to_string().expose_secret().to_string();
    let keys = format!("# keys\n{wrong_key}\n\n{right_key}\n");
    let plain = decrypt_age_source(&ciphertext, Some(&keys)).expect("second key opens it");
    assert_eq!(plain, b"mode: rule\n".to_vec());
    let err = decrypt_age_source(&ciphertext, Some(&wrong_key)).expect_err("wrong key");
    assert!(err.starts_with("decrypt age profile: "));
    let err = decrypt_age_source(&ciphertext, Some("not-a-key")).expect_err("bad key");
    assert!(err.starts_with("parse age secret key at line 1: "));
}

#[test]
fn patched_providers_pass_the_scope_check() {
    let pd = "/data/files/profiles/p";
    let mut root = vec![
        (
            "proxy-providers".to_string(),
            obj(vec![("a", obj(vec![("url", s("https://example.com/a"))]))]),
        ),
        (
            "rule-providers".to_string(),
            obj(vec![
                ("b", obj(vec![("path", s("../../../../etc/b"))])),
                ("c", obj(vec![("path", s("/data/files/profiles/p/providers/rules/c.mrs"))])),
                ("d", obj(vec![("type", s("inline"))])),
            ]),
        ),
    ];
    patch_providers(&mut root, pd);
    assert!(validate_provider_paths(&root, pd).is_ok());
}
