use yume_override::compiler::paths::{
    clean_relative_path, ensure_provider_extension, join_path, normalize_path, path_components,
    path_has_extension,
    profile_provider_path, relative_path_from, relative_to_runtime_home, render_parts,
    runtime_home_dir, trim_provider_prefix, PathPart,
};

fn texts(parts: &[PathPart]) -> Vec<String> {
    parts
        .iter()
        .map(|p| match p {
            PathPart::RootDir => "/".to_string(),
            PathPart::CurDir => ".".to_string(),
            PathPart::ParentDir => "..".to_string(),
            PathPart::Normal(s) => s.clone(),
        })
        .collect()
}

#[test]
fn components_follow_unix_rules() {
    assert_eq!(texts(&path_components("/a//b/./c/")), vec!["/", "a", "b", "c"]);
    assert_eq!(texts(&path_components("./a/../b")), vec![".", "a", "..", "b"]);
    assert_eq!(texts(&path_components("a/.")), vec!["a"]);
    assert!(path_components("").is_empty());
}

#[test]
fn joining_and_rendering() {
    assert_eq!(join_path("/a", "b"), "/a/b");
    assert_eq!(join_path("/a/", "b"), "/a/b");
    assert_eq!(join_path("/a", "/b"), "/b");
    assert_eq!(join_path("", "b"), "b");
    assert_eq!(render_parts(&path_components("/x/y")), "/x/y");
}

#[test]
fn normalisation_is_lexical() {
    assert_eq!(texts(&normalize_path(&path_components("/a/b/../c/./d"))), vec!["/", "a", "c", "d"]);
    assert_eq!(texts(&normalize_path(&path_components("/../a"))), vec!["/", "a"]);
    assert_eq!(texts(&clean_relative_path(&path_components("/../a/./b/.."))), vec!["a"]);
}

#[test]
fn relative_paths_between_components() {
    let path = path_components("/data/files/profiles/p/providers");
    let base = path_components("/data/files/mihomo");
    let rel = relative_path_from(&path, &base).expect("shared root");
    assert_eq!(render_parts(&rel), "../profiles/p/providers");
    assert!(relative_path_from(&path_components("a/b"), &path_components("c")).is_none());
}

#[test]
fn runtime_home_is_next_to_the_profiles() {
    assert_eq!(render_parts(&runtime_home_dir("/data/files/profiles/p")), "/data/files/mihomo");
    assert_eq!(render_parts(&runtime_home_dir("/p")), "/p");
    assert_eq!(render_parts(&runtime_home_dir("a/b")), "mihomo");
}

#[test]
fn provider_prefixes_are_trimmed() {
    let trimmed = trim_provider_prefix(path_components("providers/rules/clash/x/rules"));
    assert_eq!(texts(&trimmed), vec!["x", "rules"]);
}

#[test]
fn provider_extensions() {
    assert_eq!(ensure_provider_extension("", "yaml"), "provider.yaml");
    assert_eq!(ensure_provider_extension("a/b", "mrs"), "a/b.mrs");
    assert_eq!(ensure_provider_extension("a/b.txt", "mrs"), "a/b.txt");
    assert_eq!(ensure_provider_extension(".hidden", "yaml"), ".hidden.yaml");
}

#[test]
fn provider_files_live_under_the_profile() {
    assert_eq!(
        profile_provider_path("/data/files/profiles/p", "proxies", ""),
        "../profiles/p/providers/proxies/provider.yaml"
    );
    assert_eq!(
        relative_to_runtime_home("/data/files/profiles/p", "/elsewhere/x"),
        "../../../elsewhere/x"
    );
    assert_eq!(relative_to_runtime_home("rel/p", "/abs/x"), "/abs/x");
}

#[test]
fn path_operations_are_canonical() {
    let once = normalize_path(&path_components("/a/./b/../../c/d/.."));
    assert_eq!(texts(&once), vec!["/", "c"]);
    assert_eq!(texts(&normalize_path(&once)), texts(&once));
    let cleaned = clean_relative_path(&path_components("../x/./y/../z"));
    assert_eq!(texts(&cleaned), vec!["x", "z"]);
    assert_eq!(texts(&clean_relative_path(&cleaned)), texts(&cleaned));

    let path = path_components("/data/files/profiles/p/providers/rules/x.yaml");
    let base = path_components("/data/files/mihomo");
    let rel = relative_path_from(&path, &base).expect("shared root");
    let back = join_path(&render_parts(&base), &render_parts(&rel));
    assert_eq!(render_parts(&normalize_path(&path_components(&back))), render_parts(&path));

    let trimmed = trim_provider_prefix(path_components("ruleset/providers/ads/rules"));
    assert_eq!(texts(&trimmed), vec!["ads", "rules"]);

    for p in ["", "a", "a/b", ".", "x/..", "a/b.c/d"] {
        assert!(path_has_extension(&ensure_provider_extension(p, "yaml")), "{p}");
    }
    assert!(!path_has_extension(&ensure_provider_extension("a/", "yaml")));
}
