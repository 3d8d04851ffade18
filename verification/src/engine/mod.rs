//! Override engines: the YAML text pass, the helpers of JS overrides and the
//! decisions taken around each override.
pub mod http;
pub mod js;
pub mod yaml;

use crate::compiler::patch::{apply_doc, apply_override_document};
use crate::json::{jv, lemma_jv_kind, Json, JsonV};
use crate::model::SchemaId;
use crate::text::{copy_string, push_str, str_eq};
use vstd::prelude::*;

verus! {

/// How an override file is applied.
#[derive(Debug, Clone, Copy, PartialEq, Eq, Structural)]
pub enum OverrideKind {
    Yaml,
    Js,
}

/// The kind of an override by its (already lowercased) extension.
pub open spec fn kind_of(ext: Seq<char>) -> Result<OverrideKind, Seq<char>> {
    if ext == "yaml"@ || ext == "yml"@ {
        Ok(OverrideKind::Yaml)
    } else if ext == "js"@ {
        Ok(OverrideKind::Js)
    } else {
        Err("unsupported override extension: "@ + ext)
    }
}

/// The extensions `yaml` and `yml` pick the YAML engine, `js` picks the JS
/// engine, and every other extension is refused with its name in the error.
pub proof fn override_extensions_pick_their_engine(ext: Seq<char>)
    ensures
        ext == "yaml"@ ==> kind_of(ext) == Ok::<OverrideKind, Seq<char>>(OverrideKind::Yaml),
        ext == "yml"@ ==> kind_of(ext) == Ok::<OverrideKind, Seq<char>>(OverrideKind::Yaml),
        ext == "js"@ ==> kind_of(ext) == Ok::<OverrideKind, Seq<char>>(OverrideKind::Js),
        ext != "yaml"@ && ext != "yml"@ && ext != "js"@ ==> kind_of(ext) == Err::<OverrideKind, Seq<char>>(
            "unsupported override extension: "@ + ext,
        ),
{
    reveal_strlit("yaml");
    reveal_strlit("yml");
    reveal_strlit("js");
    assert("js"@.len() != "yaml"@.len() && "js"@.len() != "yml"@.len());
    assert("yml"@.len() != "yaml"@.len());
}

/// Picks the engine of an override; other extensions are refused.
pub fn override_kind(ext: &str) -> (r: Result<OverrideKind, String>)
    ensures
        match kind_of(ext@) {
            Ok(k) => r == Ok::<OverrideKind, String>(k),
            Err(m) => r matches Err(e) && e@ == m,
        },
{
    if str_eq(ext, "yaml") || str_eq(ext, "yml") {
        Ok(OverrideKind::Yaml)
    } else if str_eq(ext, "js") {
        Ok(OverrideKind::Js)
    } else {
        Err(crate::text::concat2("unsupported override extension: ", ext))
    }
}

/// Applies a parsed YAML override, or reports why it could not be parsed;
/// on an error the root is left as it was.
pub fn apply_yaml_override(root: &mut Json, path: &str, parsed: Result<Json, String>) -> (r: Result<(), String>)
    ensures
        parsed matches Ok(p) ==> r is Ok && jv(*final(root)) == apply_doc(jv(*old(root)), jv(p), SchemaId::Root),
        parsed matches Err(e) ==> (r matches Err(m) && m@ == "parse yaml override "@ + path@ + ": "@ + e@)
            && *final(root) == *old(root),
        crate::json::json_wf(jv(*old(root))) ==> crate::json::json_wf(jv(*final(root))),
{
    match parsed {
        Ok(p) => {
            apply_override_document(root, &p);
            Ok(())
        },
        Err(e) => {
            let mut m = copy_string("parse yaml override ");
            push_str(&mut m, path);
            push_str(&mut m, ": ");
            push_str(&mut m, e.as_str());
            Err(m)
        },
    }
}

/// The warning when the log of a JS override cannot be reset.
pub fn js_log_init_warning(encrypted: bool, log_path: &str, err: &str) -> (r: String)
    ensures
        encrypted ==> r@ == "initialize JS override log failed for encrypted profile: "@ + err@,
        !encrypted ==> r@ == "initialize JS override log "@ + log_path@ + " failed: "@ + err@,
{
    if encrypted {
        crate::text::concat2("initialize JS override log failed for encrypted profile: ", err)
    } else {
        let mut m = copy_string("initialize JS override log ");
        push_str(&mut m, log_path);
        push_str(&mut m, " failed: ");
        push_str(&mut m, err);
        m
    }
}

/// The log message and the warning of a failed JS override; an encrypted
/// profile's error is never shown.
pub fn js_failure_messages(encrypted: bool, path: &str, err: &str) -> (r: (String, String))
    ensures
        encrypted ==> r.0@ == "脚本执行失败：(redacted, encrypted profile)"@,
        encrypted ==> r.1@ == "skip JS override: redacted error for encrypted profile"@,
        !encrypted ==> r.0@ == "脚本执行失败："@ + err@,
        !encrypted ==> r.1@ == "skip JS override "@ + path@ + ": "@ + err@,
{
    if encrypted {
        (
            copy_string("脚本执行失败：(redacted, encrypted profile)"),
            copy_string("skip JS override: redacted error for encrypted profile"),
        )
    } else {
        let log = crate::text::concat2("脚本执行失败：", err);
        let mut w = copy_string("skip JS override ");
        push_str(&mut w, path);
        push_str(&mut w, ": ");
        push_str(&mut w, err);
        (log, w)
    }
}

/// The root a JS override hands back must be an object.
pub fn js_result_root(result: Json) -> (r: Result<Json, String>)
    ensures
        jv(result) is Object ==> r == Ok::<Json, String>(result),
        !(jv(result) is Object) ==> (r matches Err(m) && m@ == "JS override result must be an object"@),
{
    proof {
        lemma_jv_kind(result);
    }
    match result {
        Json::Object(o) => Ok(Json::Object(o)),
        _ => Err(copy_string("JS override result must be an object")),
    }
}

/// The text the script sees in `__encrypted`.
pub fn encrypted_flag_text(encrypted: bool) -> (r: &'static str)
    ensures
        encrypted ==> r@ == "true"@,
        !encrypted ==> r@ == "false"@,
{
    if encrypted {
        "true"
    } else {
        "false"
    }
}

/// One line of an override log: `[level] message` and a line break.
pub fn log_line(level: &str, message: &str) -> (r: String)
    ensures
        r@ == "["@ + level@ + "] "@ + message@ + "\n"@,
{
    let mut m = copy_string("[");
    push_str(&mut m, level);
    push_str(&mut m, "] ");
    push_str(&mut m, message);
    push_str(&mut m, "\n");
    m
}

} // verus!
