//! Request, result and patch vocabulary shared by the compiler modules.
use crate::json::Json;
use vstd::prelude::*;

verus! {

/// The only request schema version this compiler accepts.
pub const REQUEST_SCHEMA_VERSION: u32 = 1u32;

/// What the caller asks to compile.
#[derive(Debug, Clone)]
pub struct CompileRequest {
    pub schema_version: u32,
    pub profile_uuid: String,
    pub profile_dir: String,
    pub profile_path: String,
    pub overrides: Vec<OverrideSpec>,
    pub output_path: String,
    pub age_secret_key: Option<String>,
}

/// The outcome of a YAML compile.
#[derive(Debug, Clone)]
pub struct CompileResult {
    pub success: bool,
    pub fingerprint: String,
    pub final_yaml: String,
    pub warnings: Vec<String>,
    pub error: Option<String>,
}

/// The outcome of a raw (JSON) compile.
#[derive(Debug, Clone)]
pub struct CompileRawResult {
    pub success: bool,
    pub fingerprint: String,
    pub config_raw: String,
    pub warnings: Vec<String>,
    pub error: Option<String>,
}

/// An override file named by the request.
#[derive(Debug, Clone)]
pub struct OverrideSpec {
    pub path: String,
    pub ext: String,
}

/// An override file with its contents read.
#[derive(Debug, Clone)]
pub struct LoadedOverride {
    pub path: String,
    pub ext: String,
    pub content: String,
}

#[derive(Debug, Clone, Copy, PartialEq, Eq, Structural)]
pub enum CliMode {
    Preview,
    Compile,
}

/// How a patch key changes its base field.
#[derive(Debug, Clone, Copy, PartialEq, Eq, Structural)]
pub enum PatchModifier {
    Replace,
    Start,
    End,
    Merge,
    Force,
}

/// A patch key split into its base field and modifier.
#[derive(Debug, Clone, Copy)]
pub struct ParsedKey<'a> {
    pub base: &'a str,
    pub modifier: PatchModifier,
}

/// The schemas whose fields have known behaviour and order.
#[derive(Debug, Clone, Copy, PartialEq, Eq, Structural)]
pub enum SchemaId {
    Root,
    Dns,
    DnsFallbackFilter,
    Sniffer,
    Sniff,
    Protocol,
    Tun,
    ExternalControllerCors,
    Profile,
    GeoxUrl,
    App,
    ProxyItem,
    ProxyGroupItem,
    ProviderItem,
}

#[derive(Debug, Clone, Copy, PartialEq, Eq, Structural)]
pub enum ListStyle {
    Plain,
    NamedObjects,
}

/// How an override patches a known field.
#[derive(Debug, Clone, Copy, PartialEq, Eq, Structural)]
pub enum FieldBehavior {
    Scalar,
    List(ListStyle),
    Mapping,
    Object(SchemaId),
    Rules,
}

/// The patch values collected for one base key.
pub struct PatchOperations {
    pub replace: Option<Json>,
    pub start: Option<Json>,
    pub end: Option<Json>,
    pub merge: Option<Json>,
    pub force: Option<Json>,
}

impl Default for PatchOperations {
    fn default() -> (r: PatchOperations)
        ensures
            r.replace is None,
            r.start is None,
            r.end is None,
            r.merge is None,
            r.force is None,
    {
        PatchOperations { replace: None, start: None, end: None, merge: None, force: None }
    }
}

/// The schema version a request has when it names none.
pub fn default_request_schema_version() -> (r: u32)
    ensures
        r == REQUEST_SCHEMA_VERSION,
{
    REQUEST_SCHEMA_VERSION
}

} // verus!
