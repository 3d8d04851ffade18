//! The decisions taken while override files are loaded; the reading itself
//! is the caller's.
use crate::model::{LoadedOverride, OverrideSpec};
use crate::text::{copy_string, lower_seq, lower_string, push_str, trim, trim_text};
use vstd::prelude::*;

verus! {

/// What becomes of one override file once read.
pub enum LoadStep {
    /// The file is blank: skipped, with a warning.
    Skip(String),
    /// The file is used.
    Load(LoadedOverride),
}

/// The error when an override file cannot be read; an encrypted profile's
/// path is not shown.
pub fn read_error_message(path: &str, err: &str, encrypted: bool) -> (r: String)
    ensures
        encrypted ==> r@ == "read override file failed for encrypted profile: "@ + err@,
        !encrypted ==> r@ == "read override file "@ + path@ + ": "@ + err@,
{
    if encrypted {
        crate::text::concat2("read override file failed for encrypted profile: ", err)
    } else {
        let mut m = copy_string("read override file ");
        push_str(&mut m, path);
        push_str(&mut m, ": ");
        push_str(&mut m, err);
        m
    }
}

/// A read override file: blank files are skipped with a warning, others are
/// kept with their extension trimmed and lowercased.
pub fn load_override(spec: &OverrideSpec, content: String, encrypted: bool) -> (r: LoadStep)
    ensures
        trim(content@).len() == 0 && encrypted ==> (r matches LoadStep::Skip(w)
            && w@ == "skip empty override file for encrypted profile: ext="@ + spec.ext@),
        trim(content@).len() == 0 && !encrypted ==> (r matches LoadStep::Skip(w)
            && w@ == "skip empty override file: "@ + spec.path@),
        trim(content@).len() > 0 ==> (r matches LoadStep::Load(l) && l.path@ == spec.path@
            && l.ext@ == lower_seq(trim(spec.ext@)) && l.content@ == content@),
{
    let t = trim_text(content.as_str());
    if t.as_str().is_empty() {
        let w = if encrypted {
            crate::text::concat2("skip empty override file for encrypted profile: ext=", spec.ext.as_str())
        } else {
            crate::text::concat2("skip empty override file: ", spec.path.as_str())
        };
        return LoadStep::Skip(w);
    }
    let ext = lower_string(trim_text(spec.ext.as_str()).as_str());
    LoadStep::Load(LoadedOverride { path: copy_string(spec.path.as_str()), ext, content })
}

/// The override files that were loaded, in request order, and the warnings
/// for those that were skipped.
pub struct LoadedOverrides {
    pub items: Vec<LoadedOverride>,
    pub warnings: Vec<String>,
}

impl LoadedOverrides {
    /// Nothing loaded yet.
    pub fn new() -> (r: Self)
        ensures
            r.items@.len() == 0,
            r.warnings@.len() == 0,
    {
        LoadedOverrides { items: Vec::new(), warnings: Vec::new() }
    }

    /// Records the outcome of one file: a skipped file adds its warning, a
    /// loaded one its item; the other list is left as it was.
    pub fn record(&mut self, step: LoadStep)
        ensures
            step matches LoadStep::Skip(w) ==> final(self).warnings@ == old(self).warnings@.push(w)
                && final(self).items@ == old(self).items@,
            step matches LoadStep::Load(l) ==> final(self).items@ == old(self).items@.push(l)
                && final(self).warnings@ == old(self).warnings@,
    {
        match step {
            LoadStep::Skip(w) => self.warnings.push(w),
            LoadStep::Load(l) => self.items.push(l),
        }
    }
}

} // verus!
