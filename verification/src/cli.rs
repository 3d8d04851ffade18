//! The decisions of the command line: which command a word names and the
//! exit code of a run.
use crate::model::CliMode;
use crate::text::str_eq;
use vstd::prelude::*;

verus! {

/// The command the first argument names.
#[derive(Debug, Clone, Copy, PartialEq, Eq, Structural)]
pub enum CliCommand {
    Run(CliMode),
    Helper,
    Unknown,
    Missing,
}

/// `preview` and `compile` run a compile, `helper` a helper; any other word
/// is unknown.
pub fn cli_command(arg: Option<&str>) -> (r: CliCommand)
    ensures
        arg is None ==> r == CliCommand::Missing,
        arg matches Some(a) ==> r == if a@ == "preview"@ {
            CliCommand::Run(CliMode::Preview)
        } else if a@ == "compile"@ {
            CliCommand::Run(CliMode::Compile)
        } else if a@ == "helper"@ {
            CliCommand::Helper
        } else {
            CliCommand::Unknown
        },
{
    match arg {
        None => CliCommand::Missing,
        Some(a) => if str_eq(a, "preview") {
            CliCommand::Run(CliMode::Preview)
        } else if str_eq(a, "compile") {
            CliCommand::Run(CliMode::Compile)
        } else if str_eq(a, "helper") {
            CliCommand::Helper
        } else {
            CliCommand::Unknown
        },
    }
}

/// The exit code of a run: 0 on success, 3 for a failed compile, 2 for a
/// failed preview.
pub fn exit_code(success: bool, mode: CliMode) -> (r: i32)
    ensures
        success ==> r == 0,
        !success && mode == CliMode::Compile ==> r == 3,
        !success && mode == CliMode::Preview ==> r == 2,
{
    if !success && mode == CliMode::Compile {
        3
    } else if !success {
        2
    } else {
        0
    }
}

} // verus!
