//! Starting other programs: the viewer on one image, and the tools that set
//! the desktop picture. Only what is decided here; nothing is started.

use crate::text::texts;
use vstd::prelude::*;
use vstd::string::StringExecFns;

verus! {

/// The exit status by which the viewer says that the file was deleted from
/// within it.
pub const DELETED_STATUS: i32 = 10;

/// Whether the viewer's exit status says that the file was deleted. A viewer
/// that could not be started, or that was ended by a signal, has no status.
pub fn preview_deleted(status: Option<i32>) -> (deleted: bool)
    ensures
        deleted == (status == Some(10i32)),
{
    match status {
        Some(code) => code == DELETED_STATUS,
        None => false,
    }
}

/// A program and the arguments it is started with.
#[derive(Debug)]
pub struct CommandLine {
    pub program: String,
    pub args: Vec<String>,
}

/// What Finder is told to make `path` the desktop picture.
pub open spec fn finder_script(path: Seq<char>) -> Seq<char> {
    "tell application \"Finder\" to set desktop picture to POSIX file \""@ + path + "\""@
}

/// The arguments with which `swww` shows `path`.
pub open spec fn swww_args(path: Seq<char>) -> Seq<Seq<char>> {
    seq!["img"@, path, "--transition-type"@, "outer"@, "--transition-fps"@, "60"@]
}

/// The command that makes `path` the desktop picture: `osascript` with a
/// script for Finder on macOS, `swww` elsewhere.
pub fn wallpaper_command(path: &str, macos: bool) -> (c: CommandLine)
    ensures
        macos ==> c.program@ == "osascript"@ && texts(c.args@) == seq!["-e"@, finder_script(path@)],
        !macos ==> c.program@ == "swww"@ && texts(c.args@) == swww_args(path@),
{
    let mut args: Vec<String> = Vec::new();
    if macos {
        let mut script = String::from_str(
            "tell application \"Finder\" to set desktop picture to POSIX file \"",
        );
        script.append(path);
        script.append("\"");
        args.push(String::from_str("-e"));
        args.push(script);
        assert(texts(args@) =~= seq!["-e"@, finder_script(path@)]);
        CommandLine { program: String::from_str("osascript"), args }
    } else {
        args.push(String::from_str("img"));
        args.push(String::from_str(path));
        args.push(String::from_str("--transition-type"));
        args.push(String::from_str("outer"));
        args.push(String::from_str("--transition-fps"));
        args.push(String::from_str("60"));
        assert(texts(args@) =~= swww_args(path@));
        CommandLine { program: String::from_str("swww"), args }
    }
}

} // verus!
