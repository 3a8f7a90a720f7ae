//! The installer's decisions: where a profile's binaries are, what to do with each
//! binary, and what to write into a shell configuration to put the installed
//! binaries on the `PATH`.

use crate::manifest::{key_position, string_keys, WorkspaceManifest};
use crate::test_runner::{contains_text, str_contains};
use crate::text::{push_char, str_ends_with_char, str_eq};
use vstd::prelude::*;
use vstd::string::*;

verus! {

/// What the installer does with one binary.
#[derive(Clone, Copy, Debug, PartialEq, Eq, Structural)]
pub enum InstallStep {
    /// The binary was not built: it is reported and left out.
    Missing,
    /// The binary is installed already and overwriting was not asked for.
    Skip,
    /// The binary is copied into the install directory.
    Copy,
}

/// What to do with a binary, from whether it was built, whether it is installed
/// already, and whether overwriting was asked for (`--force`).
pub fn install_step(built: bool, installed: bool, force: bool) -> (s: InstallStep)
    ensures
        !built ==> s is Missing,
        built && installed && !force ==> s is Skip,
        built && (!installed || force) ==> s is Copy,
{
    if !built {
        InstallStep::Missing
    } else if installed && !force {
        InstallStep::Skip
    } else {
        InstallStep::Copy
    }
}

/// The output directory of the profile `name` of `m`: the one the profile gives, or
/// `target/<name>` when `m` has no such profile.
pub open spec fn dir_of(m: &WorkspaceManifest, name: Seq<char>) -> Seq<char> {
    let i = key_position(string_keys(m.profiles@), name);
    if i >= 0 {
        m.profiles@[i].1.target@
    } else {
        "target/"@ + name
    }
}

/// The directory that holds the binaries built for `profile`: that of the `release`
/// profile for `release`, and that of the `debug` profile for every other one.
pub fn install_dir_for(manifest: &WorkspaceManifest, profile: &str) -> (d: String)
    ensures
        d@ == (if profile@ == "release"@ {
            dir_of(manifest, "release"@)
        } else {
            dir_of(manifest, "debug"@)
        }),
{
    let name = if str_eq(profile, "release") { "release" } else { "debug" };
    match manifest.get_profile(name) {
        Some(p) => p.target.clone(),
        None => {
            proof {
                reveal_strlit("target/");
            }
            let mut d = String::from_str("target/");
            d.append(name);
            d
        },
    }
}

/// The line that puts `dir` first on the `PATH`.
pub open spec fn path_line(dir: Seq<char>) -> Seq<char> {
    "export PATH=\""@ + dir + ":$PATH\""@
}

/// The configuration `content` with the `PATH` line for `dir` appended under a
/// comment, on a line of its own after a blank line.
pub open spec fn config_with_path(content: Seq<char>, dir: Seq<char>) -> Seq<char> {
    let ended = if content.len() > 0 && content.last() == '\n' { content } else { content.push('\n') };
    ended.push('\n') + "# rmpl binaries\n"@ + path_line(dir) + "\n"@
}

/// The new content of a shell configuration that puts `install_dir` on the `PATH`,
/// or `None` when the configuration already names that directory.
pub fn shell_config_update(content: &str, install_dir: &str) -> (r: Option<String>)
    ensures
        match r {
            Some(s) => !contains_text(content@, install_dir@) && s@ == config_with_path(content@, install_dir@),
            None => contains_text(content@, install_dir@),
        },
{
    if str_contains(content, install_dir) {
        return None;
    }
    let mut s = String::from_str(content);
    if !str_ends_with_char(content, '\n') {
        push_char(&mut s, '\n');
    }
    push_char(&mut s, '\n');
    s.append("# rmpl binaries\n");
    s.append("export PATH=\"");
    s.append(install_dir);
    s.append(":$PATH\"");
    s.append("\n");
    proof {
        reveal_strlit("export PATH=\"");
        reveal_strlit(":$PATH\"");
        assert(s@ =~= config_with_path(content@, install_dir@));
    }
    Some(s)
}

} // verus!
