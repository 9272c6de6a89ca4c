//! Where the surrounding tool keeps its configuration.  Paths are plain
//! strings here; the callers that touch the file system live outside the
//! library.

use vstd::prelude::*;

verus! {

/// The file name a project is described in.
pub const PROJECT_FILENAME: &'static str = "C.toml";

/// The directory under the platform's configuration directory.
pub const CONFIG_DIR_NAME: &'static str = "cretaceous";

/// The compiler catalog's file name.
pub const COMPILERS_FILENAME: &'static str = "compilers.toml";

/// Relies on `dirs::config_dir`: the platform's configuration directory,
/// if the platform defines one.  The result depends on the environment,
/// so nothing is promised of it.
#[verifier::external_body]
fn dirs_config_dir() -> (r: Option<String>)
{
    dirs::config_dir().map(|p| p.to_string_lossy().into_owned())
}

/// The tool's configuration directory: the platform's configuration
/// directory with `/cretaceous` appended, if the platform defines one.
pub fn config_dir() -> (r: Option<String>)
    ensures
        r matches Some(p) ==> {
            &&& p@.len() >= 11
            &&& p@.subrange(p@.len() - 11, p@.len() as int) == "/cretaceous"@
        },
{
    match dirs_config_dir() {
        Some(base) => {
            let mut dir = base;
            dir.append("/cretaceous");
            proof {
                reveal_strlit("/cretaceous");
                assert(dir@.subrange(dir@.len() - 11, dir@.len() as int) =~= "/cretaceous"@);
            }
            Some(dir)
        },
        None => None,
    }
}

/// The compiler catalog's path: `compilers.toml` in the configuration
/// directory, if the platform defines one.
pub fn compilers_file() -> (r: Option<String>)
    ensures
        r matches Some(p) ==> {
            &&& p@.len() >= 15
            &&& p@.subrange(p@.len() - 15, p@.len() as int) == "/compilers.toml"@
        },
{
    match config_dir() {
        Some(dir) => {
            let mut path = dir;
            path.append("/compilers.toml");
            proof {
                reveal_strlit("/compilers.toml");
                assert(path@.subrange(path@.len() - 15, path@.len() as int)
                    =~= "/compilers.toml"@);
            }
            Some(path)
        },
        None => None,
    }
}

} // verus!
