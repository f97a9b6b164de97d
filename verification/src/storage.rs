//! Where the task list is kept, and the configuration-directory paths of the
//! data files.
use vstd::prelude::*;
use std::path::PathBuf;

verus! {

/// `std::path::PathBuf`, held and handed on as it is.
#[verifier::external_type_specification]
#[verifier::external_body]
pub struct ExPathBuf(PathBuf);

/// `dirs::config_dir`: the user's configuration directory, where the platform
/// has one. What it returns depends on the environment (`$XDG_CONFIG_HOME`,
/// `$HOME`), so nothing is stated of it.
#[verifier::external_body]
fn config_dir() -> Option<PathBuf> {
    dirs::config_dir()
}

/// The path that `PathBuf::from` makes of a text.
pub uninterp spec fn path_of(s: Seq<char>) -> PathBuf;

/// The path that `Path::join` makes of a base path and a further component.
pub uninterp spec fn joined(base: PathBuf, part: Seq<char>) -> PathBuf;

/// `PathBuf::from` on a string: the path of that text, as named by
/// `path_of`.
#[verifier::external_body]
fn path_from(s: &str) -> (r: PathBuf)
    ensures
        r == path_of(s@),
{
    PathBuf::from(s)
}

/// `Path::join`: `base` followed by the component `part`, as named by
/// `joined`.
#[verifier::external_body]
fn path_join(base: &PathBuf, part: &str) -> (r: PathBuf)
    ensures
        r == joined(*base, part@),
{
    base.join(part)
}

/// The path `dir/file` under the configuration directory `cfg`, or under `.`
/// where there is none.
pub open spec fn config_path(cfg: Option<PathBuf>, dir: Seq<char>, file: Seq<char>) -> PathBuf {
    let base = match cfg {
        Some(d) => d,
        None => path_of("."@),
    };
    joined(joined(base, dir), file)
}

/// Where the configuration directory `d` is known, the file is `d/dir/file`;
/// where it is not, `./dir/file`.
pub proof fn lemma_config_path_base(d: PathBuf, dir: Seq<char>, file: Seq<char>)
    ensures
        config_path(Some(d), dir, file) == joined(joined(d, dir), file),
        config_path(None, dir, file) == joined(joined(path_of("."@), dir), file),
{
}

/// The path `dir/file` under the configuration directory `cfg`, or under `.`
/// where there is none.
pub fn config_file_in(cfg: Option<PathBuf>, dir: &str, file: &str) -> (r: PathBuf)
    ensures
        r == config_path(cfg, dir@, file@),
{
    let base = match cfg {
        Some(d) => d,
        None => path_from("."),
    };
    let sub = path_join(&base, dir);
    path_join(&sub, file)
}

/// The path `dir/file` under the user's configuration directory, or under
/// `.` where there is none. Which directory that is comes from the
/// environment.
pub fn config_file(dir: &str, file: &str) -> (r: PathBuf)
    ensures
        exists|cfg: Option<PathBuf>| r == config_path(cfg, dir@, file@),
{
    let cfg = config_dir();
    let r = config_file_in(cfg, dir, file);
    assert(r == config_path(cfg, dir@, file@));
    r
}

/// The task list kept as a JSON file at a path.
pub struct JsonStorage {
    path: PathBuf,
}

impl JsonStorage {
    /// Where the list is kept.
    pub closed spec fn location(&self) -> PathBuf {
        self.path
    }

    /// The task list kept at `path`.
    pub fn new(path: PathBuf) -> (s: Self)
        ensures
            s.location() == path,
    {
        JsonStorage { path }
    }

    /// The path of the list's file.
    pub fn path(&self) -> (p: &PathBuf)
        ensures
            *p == self.location(),
    {
        &self.path
    }
}

impl Default for JsonStorage {
    /// The task list at `todo/tasks.json` under the user's configuration
    /// directory (under `.` where there is none).
    fn default() -> (s: Self)
        ensures
            exists|cfg: Option<PathBuf>|
                s.location() == config_path(cfg, "todo"@, "tasks.json"@),
    {
        JsonStorage { path: config_file("todo", "tasks.json") }
    }
}

} // verus!
