//! Where the program keeps its files.
//!
//! A path is held as its bytes, since a platform's paths need not be text.
use vstd::prelude::*;

verus! {

/// The directories that a platform gives a program, as the bytes of their
/// paths.
pub struct Dirs {
    /// Not every platform has one for state.
    pub state: Option<Vec<u8>>,
    pub data: Vec<u8>,
    pub cache: Vec<u8>,
    pub config: Vec<u8>,
    /// What stands between the parts of a path.
    pub separator: u8,
}

/// The bytes of a path, where there is one.
pub open spec fn path_view(path: Option<Vec<u8>>) -> Option<Seq<u8>> {
    match path {
        Some(p) => Some(p@),
        None => None,
    }
}

/// What stands between the parts of a path on Windows.
pub const BACKSLASH: u8 = 0x5C;

/// What stands between the parts of a path elsewhere; Windows reads it too.
pub const SLASH: u8 = 0x2F;

/// Whether a byte stands between the parts of a path.
pub open spec fn separates(c: u8, separator: u8) -> bool {
    c == separator || (separator == BACKSLASH && c == SLASH)
}

/// A Windows drive with nothing behind it, such as `C:`.
pub open spec fn bare_drive(dir: Seq<u8>, separator: u8) -> bool {
    &&& separator == BACKSLASH
    &&& dir.len() == 2
    &&& dir[1] == 0x3A
    &&& (0x41 <= dir[0] <= 0x5A || 0x61 <= dir[0] <= 0x7A)
}

/// A directory's entry of a name: a separator stands before the name, unless
/// the directory is empty, ends in one, or is a bare drive, whose own directory
/// then holds the name. A verbatim Windows path, one that starts with `\\?\`, is
/// joined by the same rule and not normalized.
pub open spec fn entry_path(dir: Seq<u8>, separator: u8, name: Seq<u8>) -> Seq<u8> {
    if dir.len() == 0 || separates(dir.last(), separator) || bare_drive(dir, separator) {
        dir + name
    } else {
        dir.push(separator) + name
    }
}

/// The name of the state directory in the data directory: `state`.
pub open spec fn state_name() -> Seq<u8> {
    seq![0x73u8, 0x74, 0x61, 0x74, 0x65]
}

/// The state directory: the platform's own, else `state` in the data
/// directory.
pub open spec fn state_path(native: Option<Seq<u8>>, data: Seq<u8>, separator: u8) -> Seq<u8> {
    match native {
        Some(d) => d,
        None => entry_path(data, separator, state_name()),
    }
}

/// The state directory: the platform's own, else `state` in the data
/// directory.
pub fn state_dir_or_fallback(native: Option<&[u8]>, data_dir: &[u8], separator: u8) -> (r: Vec<u8>)
    ensures
        r@ == state_path(
            match native {
                Some(d) => Some(d@),
                None => None,
            },
            data_dir@,
            separator,
        ),
{
    match native {
        Some(d) => copied(d),
        None => {
            let mut out = copied(data_dir);
            if wants_separator(data_dir, separator) {
                out.push(separator);
            }
            let ghost dir = out@;
            out.push(0x73);
            out.push(0x74);
            out.push(0x61);
            out.push(0x74);
            out.push(0x65);
            proof { assert(out@ =~= dir + state_name()); }
            out
        },
    }
}

fn wants_separator(dir: &[u8], separator: u8) -> (r: bool)
    ensures
        r == !(dir@.len() == 0 || separates(dir@.last(), separator) || bare_drive(dir@, separator)),
{
    let n: usize = dir.len();
    if n == 0 {
        return false;
    }
    let last: u8 = dir[n - 1];
    if last == separator || (separator == BACKSLASH && last == SLASH) {
        return false;
    }
    if separator == BACKSLASH && n == 2 && last == 0x3A {
        let drive: u8 = dir[0];
        return !((0x41 <= drive && drive <= 0x5A) || (0x61 <= drive && drive <= 0x7A));
    }
    true
}

fn copied(path: &[u8]) -> (r: Vec<u8>)
    ensures
        r@ == path@,
{
    let n: usize = path.len();
    let mut out: Vec<u8> = Vec::new();
    for i in 0..n
        invariant
            n == path@.len(),
            out@ == path@.take(i as int),
    {
        proof { assert(path@.take(i + 1) =~= path@.take(i as int).push(path@[i as int])); }
        out.push(path[i]);
    }
    proof { assert(path@.take(n as int) =~= path@); }
    out
}

/// The state directory among a platform's directories.
pub open spec fn state_of(dirs: Option<Dirs>) -> Option<Seq<u8>> {
    match dirs {
        Some(d) => Some(state_path(path_view(d.state), d.data@, d.separator)),
        None => None,
    }
}

/// The state directory among a platform's directories.
pub fn state_dir_of(dirs: &Option<Dirs>) -> (r: Option<Vec<u8>>)
    ensures
        path_view(r) == state_of(*dirs),
{
    match dirs {
        Some(d) => {
            let native = match &d.state {
                Some(s) => Some(s.as_slice()),
                None => None,
            };
            Some(state_dir_or_fallback(native, d.data.as_slice(), d.separator))
        },
        None => None,
    }
}

/// The program's name: `wikitui`.
pub open spec fn program_name() -> Seq<u8> {
    seq![0x77u8, 0x69, 0x6B, 0x69, 0x74, 0x75, 0x69]
}

/// The last part of a Windows data directory: `data`.
pub open spec fn data_name() -> Seq<u8> {
    seq![0x64u8, 0x61, 0x74, 0x61]
}

/// The last part of a Windows cache directory: `cache`.
pub open spec fn cache_name() -> Seq<u8> {
    seq![0x63u8, 0x61, 0x63, 0x68, 0x65]
}

/// The last part of a Windows configuration directory: `config`.
pub open spec fn config_name() -> Seq<u8> {
    seq![0x63u8, 0x6F, 0x6E, 0x66, 0x69, 0x67]
}

/// A path whose last part is a name, with a separator before it.
pub open spec fn ends_in(path: Seq<u8>, name: Seq<u8>) -> bool {
    let before = path.len() - name.len();
    &&& before > 0
    &&& path.skip(before) == name
    &&& (path[before - 1] == SLASH || path[before - 1] == BACKSLASH)
}

/// What holds of every platform's directories for this program: its own state
/// directory ends in the program's name, and so does each of the others, or on
/// Windows in the name of what it holds.
pub open spec fn given(dirs: Option<Dirs>) -> bool {
    match dirs {
        Some(d) => {
            &&& path_view(d.state) matches Some(p) ==> ends_in(p, program_name())
            &&& ends_in(d.data@, program_name()) || ends_in(d.data@, data_name())
            &&& ends_in(d.cache@, program_name()) || ends_in(d.cache@, cache_name())
            &&& ends_in(d.config@, program_name()) || ends_in(d.config@, config_name())
            &&& d.separator == SLASH || d.separator == BACKSLASH
        },
        None => true,
    }
}

/// Calls `directories::ProjectDirs::from` for this program, by its name, and
/// takes the bytes of its directories' paths, and `std::path::MAIN_SEPARATOR`.
/// Where they lie, and whether there are any, rests on the machine and its
/// environment. Claimed is how they end: every platform puts the program's name
/// behind a directory of its own, and Windows one more part behind that; and
/// that the separator is that of Unix or of Windows.
#[verifier::external_body]
fn project_dirs(name: &str) -> (r: Option<Dirs>)
    requires
        name@ == "wikitui"@,
    ensures
        given(r),
{
    let d = directories::ProjectDirs::from("", "", name)?;
    let state = match d.state_dir() {
        Some(p) => Some(p.as_os_str().as_encoded_bytes().to_vec()),
        None => None,
    };
    Some(Dirs {
        state,
        data: d.data_dir().as_os_str().as_encoded_bytes().to_vec(),
        cache: d.cache_dir().as_os_str().as_encoded_bytes().to_vec(),
        config: d.config_dir().as_os_str().as_encoded_bytes().to_vec(),
        separator: std::path::MAIN_SEPARATOR as u8,
    })
}

/// The data directory among a platform's directories.
pub open spec fn data_of(dirs: Option<Dirs>) -> Option<Seq<u8>> {
    match dirs {
        Some(d) => Some(d.data@),
        None => None,
    }
}

/// The data directory among a platform's directories.
pub fn data_dir_of(dirs: Option<Dirs>) -> (r: Option<Vec<u8>>)
    ensures
        path_view(r) == data_of(dirs),
{
    match dirs {
        Some(d) => Some(d.data),
        None => None,
    }
}

/// The cache directory among a platform's directories.
pub open spec fn cache_of(dirs: Option<Dirs>) -> Option<Seq<u8>> {
    match dirs {
        Some(d) => Some(d.cache@),
        None => None,
    }
}

/// The cache directory among a platform's directories.
pub fn cache_dir_of(dirs: Option<Dirs>) -> (r: Option<Vec<u8>>)
    ensures
        path_view(r) == cache_of(dirs),
{
    match dirs {
        Some(d) => Some(d.cache),
        None => None,
    }
}

/// The configuration directory among a platform's directories.
pub open spec fn config_of(dirs: Option<Dirs>) -> Option<Seq<u8>> {
    match dirs {
        Some(d) => Some(d.config@),
        None => None,
    }
}

/// The configuration directory among a platform's directories.
pub fn config_dir_of(dirs: Option<Dirs>) -> (r: Option<Vec<u8>>)
    ensures
        path_view(r) == config_of(dirs),
{
    match dirs {
        Some(d) => Some(d.config),
        None => None,
    }
}

/// The program's state directory, where the platform has a home for it: it is
/// the state directory among some directories that a platform can give.
pub fn wikitui_state_dir() -> (r: Option<Vec<u8>>)
    ensures
        exists|dirs: Option<Dirs>| given(dirs) && path_view(r) == #[trigger] state_of(dirs),
        path_view(r) matches Some(p) ==> ends_in(p, program_name()) || ends_in(p, state_name()),
{
    let dirs = project_dirs("wikitui");
    let r = state_dir_of(&dirs);
    proof {
        the_state_dir_is_the_programs(dirs);
        assert(path_view(r) == state_of(dirs));
    }
    r
}

/// The program's data directory, where the platform has a home for it: it is
/// the data directory among some directories that a platform can give.
pub fn wikitui_data_dir() -> (r: Option<Vec<u8>>)
    ensures
        exists|dirs: Option<Dirs>| given(dirs) && path_view(r) == #[trigger] data_of(dirs),
        path_view(r) matches Some(p) ==> ends_in(p, program_name()) || ends_in(p, data_name()),
{
    let dirs = project_dirs("wikitui");
    let ghost seen = dirs;
    let r = data_dir_of(dirs);
    proof { assert(path_view(r) == data_of(seen)); }
    r
}

/// The program's cache directory, where the platform has a home for it: it is
/// the cache directory among some directories that a platform can give.
pub fn wikitui_cache_dir() -> (r: Option<Vec<u8>>)
    ensures
        exists|dirs: Option<Dirs>| given(dirs) && path_view(r) == #[trigger] cache_of(dirs),
        path_view(r) matches Some(p) ==> ends_in(p, program_name()) || ends_in(p, cache_name()),
{
    let dirs = project_dirs("wikitui");
    let ghost seen = dirs;
    let r = cache_dir_of(dirs);
    proof { assert(path_view(r) == cache_of(seen)); }
    r
}

/// The program's configuration directory, where the platform has a home for it: it is
/// the configuration directory among some directories that a platform can give.
pub fn wikitui_config_dir() -> (r: Option<Vec<u8>>)
    ensures
        exists|dirs: Option<Dirs>| given(dirs) && path_view(r) == #[trigger] config_of(dirs),
        path_view(r) matches Some(p) ==> ends_in(p, program_name()) || ends_in(p, config_name()),
{
    let dirs = project_dirs("wikitui");
    let ghost seen = dirs;
    let r = config_dir_of(dirs);
    proof { assert(path_view(r) == config_of(seen)); }
    r
}

/// Whatever a platform gives, the state directory ends in the program's name or
/// in `state`.
pub proof fn the_state_dir_is_the_programs(dirs: Option<Dirs>)
    requires
        given(dirs),
    ensures
        state_of(dirs) matches Some(p) ==> ends_in(p, program_name()) || ends_in(p, state_name()),
{
    if let Some(d) = dirs {
        if d.state is None {
            let data = d.data@;
            let n = if ends_in(data, program_name()) {
                program_name()
            } else {
                data_name()
            };
            assert(data.last() == data.skip(data.len() - n.len()).last());
            let p = entry_path(data, d.separator, state_name());
            assert(p.skip(p.len() - state_name().len()) =~= state_name());
        }
    }
}

/// Without a state directory of the platform's own, state never goes into the
/// bare data directory.
pub proof fn the_fallback_is_not_the_data_dir(data: Seq<u8>, separator: u8)
    ensures
        state_path(None, data, separator) != data,
{
    assert(state_path(None, data, separator).len() > data.len());
}

} // verus!
