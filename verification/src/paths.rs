//! Filesystem paths as strings, and the well-known Saya locations under a
//! home directory.
//!
//! Path manipulation goes through `std::path`. Joining and path equality
//! are stated as `std` documents them for Unix paths; what the other calls
//! return is named, with the facts callers need.

use vstd::prelude::*;

verus! {

/// What `PathBuf::push` makes of `base` extended by `rest` on Unix: an
/// absolute `rest` (starting with `/`) replaces `base`; otherwise `rest` is
/// appended, after a `/` when `base` is not empty and does not already end
/// with one.
pub open spec fn path_join(base: Seq<char>, rest: Seq<char>) -> Seq<char> {
    if rest.len() > 0 && rest[0] == '/' {
        rest
    } else if base.len() > 0 && base.last() != '/' {
        base + seq!['/'] + rest
    } else {
        base + rest
    }
}

/// The strings of the components that `Path::components` yields for `p`.
pub uninterp spec fn path_components(p: Seq<char>) -> Seq<Seq<char>>;

/// What `Path::extension` returns for `p`.
pub uninterp spec fn path_extension(p: Seq<char>) -> Option<Seq<char>>;

/// What `Path::file_stem` returns for `p`.
pub uninterp spec fn path_file_stem(p: Seq<char>) -> Option<Seq<char>>;

/// What `Path::file_name` returns for `p`.
pub uninterp spec fn path_file_name(p: Seq<char>) -> Option<Seq<char>>;

/// Whether `Path`'s `==` holds between `a` and `b`: it compares their
/// components (a component's string determines the component).
pub open spec fn same_path(a: Seq<char>, b: Seq<char>) -> bool {
    path_components(a) == path_components(b)
}

/// The path built by pushing the first `k` of `comps`, one after another,
/// onto an empty path.
pub open spec fn join_prefix(comps: Seq<Seq<char>>, k: int) -> Seq<char>
    decreases k,
{
    if k <= 0 {
        Seq::empty()
    } else {
        path_join(join_prefix(comps, k - 1), comps[k - 1])
    }
}

/// What `Path::starts_with` decides: the components of `base` are the
/// first components of `p` ("only considers whole path components").
pub open spec fn path_starts_with(p: Seq<char>, base: Seq<char>) -> bool {
    path_components(base).is_prefix_of(path_components(p))
}

pub open spec fn opt_string_is(r: Option<String>, v: Option<Seq<char>>) -> bool {
    match r {
        Some(s) => v == Some(s@),
        None => v is None,
    }
}

/// Calls `PathBuf::push` on `base` with `rest` (`Path::join`); the result is
/// as `path_join` states it for Unix.
#[verifier::external_body]
pub(crate) fn join(base: &str, rest: &str) -> (r: String)
    ensures
        r@ == path_join(base@, rest@),
{
    std::path::Path::new(base).join(rest).to_string_lossy().into_owned()
}

/// Calls `Path::components` on `p` and takes the string of each component.
/// The result is named. The contract also claims that the components are a
/// faithful reading of the path: pushing the first `k` of them onto an
/// empty `PathBuf` builds a path whose components are exactly those `k`
/// (the components are already normalised, a normal component holds no
/// separator, and the root or a leading `.` can only come first).
#[verifier::external_body]
pub(crate) fn components(p: &str) -> (r: Vec<String>)
    ensures
        r@.map_values(|s: String| s@) == path_components(p@),
        forall|k: int|
            0 <= k <= r@.len() ==> path_components(#[trigger] join_prefix(path_components(p@), k))
                == path_components(p@).take(k),
{
    std::path::Path::new(p).components().map(
        |c| c.as_os_str().to_string_lossy().into_owned(),
    ).collect()
}

/// Calls `Path::extension` on `p`. The result is named.
#[verifier::external_body]
pub(crate) fn extension(p: &str) -> (r: Option<String>)
    ensures
        opt_string_is(r, path_extension(p@)),
{
    std::path::Path::new(p).extension().map(|e| e.to_string_lossy().into_owned())
}

/// Calls `Path::file_stem` on `p`. The result is named.
#[verifier::external_body]
pub(crate) fn file_stem(p: &str) -> (r: Option<String>)
    ensures
        opt_string_is(r, path_file_stem(p@)),
{
    std::path::Path::new(p).file_stem().map(|e| e.to_string_lossy().into_owned())
}

/// Calls `Path::file_name` on `p`. The result is named.
#[verifier::external_body]
pub(crate) fn file_name(p: &str) -> (r: Option<String>)
    ensures
        opt_string_is(r, path_file_name(p@)),
{
    std::path::Path::new(p).file_name().map(|e| e.to_string_lossy().into_owned())
}

/// Calls `==` on `Path::new(a)` and `Path::new(b)`, which compares the
/// paths' components (`same_path`).
#[verifier::external_body]
pub(crate) fn paths_equal(a: &str, b: &str) -> (r: bool)
    ensures
        r == same_path(a@, b@),
{
    std::path::Path::new(a) == std::path::Path::new(b)
}

// ---------------------------------------------------------------------------
// Well-known locations
// ---------------------------------------------------------------------------

/// `<home>/Library/Application Support/Saya`.
pub open spec fn data_dir_spec(home: Seq<char>) -> Seq<char> {
    path_join(home, "Library/Application Support/Saya"@)
}

pub open spec fn cache_dir_spec(home: Seq<char>) -> Seq<char> {
    path_join(home, "Library/Caches/Saya"@)
}

pub open spec fn log_dir_spec(home: Seq<char>) -> Seq<char> {
    path_join(home, "Library/Logs/Saya"@)
}

/// `~/Library/Application Support/Saya/` for the home directory `home`
/// (empty when `HOME` is unset).
pub fn data_dir(home: &str) -> (r: String)
    ensures
        r@ == data_dir_spec(home@),
{
    join(home, "Library/Application Support/Saya")
}

/// The database file inside the data directory.
pub fn default_db_path(home: &str) -> (r: String)
    ensures
        r@ == path_join(data_dir_spec(home@), "saya.db"@),
{
    let dir = data_dir(home);
    join(dir.as_str(), "saya.db")
}

/// `~/Library/Caches/Saya/`: cached artifacts that can be regenerated on
/// demand (icons, the app list).
pub fn cache_dir(home: &str) -> (r: String)
    ensures
        r@ == cache_dir_spec(home@),
{
    join(home, "Library/Caches/Saya")
}

/// The icon cache inside the cache directory.
pub fn icon_cache_dir(home: &str) -> (r: String)
    ensures
        r@ == path_join(cache_dir_spec(home@), "icons"@),
{
    let dir = cache_dir(home);
    join(dir.as_str(), "icons")
}

/// `~/Library/Logs/Saya/`: append-only operational logs.
pub fn log_dir(home: &str) -> (r: String)
    ensures
        r@ == log_dir_spec(home@),
{
    join(home, "Library/Logs/Saya")
}

/// The log file inside the log directory.
pub fn default_log_path(home: &str) -> (r: String)
    ensures
        r@ == path_join(log_dir_spec(home@), "saya.log"@),
{
    let dir = log_dir(home);
    join(dir.as_str(), "saya.log")
}

} // verus!
