//! App launching and icon lookup, and the icon cache's file naming.

use vstd::prelude::*;

use crate::error::CoreError;
use vstd::string::StringExecFns;
use crate::paths::icon_cache_dir;
use crate::paths::join;
use crate::paths::path_join;

verus! {

/// Characters kept as they are in an icon cache key.
pub open spec fn is_safe_char(c: char) -> bool {
    ('a' <= c && c <= 'z') || ('A' <= c && c <= 'Z') || ('0' <= c && c <= '9') || c == '.' || c
        == '-'
}

/// `c` itself when it is safe, `_` otherwise.
pub open spec fn safe_char(c: char) -> char {
    if is_safe_char(c) {
        c
    } else {
        '_'
    }
}

/// The cache key of a path: each unsafe character replaced by `_`, then
/// `.png` appended.
pub open spec fn sanitize_spec(path: Seq<char>) -> Seq<char> {
    path.map_values(|c: char| safe_char(c)) + seq!['.', 'p', 'n', 'g']
}

/// Path → filesystem-safe key. Real `.app` paths only contain letters,
/// digits, dots, hyphens and spaces, so this loses little and stays
/// human-readable.
pub fn sanitize(path: &str) -> (r: String)
    ensures
        r@ == sanitize_spec(path@),
{
    let mut out: Vec<char> = Vec::new();
    for c in it: path.chars()
        invariant
            out@ == it.seq().take(it.index()).map_values(|c: char| safe_char(c)),
    {
        let keep = ('a' <= c && c <= 'z') || ('A' <= c && c <= 'Z') || ('0' <= c && c <= '9')
            || c == '.' || c == '-';
        let ghost before = out@;
        if keep {
            out.push(c);
        } else {
            out.push('_');
        }
        assert(out@ =~= it.seq().take(it.index() + 1).map_values(|c: char| safe_char(c))) by {
            assert(it.seq().take(it.index() + 1) =~= it.seq().take(it.index()).push(c));
        }
    }
    out.push('.');
    out.push('p');
    out.push('n');
    out.push('g');
    assert(out@ =~= sanitize_spec(path@));
    crate::text::string_of(&out)
}

/// Every character of a cache key is a letter, a digit, `.`, `-` or `_`,
/// and the key ends in `.png`.
pub proof fn lemma_sanitize_is_safe(path: Seq<char>)
    ensures
        forall|i: int|
            0 <= i < sanitize_spec(path).len() ==> is_safe_char(#[trigger] sanitize_spec(path)[i])
                || sanitize_spec(path)[i] == '_',
        sanitize_spec(path).len() == path.len() + 4,
        sanitize_spec(path).skip(path.len() as int) == seq!['.', 'p', 'n', 'g'],
{
    assert(sanitize_spec(path).skip(path.len() as int) =~= seq!['.', 'p', 'n', 'g']);
}

/// Where the icon of the app at `path` is cached.
pub fn cache_path_for(home: &str, path: &str) -> (r: String)
    ensures
        r@ == path_join(path_join(crate::paths::cache_dir_spec(home@), "icons"@), sanitize_spec(path@)),
{
    let dir = icon_cache_dir(home);
    let key = sanitize(path);
    join(dir.as_str(), key.as_str())
}

// ---------------------------------------------------------------------------
// Launching
// ---------------------------------------------------------------------------

/// How running `/usr/bin/open` ended.
pub enum OpenOutcome {
    /// The program could not be started: the error's message.
    SpawnFailed(String),
    /// The program ran: whether it exited successfully, and its exit
    /// status as text.
    Exited { success: bool, status: String },
}

/// The command that launches the app bundle at `path`: `/usr/bin/open`,
/// with the path as its only argument.
pub fn open_command(path: &str) -> (r: (String, Vec<String>))
    ensures
        r.0@ == "/usr/bin/open"@,
        r.1@.len() == 1,
        r.1@[0]@ == path@,
{
    let mut args: Vec<String> = Vec::new();
    args.push(path.to_string());
    ("/usr/bin/open".to_string(), args)
}

/// The error message of a launch, when it failed.
pub open spec fn launch_error(outcome: OpenOutcome) -> Option<Seq<char>> {
    match outcome {
        OpenOutcome::SpawnFailed(e) => Some("spawn /usr/bin/open: "@ + e@),
        OpenOutcome::Exited { success, status } => if success {
            None
        } else {
            Some("/usr/bin/open exited with "@ + status@)
        },
    }
}

/// The result of launching an app from how running `/usr/bin/open` (see
/// `open_command`) ended: `Ok` exactly when it ran and exited
/// successfully; otherwise an error naming the failure.
pub fn launch(outcome: OpenOutcome) -> (r: Result<(), CoreError>)
    ensures
        match launch_error(outcome) {
            None => r is Ok,
            Some(msg) => r matches Err(CoreError::Other(m)) && m@ == msg,
        },
{
    match outcome {
        OpenOutcome::SpawnFailed(e) => {
            let mut m = "spawn /usr/bin/open: ".to_string();
            m.append(e.as_str());
            Err(CoreError::Other(m))
        },
        OpenOutcome::Exited { success, status } => if success {
            Ok(())
        } else {
            let mut m = "/usr/bin/open exited with ".to_string();
            m.append(status.as_str());
            Err(CoreError::Other(m))
        },
    }
}

// ---------------------------------------------------------------------------
// Icons
// ---------------------------------------------------------------------------

/// The icon of an app as PNG bytes, given what its cache file held
/// (`cached`; `None` when it could not be read) and the extraction of the
/// icon from the system (`extract`, run only on a cache miss). A cached icon
/// is returned as it is; otherwise the extraction's result is returned, and
/// the flag says whether its bytes are fresh and must be written to the
/// cache.
pub fn icon_png<F: FnOnce() -> Result<Vec<u8>, CoreError>>(cached: Option<Vec<u8>>, extract: F) -> (r: (
    Result<Vec<u8>, CoreError>,
    bool,
))
    requires
        cached is None ==> call_requires(extract, ()),
    ensures
        cached matches Some(b) ==> r.0 matches Ok(x) && x@ == b@ && !r.1,
        cached is None ==> call_ensures(extract, (), r.0) && r.1 == (r.0 is Ok),
{
    match cached {
        Some(b) => (Ok(b), false),
        None => {
            let fresh = extract();
            let store = fresh.is_ok();
            (fresh, store)
        },
    }
}

} // verus!
