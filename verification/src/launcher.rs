//! Application launcher index: the known apps, kept in lowercased-name
//! order, incremental updates from filesystem events, and query matching.
//!
//! Display name = bundle file stem. Paths are strings.

use vstd::prelude::*;

use crate::paths::components;
use crate::paths::extension;
use crate::paths::file_name;
use crate::paths::file_stem;
use crate::paths::join;
use crate::paths::join_prefix;
use crate::paths::path_starts_with;
use crate::paths::path_components;
use crate::paths::path_extension;
use crate::paths::path_file_name;
use crate::paths::path_file_stem;
use crate::paths::path_join;
use crate::paths::paths_equal;
use crate::paths::same_path;
use crate::database::MruInfo;
use crate::matcher::base_spec;
use crate::matcher::checked_score;
use crate::matcher::clock_diff;
use crate::matcher::mru_bonus;
use crate::matcher::mru_bonus_for;
use crate::matcher::score;
use crate::matcher::score_safe;
use crate::matcher::score_spec;
use crate::sorting::seq_lt;
use crate::text::lower_of;
use crate::text::lowercase_chars;
use std::collections::HashMap;
use crate::text::chars_of;
use crate::text::lowercase;
use crate::text::str_lowercase;

verus! {

/// One installed application.
#[derive(Debug)]
pub struct AppEntry {
    pub name: String,
    pub path: String,
}

impl Clone for AppEntry {
    fn clone(&self) -> (r: Self)
        ensures
            r == *self,
    {
        AppEntry { name: self.name.clone(), path: self.path.clone() }
    }
}

/// An app together with its match score.
#[derive(Debug)]
pub struct MatchedApp {
    pub app: AppEntry,
    pub score: i32,
}

impl Clone for MatchedApp {
    fn clone(&self) -> (r: Self)
        ensures
            r == *self,
    {
        MatchedApp { app: self.app.clone(), score: self.score }
    }
}

/// Name and path of an app.
pub open spec fn app_view(a: AppEntry) -> (Seq<char>, Seq<char>) {
    (a.name@, a.path@)
}

pub open spec fn apps_view(s: Seq<AppEntry>) -> Seq<(Seq<char>, Seq<char>)> {
    s.map_values(|a: AppEntry| app_view(a))
}

/// The key the index is ordered by: the lowercased name.
pub open spec fn name_key(a: AppEntry) -> Seq<char> {
    str_lowercase(a.name@)
}

/// The key of the app at position `i`.
pub open spec fn key_at(s: Seq<AppEntry>, i: usize) -> Seq<char> {
    name_key(s[i as int])
}

/// The apps are in non-decreasing lowercased-name order.
pub open spec fn names_sorted(s: Seq<AppEntry>) -> bool {
    forall|i: int, j: int|
        0 <= i < j < s.len() ==> !seq_lt(name_key(#[trigger] s[j]), name_key(#[trigger] s[i]))
}

/// Some app of `s` is at `path`.
pub open spec fn has_path(s: Seq<AppEntry>, path: Seq<char>) -> bool {
    exists|i: int| 0 <= i < s.len() && same_path(#[trigger] s[i].path@, path)
}

/// Some app of `s` has `path` as its path string.
pub open spec fn has_path_string(s: Seq<AppEntry>, path: Seq<char>) -> bool {
    exists|i: int| 0 <= i < s.len() && (#[trigger] s[i]).path@ == path
}

// ---------------------------------------------------------------------------
// Bundle paths from filesystem events
// ---------------------------------------------------------------------------

/// A path whose extension is `app`: an application bundle.
pub open spec fn is_app_path(p: Seq<char>) -> bool {
    path_extension(p) == Some(seq!['a', 'p', 'p'])
}

/// The shortest prefix of at least `k + 1` components that is a bundle.
pub open spec fn first_app_prefix(comps: Seq<Seq<char>>, k: int) -> Option<Seq<char>>
    decreases comps.len() - k,
{
    if k < 0 || k >= comps.len() {
        None
    } else if is_app_path(join_prefix(comps, k + 1)) {
        Some(join_prefix(comps, k + 1))
    } else {
        first_app_prefix(comps, k + 1)
    }
}

fn is_app_ext(p: &str) -> (r: bool)
    ensures
        r == is_app_path(p@),
{
    match extension(p) {
        Some(e) => {
            let c = chars_of(e.as_str());
            let r = c.len() == 3 && c[0] == 'a' && c[1] == 'p' && c[2] == 'p';
            assert(r == (c@ =~= seq!['a', 'p', 'p']));
            r
        },
        None => false,
    }
}

/// Rebuilding from the first `n` components reads only those.
proof fn lemma_join_prefix_take(cs: Seq<Seq<char>>, n: int, j: int)
    requires
        0 <= j <= n <= cs.len(),
    ensures
        join_prefix(cs.take(n), j) == join_prefix(cs, j),
    decreases j,
{
    if j > 0 {
        lemma_join_prefix_take(cs, n, j - 1);
        assert(cs.take(n)[j - 1] == cs[j - 1]);
    }
}

/// When the first `n` components end in a bundle, searching only those
/// finds what searching all of them finds.
proof fn lemma_first_app_prefix_take(cs: Seq<Seq<char>>, n: int, j: int)
    requires
        0 <= j < n <= cs.len(),
        is_app_path(join_prefix(cs, n)),
    ensures
        first_app_prefix(cs.take(n), j) == first_app_prefix(cs, j),
    decreases n - j,
{
    lemma_join_prefix_take(cs, n, j + 1);
    if j + 1 < n {
        lemma_first_app_prefix_take(cs, n, j + 1);
    }
}

/// Collapses a path to its enclosing `.app` bundle: the shortest leading
/// run of components whose extension is `app` (the outermost bundle), or
/// `None`. The path starts with the bundle found, and collapsing that
/// bundle path again gives it back.
pub fn extract_app_path(p: &str) -> (r: Option<String>)
    ensures
        crate::paths::opt_string_is(r, first_app_prefix(path_components(p@), 0)),
        r matches Some(s) ==> path_starts_with(p@, s@) && first_app_prefix(
            path_components(s@),
            0,
        ) == Some(s@),
{
    let comps = components(p);
    let ghost cs = path_components(p@);
    assert(cs.len() == comps@.len());
    let mut result = String::new();
    let mut k: usize = 0;
    while k < comps.len()
        invariant
            cs == path_components(p@),
            cs.len() == comps@.len(),
            forall|i: int| 0 <= i < cs.len() ==> #[trigger] cs[i] == comps@[i]@,
            k <= comps.len(),
            result@ == join_prefix(cs, k as int),
            first_app_prefix(cs, 0) == first_app_prefix(cs, k as int),
            forall|j: int|
                0 <= j <= comps@.len() ==> path_components(
                    #[trigger] join_prefix(path_components(p@), j),
                ) == path_components(p@).take(j),
        decreases comps.len() - k,
    {
        assert(cs[k as int] == comps@[k as int]@);
        result = join(result.as_str(), comps[k].as_str());
        if is_app_ext(result.as_str()) {
            proof {
                let n: int = k + 1;
                assert(result@ == join_prefix(cs, n));
                assert(0 <= n <= comps@.len());
                assert(path_components(join_prefix(path_components(p@), n)) == path_components(
                    p@,
                ).take(n));
                assert(path_components(result@) == cs.take(n));
                assert(cs.take(n).is_prefix_of(cs));
                lemma_first_app_prefix_take(cs, n, 0);
            }
            return Some(result);
        }
        k += 1;
    }
    None
}

/// A bundle path found by `first_app_prefix` has extension `app`.
pub proof fn lemma_extracted_is_bundle(comps: Seq<Seq<char>>, k: int)
    requires
        first_app_prefix(comps, k) is Some,
    ensures
        is_app_path(first_app_prefix(comps, k)->0),
    decreases comps.len() - k,
{
    if !is_app_path(join_prefix(comps, k + 1)) {
        lemma_extracted_is_bundle(comps, k + 1);
    }
}

// ---------------------------------------------------------------------------
// Incremental updates
// ---------------------------------------------------------------------------

/// Position of the first app at `path` in `s`, searching from `from`.
pub open spec fn first_at_path(s: Seq<AppEntry>, path: Seq<char>, from: int) -> Option<int>
    decreases s.len() - from,
{
    if from < 0 || from >= s.len() {
        None
    } else if same_path(s[from].path@, path) {
        Some(from)
    } else {
        first_at_path(s, path, from + 1)
    }
}

/// No two apps of `s` are at the same path.
pub open spec fn distinct_paths(s: Seq<AppEntry>) -> bool {
    forall|i: int, j: int|
        0 <= i < s.len() && 0 <= j < s.len() && i != j ==> !same_path(
            #[trigger] s[i].path@,
            #[trigger] s[j].path@,
        )
}

/// What `insert` makes of `old` for a bundle at `path`; it keeps the paths
/// pairwise distinct.
pub open spec fn insert_post(old: Seq<AppEntry>, path: Seq<char>, new: Seq<AppEntry>) -> bool {
    &&& (distinct_paths(old) ==> distinct_paths(new))
    &&& match path_file_stem(path) {
        None => apps_view(new) == apps_view(old),
        Some(stem) => if has_path(old, path) || has_path_string(old, path) {
            apps_view(new) == apps_view(old)
        } else {
            exists|p: int|
                0 <= p <= old.len() && apps_view(new) == apps_view(old).insert(p, (stem, path))
                    && (names_sorted(old) ==> names_sorted(new))
        },
    }
}

/// What `remove` makes of `old` for a bundle at `path`.
pub open spec fn remove_post(old: Seq<AppEntry>, path: Seq<char>, new: Seq<AppEntry>) -> bool {
    match first_at_path(old, path, 0) {
        None => apps_view(new) == apps_view(old) && !has_path_string(old, path),
        Some(i) => apps_view(new) == apps_view(old).remove(i) && forall|j: int|
            0 <= j < i ==> (#[trigger] old[j]).path@ != path,
    }
}

/// Whether the lowercased name of `a` orders before, equal to, or after
/// `key`.
pub fn compare_lowercase_name(a: &AppEntry, key: &[char]) -> (r: std::cmp::Ordering)
    ensures
        (r == std::cmp::Ordering::Less) == seq_lt(name_key(*a), key@),
        (r == std::cmp::Ordering::Greater) == seq_lt(key@, name_key(*a)),
        (r == std::cmp::Ordering::Equal) == (name_key(*a) == key@),
{
    let low = lowercase(a.name.as_str());
    let lc = chars_of(low.as_str());
    if crate::sorting::text_lt(lc.as_slice(), key) {
        proof {
            crate::sorting::lemma_seq_lt_asym(lc@, key@);
            crate::sorting::lemma_seq_lt_irrefl(key@);
        }
        std::cmp::Ordering::Less
    } else if crate::sorting::text_lt(key, lc.as_slice()) {
        proof {
            crate::sorting::lemma_seq_lt_irrefl(key@);
        }
        std::cmp::Ordering::Greater
    } else {
        proof {
            crate::sorting::lemma_seq_lt_total(lc@, key@);
        }
        std::cmp::Ordering::Equal
    }
}

/// Calls `slice::binary_search_by` on `apps`, comparing each entry's
/// lowercased name against `key` with `compare_lowercase_name`. As the
/// documentation of `binary_search_by` states, when the slice is sorted
/// under that comparison, `Ok(i)` names an entry whose key equals `key` and
/// `Err(i)` the position where `key` can be inserted keeping the order.
/// Nothing is claimed for an unsorted slice.
#[verifier::external_body]
fn search_lowercase_name(apps: &[AppEntry], key: &[char]) -> (r: Result<usize, usize>)
    ensures
        names_sorted(apps@) ==> match r {
            Ok(i) => i < apps@.len() && key_at(apps@, i) == key@,
            Err(i) => i <= apps@.len() && (forall|j: int|
                0 <= j < i ==> seq_lt(name_key(#[trigger] apps@[j]), key@)) && (forall|j: int|
                i <= j < apps@.len() ==> seq_lt(key@, name_key(#[trigger] apps@[j]))),
        },
{
    apps.binary_search_by(|a| compare_lowercase_name(a, key))
}

/// Adds the bundle at `path` to `apps`, named by its file stem, at the
/// position that keeps lowercased-name order; no-op when the path has no
/// file stem or some app is already at that path.
pub fn insert(path: &str, apps: &mut Vec<AppEntry>)
    ensures
        insert_post(old(apps)@, path@, final(apps)@),
{
    let name = match file_stem(path) {
        Some(n) => n,
        None => return ,
    };
    let mut i: usize = 0;
    while i < apps.len()
        invariant
            i <= apps@.len(),
            apps@ == old(apps)@,
            forall|k: int| 0 <= k < i ==> !same_path(#[trigger] apps@[k].path@, path@),
            forall|k: int| 0 <= k < i ==> !same_path(path@, #[trigger] apps@[k].path@),
            forall|k: int| 0 <= k < i ==> (#[trigger] apps@[k]).path@ != path@,
        decreases apps.len() - i,
    {
        if paths_equal(apps[i].path.as_str(), path) {
            assert(has_path(apps@, path@));
            return ;
        }
        i += 1;
    }
    let key = lowercase(name.as_str());
    let key_chars = chars_of(key.as_str());
    let found = search_lowercase_name(apps.as_slice(), key_chars.as_slice());
    let pos = match found {
        Ok(p) => p,
        Err(p) => p,
    };
    let pos = if pos > apps.len() {
        apps.len()
    } else {
        pos
    };
    let entry = AppEntry { name, path: path.to_owned() };
    let ghost before = apps@;
    apps.insert(pos, entry);
    proof {
        assert(apps_view(apps@) =~= apps_view(before).insert(pos as int, app_view(entry)));
        if distinct_paths(before) {
            assert forall|a: int, b: int|
                0 <= a < apps@.len() && 0 <= b < apps@.len() && a != b implies !same_path(
                #[trigger] apps@[a].path@,
                #[trigger] apps@[b].path@,
            ) by {
                let oa = if a < pos { a } else { a - 1 };
                let ob = if b < pos { b } else { b - 1 };
                if a != pos && b != pos {
                    assert(apps@[a] == before[oa] && apps@[b] == before[ob]);
                } else if a == pos {
                    assert(apps@[b] == before[ob]);
                    assert(!same_path(path@, before[ob].path@));
                } else {
                    assert(apps@[a] == before[oa]);
                    assert(!same_path(before[oa].path@, path@));
                }
            }
        }
        if names_sorted(before) {
            assert(name_key(entry) == key_chars@);
            assert forall|a: int, b: int| 0 <= a < b < apps@.len() implies !seq_lt(
                name_key(#[trigger] apps@[b]),
                name_key(#[trigger] apps@[a]),
            ) by {
                lemma_insert_keeps_sorted(before, entry, pos as int, found, a, b);
            }
        }
    }
}

proof fn lemma_insert_keeps_sorted(
    s: Seq<AppEntry>,
    e: AppEntry,
    p: int,
    found: Result<usize, usize>,
    a: int,
    b: int,
)
    requires
        names_sorted(s),
        0 <= p <= s.len(),
        0 <= a < b < s.len() + 1,
        match found {
            Ok(i) => i == p && i < s.len() && name_key(s[i as int]) == name_key(e),
            Err(i) => i == p && (forall|j: int| 0 <= j < i ==> seq_lt(name_key(#[trigger] s[j]), name_key(e))) && (
            forall|j: int| i <= j < s.len() ==> seq_lt(name_key(e), name_key(#[trigger] s[j]))),
        },
    ensures
        !seq_lt(name_key(s.insert(p, e)[b]), name_key(s.insert(p, e)[a])),
{
    let t = s.insert(p, e);
    if a < p && b == p {
        crate::sorting::lemma_seq_lt_irrefl(name_key(e));
        if found is Err {
            crate::sorting::lemma_seq_lt_asym(name_key(s[a]), name_key(e));
        } else {
            assert(!seq_lt(name_key(s[p]), name_key(s[a])));
        }
    } else if a == p && b > p {
        assert(t[b] == s[b - 1]);
        if found is Err {
            crate::sorting::lemma_seq_lt_asym(name_key(e), name_key(s[b - 1]));
        } else {
            crate::sorting::lemma_seq_lt_irrefl(name_key(e));
            if b - 1 > p {
                assert(!seq_lt(name_key(s[b - 1]), name_key(s[p])));
            }
        }
    } else if a < p && b > p {
        assert(t[a] == s[a]);
        assert(t[b] == s[b - 1]);
    } else if a > p {
        assert(t[a] == s[a - 1]);
        assert(t[b] == s[b - 1]);
    } else {
        assert(t[a] == s[a]);
        assert(t[b] == s[b]);
    }
}

/// Drops the first app at `path` from `apps`, if any.
pub fn remove(path: &str, apps: &mut Vec<AppEntry>)
    ensures
        remove_post(old(apps)@, path@, final(apps)@),
{
    let mut i: usize = 0;
    while i < apps.len()
        invariant
            i <= apps@.len(),
            apps@ == old(apps)@,
            first_at_path(apps@, path@, 0) == first_at_path(apps@, path@, i as int),
            forall|k: int| 0 <= k < i ==> (#[trigger] apps@[k]).path@ != path@,
        decreases apps.len() - i,
    {
        if paths_equal(apps[i].path.as_str(), path) {
            let ghost before = apps@;
            apps.remove(i);
            assert(apps_view(apps@) =~= apps_view(before).remove(i as int));
            return ;
        }
        i += 1;
    }
}

proof fn lemma_first_at_path_props(s: Seq<AppEntry>, path: Seq<char>, from: int)
    requires
        0 <= from,
    ensures
        first_at_path(s, path, from) matches Some(i) ==> from <= i < s.len() && same_path(
            s[i].path@,
            path,
        ) && forall|j: int| from <= j < i ==> !same_path(#[trigger] s[j].path@, path),
        first_at_path(s, path, from) is None ==> forall|j: int|
            from <= j < s.len() ==> !same_path(#[trigger] s[j].path@, path),
    decreases s.len() - from,
{
    if from < s.len() && !same_path(s[from].path@, path) {
        lemma_first_at_path_props(s, path, from + 1);
    }
}

/// Inserting the same bundle twice is the same as inserting it once.
pub proof fn lemma_insert_idempotent(
    a: Seq<AppEntry>,
    b: Seq<AppEntry>,
    c: Seq<AppEntry>,
    path: Seq<char>,
)
    requires
        insert_post(a, path, b),
        insert_post(b, path, c),
    ensures
        apps_view(c) == apps_view(b),
{
    if path_file_stem(path) is Some {
        if has_path(a, path) {
            let i = choose|i: int| 0 <= i < a.len() && same_path(#[trigger] a[i].path@, path);
            assert(apps_view(b).len() == b.len() && apps_view(a).len() == a.len());
            assert(apps_view(b)[i] == app_view(b[i]) && apps_view(a)[i] == app_view(a[i]));
            assert(same_path(b[i].path@, path));
        } else if has_path_string(a, path) {
            let i = choose|i: int| 0 <= i < a.len() && (#[trigger] a[i]).path@ == path;
            assert(apps_view(b).len() == b.len() && apps_view(a).len() == a.len());
            assert(apps_view(b)[i] == app_view(b[i]) && apps_view(a)[i] == app_view(a[i]));
            assert(b[i].path@ == path);
        } else {
            let p = choose|p: int|
                0 <= p <= a.len() && apps_view(b) == apps_view(a).insert(
                    p,
                    (path_file_stem(path)->0, path),
                ) && (names_sorted(a) ==> names_sorted(b));
            assert(apps_view(b).len() == b.len());
            assert(apps_view(b)[p] == app_view(b[p]));
            assert(b[p].path@ == path);
        }
    }
}

/// Removing a bundle right after inserting it into an index with no app at
/// that path gives back the index it started from.
pub proof fn lemma_insert_then_remove(
    a: Seq<AppEntry>,
    b: Seq<AppEntry>,
    c: Seq<AppEntry>,
    path: Seq<char>,
)
    requires
        !has_path(a, path),
        insert_post(a, path, b),
        remove_post(b, path, c),
    ensures
        apps_view(c) == apps_view(a),
{
    lemma_first_at_path_props(b, path, 0);
    if path_file_stem(path) is None || has_path_string(a, path) {
        assert(apps_view(b) == apps_view(a));
        if first_at_path(b, path, 0) is Some {
            let i = first_at_path(b, path, 0)->0;
            assert(apps_view(b)[i] == apps_view(a)[i]);
            assert(same_path(a[i].path@, path));
        }
    } else {
        let stem = path_file_stem(path)->0;
        let p = choose|p: int|
            0 <= p <= a.len() && apps_view(b) == apps_view(a).insert(p, (stem, path)) && (
            names_sorted(a) ==> names_sorted(b));
        assert(apps_view(b).len() == b.len());
        assert(apps_view(b)[p] == app_view(b[p]));
        assert(b[p].path@ == path);
        assert(has_path_string(b, path));
        let i = first_at_path(b, path, 0)->0;
        if i < p {
            assert(apps_view(b)[i] == apps_view(a)[i]);
            assert(same_path(a[i].path@, path));
        }
        assert(i == p);
        assert(apps_view(c) =~= apps_view(a));
    }
}

// ---------------------------------------------------------------------------
// Scanning
// ---------------------------------------------------------------------------

/// The default roots scanned for apps: `/Applications`,
/// `/System/Applications` and, when the home directory is known,
/// `~/Applications`.
pub fn default_roots(home: Option<&str>) -> (r: Vec<String>)
    ensures
        r@.len() == (if home is Some {
            3int
        } else {
            2int
        }),
        r@[0]@ == "/Applications"@,
        r@[1]@ == "/System/Applications"@,
        home matches Some(h) ==> r@[2]@ == path_join(h@, "Applications"@),
{
    let mut roots: Vec<String> = Vec::new();
    roots.push("/Applications".to_string());
    roots.push("/System/Applications".to_string());
    if let Some(h) = home {
        roots.push(join(h, "Applications"));
    }
    roots
}

/// Scan order: keyed by lowercased name alone.
pub open spec fn scan_pair(a: AppEntry) -> ((int, int, Seq<char>), AppEntry) {
    ((0int, 0int, name_key(a)), a)
}

pub open spec fn scan_pairs(s: Seq<AppEntry>) -> Seq<((int, int, Seq<char>), AppEntry)> {
    s.map_values(|a: AppEntry| scan_pair(a))
}

pub open spec fn items_of<T>(s: Seq<((int, int, Seq<char>), T)>) -> Seq<T> {
    s.map_values(|p: ((int, int, Seq<char>), T)| p.1)
}

/// Drops each entry whose path is the same as that of the entry kept just
/// before it.
pub open spec fn dedup_paths(s: Seq<AppEntry>) -> Seq<AppEntry>
    decreases s.len(),
{
    if s.len() == 0 {
        Seq::empty()
    } else {
        let d = dedup_paths(s.drop_last());
        if d.len() > 0 && same_path(s.last().path@, d.last().path@) {
            d
        } else {
            d.push(s.last())
        }
    }
}

/// What a scan makes of the apps it found: ordered by lowercased name,
/// stably, then without consecutive duplicates by path.
pub open spec fn scan_result(s: Seq<AppEntry>) -> Seq<AppEntry> {
    dedup_paths(items_of(crate::sorting::sorted_seq(scan_pairs(s))))
}

/// Orders a fresh scan by lowercased name (stably) and drops each entry
/// whose path equals that of the entry kept just before it.
pub fn order_and_dedup(apps: Vec<AppEntry>) -> (r: Vec<AppEntry>)
    ensures
        r@ == scan_result(apps@),
{
    let ghost all = apps@;
    let n = apps.len();
    let mut input = apps;
    let mut keyed: Vec<crate::sorting::Keyed<AppEntry>> = Vec::new();
    let mut i: usize = 0;
    assert(all.skip(0) =~= all);
    while input.len() > 0
        invariant
            all.len() == n,
            i + input@.len() == n,
            input@ == all.skip(i as int),
            crate::sorting::pairs_of(keyed@) == scan_pairs(all.take(i as int)),
        decreases input@.len(),
    {
        let a = input.remove(0);
        assert(a == all[i as int]);
        let low = lowercase(a.name.as_str());
        let text = chars_of(low.as_str());
        let key = crate::sorting::SortKey { primary: 0, secondary: 0, text };
        let ghost old_keyed = keyed@;
        let ke = crate::sorting::Keyed { key, item: a };
        assert(crate::sorting::pair_of(ke) == scan_pair(a));
        keyed.push(ke);
        assert(crate::sorting::pairs_of(keyed@) =~= crate::sorting::pairs_of(old_keyed).push(
            crate::sorting::pair_of(ke),
        ));
        assert(all.take(i + 1) =~= all.take(i as int).push(a));
        assert(scan_pairs(all.take(i + 1)) =~= scan_pairs(all.take(i as int)).push(scan_pair(a)));
        assert(input@ =~= all.skip(i + 1));
        i += 1;
    }
    assert(all.take(i as int) =~= all);
    let sorted = crate::sorting::stable_sort(keyed);
    let ghost sp = crate::sorting::pairs_of(sorted@);
    let mut rest = sorted;
    let mut out: Vec<AppEntry> = Vec::new();
    let mut k: usize = 0;
    let total = rest.len();
    assert(sp.skip(0) =~= sp);
    assert(items_of(sp).take(0) =~= Seq::<AppEntry>::empty());
    while rest.len() > 0
        invariant
            sp.len() == total,
            k + rest@.len() == total,
            crate::sorting::pairs_of(rest@) == sp.skip(k as int),
            out@ == dedup_paths(items_of(sp).take(k as int)),
        decreases rest@.len(),
    {
        let ghost old_rest = rest@;
        let e = rest.remove(0);
        assert(e == old_rest[0]);
        assert(crate::sorting::pairs_of(old_rest)[0] == crate::sorting::pair_of(old_rest[0]));
        assert(sp.skip(k as int)[0] == sp[k as int]);
        assert(crate::sorting::pair_of(e) == sp[k as int]);
        assert(items_of(sp)[k as int] == sp[k as int].1);
        assert(items_of(sp).take(k + 1).drop_last() =~= items_of(sp).take(k as int));
        assert(items_of(sp).take(k + 1).last() == e.item);
        let keep = if out.len() == 0 {
            true
        } else {
            !paths_equal(e.item.path.as_str(), out[out.len() - 1].path.as_str())
        };
        if keep {
            out.push(e.item);
        }
        assert(rest@ =~= old_rest.skip(1));
        assert(crate::sorting::pairs_of(rest@) =~= crate::sorting::pairs_of(old_rest).skip(1));
        assert(sp.skip(k as int).skip(1) =~= sp.skip(k + 1));
        k += 1;
    }
    assert(items_of(sp).take(k as int) =~= items_of(sp));
    out
}

proof fn lemma_dedup_from_input(s: Seq<AppEntry>, i: int)
    requires
        0 <= i < dedup_paths(s).len(),
    ensures
        exists|j: int| 0 <= j < s.len() && s[j] == #[trigger] dedup_paths(s)[i],
    decreases s.len(),
{
    let d = dedup_paths(s.drop_last());
    if i < d.len() {
        lemma_dedup_from_input(s.drop_last(), i);
        let j = choose|j: int| 0 <= j < s.drop_last().len() && s.drop_last()[j] == d[i];
        assert(s[j] == dedup_paths(s)[i]);
    } else {
        assert(dedup_paths(s)[i] == s[s.len() - 1]);
    }
}

proof fn lemma_dedup_sorted(s: Seq<AppEntry>)
    requires
        names_sorted(s),
    ensures
        names_sorted(dedup_paths(s)),
        forall|i: int|
            0 <= i < dedup_paths(s).len() - 1 ==> !same_path(
                #[trigger] dedup_paths(s)[i + 1].path@,
                dedup_paths(s)[i].path@,
            ),
    decreases s.len(),
{
    if s.len() > 0 {
        let t = s.drop_last();
        assert(names_sorted(t)) by {
            assert forall|i: int, j: int| 0 <= i < j < t.len() implies !seq_lt(
                name_key(#[trigger] t[j]),
                name_key(#[trigger] t[i]),
            ) by {
                assert(t[i] == s[i] && t[j] == s[j]);
            }
        }
        lemma_dedup_sorted(t);
        let d = dedup_paths(t);
        if !(d.len() > 0 && same_path(s.last().path@, d.last().path@)) {
            let e = d.push(s.last());
            assert forall|i: int, j: int| 0 <= i < j < e.len() implies !seq_lt(
                name_key(#[trigger] e[j]),
                name_key(#[trigger] e[i]),
            ) by {
                if j == e.len() - 1 {
                    lemma_dedup_from_input(t, i);
                    let w = choose|w: int| 0 <= w < t.len() && t[w] == #[trigger] d[i];
                    assert(s[w] == d[i]);
                    assert(e[j] == s[s.len() - 1]);
                } else {
                    assert(e[i] == d[i] && e[j] == d[j]);
                }
            }
            assert forall|i: int| 0 <= i < e.len() - 1 implies !same_path(
                #[trigger] e[i + 1].path@,
                e[i].path@,
            ) by {
                if i + 1 < d.len() {
                    assert(e[i + 1] == d[i + 1] && e[i] == d[i]);
                }
            }
        }
    }
}

/// A scan comes out in lowercased-name order, with no two neighbouring
/// entries at the same path.
pub proof fn lemma_scan_result_sorted(s: Seq<AppEntry>)
    ensures
        names_sorted(scan_result(s)),
        forall|i: int|
            0 <= i < scan_result(s).len() - 1 ==> !same_path(
                #[trigger] scan_result(s)[i + 1].path@,
                scan_result(s)[i].path@,
            ),
{
    let ps = scan_pairs(s);
    let sp = crate::sorting::sorted_seq(ps);
    crate::sorting::lemma_sorted_seq_is_sorted(ps);
    let items = items_of(sp);
    assert forall|k: int| 0 <= k < sp.len() implies (#[trigger] sp[k]).0 == (
    0int,
    0int,
    name_key(sp[k].1),
    ) by {
        crate::sorting::lemma_sorted_seq_from_input(ps, k);
        let w = choose|w: int| 0 <= w < ps.len() && ps[w] == sp[k];
        assert(ps[w] == scan_pair(s[w]));
    }
    assert forall|i: int, j: int| 0 <= i < j < items.len() implies !seq_lt(
        name_key(#[trigger] items[j]),
        name_key(#[trigger] items[i]),
    ) by {
        assert(crate::sorting::pair_keys(sp)[i] == sp[i].0);
        assert(crate::sorting::pair_keys(sp)[j] == sp[j].0);
        assert(items[i] == sp[i].1 && items[j] == sp[j].1);
    }
    lemma_dedup_sorted(items);
}

/// What the scan does with one directory entry: skip it, record the app
/// bundle it is, or descend into it.
pub enum WalkStep {
    Skip,
    App(AppEntry),
    Descend,
}

/// Directory names the scan never descends into.
pub open spec fn skipped_dir(name: Seq<char>) -> bool {
    name == ".Trash"@ || name == "Library"@ || name == "Caches"@
}

/// The final component of `path` as the scan reads it: empty when there is
/// none.
pub open spec fn base_name(path: Seq<char>) -> Seq<char> {
    match path_file_name(path) {
        Some(n) => n,
        None => Seq::empty(),
    }
}

/// The scan's rule for the entry at `path`: only directories and symbolic
/// links are looked at; a bundle (extension `app`) is recorded under its
/// file stem (skipped when it has none) and not entered; any other
/// directory is entered unless it is named `.Trash`, `Library` or `Caches`.
pub open spec fn walk_step_ok(path: Seq<char>, is_dir: bool, is_symlink: bool, r: WalkStep) -> bool {
    if !is_dir && !is_symlink {
        r is Skip
    } else if is_app_path(path) {
        match path_file_stem(path) {
            Some(n) => r matches WalkStep::App(a) && a.name@ == n && a.path@ == path,
            None => r is Skip,
        }
    } else if is_dir && !skipped_dir(base_name(path)) {
        r is Descend
    } else {
        r is Skip
    }
}

/// Classifies one directory entry met by the scan (see `walk_step_ok`).
pub fn walk_step(path: &str, is_dir: bool, is_symlink: bool) -> (r: WalkStep)
    ensures
        walk_step_ok(path@, is_dir, is_symlink, r),
        !is_dir && !is_symlink ==> r is Skip,
        (is_dir || is_symlink) && path_extension(path@) == Some(seq!['a', 'p', 'p'])
            ==> match path_file_stem(path@) {
            Some(n) => r matches WalkStep::App(a) && a.name@ == n && a.path@ == path@,
            None => r is Skip,
        },
        is_dir && path_extension(path@) != Some(seq!['a', 'p', 'p']) && (forall|n: Seq<char>|
            path_file_name(path@) == Some(n) ==> n != ".Trash"@ && n != "Library"@ && n
                != "Caches"@) ==> r is Descend,
        r is Descend ==> is_dir && path_extension(path@) != Some(seq!['a', 'p', 'p']),
{
    if !is_dir && !is_symlink {
        return WalkStep::Skip;
    }
    if is_app_ext(path) {
        return match file_stem(path) {
            Some(name) => WalkStep::App(AppEntry { name, path: path.to_string() }),
            None => WalkStep::Skip,
        };
    }
    if !is_dir {
        return WalkStep::Skip;
    }
    let base = match file_name(path) {
        Some(n) => n,
        None => String::new(),
    };
    let b = base.as_str();
    let r = if str_eq(b, ".Trash") || str_eq(b, "Library") || str_eq(b, "Caches") {
        WalkStep::Skip
    } else {
        WalkStep::Descend
    };
    proof {
        lemma_walk_enters_plain_dirs(path@, is_dir, is_symlink, r);
    }
    r
}

/// The scan enters every directory that is not a bundle (its extension,
/// if any, is not `app`) and not named `.Trash`, `Library` or `Caches`,
/// whatever other extension its name has; it never enters a bundle or a
/// plain file.
pub proof fn lemma_walk_enters_plain_dirs(path: Seq<char>, is_dir: bool, is_symlink: bool, r: WalkStep)
    requires
        walk_step_ok(path, is_dir, is_symlink, r),
    ensures
        is_dir && path_extension(path) != Some(seq!['a', 'p', 'p']) && (forall|n: Seq<char>|
            path_file_name(path) == Some(n) ==> n != ".Trash"@ && n != "Library"@ && n
                != "Caches"@) ==> r is Descend,
        r is Descend ==> is_dir && path_extension(path) != Some(seq!['a', 'p', 'p']),
{
    if is_dir && path_extension(path) != Some(seq!['a', 'p', 'p']) && (forall|n: Seq<char>|
        path_file_name(path) == Some(n) ==> n != ".Trash"@ && n != "Library"@ && n != "Caches"@) {
        match path_file_name(path) {
            Some(n) => assert(base_name(path) == n),
            None => {
                assert(base_name(path) == Seq::<char>::empty());
                reveal_strlit(".Trash");
                reveal_strlit("Library");
                reveal_strlit("Caches");
            },
        }
    }
}

/// Format version of the persisted app list.
pub const CACHE_VERSION: u32 = 1;

/// How the index starts.
pub enum Startup {
    /// From the cached list; a fresh scan then reconciles it in the
    /// background.
    Cached(Vec<AppEntry>),
    /// From a fresh scan, written back to the cache when `save` holds.
    Scan { save: bool },
}

/// The cache is used and holds a list of the current format that is not
/// empty.
pub open spec fn cache_usable(use_cache: bool, cached: Option<(u32, Vec<AppEntry>)>) -> bool {
    &&& use_cache
    &&& cached matches Some(c) && c.0 == CACHE_VERSION && c.1@.len() > 0
}

/// Decides how the index starts, given whether the on-disk cache is used
/// and what was read from it (its format version and its list): from the
/// cache exactly when it is usable, otherwise from a scan that is saved
/// back exactly when the cache is used.
pub fn startup(use_cache: bool, cached: Option<(u32, Vec<AppEntry>)>) -> (r: Startup)
    ensures
        r is Cached <==> cache_usable(use_cache, cached),
        r matches Startup::Cached(v) ==> v@ == cached.unwrap().1@,
        r matches Startup::Scan { save } ==> save == use_cache,
{
    if use_cache {
        if let Some((version, apps)) = cached {
            if version == CACHE_VERSION && apps.len() > 0 {
                return Startup::Cached(apps);
            }
        }
    }
    Startup::Scan { save: use_cache }
}

/// Two app lists are the same: equal lengths, and at each position equal
/// names and the same path.
pub open spec fn same_apps(a: Seq<AppEntry>, b: Seq<AppEntry>) -> bool {
    a.len() == b.len() && forall|i: int|
        0 <= i < a.len() ==> (#[trigger] a[i]).name@ == b[i].name@ && same_path(a[i].path@, b[i].path@)
}

/// Whether a fresh scan differs from the current index, so that the index
/// must be replaced by it (and the cache rewritten).
pub fn needs_reconcile(current: &[AppEntry], fresh: &[AppEntry]) -> (r: bool)
    ensures
        r == !same_apps(current@, fresh@),
{
    if current.len() != fresh.len() {
        return true;
    }
    let mut i: usize = 0;
    while i < current.len()
        invariant
            current@.len() == fresh@.len(),
            i <= current@.len(),
            forall|k: int|
                0 <= k < i ==> (#[trigger] current@[k]).name@ == fresh@[k].name@ && same_path(
                    current@[k].path@,
                    fresh@[k].path@,
                ),
        decreases current.len() - i,
    {
        let a = &current[i];
        let b = &fresh[i];
        if !str_eq(a.name.as_str(), b.name.as_str()) || !paths_equal(a.path.as_str(), b.path.as_str()) {
            return true;
        }
        i += 1;
    }
    false
}

/// Whether two strings hold the same characters.
fn str_eq(a: &str, b: &str) -> (r: bool)
    ensures
        r == (a@ == b@),
{
    let x = chars_of(a);
    let y = chars_of(b);
    if x.len() != y.len() {
        return false;
    }
    let mut i: usize = 0;
    while i < x.len()
        invariant
            x@ == a@,
            y@ == b@,
            x@.len() == y@.len(),
            i <= x@.len(),
            forall|k: int| 0 <= k < i ==> x@[k] == y@[k],
        decreases x.len() - i,
    {
        if x[i] != y[i] {
            return false;
        }
        i += 1;
    }
    assert(x@ =~= y@);
    true
}

proof fn lemma_dedup_covers(t: Seq<AppEntry>)
    ensures
        forall|i: int|
            0 <= i < t.len() ==> exists|k: int|
                0 <= k < dedup_paths(t).len() && same_path(
                    (#[trigger] t[i]).path@,
                    dedup_paths(t)[k].path@,
                ),
    decreases t.len(),
{
    if t.len() > 0 {
        let u = t.drop_last();
        let d = dedup_paths(u);
        lemma_dedup_covers(u);
        let e = dedup_paths(t);
        assert(d.is_prefix_of(e));
        assert forall|i: int| 0 <= i < t.len() implies exists|k: int|
            0 <= k < e.len() && same_path((#[trigger] t[i]).path@, e[k].path@) by {
            if i < u.len() {
                assert(t[i] == u[i]);
                let k = choose|k: int| 0 <= k < d.len() && same_path(u[i].path@, d[k].path@);
                assert(e[k] == d[k]);
            } else if d.len() > 0 && same_path(t.last().path@, d.last().path@) {
                assert(e[d.len() - 1] == d.last());
            } else {
                assert(e[d.len() as int] == t.last());
            }
        }
    }
}

/// A scan loses no app but a repeat of a path: every entry found has its
/// path (by `Path` equality) among the entries kept, and every entry kept
/// is one of those found.
pub proof fn lemma_scan_keeps_every_path(s: Seq<AppEntry>)
    ensures
        forall|i: int|
            0 <= i < s.len() ==> exists|k: int|
                0 <= k < scan_result(s).len() && same_path(
                    (#[trigger] s[i]).path@,
                    scan_result(s)[k].path@,
                ),
        forall|k: int|
            0 <= k < scan_result(s).len() ==> exists|i: int|
                0 <= i < s.len() && s[i] == #[trigger] scan_result(s)[k],
{
    broadcast use vstd::seq_lib::to_multiset_contains;

    let ps = scan_pairs(s);
    let sp = crate::sorting::sorted_seq(ps);
    crate::sorting::lemma_sorted_seq_permutes(ps);
    crate::sorting::lemma_sorted_seq_is_sorted(ps);
    let items = items_of(sp);
    lemma_dedup_covers(items);
    assert forall|i: int| 0 <= i < s.len() implies exists|k: int|
        0 <= k < scan_result(s).len() && same_path(
            (#[trigger] s[i]).path@,
            scan_result(s)[k].path@,
        ) by {
        assert(ps[i] == scan_pair(s[i]));
        assert(ps.contains(ps[i]));
        assert(sp.to_multiset().count(ps[i]) > 0);
        assert(sp.contains(ps[i]));
        let t = choose|t: int| 0 <= t < sp.len() && sp[t] == ps[i];
        assert(items[t] == sp[t].1);
        assert(items[t] == s[i]);
        assert(scan_result(s) == dedup_paths(items));
        let k = choose|k: int|
            0 <= k < dedup_paths(items).len() && same_path(
                items[t].path@,
                dedup_paths(items)[k].path@,
            );
        assert(same_path(s[i].path@, scan_result(s)[k].path@));
    }
    assert forall|k: int| 0 <= k < scan_result(s).len() implies exists|i: int|
        0 <= i < s.len() && s[i] == #[trigger] scan_result(s)[k] by {
        lemma_dedup_from_input(items, k);
        let t = choose|t: int| 0 <= t < items.len() && items[t] == dedup_paths(items)[k];
        crate::sorting::lemma_sorted_seq_from_input(ps, t);
        let w = choose|w: int| 0 <= w < ps.len() && ps[w] == sp[t];
        assert(ps[w] == scan_pair(s[w]));
    }
}

// ---------------------------------------------------------------------------
// Matching
// ---------------------------------------------------------------------------

/// The launch record stored under the path string `key`.
pub open spec fn lookup(mru: Map<String, MruInfo>, key: Seq<char>) -> Option<MruInfo> {
    if exists|s: String| mru.contains_key(s) && s@ == key {
        Some(mru[choose|s: String| mru.contains_key(s) && s@ == key])
    } else {
        None
    }
}

/// Calls `HashMap::get` with a `&str` key and copies the record out. As for
/// any `HashMap<String, _>`, the lookup finds the entry whose key string
/// equals `key`.
#[verifier::external_body]
fn mru_get(mru: &HashMap<String, MruInfo>, key: &str) -> (r: Option<MruInfo>)
    ensures
        r == lookup(mru@, key@),
{
    mru.get(key).copied()
}

/// Score of an app for the empty query: its MRU bonus, or 0.
pub open spec fn idle_score(m: Option<MruInfo>, now: i64) -> int {
    match m {
        Some(mi) => mru_bonus_for(mi, clock_diff(mi, now)),
        None => 0,
    }
}

/// The elapsed time that `score` reads off a clock showing `now`.
pub open spec fn diff_at(m: Option<MruInfo>, now: i64) -> int {
    match m {
        Some(mi) => clock_diff(mi, now),
        None => 0,
    }
}

/// The sort key and result of one app, when it is listed. The key orders by
/// descending score, then, for the empty query, by lowercased name, and
/// otherwise by name length in UTF-8 bytes (as `str::len` gives it) and
/// then by name.
pub open spec fn candidate(
    a: AppEntry,
    q: Seq<char>,
    m: Option<MruInfo>,
    now: i64,
    empty_query: bool,
) -> Option<((int, int, Seq<char>), MatchedApp)> {
    if empty_query {
        let s = idle_score(m, now) as i32;
        Some(((-(s as int), 0int, name_key(a)), MatchedApp { app: a, score: s }))
    } else {
        match score_spec(q, a.name@, m, diff_at(m, now)) {
            Some(v) => {
                let s = v as i32;
                Some(
                    (
                        (
                            -(s as int),
                            (vstd::utf8::encode_utf8(a.name@).len() as usize) as int,
                            a.name@,
                        ),
                        MatchedApp { app: a, score: s },
                    ),
                )
            },
            None => None,
        }
    }
}

/// The listed apps with their keys, in index order, for clock readings
/// `nows` (one per app).
pub open spec fn candidates(
    apps: Seq<AppEntry>,
    q: Seq<char>,
    mru: Map<String, MruInfo>,
    nows: Seq<i64>,
    empty_query: bool,
) -> Seq<((int, int, Seq<char>), MatchedApp)>
    decreases apps.len(),
{
    if apps.len() == 0 {
        Seq::empty()
    } else {
        let rest = candidates(apps.drop_last(), q, mru, nows.drop_last(), empty_query);
        match candidate(
            apps.last(),
            q,
            lookup(mru, apps.last().path@),
            nows.last(),
            empty_query,
        ) {
            Some(c) => rest.push(c),
            None => rest,
        }
    }
}

/// The result of a query: the listed apps, stably sorted by key, cut to
/// `limit`.
pub open spec fn match_result(
    apps: Seq<AppEntry>,
    q: Seq<char>,
    mru: Map<String, MruInfo>,
    nows: Seq<i64>,
    empty_query: bool,
    limit: int,
) -> Seq<MatchedApp> {
    let sorted = crate::sorting::sorted_seq(candidates(apps, q, mru, nows, empty_query));
    items_of(
        if limit < sorted.len() {
            sorted.take(limit)
        } else {
            sorted
        },
    )
}

/// `match_result` for the raw query text.
pub open spec fn query_result(
    apps: Seq<AppEntry>,
    query: Seq<char>,
    mru: Map<String, MruInfo>,
    nows: Seq<i64>,
    limit: usize,
) -> Seq<MatchedApp> {
    match_result(apps, lower_of(query), mru, nows, query.len() == 0, limit as int)
}

/// The inputs on which every score fits `i32`: any input for the empty
/// query, otherwise every app's score is safe (see `score_safe`).
pub open spec fn match_safe(apps: Seq<AppEntry>, query: Seq<char>, mru: Map<String, MruInfo>) -> bool {
    if query.len() == 0 {
        true
    } else {
        forall|i: int|
            0 <= i < apps.len() ==> score_safe(
                lower_of(query),
                apps[i].name@,
                #[trigger] lookup(mru, apps[i].path@),
            )
    }
}

/// Ranks `apps` against `query`. An empty query lists every app by MRU
/// bonus, then alphabetically (lowercased). Otherwise the query is
/// lowercased, apps whose name it does not match are left out, and the
/// rest are ranked by score, then shorter name, then name. At most `limit`
/// results. Each app's MRU bonus reads the clock when it is computed.
pub fn match_query(
    apps: &[AppEntry],
    query: &str,
    limit: usize,
    mru: &HashMap<String, MruInfo>,
) -> (r: Vec<MatchedApp>)
    requires
        match_safe(apps@, query@, mru@),
    ensures
        exists|nows: Seq<i64>|
            nows.len() == apps@.len() && r@ == #[trigger] query_result(apps@, query@, mru@, nows, limit),
{
    let empty = query.is_empty();
    let qc = chars_of(query);
    let q = lowercase_chars(qc.as_slice());
    let mut keyed: Vec<crate::sorting::Keyed<MatchedApp>> = Vec::new();
    let ghost mut nows: Seq<i64> = Seq::empty();
    let mut i: usize = 0;
    while i < apps.len()
        invariant
            i <= apps@.len(),
            empty == (query@.len() == 0),
            q@ == lower_of(query@),
            match_safe(apps@, query@, mru@),
            nows.len() == i,
            crate::sorting::pairs_of(keyed@) == candidates(
                apps@.take(i as int),
                q@,
                mru@,
                nows,
                empty,
            ),
        decreases apps.len() - i,
    {
        let a = &apps[i];
        let m = mru_get(mru, a.path.as_str());
        assert(m == lookup(mru@, apps@[i as int].path@));
        let ghost now: i64 = 0;
        let entry: Option<crate::sorting::Keyed<MatchedApp>> = if empty {
            let sc: i32 = match m {
                Some(mi) => {
                    let b = mru_bonus(mi);
                    proof {
                        now = choose|now: i64| b == mru_bonus_for(mi, #[trigger] clock_diff(mi, now));
                    }
                    b
                },
                None => 0,
            };
            let low = lowercase(a.name.as_str());
            let text = chars_of(low.as_str());
            let key = crate::sorting::SortKey { primary: -(sc as i64), secondary: 0, text };
            let ke = crate::sorting::Keyed { key, item: MatchedApp { app: a.clone(), score: sc } };
            assert(idle_score(m, now) == sc as int);
            assert(ke.item.app == apps@[i as int]);
            assert(crate::sorting::key_view(ke.key) == (-(sc as int), 0int, name_key(apps@[i as int])));
            assert(candidate(apps@[i as int], q@, m, now, empty) == Some(crate::sorting::pair_of(ke)));
            Some(ke)
        } else {
            assert(score_safe(q@, apps@[i as int].name@, m));
            match score(q.as_slice(), a.name.as_str(), m) {
                Some(sc) => {
                    proof {
                        if m is Some {
                            now = choose|now: i64|
                                crate::matcher::opt_i32_is(
                                    Some(sc),
                                    score_spec(q@, a.name@, m, #[trigger] clock_diff(m->0, now)),
                                );
                        }
                    }
                    let text = chars_of(a.name.as_str());
                    let len = a.name.as_str().len();
                    assert(len == vstd::utf8::encode_utf8(a.name@).len() as usize);
                    let key = crate::sorting::SortKey { primary: -(sc as i64), secondary: len, text };
                    let ke = crate::sorting::Keyed {
                        key,
                        item: MatchedApp { app: a.clone(), score: sc },
                    };
                    assert(score_spec(q@, a.name@, m, diff_at(m, now)) == Some(sc as int));
                    assert(ke.item.app == apps@[i as int]);
                    assert(candidate(apps@[i as int], q@, m, now, empty) == Some(
                        crate::sorting::pair_of(ke),
                    ));
                    Some(ke)
                },
                None => {
                    proof {
                        if m is Some {
                            now = choose|now: i64|
                                crate::matcher::opt_i32_is(
                                    None,
                                    score_spec(q@, a.name@, m, #[trigger] clock_diff(m->0, now)),
                                );
                        }
                    }
                    assert(candidate(apps@[i as int], q@, m, now, empty) is None);
                    None
                },
            }
        };
        let ghost old_keyed = keyed@;
        let ghost c = candidate(apps@[i as int], q@, m, now, empty);
        match entry {
            Some(e) => {
                assert(c == Some(crate::sorting::pair_of(e)));
                keyed.push(e);
                assert(crate::sorting::pairs_of(keyed@) =~= crate::sorting::pairs_of(old_keyed).push(
                    c->0,
                ));
            },
            None => {
                assert(c is None);
            },
        }
        proof {
            assert(apps@.take(i + 1).drop_last() =~= apps@.take(i as int));
            assert(apps@.take(i + 1).last() == apps@[i as int]);
            assert(nows.push(now).drop_last() =~= nows);
            nows = nows.push(now);
        }
        i += 1;
    }
    assert(apps@.take(i as int) =~= apps@);
    let sorted = crate::sorting::stable_sort(keyed);
    let ghost sp = crate::sorting::pairs_of(sorted@);
    let mut rest = sorted;
    rest.truncate(limit);
    let ghost tp = if (limit as int) < sp.len() {
        sp.take(limit as int)
    } else {
        sp
    };
    assert(crate::sorting::pairs_of(rest@) =~= tp);
    let mut out: Vec<MatchedApp> = Vec::new();
    let total = rest.len();
    let mut k: usize = 0;
    assert(tp.skip(0) =~= tp);
    while rest.len() > 0
        invariant
            tp.len() == total,
            k + rest@.len() == total,
            crate::sorting::pairs_of(rest@) == tp.skip(k as int),
            out@ == items_of(tp).take(k as int),
        decreases rest@.len(),
    {
        let ghost old_rest = rest@;
        let e = rest.remove(0);
        assert(e == old_rest[0]);
        assert(crate::sorting::pairs_of(old_rest)[0] == crate::sorting::pair_of(old_rest[0]));
        assert(tp.skip(k as int)[0] == tp[k as int]);
        out.push(e.item);
        assert(out@ =~= items_of(tp).take(k + 1));
        assert(rest@ =~= old_rest.skip(1));
        assert(crate::sorting::pairs_of(rest@) =~= crate::sorting::pairs_of(old_rest).skip(1));
        assert(tp.skip(k as int).skip(1) =~= tp.skip(k + 1));
        k += 1;
    }
    assert(items_of(tp).take(k as int) =~= items_of(tp));
    assert(out@ == query_result(apps@, query@, mru@, nows, limit));
    out
}

/// Whether matching `query` against `apps` keeps every score in `i32`
/// (`match_safe`), tested app by app.
pub fn match_is_safe(apps: &[AppEntry], query: &str, mru: &HashMap<String, MruInfo>) -> (r: bool)
    ensures
        r == match_safe(apps@, query@, mru@),
{
    if query.is_empty() {
        return true;
    }
    let qc = chars_of(query);
    let q = lowercase_chars(qc.as_slice());
    let mut i: usize = 0;
    while i < apps.len()
        invariant
            i <= apps@.len(),
            query@.len() != 0,
            q@ == lower_of(query@),
            forall|k: int|
                0 <= k < i ==> score_safe(
                    lower_of(query@),
                    apps@[k].name@,
                    #[trigger] lookup(mru@, apps@[k].path@),
                ),
        decreases apps.len() - i,
    {
        let m = mru_get(mru, apps[i].path.as_str());
        if checked_score(q.as_slice(), apps[i].name.as_str(), m).is_none() {
            return false;
        }
        i += 1;
    }
    true
}

/// `match_query` with its condition tested at run time: `None` exactly
/// where `match_safe` fails (some app's score could leave `i32`),
/// otherwise what `match_query` returns.
pub fn checked_match_query(
    apps: &[AppEntry],
    query: &str,
    limit: usize,
    mru: &HashMap<String, MruInfo>,
) -> (r: Option<Vec<MatchedApp>>)
    ensures
        r is Some <==> match_safe(apps@, query@, mru@),
        r matches Some(v) ==> exists|nows: Seq<i64>|
            nows.len() == apps@.len() && v@ == #[trigger] query_result(
                apps@,
                query@,
                mru@,
                nows,
                limit,
            ),
{
    if match_is_safe(apps, query, mru) {
        Some(match_query(apps, query, limit, mru))
    } else {
        None
    }
}

proof fn lemma_candidates_props(
    apps: Seq<AppEntry>,
    q: Seq<char>,
    mru: Map<String, MruInfo>,
    nows: Seq<i64>,
    empty_query: bool,
)
    requires
        nows.len() == apps.len(),
    ensures
        forall|k: int|
            0 <= k < candidates(apps, q, mru, nows, empty_query).len() ==> {
                let c = #[trigger] candidates(apps, q, mru, nows, empty_query)[k];
                &&& c.0.0 == -(c.1.score as int)
                &&& exists|i: int|
                    0 <= i < apps.len() && apps[i] == c.1.app && (!empty_query ==> base_spec(q, lower_of(apps[i].name@)) is Some)
            },
    decreases apps.len(),
{
    if apps.len() > 0 {
        let rest = candidates(apps.drop_last(), q, mru, nows.drop_last(), empty_query);
        lemma_candidates_props(apps.drop_last(), q, mru, nows.drop_last(), empty_query);
        let cs = candidates(apps, q, mru, nows, empty_query);
        assert forall|k: int| 0 <= k < cs.len() implies {
            let c = #[trigger] cs[k];
            &&& c.0.0 == -(c.1.score as int)
            &&& exists|i: int|
                0 <= i < apps.len() && apps[i] == c.1.app && (!empty_query ==> base_spec(q, lower_of(apps[i].name@)) is Some)
        } by {
            if k < rest.len() {
                assert(cs[k] == rest[k]);
                let i = choose|i: int|
                    0 <= i < apps.drop_last().len() && apps.drop_last()[i] == rest[k].1.app && (
                    !empty_query ==> base_spec(q, lower_of(apps.drop_last()[i].name@)) is Some);
                assert(apps[i] == apps.drop_last()[i]);
            } else {
                assert(apps[apps.len() - 1] == apps.last());
            }
        }
    }
}

proof fn lemma_candidates_keys(
    apps: Seq<AppEntry>,
    q: Seq<char>,
    mru: Map<String, MruInfo>,
    nows: Seq<i64>,
    empty_query: bool,
)
    requires
        nows.len() == apps.len(),
    ensures
        forall|k: int|
            0 <= k < candidates(apps, q, mru, nows, empty_query).len() ==> {
                let c = #[trigger] candidates(apps, q, mru, nows, empty_query)[k];
                &&& empty_query ==> c.0 == (-(c.1.score as int), 0int, name_key(c.1.app))
                &&& !empty_query ==> c.0 == (
                    -(c.1.score as int),
                    (vstd::utf8::encode_utf8(c.1.app.name@).len() as usize) as int,
                    c.1.app.name@,
                )
            },
    decreases apps.len(),
{
    if apps.len() > 0 {
        let rest = candidates(apps.drop_last(), q, mru, nows.drop_last(), empty_query);
        lemma_candidates_keys(apps.drop_last(), q, mru, nows.drop_last(), empty_query);
        let cs = candidates(apps, q, mru, nows, empty_query);
        assert forall|k: int| 0 <= k < cs.len() implies {
            let c = #[trigger] cs[k];
            &&& empty_query ==> c.0 == (-(c.1.score as int), 0int, name_key(c.1.app))
            &&& !empty_query ==> c.0 == (
                -(c.1.score as int),
                (vstd::utf8::encode_utf8(c.1.app.name@).len() as usize) as int,
                c.1.app.name@,
            )
        } by {
            if k < rest.len() {
                assert(cs[k] == rest[k]);
            }
        }
    }
}

/// Ties on score are broken as the launcher promises: for a typed query,
/// of two results with equal scores the one listed first has a name no
/// longer in UTF-8 bytes (as `str::len` counts them), and with equal
/// lengths too, a name not after the other's; for the empty query, equal
/// scores are listed by lowercased name. Scores never increase down the
/// list.
pub proof fn lemma_match_result_tie_breaks(
    apps: Seq<AppEntry>,
    q: Seq<char>,
    mru: Map<String, MruInfo>,
    nows: Seq<i64>,
    empty_query: bool,
    limit: int,
)
    requires
        nows.len() == apps.len(),
        limit >= 0,
    ensures
        forall|i: int, j: int|
            0 <= i < j < match_result(apps, q, mru, nows, empty_query, limit).len() ==> {
                let a = #[trigger] match_result(apps, q, mru, nows, empty_query, limit)[i];
                let b = #[trigger] match_result(apps, q, mru, nows, empty_query, limit)[j];
                &&& a.score >= b.score
                &&& (!empty_query && a.score == b.score) ==> (vstd::utf8::encode_utf8(
                    a.app.name@,
                ).len() as usize) <= (vstd::utf8::encode_utf8(b.app.name@).len() as usize)
                &&& (!empty_query && a.score == b.score && (vstd::utf8::encode_utf8(
                    a.app.name@,
                ).len() as usize) == (vstd::utf8::encode_utf8(b.app.name@).len() as usize))
                    ==> !crate::sorting::seq_lt(b.app.name@, a.app.name@)
                &&& (empty_query && a.score == b.score) ==> !crate::sorting::seq_lt(
                    str_lowercase(b.app.name@),
                    str_lowercase(a.app.name@),
                )
            },
{
    let cs = candidates(apps, q, mru, nows, empty_query);
    let sp = crate::sorting::sorted_seq(cs);
    crate::sorting::lemma_sorted_seq_is_sorted(cs);
    lemma_candidates_keys(apps, q, mru, nows, empty_query);
    let r = match_result(apps, q, mru, nows, empty_query, limit);
    let tp = if limit < sp.len() {
        sp.take(limit)
    } else {
        sp
    };
    assert(r == items_of(tp));
    assert forall|i: int, j: int| 0 <= i < j < r.len() implies {
        let a = #[trigger] r[i];
        let b = #[trigger] r[j];
        &&& a.score >= b.score
        &&& (!empty_query && a.score == b.score) ==> (vstd::utf8::encode_utf8(a.app.name@).len()
            as usize) <= (vstd::utf8::encode_utf8(b.app.name@).len() as usize)
        &&& (!empty_query && a.score == b.score && (vstd::utf8::encode_utf8(a.app.name@).len()
            as usize) == (vstd::utf8::encode_utf8(b.app.name@).len() as usize))
            ==> !crate::sorting::seq_lt(b.app.name@, a.app.name@)
        &&& (empty_query && a.score == b.score) ==> !crate::sorting::seq_lt(
            str_lowercase(b.app.name@),
            str_lowercase(a.app.name@),
        )
    } by {
        assert(r[i] == sp[i].1 && r[j] == sp[j].1);
        assert(crate::sorting::pair_keys(sp)[i] == sp[i].0);
        assert(crate::sorting::pair_keys(sp)[j] == sp[j].0);
        crate::sorting::lemma_sorted_seq_from_input(cs, i);
        crate::sorting::lemma_sorted_seq_from_input(cs, j);
        let wi = choose|w: int| 0 <= w < cs.len() && cs[w] == sp[i];
        let wj = choose|w: int| 0 <= w < cs.len() && cs[w] == sp[j];
        assert(cs[wi] == sp[i] && cs[wj] == sp[j]);
    }
}

/// A query gives at most `limit` results, in order of non-increasing
/// score; each is one of the indexed apps and, for a non-empty query, one
/// whose lowercased name has the lowercased query as a subsequence.
pub proof fn lemma_match_result_laws(
    apps: Seq<AppEntry>,
    q: Seq<char>,
    mru: Map<String, MruInfo>,
    nows: Seq<i64>,
    empty_query: bool,
    limit: int,
)
    requires
        nows.len() == apps.len(),
        limit >= 0,
    ensures
        match_result(apps, q, mru, nows, empty_query, limit).len() <= limit,
        forall|i: int, j: int|
            0 <= i < j < match_result(apps, q, mru, nows, empty_query, limit).len() ==> (
            #[trigger] match_result(apps, q, mru, nows, empty_query, limit)[i]).score >= (
            #[trigger] match_result(apps, q, mru, nows, empty_query, limit)[j]).score,
        forall|k: int|
            0 <= k < match_result(apps, q, mru, nows, empty_query, limit).len() ==> exists|i: int|
                0 <= i < apps.len() && apps[i] == (#[trigger] match_result(
                    apps,
                    q,
                    mru,
                    nows,
                    empty_query,
                    limit,
                )[k]).app && (!empty_query ==> crate::matcher::is_subsequence(
                    q,
                    lower_of(apps[i].name@),
                )),
{
    let cs = candidates(apps, q, mru, nows, empty_query);
    let sp = crate::sorting::sorted_seq(cs);
    crate::sorting::lemma_sorted_seq_is_sorted(cs);
    lemma_candidates_props(apps, q, mru, nows, empty_query);
    let tp = if limit < sp.len() {
        sp.take(limit)
    } else {
        sp
    };
    let r = match_result(apps, q, mru, nows, empty_query, limit);
    assert(r == items_of(tp));
    assert forall|k: int| 0 <= k < tp.len() implies {
        &&& (#[trigger] tp[k]).0.0 == -(tp[k].1.score as int)
        &&& exists|i: int|
            0 <= i < apps.len() && apps[i] == tp[k].1.app && (!empty_query ==> base_spec(q, lower_of(apps[i].name@)) is Some)
    } by {
        assert(tp[k] == sp[k]);
        crate::sorting::lemma_sorted_seq_from_input(cs, k);
        let w = choose|w: int| 0 <= w < cs.len() && cs[w] == sp[k];
        assert(cs[w] == sp[k]);
    }
    assert forall|i: int, j: int| 0 <= i < j < r.len() implies (#[trigger] r[i]).score >= (
    #[trigger] r[j]).score by {
        assert(tp[i] == sp[i] && tp[j] == sp[j]);
        assert(crate::sorting::pair_keys(sp)[i] == sp[i].0);
        assert(crate::sorting::pair_keys(sp)[j] == sp[j].0);
        assert(r[i] == tp[i].1 && r[j] == tp[j].1);
    }
    assert forall|k: int| 0 <= k < r.len() implies exists|i: int|
        0 <= i < apps.len() && apps[i] == (#[trigger] r[k]).app && (!empty_query
            ==> crate::matcher::is_subsequence(q, lower_of(apps[i].name@))) by {
        assert(r[k] == tp[k].1);
        let i = choose|i: int|
            0 <= i < apps.len() && apps[i] == tp[k].1.app && (!empty_query ==> base_spec(q, lower_of(apps[i].name@)) is Some);
        crate::matcher::lemma_match_iff_subsequence(q, lower_of(apps[i].name@));
    }
}

/// An app is listed for a query: every app for the empty query, otherwise
/// each app whose lowercased name the query matches.
pub open spec fn listed(a: AppEntry, q: Seq<char>, empty_query: bool) -> bool {
    empty_query || base_spec(q, lower_of(a.name@)) is Some
}

/// The listed apps, in index order.
pub open spec fn listed_apps(apps: Seq<AppEntry>, q: Seq<char>, empty_query: bool) -> Seq<AppEntry> {
    apps.filter(|a: AppEntry| listed(a, q, empty_query))
}

proof fn lemma_candidate_some_iff_listed(
    a: AppEntry,
    q: Seq<char>,
    m: Option<MruInfo>,
    now: i64,
    empty_query: bool,
)
    ensures
        candidate(a, q, m, now, empty_query) is Some <==> listed(a, q, empty_query),
{
}

proof fn lemma_candidates_len(
    apps: Seq<AppEntry>,
    q: Seq<char>,
    mru: Map<String, MruInfo>,
    nows: Seq<i64>,
    empty_query: bool,
)
    requires
        nows.len() == apps.len(),
    ensures
        candidates(apps, q, mru, nows, empty_query).len() == listed_apps(apps, q, empty_query).len(),
    decreases apps.len(),
{
    reveal(Seq::filter);
    if apps.len() > 0 {
        lemma_candidates_len(apps.drop_last(), q, mru, nows.drop_last(), empty_query);
        lemma_candidate_some_iff_listed(
            apps.last(),
            q,
            lookup(mru, apps.last().path@),
            nows.last(),
            empty_query,
        );
    }
}

proof fn lemma_candidates_complete(
    apps: Seq<AppEntry>,
    q: Seq<char>,
    mru: Map<String, MruInfo>,
    nows: Seq<i64>,
    empty_query: bool,
    i: int,
)
    requires
        nows.len() == apps.len(),
        0 <= i < apps.len(),
        listed(apps[i], q, empty_query),
    ensures
        candidate(apps[i], q, lookup(mru, apps[i].path@), nows[i], empty_query) is Some,
        exists|k: int|
            0 <= k < candidates(apps, q, mru, nows, empty_query).len() && #[trigger] candidates(
                apps,
                q,
                mru,
                nows,
                empty_query,
            )[k] == candidate(apps[i], q, lookup(mru, apps[i].path@), nows[i], empty_query)->0,
    decreases apps.len(),
{
    let rest = candidates(apps.drop_last(), q, mru, nows.drop_last(), empty_query);
    let cs = candidates(apps, q, mru, nows, empty_query);
    lemma_candidate_some_iff_listed(
        apps[i],
        q,
        lookup(mru, apps[i].path@),
        nows[i],
        empty_query,
    );
    if i == apps.len() - 1 {
        let c = candidate(apps.last(), q, lookup(mru, apps.last().path@), nows.last(), empty_query);
        assert(apps.last() == apps[i]);
        assert(nows.last() == nows[i]);
        assert(cs == rest.push(c->0));
        assert(cs[rest.len() as int] == c->0);
    } else {
        assert(apps.drop_last()[i] == apps[i]);
        assert(nows.drop_last()[i] == nows[i]);
        lemma_candidates_complete(apps.drop_last(), q, mru, nows.drop_last(), empty_query, i);
        let c = candidate(apps[i], q, lookup(mru, apps[i].path@), nows[i], empty_query)->0;
        let k = choose|k: int| 0 <= k < rest.len() && #[trigger] rest[k] == c;
        assert(cs[k] == rest[k]);
    }
}

/// Matching leaves out no listed app but for the limit: the result holds
/// as many entries as there are listed apps, cut to `limit`, and when at
/// most `limit` apps are listed every one of them appears.
pub proof fn lemma_match_result_complete(
    apps: Seq<AppEntry>,
    q: Seq<char>,
    mru: Map<String, MruInfo>,
    nows: Seq<i64>,
    empty_query: bool,
    limit: int,
)
    requires
        nows.len() == apps.len(),
        limit >= 0,
    ensures
        match_result(apps, q, mru, nows, empty_query, limit).len() == (if limit < listed_apps(
            apps,
            q,
            empty_query,
        ).len() {
            limit
        } else {
            listed_apps(apps, q, empty_query).len() as int
        }),
        listed_apps(apps, q, empty_query).len() <= limit ==> forall|i: int|
            0 <= i < apps.len() && listed(apps[i], q, empty_query) ==> exists|k: int|
                0 <= k < match_result(apps, q, mru, nows, empty_query, limit).len() && (
                #[trigger] match_result(apps, q, mru, nows, empty_query, limit)[k]).app
                    == apps[i],
{
    broadcast use vstd::seq_lib::to_multiset_contains;

    let cs = candidates(apps, q, mru, nows, empty_query);
    let sp = crate::sorting::sorted_seq(cs);
    crate::sorting::lemma_sorted_seq_is_sorted(cs);
    crate::sorting::lemma_sorted_seq_permutes(cs);
    lemma_candidates_len(apps, q, mru, nows, empty_query);
    let r = match_result(apps, q, mru, nows, empty_query, limit);
    if listed_apps(apps, q, empty_query).len() <= limit {
        assert(r == items_of(sp));
        assert forall|i: int|
            0 <= i < apps.len() && listed(apps[i], q, empty_query) implies exists|k: int|
                0 <= k < r.len() && (#[trigger] r[k]).app == apps[i] by {
            lemma_candidates_complete(apps, q, mru, nows, empty_query, i);
            let c = candidate(apps[i], q, lookup(mru, apps[i].path@), nows[i], empty_query)->0;
            let w = choose|w: int| 0 <= w < cs.len() && #[trigger] cs[w] == c;
            assert(cs.contains(cs[w]));
            assert(cs.to_multiset().count(cs[w]) > 0);
            assert(sp.to_multiset().count(cs[w]) > 0);
            assert(sp.contains(cs[w]));
            let k = choose|k: int| 0 <= k < sp.len() && sp[k] == cs[w];
            assert(r[k] == sp[k].1);
        }
    }
}

/// Matching returns the best listed apps: a listed app left out of the
/// result scores no higher than any app in it (its score being the one it
/// gets at clock reading `nows[i]`).
pub proof fn lemma_omitted_never_outrank(
    apps: Seq<AppEntry>,
    q: Seq<char>,
    mru: Map<String, MruInfo>,
    nows: Seq<i64>,
    empty_query: bool,
    limit: int,
    i: int,
)
    requires
        nows.len() == apps.len(),
        limit >= 0,
        0 <= i < apps.len(),
        listed(apps[i], q, empty_query),
        forall|k: int|
            0 <= k < match_result(apps, q, mru, nows, empty_query, limit).len() ==> (
            #[trigger] match_result(apps, q, mru, nows, empty_query, limit)[k]).app != apps[i],
    ensures
        candidate(apps[i], q, lookup(mru, apps[i].path@), nows[i], empty_query) is Some,
        forall|k: int|
            0 <= k < match_result(apps, q, mru, nows, empty_query, limit).len() ==> (candidate(
                apps[i],
                q,
                lookup(mru, apps[i].path@),
                nows[i],
                empty_query,
            )->0).1.score <= (#[trigger] match_result(apps, q, mru, nows, empty_query, limit)[k]).score,
{
    broadcast use vstd::seq_lib::to_multiset_contains;

    let cs = candidates(apps, q, mru, nows, empty_query);
    let sp = crate::sorting::sorted_seq(cs);
    crate::sorting::lemma_sorted_seq_is_sorted(cs);
    crate::sorting::lemma_sorted_seq_permutes(cs);
    lemma_candidates_props(apps, q, mru, nows, empty_query);
    lemma_candidates_complete(apps, q, mru, nows, empty_query, i);
    let c = candidate(apps[i], q, lookup(mru, apps[i].path@), nows[i], empty_query)->0;
    let w = choose|w: int| 0 <= w < cs.len() && #[trigger] cs[w] == c;
    assert(cs.contains(cs[w]));
    assert(sp.to_multiset().count(c) > 0);
    assert(sp.contains(c));
    let t = choose|t: int| 0 <= t < sp.len() && sp[t] == c;
    let r = match_result(apps, q, mru, nows, empty_query, limit);
    let tp = if limit < sp.len() {
        sp.take(limit)
    } else {
        sp
    };
    assert(r == items_of(tp));
    assert(c.1.app == apps[i]);
    if t < r.len() {
        assert(r[t] == sp[t].1);
        assert(false);
    }
    assert((c.0).0 == -(c.1.score as int));
    assert forall|k: int| 0 <= k < r.len() implies c.1.score <= (#[trigger] r[k]).score by {
        assert(r[k] == sp[k].1);
        assert(crate::sorting::pair_keys(sp)[k] == sp[k].0);
        assert(crate::sorting::pair_keys(sp)[t] == sp[t].0);
        crate::sorting::lemma_sorted_seq_from_input(cs, k);
        let w2 = choose|w2: int| 0 <= w2 < cs.len() && cs[w2] == sp[k];
        assert((cs[w2].0).0 == -(cs[w2].1.score as int));
    }
}

// ---------------------------------------------------------------------------
// The index
// ---------------------------------------------------------------------------

/// The known apps, normally kept in lowercased-name order.
pub struct LauncherIndex {
    apps: Vec<AppEntry>,
}

impl View for LauncherIndex {
    type V = Seq<AppEntry>;

    closed spec fn view(&self) -> Seq<AppEntry> {
        self.apps@
    }
}

impl LauncherIndex {
    /// An index holding `apps`, in the given order.
    pub fn from_apps(apps: Vec<AppEntry>) -> (r: Self)
        ensures
            r@ == apps@,
    {
        LauncherIndex { apps }
    }

    /// Snapshot of the current index.
    pub fn apps(&self) -> (r: Vec<AppEntry>)
        ensures
            r@ == self@,
    {
        let mut out: Vec<AppEntry> = Vec::new();
        let mut i: usize = 0;
        while i < self.apps.len()
            invariant
                i <= self.apps@.len(),
                out@ == self.apps@.take(i as int),
            decreases self.apps.len() - i,
        {
            out.push(self.apps[i].clone());
            assert(out@ =~= self.apps@.take(i + 1));
            i += 1;
        }
        assert(self.apps@.take(i as int) =~= self.apps@);
        out
    }

    /// Ranks the indexed apps against `query` (see the free function
    /// `match_query`).
    pub fn match_query(&self, query: &str, limit: usize, mru: &HashMap<String, MruInfo>) -> (r: Vec<
        MatchedApp,
    >)
        requires
            match_safe(self@, query@, mru@),
        ensures
            exists|nows: Seq<i64>|
                nows.len() == self@.len() && r@ == #[trigger] query_result(
                    self@,
                    query@,
                    mru@,
                    nows,
                    limit,
                ),
    {
        match_query(self.apps.as_slice(), query, limit, mru)
    }

    /// `match_query` with its condition tested at run time.
    pub fn checked_match_query(
        &self,
        query: &str,
        limit: usize,
        mru: &HashMap<String, MruInfo>,
    ) -> (r: Option<Vec<MatchedApp>>)
        ensures
            r is Some <==> match_safe(self@, query@, mru@),
            r matches Some(v) ==> exists|nows: Seq<i64>|
                nows.len() == self@.len() && v@ == #[trigger] query_result(
                    self@,
                    query@,
                    mru@,
                    nows,
                    limit,
                ),
    {
        if match_is_safe(self.apps.as_slice(), query, mru) {
            Some(self.match_query(query, limit, mru))
        } else {
            None
        }
    }

    /// Applies an "app appeared" event for the bundle at `path`.
    pub fn add_app(&mut self, path: &str)
        ensures
            insert_post(old(self)@, path@, final(self)@),
    {
        insert(path, &mut self.apps);
    }

    /// Applies an "app disappeared" event for the bundle at `path`.
    pub fn remove_app(&mut self, path: &str)
        ensures
            remove_post(old(self)@, path@, final(self)@),
    {
        remove(path, &mut self.apps);
    }
}

} // verus!
