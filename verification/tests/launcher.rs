use std::collections::HashMap;

use saya::launcher::{
    checked_match_query, default_roots, extract_app_path, insert, match_query,
    needs_reconcile, order_and_dedup, remove, startup, walk_step, Startup, WalkStep,
    CACHE_VERSION,
};
use saya::{AppEntry, LauncherIndex, MruInfo};

fn app(name: &str, path: &str) -> AppEntry {
    AppEntry { name: name.into(), path: path.into() }
}

#[test]
fn extract_app_path_handles_nested_paths() {
    assert_eq!(
        extract_app_path("/Applications/Foo.app/Contents/MacOS/Foo"),
        Some("/Applications/Foo.app".to_string())
    );
    assert_eq!(
        extract_app_path("/Applications/Foo.app"),
        Some("/Applications/Foo.app".to_string())
    );
    assert_eq!(extract_app_path("/Applications/README.txt"), None);
}

#[test]
fn insert_dedups_and_sorts() {
    let mut apps = vec![app("Bar", "/A/Bar.app"), app("Foo", "/A/Foo.app")];
    insert("/A/Baz.app", &mut apps);
    insert("/A/Baz.app", &mut apps); // duplicate, should be no-op
    assert_eq!(apps.len(), 3);
    assert_eq!(apps[0].name, "Bar");
    assert_eq!(apps[1].name, "Baz");
    assert_eq!(apps[2].name, "Foo");
}

#[test]
fn remove_drops_entry() {
    let mut apps = vec![app("Foo", "/A/Foo.app")];
    remove("/A/Foo.app", &mut apps);
    assert!(apps.is_empty());
}

#[test]
fn insert_then_remove_restores() {
    let original = vec![app("Alpha", "/A/Alpha.app"), app("Zulu", "/A/Zulu.app")];
    let mut apps = original.clone();
    insert("/A/mike.app", &mut apps);
    assert_eq!(apps[1].name, "mike");
    remove("/A/mike.app", &mut apps);
    assert_eq!(apps.len(), original.len());
    for (a, b) in apps.iter().zip(original.iter()) {
        assert_eq!(a.name, b.name);
        assert_eq!(a.path, b.path);
    }
}

#[test]
fn insert_without_stem_is_noop() {
    let mut apps = vec![app("Foo", "/A/Foo.app")];
    insert("/", &mut apps);
    assert_eq!(apps.len(), 1);
}

#[test]
fn remove_missing_is_noop() {
    let mut apps = vec![app("Foo", "/A/Foo.app")];
    remove("/A/Bar.app", &mut apps);
    assert_eq!(apps.len(), 1);
}

#[test]
fn scan_orders_case_insensitively_and_dedups() {
    let apps = vec![
        app("zed", "/B/zed.app"),
        app("Alpha", "/A/Alpha.app"),
        app("beta", "/A/beta.app"),
        app("Alpha", "/A/Alpha.app"),
    ];
    let out = order_and_dedup(apps);
    let names: Vec<&str> = out.iter().map(|a| a.name.as_str()).collect();
    assert_eq!(names, vec!["Alpha", "beta", "zed"]);
}

#[test]
fn default_roots_lists_three_with_home() {
    let r = default_roots(Some("/Users/me"));
    assert_eq!(r, vec!["/Applications", "/System/Applications", "/Users/me/Applications"]);
    assert_eq!(default_roots(None), vec!["/Applications", "/System/Applications"]);
}

fn sample() -> Vec<AppEntry> {
    vec![
        app("Google Chrome", "/Applications/Google Chrome.app"),
        app("Safari", "/Applications/Safari.app"),
        app("Stuff and Affairs", "/Applications/Stuff and Affairs.app"),
        app("Terminal", "/System/Applications/Utilities/Terminal.app"),
    ]
}

#[test]
fn match_query_ranks_by_score() {
    let apps = sample();
    let mru = HashMap::new();
    let hits = match_query(&apps, "saf", 10, &mru);
    assert_eq!(hits.len(), 2);
    assert_eq!(hits[0].app.name, "Safari");
    assert_eq!(hits[0].score, 1120);
    assert_eq!(hits[1].app.name, "Stuff and Affairs");
    for w in hits.windows(2) {
        assert!(w[0].score >= w[1].score);
    }
}

#[test]
fn match_query_respects_limit() {
    let apps = sample();
    let mru = HashMap::new();
    assert_eq!(match_query(&apps, "a", 1, &mru).len(), 1);
    assert_eq!(match_query(&apps, "", 2, &mru).len(), 2);
    assert!(match_query(&apps, "", 0, &mru).is_empty());
}

#[test]
fn empty_query_ranks_by_mru_then_name() {
    let apps = sample();
    let mut mru = HashMap::new();
    mru.insert(
        "/System/Applications/Utilities/Terminal.app".to_string(),
        MruInfo { count: 3, last_used_ms: saya::matcher::now_ms() },
    );
    let hits = match_query(&apps, "", 10, &mru);
    let names: Vec<&str> = hits.iter().map(|m| m.app.name.as_str()).collect();
    assert_eq!(names, vec!["Terminal", "Google Chrome", "Safari", "Stuff and Affairs"]);
    assert_eq!(hits[0].score, 430);
    assert_eq!(hits[1].score, 0);
}

#[test]
fn ties_break_by_shorter_name() {
    let apps = vec![app("Codex", "/A/Codex.app"), app("Code", "/A/Code.app")];
    let hits = match_query(&apps, "code", 10, &HashMap::new());
    assert_eq!(hits[0].app.name, "Code");
    assert_eq!(hits[1].app.name, "Codex");
}

#[test]
fn index_wraps_the_same_rules() {
    let mut idx = LauncherIndex::from_apps(sample());
    idx.add_app("/Applications/Notes.app");
    assert_eq!(idx.apps().len(), 5);
    let hits = idx.checked_match_query("notes", 5, &HashMap::new()).unwrap();
    assert_eq!(hits[0].app.name, "Notes");
    idx.remove_app("/Applications/Notes.app");
    assert_eq!(idx.apps().len(), 4);
    assert!(checked_match_query(&idx.apps(), "saf", 3, &HashMap::new()).is_some());
}

#[test]
fn huge_launch_counts_add_two_hundred() {
    let apps = sample();
    let mut mru = HashMap::new();
    mru.insert(
        "/Applications/Safari.app".to_string(),
        MruInfo { count: 1_000_000_000, last_used_ms: 0 },
    );
    let idle = checked_match_query(&apps, "", 10, &mru).unwrap();
    assert_eq!(idle[0].app.name, "Safari");
    assert_eq!(idle[0].score, 200);
    let hits = checked_match_query(&apps, "saf", 10, &mru).unwrap();
    assert_eq!(hits[0].app.name, "Safari");
    assert_eq!(hits[0].score, 1120 + 200);
    assert!(checked_match_query(&apps, "term", 10, &mru).is_some());
}

#[test]
fn walk_records_bundles_under_their_stem() {
    match walk_step("/Applications/Visual Studio Code.app", true, false) {
        WalkStep::App(a) => {
            assert_eq!(a.name, "Visual Studio Code");
            assert_eq!(a.path, "/Applications/Visual Studio Code.app");
        }
        _ => panic!("a bundle must be recorded"),
    }
    // A symbolic link to a bundle counts too.
    assert!(matches!(walk_step("/Applications/Linked.app", false, true), WalkStep::App(_)));
}

#[test]
fn walk_descends_into_plain_directories_only() {
    assert!(matches!(walk_step("/Applications/Utilities", true, false), WalkStep::Descend));
    assert!(matches!(walk_step("/Users/me/Library", true, false), WalkStep::Skip));
    assert!(matches!(walk_step("/Users/me/.Trash", true, false), WalkStep::Skip));
    assert!(matches!(walk_step("/Users/me/Caches", true, false), WalkStep::Skip));
    // Plain files and links to non-bundles are ignored.
    assert!(matches!(walk_step("/Applications/README.app", false, false), WalkStep::Skip));
    assert!(matches!(walk_step("/Applications/notes.txt", false, false), WalkStep::Skip));
    assert!(matches!(walk_step("/Applications/Tools", false, true), WalkStep::Skip));
}

#[test]
fn startup_prefers_a_current_non_empty_cache() {
    let cached = vec![app("Alpha", "/A/Alpha.app")];
    match startup(true, Some((CACHE_VERSION, cached.clone()))) {
        Startup::Cached(v) => {
            assert_eq!(v.len(), 1);
            assert_eq!(v[0].name, "Alpha");
        }
        _ => panic!("a usable cache must be used"),
    }
    assert!(matches!(startup(true, Some((CACHE_VERSION + 1, cached.clone()))), Startup::Scan { save: true }));
    assert!(matches!(startup(true, Some((CACHE_VERSION, Vec::new()))), Startup::Scan { save: true }));
    assert!(matches!(startup(true, None), Startup::Scan { save: true }));
    assert!(matches!(startup(false, Some((CACHE_VERSION, cached))), Startup::Scan { save: false }));
}

#[test]
fn reconcile_only_when_the_scan_differs() {
    let a = vec![app("Alpha", "/A/Alpha.app"), app("Bravo", "/A/Bravo.app")];
    assert!(!needs_reconcile(&a, &a.clone()));
    // The same path written differently is the same path.
    let b = vec![app("Alpha", "/A//Alpha.app"), app("Bravo", "/A/Bravo.app")];
    assert!(!needs_reconcile(&a, &b));
    let c = vec![app("Alpha", "/A/Alpha.app")];
    assert!(needs_reconcile(&a, &c));
    let d = vec![app("Alpha", "/A/Alpha.app"), app("Charlie", "/A/Bravo.app")];
    assert!(needs_reconcile(&a, &d));
    let e = vec![app("Alpha", "/A/Alpha.app"), app("Bravo", "/B/Bravo.app")];
    assert!(needs_reconcile(&a, &e));
}

#[test]
fn code_query_prefers_prefix_then_word_prefix() {
    let apps = vec![
        app("Clever Code URL Handler", "/A/Clever Code URL Handler.app"),
        app("Console Debugger", "/A/Console Debugger.app"),
        app("Visual Studio Code", "/A/Visual Studio Code.app"),
        app("Codex", "/A/Codex.app"),
    ];
    let hits = match_query(&apps, "code", 10, &HashMap::new());
    let names: Vec<&str> = hits.iter().map(|m| m.app.name.as_str()).collect();
    assert_eq!(
        names,
        vec!["Codex", "Visual Studio Code", "Clever Code URL Handler", "Console Debugger"]
    );
    let scores: Vec<i32> = hits.iter().map(|m| m.score).collect();
    assert_eq!(&scores[..3], &[1150, 650, 620]);
}

#[test]
fn every_matching_app_is_listed_within_limit() {
    let apps = sample();
    let mru = HashMap::new();
    let hits = match_query(&apps, "a", 10, &mru);
    let mut names: Vec<&str> = hits.iter().map(|m| m.app.name.as_str()).collect();
    names.sort();
    assert_eq!(names, vec!["Safari", "Stuff and Affairs", "Terminal"]);
    // Cut to the limit, the best ones stay.
    assert_eq!(match_query(&apps, "a", 2, &mru).len(), 2);
    // The empty query lists every app.
    assert_eq!(match_query(&apps, "", 10, &mru).len(), apps.len());
}

#[test]
fn extract_app_path_takes_the_outermost_bundle() {
    let p = "/A/X.app/B/Y.app/f";
    let r = extract_app_path(p).unwrap();
    assert_eq!(r, "/A/X.app");
    assert!(std::path::Path::new(p).starts_with(&r));
    assert_eq!(extract_app_path(&r), Some(r.clone()));
}

#[test]
fn insert_keeps_paths_distinct() {
    let mut apps = vec![app("Bar", "/A/Bar.app"), app("Foo", "/A/Foo.app")];
    insert("/A//Foo.app", &mut apps); // the same path, written differently
    insert("/B/Foo.app", &mut apps);
    assert_eq!(apps.len(), 3);
    for i in 0..apps.len() {
        for j in 0..apps.len() {
            if i != j {
                assert_ne!(std::path::Path::new(&apps[i].path), std::path::Path::new(&apps[j].path));
            }
        }
    }
}

#[test]
fn omitted_apps_never_outrank_returned_ones() {
    let apps = sample();
    let mru = HashMap::new();
    let all = match_query(&apps, "a", 10, &mru);
    let top = match_query(&apps, "a", 1, &mru);
    assert_eq!(top.len(), 1);
    for m in &all {
        assert!(m.score <= top[0].score);
    }
}

#[test]
fn equal_scores_keep_index_order_for_equal_names() {
    let apps = vec![app("Same", "/A/Same.app"), app("Same", "/B/Same.app")];
    let hits = match_query(&apps, "same", 10, &HashMap::new());
    assert_eq!(hits[0].app.path, "/A/Same.app");
    assert_eq!(hits[1].app.path, "/B/Same.app");
}
