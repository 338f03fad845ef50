use saya::clock::ms_of;
use saya::clipboard::{should_capture, ClipboardPoller, MAX_BYTES};
use saya::database::{is_repeat_of_last, like_pattern};
use saya::ffi::{AppEntryDto, ClipboardEntryDto, MatchedAppDto};
use saya::search::SearchQuery;
use saya::{AppEntry, Entry, MatchedApp, MruInfo};

#[test]
fn like_pattern_escapes_wildcards() {
    assert_eq!(like_pattern("brown"), "%brown%");
    assert_eq!(like_pattern("50%_off\\"), "%50\\%\\_off\\\\%");
    assert_eq!(like_pattern(""), "%%");
}

#[test]
fn consecutive_duplicate_is_detected() {
    assert!(is_repeat_of_last(Some("hello"), "hello"));
    assert!(!is_repeat_of_last(Some("hello"), "world"));
    assert!(!is_repeat_of_last(None, "hello"));
    assert!(!is_repeat_of_last(Some("hello"), "hell"));
}

#[test]
fn launch_count_is_truncated_to_u32() {
    let m = MruInfo::from_row(2, 1234);
    assert_eq!(m.count, 2);
    assert_eq!(m.last_used_ms, 1234);
    assert_eq!(MruInfo::from_row((1i64 << 32) + 7, 0).count, 7);
}

#[test]
fn capture_rules() {
    assert!(should_capture("hello"));
    assert!(!should_capture(""));
    let big = "x".repeat(MAX_BYTES);
    assert!(should_capture(&big));
    let too_big = "x".repeat(MAX_BYTES + 1);
    assert!(!should_capture(&too_big));
    // Size is counted in UTF-8 bytes.
    let wide = "é".repeat(MAX_BYTES / 2 + 1);
    assert!(!should_capture(&wide));
}

#[test]
fn poller_reports_each_change_once() {
    let mut p = ClipboardPoller::new(7);
    assert!(!p.observe(7));
    assert!(p.observe(8));
    assert!(!p.observe(8));
    assert!(p.observe(3));
}

#[test]
fn lanes_overfetch() {
    let q = |limit| SearchQuery { text: "x".into(), limit };
    assert_eq!(q(0).result_limit(), 1);
    assert_eq!(q(0).lane_limit(), 20);
    assert_eq!(q(5).lane_limit(), 20);
    assert_eq!(q(10).lane_limit(), 40);
}

#[test]
fn dto_conversions_keep_fields() {
    let e = Entry { id: 3, content: "hi".into(), byte_size: 2, created_at: 99 };
    let d = ClipboardEntryDto::from(e);
    assert_eq!((d.id, d.content.as_str(), d.byte_size, d.created_at_unix_ms), (3, "hi", 2, 99));
    let a = AppEntryDto::from(AppEntry { name: "Safari".into(), path: "/A/Safari.app".into() });
    assert_eq!((a.name.as_str(), a.path.as_str()), ("Safari", "/A/Safari.app"));
    let m = MatchedAppDto::from(MatchedApp {
        app: AppEntry { name: "Safari".into(), path: "/A/Safari.app".into() },
        score: 1120,
    });
    assert_eq!((m.name.as_str(), m.path.as_str(), m.score), ("Safari", "/A/Safari.app", 1120));
    let c = ClipboardEntryDto::captured(1, "héllo".into(), 5);
    assert_eq!(c.byte_size, 6);
}

#[test]
fn clock_milliseconds_are_truncated_to_i64() {
    assert_eq!(ms_of(Some(1_700_000_000_000)), 1_700_000_000_000);
    assert_eq!(ms_of(None), 0);
    assert_eq!(ms_of(Some(u128::MAX)), -1);
    assert_eq!(ms_of(Some(1u128 << 63)), i64::MIN);
}
