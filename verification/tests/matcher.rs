use saya::matcher::checked_score_at;
use saya::matcher::{
    base_score, base_score_checked, scan_base, checked_score, mru_bonus_at, now_ms, score, score_at,
};
use saya::MruInfo;

fn q(s: &str) -> Vec<char> {
    s.chars().flat_map(|c| c.to_lowercase()).collect()
}

#[test]
fn prefix_beats_subsequence() {
    let prefix = score(&q("saf"), "Safari", None).unwrap();
    let subseq = score(&q("saf"), "Stuff and Affairs", None).unwrap();
    assert!(prefix > subseq, "prefix={prefix} subseq={subseq}");
}

#[test]
fn no_match_returns_none() {
    assert!(score(&q("xyz"), "Safari", None).is_none());
}

#[test]
fn word_boundary_bonus() {
    let with_boundary = score(&q("vsc"), "Visual Studio Code", None).unwrap();
    let no_boundary = score(&q("vsc"), "Verticascadequence", None).unwrap();
    assert!(with_boundary > no_boundary, "wb={with_boundary} nb={no_boundary}");
}

#[test]
fn case_insensitive() {
    assert!(score(&q("SAF"), "safari", None).is_some());
    assert!(score(&q("saf"), "SAFARI", None).is_some());
}

#[test]
fn mru_boosts_recent_use() {
    let without = score(&q("term"), "Terminal", None).unwrap();
    let with = score(
        &q("term"),
        "Terminal",
        Some(MruInfo { count: 5, last_used_ms: now_ms() - 60_000 }),
    )
    .unwrap();
    assert!(with > without, "without={without} with={with}");
}

#[test]
fn mru_does_not_beat_prefix_on_a_better_match() {
    let cold_prefix = score(&q("saf"), "Safari", None).unwrap();
    let hot_subseq = score(
        &q("saf"),
        "Stack and Affairs",
        Some(MruInfo { count: 100, last_used_ms: now_ms() }),
    )
    .unwrap();
    assert!(cold_prefix > hot_subseq, "cold_prefix={cold_prefix} hot_subseq={hot_subseq}");
}

fn base(query: &str, target: &str) -> Option<i32> {
    base_score(&q(query), target)
}

#[test]
fn base_score_exact_values() {
    // s@0 boundary +60, a@1 +30, f@2 +30, whole prefix +1000
    assert_eq!(base("saf", "Safari"), Some(1120));
    // v@0 +60, s@2, c@14 after a space +60; no prefix
    assert_eq!(base("vsc", "Visual Studio Code"), Some(120));
    // c@0 +60, h +30, r +30 via "chr" at the start of the second word: +500
    assert_eq!(base("chr", "Google Chrome"), Some(60 + 30 + 30 + 500));
    assert_eq!(base("", "Anything"), Some(0));
    assert_eq!(base("zz", "Safari"), None);
}

#[test]
fn subsequence_law_on_examples() {
    // Matches exactly when the query is a subsequence of the lowercased name.
    assert!(base("sfr", "Safari").is_some());
    assert!(base("rfs", "Safari").is_none());
    assert!(base("aaa", "Safari").is_none());
    assert!(base("aa", "Safari").is_some());
}

#[test]
fn mru_bonus_bands() {
    let day: i64 = 86_400_000;
    let m = |count: u32| MruInfo { count, last_used_ms: 0 };
    assert_eq!(mru_bonus_at(m(5), 60_000), 400 + 50);
    assert_eq!(mru_bonus_at(m(0), 7 * day), 200);
    assert_eq!(mru_bonus_at(m(0), 30 * day), 50);
    assert_eq!(mru_bonus_at(m(0), 90 * day), 0);
    assert_eq!(mru_bonus_at(m(100), 0), 400 + 200);
    // A launch in the future counts as zero days ago.
    assert_eq!(mru_bonus_at(MruInfo { count: 1, last_used_ms: 10 * day }, 0), 410);
    // The bonus never reaches the whole-prefix bonus.
    assert!(mru_bonus_at(m(1_000_000), 0) < 1000);
}

#[test]
fn score_at_adds_bonus() {
    let qc = q("term");
    let m = MruInfo { count: 2, last_used_ms: 0 };
    let b = base_score(&qc, "Terminal").unwrap();
    assert_eq!(score_at(&qc, "Terminal", Some(m), 1000), Some(b + 420));
    assert_eq!(score_at(&qc, "Terminal", None, 1000), Some(b));
}

#[test]
fn checked_score_matches_score() {
    assert_eq!(checked_score(&q("saf"), "Safari", None), Some(Some(1120)));
    assert_eq!(checked_score(&q("xyz"), "Safari", None), Some(None));
}

#[test]
fn lengthening_lowercase_is_scored_on_the_lowercased_target() {
    // 'İ' lowercases to two characters, so the lowercased target is longer
    // than the target; boundaries are read on the lowercased target.
    let target = "İİ";
    let lowered: Vec<char> = target.chars().flat_map(|c| c.to_lowercase()).collect();
    assert_eq!(lowered.len(), 4);
    // hit 0 at the start +60, three consecutive hits +30 each, whole prefix +1000
    assert_eq!(checked_score(&lowered, target, None), Some(Some(1150)));
    assert_eq!(score(&lowered, target, None), Some(1150));
}

#[test]
fn fresh_prefix_app_beats_heavily_used_sparse_match() {
    // A freshly installed Safari still beats an app launched a hundred
    // times, just now, that "saf" only matches sparsely.
    let cold = score(&q("saf"), "Safari", None).unwrap();
    let hot = score(
        &q("saf"),
        "Stackoverflow",
        Some(MruInfo { count: 100, last_used_ms: now_ms() }),
    )
    .unwrap();
    assert_eq!(cold, 1120);
    assert_eq!(hot, 60 + 600);
    assert!(cold > hot);
}

#[test]
fn base_score_checked_agrees_with_base_score() {
    assert_eq!(base_score_checked(&q("chr"), "Google Chrome"), Some(Some(620)));
    assert_eq!(base_score_checked(&q("zz"), "Safari"), Some(None));
    let lowered: Vec<char> = "İİ".chars().flat_map(|c| c.to_lowercase()).collect();
    assert_eq!(base_score_checked(&lowered, "İİ"), Some(Some(1150)));
    // A separator inside the lowercased target makes a boundary.
    // +60 at the boundary after the space, +500 for the word prefix
    assert_eq!(scan_base(&q("b"), &q("a b")), Some(Some(560)));
    assert_eq!(scan_base(&q("ab"), &q("xaxb")), Some(Some(0)));
}

#[test]
fn frequency_is_ten_per_launch_capped_at_two_hundred() {
    let day: i64 = 86_400_000;
    let m = |count: u32| MruInfo { count, last_used_ms: 0 };
    assert_eq!(mru_bonus_at(m(0), 100 * day), 0);
    assert_eq!(mru_bonus_at(m(7), 100 * day), 70);
    assert_eq!(mru_bonus_at(m(20), 100 * day), 200);
    assert_eq!(mru_bonus_at(m(u32::MAX), 100 * day), 200);
    assert_eq!(mru_bonus_at(m(214_748_365), 100 * day), 200);
}

#[test]
fn very_old_launches_get_no_recency() {
    // 4,294,967,299 days ago: older than 90 days, so no recency bonus.
    let now: i64 = 371_085_174_633_600_000;
    assert_eq!(mru_bonus_at(MruInfo { count: 20, last_used_ms: 0 }, now), 200);
    // A launch eight days later is still far too old.
    let later = MruInfo { count: 20, last_used_ms: 8 * 86_400_000 };
    assert_eq!(mru_bonus_at(later, now), 200);
    // The whole clock range is handled.
    assert_eq!(mru_bonus_at(MruInfo { count: 1, last_used_ms: i64::MIN }, i64::MAX), 10);
    assert_eq!(mru_bonus_at(MruInfo { count: 1, last_used_ms: i64::MAX }, i64::MIN), 410);
}

#[test]
fn more_recent_or_frequent_use_never_lowers_the_bonus() {
    let day: i64 = 86_400_000;
    let now = 200 * day;
    let bands = [0, 3 * day, 10 * day, 50 * day, 150 * day, 199 * day, 200 * day, 300 * day];
    for &l1 in &bands {
        for &l2 in &bands {
            for &(c1, c2) in &[(0u32, 0u32), (1, 5), (5, 30), (30, 30)] {
                if l1 <= l2 {
                    let a = mru_bonus_at(MruInfo { count: c1, last_used_ms: l1 }, now);
                    let b = mru_bonus_at(MruInfo { count: c2, last_used_ms: l2 }, now);
                    assert!(a <= b, "l1={l1} l2={l2} c1={c1} c2={c2}");
                }
            }
        }
    }
}

#[test]
fn checked_score_at_gives_the_score_at_a_clock_reading() {
    let m = MruInfo { count: 2, last_used_ms: 0 };
    assert_eq!(checked_score_at(&q("term"), "Terminal", Some(m), 1000), Some(score_at(&q("term"), "Terminal", Some(m), 1000)));
    assert_eq!(checked_score_at(&q("zz"), "Terminal", Some(m), 1000), Some(None));
}
