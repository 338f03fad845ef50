//! Subsequence fuzzy matcher with optional MRU bias.
//!
//! A query (already lowercased) matches a target when every query character
//! appears, in order, in the lowercased target. Each character is taken at
//! its first occurrence after the previous hit.
//!
//! Base bonuses:
//! - whole-prefix match (lowercased target starts with the query): +1000
//! - otherwise word-prefix match (a word after the first separator starts
//!   with the query): +500
//! - each query hit at a word boundary (start, or after ' ' '-' '_' '.' '/'
//!   in the lowercased target): +60
//! - each hit directly after the previous hit: +30
//!
//! MRU bonus: recency band by whole days since the last launch (<7 +400 /
//! <30 +200 / <90 +50 / older 0) plus frequency `min(count, 20) * 10`.

use vstd::prelude::*;

use crate::clock::unix_ms;
use crate::database::MruInfo;
use crate::text::chars_of;
use crate::text::lower_of;
use crate::text::lowercase_chars;

verus! {

pub const RECENCY_LT_7D: i32 = 400;
pub const RECENCY_LT_30D: i32 = 200;
pub const RECENCY_LT_90D: i32 = 50;
pub const FREQ_MULT: i32 = 10;
pub const FREQ_CAP: i32 = 200;
pub const WHOLE_PREFIX_BONUS: i32 = 1000;
pub const WORD_PREFIX_BONUS: i32 = 500;
pub const BOUNDARY_BONUS: i32 = 60;
pub const CONSECUTIVE_BONUS: i32 = 30;
pub const MS_PER_DAY: i64 = 86_400_000;

// ---------------------------------------------------------------------------
// Model
// ---------------------------------------------------------------------------

/// Characters that separate words in an app name.
pub open spec fn is_word_sep(c: char) -> bool {
    c == ' ' || c == '-' || c == '_' || c == '.' || c == '/'
}

/// First index `i >= from` with `s[i] == c`.
pub open spec fn find_from(s: Seq<char>, c: char, from: int) -> Option<int>
    decreases s.len() - from,
{
    if from < 0 || from >= s.len() {
        None
    } else if s[from] == c {
        Some(from)
    } else {
        find_from(s, c, from + 1)
    }
}

/// Where the greedy scan places query character `j` in `lower`.
pub open spec fn hit(q: Seq<char>, lower: Seq<char>, j: int) -> Option<int>
    decreases j,
{
    if j < 0 {
        None
    } else if j == 0 {
        find_from(lower, q[0], 0)
    } else {
        match hit(q, lower, j - 1) {
            Some(h) => find_from(lower, q[j], h + 1),
            None => None,
        }
    }
}

/// Index `i` of the lowercased target is a word boundary when it is 0 or
/// the character just before it separates words.
pub open spec fn boundary_at(lower: Seq<char>, i: int) -> bool {
    i == 0 || is_word_sep(lower[i - 1])
}

/// What query character `j` adds to the running score.
pub open spec fn step_bonus(q: Seq<char>, lower: Seq<char>, j: int) -> int {
    match hit(q, lower, j) {
        Some(h) => (if boundary_at(lower, h) {
            BOUNDARY_BONUS as int
        } else {
            0
        }) + (if j > 0 && hit(q, lower, j - 1) == Some(h - 1) {
            CONSECUTIVE_BONUS as int
        } else {
            0
        }),
        None => 0,
    }
}

/// Running score after the first `k` query characters.
pub open spec fn run_sum(q: Seq<char>, lower: Seq<char>, k: int) -> int
    decreases k,
{
    if k <= 0 {
        0
    } else {
        run_sum(q, lower, k - 1) + step_bonus(q, lower, k - 1)
    }
}

/// A word after a separator at `p` starts with `q`.
pub open spec fn word_prefix_at(lower: Seq<char>, q: Seq<char>, p: int) -> bool {
    &&& 0 <= p < lower.len()
    &&& is_word_sep(lower[p])
    &&& q.is_prefix_of(lower.skip(p + 1))
    &&& forall|i: int| 0 <= i < q.len() ==> !is_word_sep(#[trigger] q[i])
}

pub open spec fn has_word_prefix(lower: Seq<char>, q: Seq<char>) -> bool {
    exists|p: int| word_prefix_at(lower, q, p)
}

pub open spec fn prefix_bonus(lower: Seq<char>, q: Seq<char>) -> int {
    if q.is_prefix_of(lower) {
        WHOLE_PREFIX_BONUS as int
    } else if has_word_prefix(lower, q) {
        WORD_PREFIX_BONUS as int
    } else {
        0
    }
}

/// The base score of query `q` against a target whose lowercased
/// characters are `lower`: `None` when `q` is not matched.
pub open spec fn base_spec(q: Seq<char>, lower: Seq<char>) -> Option<int> {
    if q.len() == 0 {
        Some(0)
    } else {
        match hit(q, lower, q.len() - 1) {
            Some(_) => Some(run_sum(q, lower, q.len() as int) + prefix_bonus(lower, q)),
            None => None,
        }
    }
}

/// The base score fits `i32` (the running sum never exceeds it, since each
/// step adds a non-negative bonus).
pub open spec fn base_safe(q: Seq<char>, lower: Seq<char>) -> bool {
    base_spec(q, lower) matches Some(v) ==> v <= i32::MAX
}

/// Recency band for a whole number of days since the last launch.
pub open spec fn recency_bonus(days: int) -> int {
    if 0 <= days < 7 {
        RECENCY_LT_7D as int
    } else if 7 <= days < 30 {
        RECENCY_LT_30D as int
    } else if 30 <= days < 90 {
        RECENCY_LT_90D as int
    } else {
        0
    }
}

/// Frequency term: ten per launch, at most 200 (`min(count, 20) * 10`).
pub open spec fn freq_bonus(m: MruInfo) -> int {
    if m.count >= 20 {
        FREQ_CAP as int
    } else {
        FREQ_MULT * m.count
    }
}

/// Whole days in an elapsed time `diff` in milliseconds (a negative time
/// counts as 0).
pub open spec fn days_of(diff: int) -> int {
    (if diff < 0 {
        0
    } else {
        diff
    }) / (MS_PER_DAY as int)
}

/// MRU bonus for an elapsed time `diff` since the last launch.
pub open spec fn mru_bonus_for(m: MruInfo, diff: int) -> int {
    recency_bonus(days_of(diff)) + freq_bonus(m)
}

/// The time elapsed between the last launch of `m` and clock reading
/// `now`.
pub open spec fn clock_diff(m: MruInfo, now: i64) -> int {
    now - m.last_used_ms
}

pub open spec fn add_bonus(base: Option<int>, bonus: int) -> Option<int> {
    match base {
        Some(b) => Some(b + bonus),
        None => None,
    }
}

pub open spec fn opt_i32_is(r: Option<i32>, v: Option<int>) -> bool {
    match r {
        Some(x) => v == Some(x as int),
        None => v is None,
    }
}

// ---------------------------------------------------------------------------
// Executable scan
// ---------------------------------------------------------------------------

proof fn lemma_hit_none_stays_none(q: Seq<char>, lower: Seq<char>, j: int, k: int)
    requires
        0 <= j <= k,
        hit(q, lower, j) is None,
    ensures
        hit(q, lower, k) is None,
    decreases k - j,
{
    if k > j {
        lemma_hit_none_stays_none(q, lower, j, k - 1);
    }
}

proof fn lemma_step_bounds(q: Seq<char>, lower: Seq<char>, j: int)
    ensures
        0 <= step_bonus(q, lower, j) <= BOUNDARY_BONUS + CONSECUTIVE_BONUS,
        j <= 0 ==> step_bonus(q, lower, j) <= BOUNDARY_BONUS,
{
}

/// First index `i >= from` with `s[i] == c`.
fn find_from_exec(s: &[char], c: char, from: usize) -> (r: Option<usize>)
    ensures
        match r {
            Some(i) => find_from(s@, c, from as int) == Some(i as int) && i < s.len(),
            None => find_from(s@, c, from as int) is None,
        },
{
    let mut i = from;
    while i < s.len()
        invariant
            from <= i,
            find_from(s@, c, from as int) == find_from(s@, c, i as int),
        decreases s.len() - i,
    {
        if s[i] == c {
            return Some(i);
        }
        i += 1;
    }
    None
}

fn is_word_sep_exec(c: char) -> (r: bool)
    ensures
        r == is_word_sep(c),
{
    c == ' ' || c == '-' || c == '_' || c == '.' || c == '/'
}

/// Whether `q` is a prefix of `s`.
fn starts_with_exec(s: &[char], q: &[char]) -> (r: bool)
    ensures
        r == q@.is_prefix_of(s@),
{
    if q.len() > s.len() {
        return false;
    }
    let mut i: usize = 0;
    while i < q.len()
        invariant
            q.len() <= s.len(),
            i <= q.len(),
            forall|k: int| 0 <= k < i ==> q@[k] == s@[k],
        decreases q.len() - i,
    {
        if q[i] != s[i] {
            return false;
        }
        i += 1;
    }
    true
}

/// Whether `q` holds a word separator.
fn has_sep_exec(q: &[char]) -> (r: bool)
    ensures
        r == exists|i: int| 0 <= i < q@.len() && is_word_sep(#[trigger] q@[i]),
{
    let mut i: usize = 0;
    while i < q.len()
        invariant
            i <= q.len(),
            forall|k: int| 0 <= k < i ==> !is_word_sep(#[trigger] q@[k]),
        decreases q.len() - i,
    {
        if is_word_sep_exec(q[i]) {
            return true;
        }
        i += 1;
    }
    false
}

/// Whether `q` is a prefix of `s` from index `start` on.
fn starts_with_at_exec(s: &[char], start: usize, q: &[char]) -> (r: bool)
    requires
        start <= s.len(),
    ensures
        r == q@.is_prefix_of(s@.skip(start as int)),
{
    if q.len() > s.len() - start {
        return false;
    }
    let mut i: usize = 0;
    while i < q.len()
        invariant
            start <= s.len(),
            q.len() <= s.len() - start,
            i <= q.len(),
            forall|k: int| 0 <= k < i ==> q@[k] == s@[start + k],
        decreases q.len() - i,
    {
        if q[i] != s[start + i] {
            return false;
        }
        i += 1;
    }
    assert(q@.is_prefix_of(s@.skip(start as int))) by {
        assert forall|k: int| 0 <= k < q@.len() implies q@[k] == s@.skip(start as int)[k] by {}
    }
    true
}

/// Whether some word after a separator of `lower` starts with `q`.
fn has_word_prefix_exec(lower: &[char], q: &[char]) -> (r: bool)
    ensures
        r == has_word_prefix(lower@, q@),
{
    if has_sep_exec(q) {
        assert forall|p: int| !word_prefix_at(lower@, q@, p) by {
            let i = choose|i: int| 0 <= i < q@.len() && is_word_sep(#[trigger] q@[i]);
            assert(!is_word_sep(q@[i]) || !word_prefix_at(lower@, q@, p));
        }
        return false;
    }
    let mut p: usize = 0;
    while p < lower.len()
        invariant
            p <= lower.len(),
            forall|i: int| 0 <= i < q@.len() ==> !is_word_sep(#[trigger] q@[i]),
            forall|k: int| 0 <= k < p ==> !word_prefix_at(lower@, q@, k),
        decreases lower.len() - p,
    {
        if is_word_sep_exec(lower[p]) && starts_with_at_exec(lower, p + 1, q) {
            assert(word_prefix_at(lower@, q@, p as int));
            return true;
        }
        p += 1;
    }
    assert forall|k: int| !word_prefix_at(lower@, q@, k) by {
        if 0 <= k < p {
        }
    }
    false
}

fn prefix_bonus_exec(lower: &[char], q: &[char]) -> (r: i32)
    ensures
        r == prefix_bonus(lower@, q@),
        0 <= r <= WHOLE_PREFIX_BONUS,
{
    if starts_with_exec(lower, q) {
        WHOLE_PREFIX_BONUS
    } else if has_word_prefix_exec(lower, q) {
        WORD_PREFIX_BONUS
    } else {
        0
    }
}

/// The base score of `query` against a target whose lowercased characters
/// are `target_lower`: `Some(None)` when the query is not matched,
/// `Some(Some(x))` with the base score `x` when it is and `x` fits `i32`,
/// and `None` when the base score exceeds `i32::MAX`.
pub fn scan_base(query: &[char], target_lower: &[char]) -> (r: Option<Option<i32>>)
    ensures
        r is Some <==> base_safe(query@, target_lower@),
        r matches Some(x) ==> opt_i32_is(x, base_spec(query@, target_lower@)),
{
    let ghost q = query@;
    let ghost lower = target_lower@;
    if query.len() == 0 {
        return Some(Some(0));
    }
    // `s` is the running sum while it fits `i32`; past that, `over` is set
    // and the scan only goes on to learn whether the query matches.
    let mut s: i64 = 0;
    let mut over = false;
    let mut t_idx: usize = 0;
    let mut j: usize = 0;
    while j < query.len()
        invariant
            q == query@,
            lower == target_lower@,
            q.len() > 0,
            j <= q.len(),
            j == 0 ==> t_idx == 0,
            j > 0 ==> hit(q, lower, j - 1) == Some(t_idx - 1),
            t_idx <= lower.len(),
            !over ==> s == run_sum(q, lower, j as int) && 0 <= s <= i32::MAX,
            over ==> run_sum(q, lower, j as int) > i32::MAX,
        decreases q.len() - j,
    {
        let qc = query[j];
        let found = find_from_exec(target_lower, qc, t_idx);
        assert(hit(q, lower, j as int) == find_from(lower, qc, t_idx as int));
        match found {
            None => {
                proof {
                    lemma_hit_none_stays_none(q, lower, j as int, q.len() - 1);
                }
                return Some(None);
            },
            Some(h) => {
                assert(hit(q, lower, j as int) == Some(h as int));
                let boundary = h == 0 || is_word_sep_exec(target_lower[h - 1]);
                let consecutive = j > 0 && h == t_idx;
                let step: i64 = (if boundary {
                    60
                } else {
                    0
                }) + (if consecutive {
                    30
                } else {
                    0
                });
                assert(step == step_bonus(q, lower, j as int));
                proof {
                    lemma_step_bounds(q, lower, j as int);
                }
                if !over {
                    s = s + step;
                    if s > i32::MAX as i64 {
                        over = true;
                    }
                }
                t_idx = h + 1;
            },
        }
        j += 1;
    }
    assert(hit(q, lower, q.len() - 1) is Some);
    if over {
        return None;
    }
    let bonus = prefix_bonus_exec(target_lower, query) as i64;
    if s + bonus > i32::MAX as i64 {
        return None;
    }
    Some(Some((s + bonus) as i32))
}

/// The base score of `query` (already lowercased) against `target`, or
/// `None` when it exceeds `i32::MAX`: `Some(x)` exactly when `base_safe`
/// holds of the lowercased target, and then `x` is the base score.
pub fn base_score_checked(query: &[char], target: &str) -> (r: Option<Option<i32>>)
    ensures
        r is Some <==> base_safe(query@, lower_of(target@)),
        r matches Some(x) ==> opt_i32_is(x, base_spec(query@, lower_of(target@))),
{
    let target_chars = chars_of(target);
    let target_lower = lowercase_chars(target_chars.as_slice());
    scan_base(query, target_lower.as_slice())
}

/// The base score of `query` (already lowercased) against `target`: `None`
/// when the query is not matched.
pub fn base_score(query: &[char], target: &str) -> (r: Option<i32>)
    requires
        base_safe(query@, lower_of(target@)),
    ensures
        opt_i32_is(r, base_spec(query@, lower_of(target@))),
{
    match base_score_checked(query, target) {
        Some(x) => x,
        None => None,
    }
}

// ---------------------------------------------------------------------------
// MRU bias and the full score
// ---------------------------------------------------------------------------

proof fn lemma_bonus_range(m: MruInfo, diff: int)
    ensures
        0 <= freq_bonus(m) <= FREQ_CAP,
        0 <= recency_bonus(days_of(diff)) <= RECENCY_LT_7D,
        0 <= mru_bonus_for(m, diff) <= RECENCY_LT_7D + FREQ_CAP,
{
}

/// Recency band plus capped frequency for an elapsed time `diff`.
fn bonus_for_diff(m: MruInfo, diff: i128) -> (r: i32)
    ensures
        r == mru_bonus_for(m, diff as int),
{
    let elapsed: i128 = if diff < 0 {
        0
    } else {
        diff
    };
    let days: i128 = elapsed / (MS_PER_DAY as i128);
    let recency: i32 = if days < 7 {
        RECENCY_LT_7D
    } else if days < 30 {
        RECENCY_LT_30D
    } else if days < 90 {
        RECENCY_LT_90D
    } else {
        0
    };
    let freq: i32 = if m.count >= 20 {
        FREQ_CAP
    } else {
        (m.count as i32) * FREQ_MULT
    };
    recency + freq
}

/// The MRU bonus of `m` at clock reading `now` (Unix ms).
pub fn mru_bonus_at(m: MruInfo, now: i64) -> (r: i32)
    ensures
        r == mru_bonus_for(m, now - m.last_used_ms),
{
    bonus_for_diff(m, (now as i128) - (m.last_used_ms as i128))
}

/// Milliseconds since the Unix epoch, as the matcher reads the clock.
pub fn now_ms() -> i64 {
    unix_ms()
}

/// The MRU bonus of `m` at the current clock reading.
pub fn mru_bonus(m: MruInfo) -> (r: i32)
    ensures
        exists|now: i64| r == mru_bonus_for(m, #[trigger] clock_diff(m, now)),
{
    let now = now_ms();
    let r = mru_bonus_at(m, now);
    assert(r == mru_bonus_for(m, clock_diff(m, now)));
    r
}

/// The score at clock reading `now`: the base score plus, when `mru` is
/// given, its MRU bonus.
pub open spec fn score_at_spec(q: Seq<char>, lower: Seq<char>, mru: Option<MruInfo>, now: i64) -> Option<int> {
    match mru {
        None => base_spec(q, lower),
        Some(m) => add_bonus(base_spec(q, lower), mru_bonus_for(m, now - m.last_used_ms)),
    }
}

/// The score at clock reading `now` fits `i32`.
pub open spec fn score_at_fits(q: Seq<char>, lower: Seq<char>, mru: Option<MruInfo>, now: i64) -> bool {
    score_at_spec(q, lower, mru, now) matches Some(v) ==> v <= i32::MAX
}

/// The score of `query` (already lowercased) against `target` at clock
/// reading `now`.
pub fn score_at(query: &[char], target: &str, mru: Option<MruInfo>, now: i64) -> (r: Option<i32>)
    requires
        score_at_fits(query@, lower_of(target@), mru, now),
    ensures
        opt_i32_is(r, score_at_spec(query@, lower_of(target@), mru, now)),
{
    proof {
        if let Some(m) = mru {
            lemma_bonus_range(m, now - m.last_used_ms);
        }
    }
    let base = match base_score(query, target) {
        Some(b) => b,
        None => return None,
    };
    match mru {
        None => Some(base),
        Some(m) => Some(base + mru_bonus_at(m, now)),
    }
}

/// `score_at` with its condition tested at run time: `None` exactly where
/// the score at `now` exceeds `i32::MAX`, otherwise what `score_at`
/// returns.
pub fn checked_score_at(query: &[char], target: &str, mru: Option<MruInfo>, now: i64) -> (r: Option<
    Option<i32>,
>)
    ensures
        r is Some <==> score_at_fits(query@, lower_of(target@), mru, now),
        r matches Some(x) ==> opt_i32_is(x, score_at_spec(query@, lower_of(target@), mru, now)),
{
    proof {
        if let Some(m) = mru {
            lemma_bonus_range(m, now - m.last_used_ms);
        }
    }
    let base = match base_score_checked(query, target) {
        None => return None,
        Some(None) => return Some(None),
        Some(Some(b)) => b,
    };
    let bonus: i64 = match mru {
        None => 0,
        Some(m) => mru_bonus_at(m, now) as i64,
    };
    if (base as i64) + bonus > i32::MAX as i64 {
        return None;
    }
    Some(score_at(query, target, mru, now))
}

/// The inputs of `score` whose score fits `i32` whatever the clock reads:
/// the base score does, and with an MRU record so does the base score plus
/// the top recency band and the frequency term.
pub open spec fn score_safe(q: Seq<char>, target: Seq<char>, mru: Option<MruInfo>) -> bool {
    &&& base_safe(q, lower_of(target))
    &&& match (base_spec(q, lower_of(target)), mru) {
        (Some(b), Some(m)) => b + RECENCY_LT_7D + freq_bonus(m) <= i32::MAX,
        _ => true,
    }
}

/// What `score` returns, given the elapsed time `diff` it read off the
/// clock.
pub open spec fn score_spec(q: Seq<char>, target: Seq<char>, mru: Option<MruInfo>, diff: int) -> Option<int> {
    match mru {
        None => base_spec(q, lower_of(target)),
        Some(m) => add_bonus(base_spec(q, lower_of(target)), mru_bonus_for(m, diff)),
    }
}

/// Score of `query` (already lowercased) against `target`: `None` when the
/// query is not a subsequence of the lowercased target; otherwise the base
/// score plus, when `mru` is given, the MRU bonus at the current clock
/// reading.
pub fn score(query: &[char], target: &str, mru: Option<MruInfo>) -> (r: Option<i32>)
    requires
        score_safe(query@, target@, mru),
    ensures
        mru is None ==> opt_i32_is(r, score_spec(query@, target@, mru, 0)),
        mru matches Some(m) ==> exists|now: i64|
            opt_i32_is(r, score_spec(query@, target@, mru, #[trigger] clock_diff(m, now))),
{
    let base = match base_score(query, target) {
        Some(b) => b,
        None => {
            proof {
                if mru is Some {
                    assert(opt_i32_is(None, score_spec(query@, target@, mru, clock_diff(mru->0, 0))));
                }
            }
            return None;
        },
    };
    match mru {
        None => Some(base),
        Some(m) => {
            let bonus = mru_bonus(m);
            let ghost now = choose|now: i64| bonus == mru_bonus_for(m, clock_diff(m, now));
            proof {
                lemma_bonus_range(m, clock_diff(m, now));
            }
            Some(base + bonus)
        },
    }
}

/// `score` where its score fits `i32` whatever the clock reads, tested at
/// run time: `None` exactly where `score_safe` fails, otherwise what
/// `score` returns.
pub fn checked_score(query: &[char], target: &str, mru: Option<MruInfo>) -> (r: Option<Option<i32>>)
    ensures
        r is Some <==> score_safe(query@, target@, mru),
        r matches Some(x) ==> (mru is None ==> opt_i32_is(x, score_spec(query@, target@, mru, 0))),
        r matches Some(x) ==> (mru matches Some(m) ==> exists|now: i64|
            opt_i32_is(x, score_spec(query@, target@, mru, #[trigger] clock_diff(m, now)))),
{
    let base = match base_score_checked(query, target) {
        None => return None,
        Some(None) => {
            proof {
                if mru is Some {
                    assert(opt_i32_is(None, score_spec(query@, target@, mru, clock_diff(mru->0, 0))));
                }
            }
            return Some(None);
        },
        Some(Some(b)) => b,
    };
    match mru {
        None => Some(Some(base)),
        Some(m) => {
            let freq: i64 = if m.count >= 20 {
                FREQ_CAP as i64
            } else {
                (m.count as i64) * 10
            };
            if (base as i64) + (RECENCY_LT_7D as i64) + freq > i32::MAX as i64 {
                return None;
            }
            Some(score(query, target, mru))
        },
    }
}

// ---------------------------------------------------------------------------
// Laws
// ---------------------------------------------------------------------------

/// `pos` places each character of `q` in `s`, at strictly increasing
/// indices.
pub open spec fn embeds(q: Seq<char>, s: Seq<char>, pos: Seq<int>) -> bool {
    &&& pos.len() == q.len()
    &&& forall|i: int| 0 <= i < q.len() ==> 0 <= #[trigger] pos[i] < s.len() && s[pos[i]] == q[i]
    &&& forall|i: int, j: int| 0 <= i < j < q.len() ==> #[trigger] pos[i] < #[trigger] pos[j]
}

/// `q` is a subsequence of `s`.
pub open spec fn is_subsequence(q: Seq<char>, s: Seq<char>) -> bool {
    exists|pos: Seq<int>| embeds(q, s, pos)
}

proof fn lemma_find_from_some(s: Seq<char>, c: char, from: int)
    requires
        find_from(s, c, from) is Some,
    ensures
        from <= find_from(s, c, from)->0 < s.len(),
        s[find_from(s, c, from)->0] == c,
    decreases s.len() - from,
{
    if from >= 0 && from < s.len() && s[from] != c {
        lemma_find_from_some(s, c, from + 1);
    }
}

proof fn lemma_find_from_finds(s: Seq<char>, c: char, from: int, k: int)
    requires
        0 <= from <= k < s.len(),
        s[k] == c,
    ensures
        find_from(s, c, from) is Some,
        find_from(s, c, from)->0 <= k,
    decreases k - from,
{
    if s[from] != c {
        lemma_find_from_finds(s, c, from + 1, k);
    }
}

proof fn lemma_hit_some_before(q: Seq<char>, lower: Seq<char>, j: int, k: int)
    requires
        0 <= j <= k,
        hit(q, lower, k) is Some,
    ensures
        hit(q, lower, j) is Some,
{
    if hit(q, lower, j) is None {
        lemma_hit_none_stays_none(q, lower, j, k);
    }
}

proof fn lemma_hit_props(q: Seq<char>, lower: Seq<char>, j: int)
    requires
        0 <= j < q.len(),
        hit(q, lower, j) is Some,
    ensures
        0 <= hit(q, lower, j)->0 < lower.len(),
        lower[hit(q, lower, j)->0] == q[j],
        j > 0 ==> hit(q, lower, j - 1) is Some && hit(q, lower, j - 1)->0 < hit(q, lower, j)->0,
{
    if j == 0 {
        lemma_find_from_some(lower, q[0], 0);
    } else {
        lemma_hit_some_before(q, lower, j - 1, j);
        lemma_find_from_some(lower, q[j], hit(q, lower, j - 1)->0 + 1);
    }
}

proof fn lemma_hits_increase(q: Seq<char>, lower: Seq<char>, i: int, j: int)
    requires
        0 <= i < j < q.len(),
        hit(q, lower, j) is Some,
    ensures
        hit(q, lower, i) is Some,
        hit(q, lower, i)->0 < hit(q, lower, j)->0,
    decreases j - i,
{
    lemma_hit_props(q, lower, j);
    if i < j - 1 {
        lemma_hits_increase(q, lower, i, j - 1);
    }
}

proof fn lemma_hit_at_most(q: Seq<char>, lower: Seq<char>, pos: Seq<int>, j: int)
    requires
        embeds(q, lower, pos),
        0 <= j < q.len(),
    ensures
        hit(q, lower, j) is Some,
        hit(q, lower, j)->0 <= pos[j],
    decreases j,
{
    if j == 0 {
        lemma_find_from_finds(lower, q[0], 0, pos[0]);
    } else {
        lemma_hit_at_most(q, lower, pos, j - 1);
        lemma_hit_props(q, lower, j - 1);
        assert(pos[j - 1] < pos[j]);
        lemma_find_from_finds(lower, q[j], hit(q, lower, j - 1)->0 + 1, pos[j]);
    }
}

/// A query matches exactly when it is a subsequence of the lowercased
/// target: `base_spec` is `Some` if and only if every query character
/// occurs in `lower`, in order.
pub proof fn lemma_match_iff_subsequence(q: Seq<char>, lower: Seq<char>)
    ensures
        base_spec(q, lower) is Some <==> is_subsequence(q, lower),
{
    if q.len() == 0 {
        assert(embeds(q, lower, Seq::<int>::empty()));
    } else if base_spec(q, lower) is Some {
        let n = q.len() as int;
        let pos = Seq::new(q.len(), |i: int| hit(q, lower, i)->0);
        assert forall|i: int| 0 <= i < q.len() implies 0 <= #[trigger] pos[i] < lower.len()
            && lower[pos[i]] == q[i] by {
            lemma_hit_some_before(q, lower, i, n - 1);
            lemma_hit_props(q, lower, i);
        }
        assert forall|i: int, j: int| 0 <= i < j < q.len() implies #[trigger] pos[i]
            < #[trigger] pos[j] by {
            lemma_hit_some_before(q, lower, j, n - 1);
            lemma_hits_increase(q, lower, i, j);
        }
        assert(embeds(q, lower, pos));
    } else if is_subsequence(q, lower) {
        let pos = choose|pos: Seq<int>| embeds(q, lower, pos);
        lemma_hit_at_most(q, lower, pos, q.len() - 1);
    }
}

/// The MRU bonus is the recency band (0, 50, 200 or 400) plus the
/// frequency term (at most 200): it lies in `[0, 600]`, below the
/// whole-prefix bonus of 1000.
pub proof fn lemma_mru_bonus_bounds(m: MruInfo, diff: int)
    ensures
        0 <= mru_bonus_for(m, diff) <= RECENCY_LT_7D + FREQ_CAP,
        mru_bonus_for(m, diff) < WHOLE_PREFIX_BONUS,
{
}

/// A launch less than seven days ago earns the top recency band: the bonus
/// is at least 400.
pub proof fn lemma_recent_use_boosts(m: MruInfo, diff: int)
    requires
        0 <= diff < 7 * MS_PER_DAY,
    ensures
        mru_bonus_for(m, diff) >= RECENCY_LT_7D,
{
    assert(diff / (MS_PER_DAY as int) < 7);
}

/// More recent or more frequent use never lowers the MRU bonus: at one
/// clock reading, a record with at least as many launches and a last launch
/// no earlier gets at least the same bonus.
pub proof fn lemma_mru_bonus_monotone(m1: MruInfo, m2: MruInfo, now: i64)
    requires
        m1.count <= m2.count,
        m1.last_used_ms <= m2.last_used_ms,
    ensures
        mru_bonus_for(m1, clock_diff(m1, now)) <= mru_bonus_for(m2, clock_diff(m2, now)),
{
    let d1 = clock_diff(m1, now);
    let d2 = clock_diff(m2, now);
    let e1 = if d1 < 0 {
        0
    } else {
        d1
    };
    let e2 = if d2 < 0 {
        0
    } else {
        d2
    };
    assert(e2 <= e1);
    vstd::arithmetic::div_mod::lemma_div_is_ordered(e2, e1, MS_PER_DAY as int);
    assert(0 <= days_of(d2) <= days_of(d1)) by {
        vstd::arithmetic::div_mod::lemma_div_is_ordered(0, e2, MS_PER_DAY as int);
    }
}

/// When the lowercased target starts with a non-empty query, the query
/// matches and its base score includes the whole-prefix bonus and the
/// boundary bonus of the first character: it is at least 1060.
pub proof fn lemma_prefix_match_score(q: Seq<char>, lower: Seq<char>)
    requires
        q.len() > 0,
        q.is_prefix_of(lower),
    ensures
        base_spec(q, lower) is Some,
        base_spec(q, lower)->0 >= WHOLE_PREFIX_BONUS + BOUNDARY_BONUS,
{
    let pos = Seq::new(q.len(), |i: int| i);
    assert(embeds(q, lower, pos));
    lemma_match_iff_subsequence(q, lower);
    assert(find_from(lower, q[0], 0) == Some(0int));
    assert(step_bonus(q, lower, 0) >= BOUNDARY_BONUS);
    assert(run_sum(q, lower, 1) == run_sum(q, lower, 0) + step_bonus(q, lower, 0));
    assert forall|k: int| 1 <= k <= q.len() implies run_sum(q, lower, k) >= BOUNDARY_BONUS by {
        lemma_run_sum_from_first(q, lower, k);
    }
}

proof fn lemma_prefix_hits(q: Seq<char>, lower: Seq<char>, j: int)
    requires
        q.is_prefix_of(lower),
        0 <= j < q.len(),
    ensures
        hit(q, lower, j) == Some(j),
    decreases j,
{
    assert(lower[j] == q[j]);
    if j > 0 {
        lemma_prefix_hits(q, lower, j - 1);
    }
}

proof fn lemma_prefix_run_sum(q: Seq<char>, lower: Seq<char>, k: int)
    requires
        q.is_prefix_of(lower),
        1 <= k <= q.len(),
    ensures
        run_sum(q, lower, k) >= BOUNDARY_BONUS + CONSECUTIVE_BONUS * (k - 1),
    decreases k,
{
    lemma_prefix_hits(q, lower, k - 1);
    if k == 1 {
        assert(run_sum(q, lower, 0) == 0);
    } else {
        lemma_prefix_run_sum(q, lower, k - 1);
        lemma_prefix_hits(q, lower, k - 2);
        assert(step_bonus(q, lower, k - 1) >= CONSECUTIVE_BONUS);
    }
}

proof fn lemma_run_sum_upper(q: Seq<char>, lower: Seq<char>, k: int)
    requires
        1 <= k,
    ensures
        run_sum(q, lower, k) <= (BOUNDARY_BONUS + CONSECUTIVE_BONUS) * k
            - CONSECUTIVE_BONUS,
    decreases k,
{
    if k == 1 {
        assert(run_sum(q, lower, 0) == 0);
        assert(step_bonus(q, lower, 0) <= BOUNDARY_BONUS);
    } else {
        lemma_run_sum_upper(q, lower, k - 1);
        assert(step_bonus(q, lower, k - 1) <= BOUNDARY_BONUS + CONSECUTIVE_BONUS);
    }
}

/// Prefix matches win across apps: for a query of one to seven characters,
/// an app whose lowercased name starts with the query, never launched,
/// outscores any app that matches neither as a whole prefix nor as a word
/// prefix, whatever its launch history and however recently it was used.
pub proof fn lemma_cold_prefix_beats_hot_sparse(
    q: Seq<char>,
    a: Seq<char>,
    b: Seq<char>,
    m: MruInfo,
    diff: int,
)
    requires
        1 <= q.len() <= 7,
        q.is_prefix_of(lower_of(a)),
        score_spec(q, b, Some(m), diff) is Some,
        prefix_bonus(lower_of(b), q) == 0,
    ensures
        score_spec(q, a, None, 0) is Some,
        score_spec(q, a, None, 0)->0 > score_spec(q, b, Some(m), diff)->0,
{
    let n = q.len() as int;
    lemma_prefix_match_score(q, lower_of(a));
    lemma_prefix_run_sum(q, lower_of(a), n);
    assert(prefix_bonus(lower_of(a), q) == WHOLE_PREFIX_BONUS);
    lemma_run_sum_upper(q, lower_of(b), n);
    lemma_mru_bonus_bounds(m, diff);
}

/// Any target and launch record give a score that fits `i32` when the
/// query is short enough: at most 90 per query character, 1000 for the
/// prefix and 600 for the MRU bonus.
pub proof fn lemma_short_query_is_safe(q: Seq<char>, target: Seq<char>, mru: Option<MruInfo>)
    requires
        (BOUNDARY_BONUS + CONSECUTIVE_BONUS) * q.len() + WHOLE_PREFIX_BONUS + RECENCY_LT_7D
            + FREQ_CAP <= i32::MAX,
    ensures
        score_safe(q, target, mru),
{
    let lower = lower_of(target);
    if q.len() > 0 {
        lemma_run_sum_upper(q, lower, q.len() as int);
    }
    if let Some(m) = mru {
        lemma_mru_bonus_bounds(m, 0);
    }
}

proof fn lemma_run_sum_from_first(q: Seq<char>, lower: Seq<char>, k: int)
    requires
        1 <= k,
    ensures
        run_sum(q, lower, k) >= run_sum(q, lower, 1),
    decreases k,
{
    if k > 1 {
        lemma_run_sum_from_first(q, lower, k - 1);
        lemma_step_nonneg(q, lower, k - 1);
    }
}

proof fn lemma_step_nonneg(q: Seq<char>, lower: Seq<char>, j: int)
    ensures
        step_bonus(q, lower, j) >= 0,
{
}

} // verus!
