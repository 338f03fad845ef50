//! Stable ordering of keyed items.
//!
//! Keys order lexicographically: first by `primary`, then by `secondary`,
//! then by `text` compared character by character (by code point, which is
//! also the byte order of UTF-8 strings). The sort is stable: items with
//! equal keys keep their input order.

use vstd::prelude::*;

verus! {

/// Ordering key of one item.
pub struct SortKey {
    pub primary: i64,
    pub secondary: usize,
    pub text: Vec<char>,
}

/// An item together with its key.
pub struct Keyed<T> {
    pub key: SortKey,
    pub item: T,
}

/// Strict lexicographic order on character sequences, by code point.
pub open spec fn seq_lt(a: Seq<char>, b: Seq<char>) -> bool
    decreases a.len(),
{
    if a.len() == 0 {
        b.len() > 0
    } else if b.len() == 0 {
        false
    } else if a[0] != b[0] {
        (a[0] as u32) < (b[0] as u32)
    } else {
        seq_lt(a.drop_first(), b.drop_first())
    }
}

/// The mathematical content of a key.
pub open spec fn key_view(k: SortKey) -> (int, int, Seq<char>) {
    (k.primary as int, k.secondary as int, k.text@)
}

/// Strict order on key contents.
pub open spec fn key_lt(a: (int, int, Seq<char>), b: (int, int, Seq<char>)) -> bool {
    a.0 < b.0 || (a.0 == b.0 && (a.1 < b.1 || (a.1 == b.1 && seq_lt(a.2, b.2))))
}

pub open spec fn keys_of<T>(s: Seq<Keyed<T>>) -> Seq<(int, int, Seq<char>)> {
    s.map_values(|e: Keyed<T>| key_view(e.key))
}

/// A keyed item as its key content and its item.
pub open spec fn pair_of<T>(e: Keyed<T>) -> ((int, int, Seq<char>), T) {
    (key_view(e.key), e.item)
}

pub open spec fn pairs_of<T>(s: Seq<Keyed<T>>) -> Seq<((int, int, Seq<char>), T)> {
    s.map_values(|e: Keyed<T>| pair_of(e))
}

pub open spec fn pair_keys<T>(s: Seq<((int, int, Seq<char>), T)>) -> Seq<(int, int, Seq<char>)> {
    s.map_values(|p: ((int, int, Seq<char>), T)| p.0)
}

/// First index `p` with `x` strictly before `s[p]`, or `s.len()`.
pub open spec fn insert_pos(s: Seq<(int, int, Seq<char>)>, x: (int, int, Seq<char>)) -> int
    decreases s.len(),
{
    if s.len() == 0 {
        0
    } else if key_lt(x, s[0]) {
        0
    } else {
        1 + insert_pos(s.drop_first(), x)
    }
}

/// Stable insertion sort: each item in turn goes after every item already
/// placed that it does not strictly precede.
pub open spec fn sorted_seq<T>(s: Seq<((int, int, Seq<char>), T)>) -> Seq<((int, int, Seq<char>), T)>
    decreases s.len(),
{
    if s.len() == 0 {
        Seq::empty()
    } else {
        let rest = sorted_seq(s.drop_last());
        rest.insert(insert_pos(pair_keys(rest), s.last().0), s.last())
    }
}

/// `s` is in non-decreasing key order.
pub open spec fn is_sorted(s: Seq<(int, int, Seq<char>)>) -> bool {
    forall|i: int, j: int| 0 <= i < j < s.len() ==> !key_lt(#[trigger] s[j], #[trigger] s[i])
}

/// Whether `a` is strictly before `b`, character by character.
pub fn text_lt(a: &[char], b: &[char]) -> (r: bool)
    ensures
        r == seq_lt(a@, b@),
{
    let mut i: usize = 0;
    assert(a@.skip(0) =~= a@);
    assert(b@.skip(0) =~= b@);
    while i < a.len() && i < b.len()
        invariant
            i <= a.len(),
            i <= b.len(),
            seq_lt(a@, b@) == seq_lt(a@.skip(i as int), b@.skip(i as int)),
        decreases a.len() - i,
    {
        if a[i] != b[i] {
            assert(a@.skip(i as int)[0] == a@[i as int]);
            assert(b@.skip(i as int)[0] == b@[i as int]);
            return (a[i] as u32) < (b[i] as u32);
        }
        assert(a@.skip(i as int).drop_first() =~= a@.skip(i + 1));
        assert(b@.skip(i as int).drop_first() =~= b@.skip(i + 1));
        i += 1;
    }
    i == a.len() && i < b.len()
}

/// Whether key `a` is strictly before key `b`.
pub fn sort_key_lt(a: &SortKey, b: &SortKey) -> (r: bool)
    ensures
        r == key_lt(key_view(*a), key_view(*b)),
{
    if a.primary != b.primary {
        return a.primary < b.primary;
    }
    if a.secondary != b.secondary {
        return a.secondary < b.secondary;
    }
    text_lt(a.text.as_slice(), b.text.as_slice())
}

fn find_insert_pos<T>(out: &Vec<Keyed<T>>, k: &SortKey) -> (r: usize)
    ensures
        r as int == insert_pos(pair_keys(pairs_of(out@)), key_view(*k)),
        r <= out@.len(),
{
    let ghost ks = pair_keys(pairs_of(out@));
    let mut p: usize = 0;
    assert(ks.skip(0) =~= ks);
    while p < out.len()
        invariant
            p <= out@.len(),
            ks == pair_keys(pairs_of(out@)),
            forall|i: int| 0 <= i < p ==> !key_lt(key_view(*k), #[trigger] ks[i]),
            insert_pos(ks, key_view(*k)) == p + insert_pos(ks.skip(p as int), key_view(*k)),
        decreases out.len() - p,
    {
        if sort_key_lt(k, &out[p].key) {
            assert(ks.skip(p as int)[0] == ks[p as int]);
            return p;
        }
        assert(ks.skip(p as int).drop_first() =~= ks.skip(p + 1));
        p += 1;
    }
    p
}

/// The items ordered by key, stably.
pub fn stable_sort<T>(items: Vec<Keyed<T>>) -> (r: Vec<Keyed<T>>)
    ensures
        pairs_of(r@) == sorted_seq(pairs_of(items@)),
{
    let ghost all = items@;
    let items_len = items.len();
    let mut input = items;
    let mut out: Vec<Keyed<T>> = Vec::new();
    let mut i: usize = 0;
    assert(all.skip(0) =~= all);
    assert(all.take(0) =~= Seq::<Keyed<T>>::empty());
    while input.len() > 0
        invariant
            all.len() == items_len,
            i + input@.len() == all.len(),
            input@ == all.skip(i as int),
            pairs_of(out@) == sorted_seq(pairs_of(all.take(i as int))),
        decreases input@.len(),
    {
        let x = input.remove(0);
        assert(x == all[i as int]);
        let p = find_insert_pos(&out, &x.key);
        out.insert(p, x);
        assert(all.take(i + 1).drop_last() =~= all.take(i as int));
        assert(all.take(i + 1).last() == x);
        assert(pairs_of(all.take(i + 1)).drop_last() =~= pairs_of(all.take(i as int)));
        assert(pairs_of(out@) =~= sorted_seq(pairs_of(all.take(i as int))).insert(p as int, pair_of(x)));
        assert(input@ =~= all.skip(i + 1));
        i += 1;
    }
    assert(all.take(i as int) =~= all);
    out
}

// ---------------------------------------------------------------------------
// Order laws
// ---------------------------------------------------------------------------

proof fn lemma_char_code_injective(x: char, y: char)
    requires
        x != y,
    ensures
        (x as u32) != (y as u32),
{
}

pub proof fn lemma_seq_lt_irrefl(a: Seq<char>)
    ensures
        !seq_lt(a, a),
    decreases a.len(),
{
    if a.len() > 0 {
        lemma_seq_lt_irrefl(a.drop_first());
    }
}

pub proof fn lemma_seq_lt_trans(a: Seq<char>, b: Seq<char>, c: Seq<char>)
    requires
        seq_lt(a, b),
        seq_lt(b, c),
    ensures
        seq_lt(a, c),
    decreases a.len(),
{
    if a.len() > 0 && b.len() > 0 && c.len() > 0 && a[0] == b[0] && b[0] == c[0] {
        lemma_seq_lt_trans(a.drop_first(), b.drop_first(), c.drop_first());
    }
}

pub proof fn lemma_seq_lt_total(a: Seq<char>, b: Seq<char>)
    ensures
        seq_lt(a, b) || seq_lt(b, a) || a == b,
    decreases a.len(),
{
    if a.len() > 0 && b.len() > 0 {
        if a[0] == b[0] {
            lemma_seq_lt_total(a.drop_first(), b.drop_first());
            if a.drop_first() == b.drop_first() {
                assert(a =~= seq![a[0]] + a.drop_first());
                assert(b =~= seq![b[0]] + b.drop_first());
            }
        } else {
            lemma_char_code_injective(a[0], b[0]);
        }
    } else if a.len() == 0 && b.len() == 0 {
        assert(a =~= b);
    }
}

pub proof fn lemma_seq_lt_asym(a: Seq<char>, b: Seq<char>)
    requires
        seq_lt(a, b),
    ensures
        !seq_lt(b, a),
{
    if seq_lt(b, a) {
        lemma_seq_lt_trans(a, b, a);
        lemma_seq_lt_irrefl(a);
    }
}

proof fn lemma_key_lt_trans(a: (int, int, Seq<char>), b: (int, int, Seq<char>), c: (int, int, Seq<char>))
    requires
        key_lt(a, b),
        key_lt(b, c),
    ensures
        key_lt(a, c),
{
    if a.0 == b.0 && b.0 == c.0 && a.1 == b.1 && b.1 == c.1 {
        lemma_seq_lt_trans(a.2, b.2, c.2);
    }
}

proof fn lemma_key_total(a: (int, int, Seq<char>), b: (int, int, Seq<char>))
    ensures
        key_lt(a, b) || key_lt(b, a) || a == b,
{
    lemma_seq_lt_total(a.2, b.2);
}

proof fn lemma_key_irrefl(a: (int, int, Seq<char>))
    ensures
        !key_lt(a, a),
{
    lemma_seq_lt_irrefl(a.2);
}

proof fn lemma_insert_pos_props(s: Seq<(int, int, Seq<char>)>, x: (int, int, Seq<char>))
    ensures
        0 <= insert_pos(s, x) <= s.len(),
        forall|i: int| 0 <= i < insert_pos(s, x) ==> !key_lt(x, #[trigger] s[i]),
        insert_pos(s, x) < s.len() ==> key_lt(x, s[insert_pos(s, x)]),
    decreases s.len(),
{
    if s.len() > 0 && !key_lt(x, s[0]) {
        lemma_insert_pos_props(s.drop_first(), x);
        assert forall|i: int| 0 <= i < insert_pos(s, x) implies !key_lt(x, #[trigger] s[i]) by {
            if i > 0 {
                assert(s[i] == s.drop_first()[i - 1]);
            }
        }
    }
}

proof fn lemma_sorted_seq_len<T>(s: Seq<((int, int, Seq<char>), T)>)
    ensures
        sorted_seq(s).len() == s.len(),
    decreases s.len(),
{
    if s.len() > 0 {
        lemma_sorted_seq_len(s.drop_last());
        lemma_insert_pos_props(pair_keys(sorted_seq(s.drop_last())), s.last().0);
    }
}

/// The stable sort only reorders: every item it returns is one it was
/// given.
pub proof fn lemma_sorted_seq_from_input<T>(s: Seq<((int, int, Seq<char>), T)>, k: int)
    requires
        0 <= k < sorted_seq(s).len(),
    ensures
        s.contains(sorted_seq(s)[k]),
    decreases s.len(),
{
    lemma_sorted_seq_len(s);
    let rest = sorted_seq(s.drop_last());
    let p = insert_pos(pair_keys(rest), s.last().0);
    lemma_sorted_seq_len(s.drop_last());
    lemma_insert_pos_props(pair_keys(rest), s.last().0);
    if k == p {
        assert(s[s.len() - 1] == s.last());
    } else {
        let k2 = if k < p { k } else { k - 1 };
        assert(sorted_seq(s)[k] == rest[k2]);
        lemma_sorted_seq_from_input(s.drop_last(), k2);
        let w = choose|w: int| 0 <= w < s.drop_last().len() && s.drop_last()[w] == rest[k2];
        assert(s[w] == rest[k2]);
    }
}

/// The stable sort puts its items in non-decreasing key order.
pub proof fn lemma_sorted_seq_is_sorted<T>(s: Seq<((int, int, Seq<char>), T)>)
    ensures
        is_sorted(pair_keys(sorted_seq(s))),
        sorted_seq(s).len() == s.len(),
    decreases s.len(),
{
    lemma_sorted_seq_len(s);
    if s.len() > 0 {
        let rest = sorted_seq(s.drop_last());
        lemma_sorted_seq_is_sorted(s.drop_last());
        let ks = pair_keys(rest);
        let x = s.last().0;
        let p = insert_pos(ks, x);
        lemma_insert_pos_props(ks, x);
        let out = rest.insert(p, s.last());
        let ko = pair_keys(out);
        assert(ko =~= ks.insert(p, x));
        assert forall|i: int, j: int| 0 <= i < j < ko.len() implies !key_lt(
            #[trigger] ko[j],
            #[trigger] ko[i],
        ) by {
            if i < p && j == p {
            } else if i == p && j > p {
                // x < ks[p] <= ks[j - 1]
                if p < ks.len() {
                    if j - 1 == p {
                        lemma_key_total(x, ks[p]);
                        if key_lt(ks[p], x) {
                            lemma_key_lt_trans(x, ks[p], x);
                            lemma_key_irrefl(x);
                        }
                    } else {
                        assert(!key_lt(ks[j - 1], ks[p]));
                        lemma_key_total(ks[p], ks[j - 1]);
                        if key_lt(ks[j - 1], x) {
                            if key_lt(ks[p], ks[j - 1]) {
                                lemma_key_lt_trans(x, ks[p], ks[j - 1]);
                                lemma_key_lt_trans(x, ks[j - 1], x);
                            } else {
                                lemma_key_lt_trans(x, ks[p], x);
                            }
                            lemma_key_irrefl(x);
                        }
                    }
                }
            } else if i < p && j > p {
                assert(ko[i] == ks[i]);
                assert(ko[j] == ks[j - 1]);
            } else if i > p {
                assert(ko[i] == ks[i - 1]);
                assert(ko[j] == ks[j - 1]);
            } else {
                assert(ko[i] == ks[i]);
                assert(ko[j] == ks[j]);
            }
        }
    }
}

/// The stable sort is a permutation: it returns each item as many times as
/// it was given.
pub proof fn lemma_sorted_seq_permutes<T>(s: Seq<((int, int, Seq<char>), T)>)
    ensures
        sorted_seq(s).to_multiset() =~= s.to_multiset(),
    decreases s.len(),
{
    broadcast use vstd::seq_lib::to_multiset_insert, vstd::seq_lib::to_multiset_build;

    if s.len() == 0 {
        assert(sorted_seq(s) =~= s);
    } else {
        let rest = sorted_seq(s.drop_last());
        lemma_sorted_seq_permutes(s.drop_last());
        lemma_sorted_seq_len(s.drop_last());
        lemma_insert_pos_props(pair_keys(rest), s.last().0);
        assert(s =~= s.drop_last().push(s.last()));
    }
}

/// The items of key `k`.
pub open spec fn has_key<T>(k: (int, int, Seq<char>)) -> spec_fn(((int, int, Seq<char>), T)) -> bool {
    |p: ((int, int, Seq<char>), T)| p.0 == k
}

proof fn lemma_filter_insert_other<A>(a: Seq<A>, p: int, x: A, pred: spec_fn(A) -> bool)
    requires
        0 <= p <= a.len(),
        !pred(x),
    ensures
        a.insert(p, x).filter(pred) == a.filter(pred),
    decreases a.len(),
{
    reveal(Seq::filter);
    if p == a.len() {
        assert(a.insert(p, x).drop_last() =~= a);
        assert(a.insert(p, x).last() == x);
    } else {
        lemma_filter_insert_other(a.drop_last(), p, x, pred);
        assert(a.insert(p, x).drop_last() =~= a.drop_last().insert(p, x));
        assert(a.insert(p, x).last() == a.last());
    }
}

proof fn lemma_filter_insert_last<A>(a: Seq<A>, p: int, x: A, pred: spec_fn(A) -> bool)
    requires
        0 <= p <= a.len(),
        pred(x),
        forall|j: int| p <= j < a.len() ==> !pred(#[trigger] a[j]),
    ensures
        a.insert(p, x).filter(pred) == a.filter(pred).push(x),
    decreases a.len(),
{
    reveal(Seq::filter);
    if p == a.len() {
        assert(a.insert(p, x).drop_last() =~= a);
        assert(a.insert(p, x).last() == x);
    } else {
        assert(!pred(a[a.len() - 1]));
        assert forall|j: int| p <= j < a.drop_last().len() implies !pred(
            #[trigger] a.drop_last()[j],
        ) by {
            assert(a.drop_last()[j] == a[j]);
        }
        lemma_filter_insert_last(a.drop_last(), p, x, pred);
        assert(a.insert(p, x).drop_last() =~= a.drop_last().insert(p, x));
        assert(a.insert(p, x).last() == a.last());
    }
}

/// The stable sort keeps the input order among items of equal keys: the
/// items of each key come out in the order they went in.
pub proof fn lemma_sorted_seq_stable<T>(s: Seq<((int, int, Seq<char>), T)>, k: (int, int, Seq<char>))
    ensures
        sorted_seq(s).filter(has_key::<T>(k)) == s.filter(has_key::<T>(k)),
    decreases s.len(),
{
    reveal(Seq::filter);
    if s.len() > 0 {
        let pred = has_key::<T>(k);
        let rest = sorted_seq(s.drop_last());
        let x = s.last();
        let ks = pair_keys(rest);
        let ip = insert_pos(ks, x.0);
        lemma_sorted_seq_stable(s.drop_last(), k);
        lemma_sorted_seq_is_sorted(s.drop_last());
        lemma_insert_pos_props(ks, x.0);
        if pred(x) {
            assert forall|j: int| ip <= j < rest.len() implies !pred(#[trigger] rest[j]) by {
                assert(ks[j] == rest[j].0);
                assert(ks[ip] == rest[ip].0);
                if j > ip {
                    assert(!key_lt(ks[j], ks[ip]));
                    lemma_key_total(ks[ip], ks[j]);
                    if key_lt(ks[ip], ks[j]) {
                        lemma_key_lt_trans(x.0, ks[ip], ks[j]);
                    }
                }
                lemma_key_irrefl(x.0);
            }
            lemma_filter_insert_last(rest, ip, x, pred);
        } else {
            lemma_filter_insert_other(rest, ip, x, pred);
        }
    }
}

} // verus!
