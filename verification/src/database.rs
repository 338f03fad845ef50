//! Records of the clipboard store and the launch history, and the rules
//! the store applies to them.

use vstd::prelude::*;

verus! {

/// One stored clipboard entry.
#[derive(Debug, Clone)]
pub struct Entry {
    pub id: i64,
    pub content: String,
    pub byte_size: i64,
    pub created_at: i64,
}

/// Aggregated launch statistics for one app, used by the launcher matcher
/// to bias scores toward recently / frequently used apps.
#[derive(Debug, Clone, Copy)]
pub struct MruInfo {
    pub count: u32,
    pub last_used_ms: i64,
}

impl MruInfo {
    /// A launch record from a stored row: the stored count (an `i64`) taken
    /// as the `u32` that an `as` cast gives.
    pub fn from_row(count: i64, last_used_ms: i64) -> (r: MruInfo)
        ensures
            r.count == count as u32,
            r.last_used_ms == last_used_ms,
    {
        MruInfo { count: count as u32, last_used_ms }
    }
}

/// Whether `content` repeats the most recent stored entry `last`: such a
/// capture is dropped rather than stored again.
pub fn is_repeat_of_last(last: Option<&str>, content: &str) -> (r: bool)
    ensures
        r == (last matches Some(l) && l@ == content@),
{
    match last {
        None => false,
        Some(l) => {
            let a = crate::text::chars_of(l);
            let b = crate::text::chars_of(content);
            if a.len() != b.len() {
                return false;
            }
            let mut i: usize = 0;
            while i < a.len()
                invariant
                    a.len() == b.len(),
                    a@ == l@,
                    b@ == content@,
                    last == Some(l),
                    i <= a.len(),
                    forall|k: int| 0 <= k < i ==> a@[k] == b@[k],
                decreases a.len() - i,
            {
                if a[i] != b[i] {
                    assert(a@[i as int] != b@[i as int]);
                    return false;
                }
                i += 1;
            }
            assert(a@ =~= b@);
            true
        },
    }
}

/// How a character appears in a LIKE pattern that matches it literally
/// (with `\` as the escape character).
pub open spec fn escape_like_char(c: char) -> Seq<char> {
    if c == '\\' || c == '%' || c == '_' {
        seq!['\\', c]
    } else {
        seq![c]
    }
}

/// `s` with `\`, `%` and `_` escaped by a backslash.
pub open spec fn escape_like(s: Seq<char>) -> Seq<char>
    decreases s.len(),
{
    if s.len() == 0 {
        Seq::empty()
    } else {
        escape_like_char(s[0]) + escape_like(s.skip(1))
    }
}

/// Reads back an escaped pattern body: a backslash takes the next
/// character literally.
pub open spec fn unescape_like(s: Seq<char>) -> Seq<char>
    decreases s.len(),
{
    if s.len() == 0 {
        Seq::empty()
    } else if s[0] == '\\' && s.len() >= 2 {
        seq![s[1]] + unescape_like(s.skip(2))
    } else {
        seq![s[0]] + unescape_like(s.skip(1))
    }
}

proof fn lemma_escape_like_append(a: Seq<char>, b: Seq<char>)
    ensures
        escape_like(a + b) == escape_like(a) + escape_like(b),
    decreases a.len(),
{
    if a.len() == 0 {
        assert(a + b =~= b);
    } else {
        lemma_escape_like_append(a.skip(1), b);
        assert((a + b).skip(1) =~= a.skip(1) + b);
        assert((a + b)[0] == a[0]);
    }
}

/// Escaping loses nothing: reading the escaped text back gives the query.
pub proof fn lemma_escape_like_roundtrip(s: Seq<char>)
    ensures
        unescape_like(escape_like(s)) == s,
    decreases s.len(),
{
    if s.len() > 0 {
        lemma_escape_like_roundtrip(s.skip(1));
        let e = escape_like(s);
        let c = s[0];
        if c == '\\' || c == '%' || c == '_' {
            assert(e.skip(2) =~= escape_like(s.skip(1)));
        } else {
            assert(e.skip(1) =~= escape_like(s.skip(1)));
        }
        assert(s =~= seq![c] + s.skip(1));
    }
}

/// The LIKE pattern that finds `query` as a substring: `%`, the query with
/// `\`, `%` and `_` escaped by a backslash, then `%`.
pub fn like_pattern(query: &str) -> (r: String)
    ensures
        r@ == seq!['%'] + escape_like(query@) + seq!['%'],
{
    let q = crate::text::chars_of(query);
    let mut out: Vec<char> = Vec::new();
    out.push('%');
    let mut i: usize = 0;
    while i < q.len()
        invariant
            i <= q@.len(),
            out@ == seq!['%'] + escape_like(q@.take(i as int)),
        decreases q.len() - i,
    {
        let c = q[i];
        if c == '\\' || c == '%' || c == '_' {
            out.push('\\');
        }
        out.push(c);
        proof {
            assert(q@.take(i + 1) =~= q@.take(i as int) + seq![c]);
            lemma_escape_like_append(q@.take(i as int), seq![c]);
            assert(escape_like(seq![c]) =~= escape_like_char(c)) by {
                assert(seq![c].skip(1) =~= Seq::<char>::empty());
                assert(escape_like(seq![c].skip(1)) =~= Seq::<char>::empty());
                assert(seq![c][0] == c);
            }
        }
        i += 1;
    }
    out.push('%');
    assert(q@.take(i as int) =~= q@);
    crate::text::string_of(&out)
}

} // verus!
