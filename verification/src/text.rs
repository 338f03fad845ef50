//! Character-level helpers shared by the matcher and the launcher index.

use vstd::prelude::*;

verus! {

broadcast use vstd::string::group_string_axioms;

/// What `char::to_lowercase` yields for `c`: its Unicode lowercase
/// mapping, one or more characters.
pub uninterp spec fn char_lowercase(c: char) -> Seq<char>;

/// Calls `char::to_lowercase` and collects what it yields. The contract
/// names the result and states that it is not empty, as the documentation
/// of `to_lowercase` says ("one or more chars"); the Unicode tables are not
/// restated.
#[verifier::external_body]
fn lowercase_of_char(c: char) -> (r: Vec<char>)
    ensures
        r@ == char_lowercase(c),
        r@.len() >= 1,
{
    c.to_lowercase().collect()
}

/// The characters of `s`, each replaced by its lowercase mapping.
pub open spec fn lower_of(s: Seq<char>) -> Seq<char>
    decreases s.len(),
{
    if s.len() == 0 {
        Seq::empty()
    } else {
        lower_of(s.drop_last()) + char_lowercase(s.last())
    }
}

/// The characters of `s`, in order.
pub fn chars_of(s: &str) -> (r: Vec<char>)
    ensures
        r@ == s@,
{
    let mut out: Vec<char> = Vec::new();
    for c in it: s.chars()
        invariant
            out@ == it.seq().take(it.index()),
    {
        out.push(c);
    }
    out
}

/// Each character of `s` replaced by its lowercase mapping, flattened.
pub fn lowercase_chars(s: &[char]) -> (r: Vec<char>)
    ensures
        r@ == lower_of(s@),
{
    let mut out: Vec<char> = Vec::new();
    let mut i: usize = 0;
    while i < s.len()
        invariant
            i <= s.len(),
            out@ == lower_of(s@.take(i as int)),
        decreases s.len() - i,
    {
        let mut low = lowercase_of_char(s[i]);
        assert(s@.take(i + 1).drop_last() =~= s@.take(i as int));
        out.append(&mut low);
        i += 1;
    }
    assert(s@.take(s.len() as int) =~= s@);
    out
}

/// What `str::to_lowercase` returns for `s`.
pub uninterp spec fn str_lowercase(s: Seq<char>) -> Seq<char>;

/// Calls `str::to_lowercase`. The result is named; the Unicode rules it
/// follows are not restated.
#[verifier::external_body]
pub(crate) fn lowercase(s: &str) -> (r: String)
    ensures
        r@ == str_lowercase(s@),
{
    s.to_lowercase()
}

/// Calls `Iterator::collect` into a `String` over the characters of
/// `chars`.
#[verifier::external_body]
pub(crate) fn string_of(chars: &Vec<char>) -> (r: String)
    ensures
        r@ == chars@,
{
    chars.iter().collect()
}

/// Whether `c` has the Unicode `White_Space` property, which is what
/// `char::is_whitespace` tests: tab through carriage return, space, next
/// line, no-break space, ogham space mark, the en quad through hair space,
/// line and paragraph separators, narrow no-break space, medium
/// mathematical space and ideographic space.
pub open spec fn white_space(c: char) -> bool {
    ('\t' <= c && c <= '\r') || c == ' ' || c == '\u{85}' || c == '\u{a0}' || c == '\u{1680}'
        || ('\u{2000}' <= c && c <= '\u{200a}') || c == '\u{2028}' || c == '\u{2029}' || c
        == '\u{202f}' || c == '\u{205f}' || c == '\u{3000}'
}

/// Calls `char::is_whitespace`; the result is `white_space`.
#[verifier::external_body]
fn is_white_space(c: char) -> (r: bool)
    ensures
        r == white_space(c),
{
    c.is_whitespace()
}

/// Whether `s` is empty once leading and trailing white space is trimmed,
/// that is whether every character of `s` is white space.
pub fn is_blank(s: &str) -> (r: bool)
    ensures
        r == (forall|i: int| 0 <= i < s@.len() ==> white_space(#[trigger] s@[i])),
{
    let cs = chars_of(s);
    let mut i: usize = 0;
    while i < cs.len()
        invariant
            cs@ == s@,
            i <= cs@.len(),
            forall|k: int| 0 <= k < i ==> white_space(#[trigger] s@[k]),
        decreases cs.len() - i,
    {
        if !is_white_space(cs[i]) {
            return false;
        }
        i += 1;
    }
    true
}

} // verus!
