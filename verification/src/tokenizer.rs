//! Word segmentation for the full-text index: jieba in search mode, so that
//! Chinese, English and mixed text all split sensibly. Each word becomes one
//! index token, at the position given by its rank.

use vstd::prelude::*;

verus! {

/// `jieba_rs::Jieba`, carried opaquely.
#[verifier::external_type_specification]
#[verifier::external_body]
pub struct ExJieba(jieba_rs::Jieba);

/// What `Jieba::tokenize(text, TokenizeMode::Search, true)` returns for
/// `text` with the default dictionary that `Jieba::new` loads: each token's
/// word and its start and end positions.
pub uninterp spec fn jieba_search_tokens(text: Seq<char>) -> Seq<(Seq<char>, usize, usize)>;

/// Calls `Jieba::new`, which loads the default dictionary.
#[verifier::external_body]
fn default_jieba() -> jieba_rs::Jieba {
    jieba_rs::Jieba::new()
}

/// Calls `Jieba::tokenize` in search mode with the HMM enabled, and keeps
/// each token's word, `start` and `end`. The result is named by the text
/// alone, leaving out the `Jieba` instance: that is sound only because this
/// wrapper is private, its one caller passes the private field of a
/// `JiebaTokenizer`, and that field is built only by `Jieba::new` (the
/// default dictionary) and never given words.
#[verifier::external_body]
fn search_tokens(jieba: &jieba_rs::Jieba, text: &str) -> (r: Vec<(String, usize, usize)>)
    ensures
        r@.map_values(|t: (String, usize, usize)| (t.0@, t.1, t.2)) == jieba_search_tokens(text@),
{
    jieba.tokenize(text, jieba_rs::TokenizeMode::Search, true).into_iter().map(
        |t| (t.word.to_string(), t.start, t.end),
    ).collect()
}

/// One token of the full-text index.
pub struct IndexToken {
    pub offset_from: usize,
    pub offset_to: usize,
    pub position: usize,
    pub text: String,
    pub position_length: usize,
}

/// Offsets, position, text and position length of a token.
pub open spec fn token_view(t: IndexToken) -> (usize, usize, usize, Seq<char>, usize) {
    (t.offset_from, t.offset_to, t.position, t.text@, t.position_length)
}

/// The index tokens for jieba's tokens: the `i`-th word at position `i`,
/// spanning one position, with jieba's start and end as offsets.
pub open spec fn index_tokens(ts: Seq<(Seq<char>, usize, usize)>) -> Seq<
    (usize, usize, usize, Seq<char>, usize),
> {
    Seq::new(ts.len(), |i: int| (ts[i].1, ts[i].2, i as usize, ts[i].0, 1usize))
}

/// One index token per jieba token, in order: the `i`-th carries the
/// `i`-th word with jieba's start and end as offsets, at position `i`,
/// spanning one position.
pub proof fn lemma_index_tokens_one_per_word(ts: Seq<(Seq<char>, usize, usize)>)
    ensures
        index_tokens(ts).len() == ts.len(),
        forall|i: int|
            0 <= i < ts.len() ==> #[trigger] index_tokens(ts)[i] == (
                ts[i].1,
                ts[i].2,
                i as usize,
                ts[i].0,
                1usize,
            ),
{
}

/// Segments text for the index.
pub struct JiebaTokenizer {
    jieba: jieba_rs::Jieba,
}

/// Walks the tokens of one text, one at a time.
pub struct TokenCursor {
    tokens: Vec<IndexToken>,
    idx: usize,
}

impl TokenCursor {
    /// The tokens, in order.
    pub closed spec fn tokens(&self) -> Seq<(usize, usize, usize, Seq<char>, usize)> {
        self.tokens@.map_values(|t: IndexToken| token_view(t))
    }

    /// How many tokens have been stepped onto.
    pub closed spec fn index(&self) -> usize {
        self.idx
    }

    pub closed spec fn wf(&self) -> bool {
        self.idx <= self.tokens@.len()
    }

    /// Steps to the next token: `true` when there was one.
    pub fn advance(&mut self) -> (r: bool)
        requires
            old(self).wf(),
        ensures
            final(self).wf(),
            final(self).tokens() == old(self).tokens(),
            r == (old(self).index() < old(self).tokens().len()),
            final(self).index() == (if r {
                old(self).index() + 1
            } else {
                old(self).index() as int
            }),
    {
        if self.idx < self.tokens.len() {
            self.idx += 1;
            true
        } else {
            false
        }
    }

    /// The token stepped onto last.
    pub fn token(&self) -> (r: &IndexToken)
        requires
            self.wf(),
            1 <= self.index(),
        ensures
            token_view(*r) == self.tokens()[self.index() - 1],
    {
        &self.tokens[self.idx - 1]
    }
}

impl JiebaTokenizer {
    /// A tokenizer with jieba's default dictionary.
    pub fn new() -> Self {
        JiebaTokenizer { jieba: default_jieba() }
    }

    /// The tokens of `text`, with a cursor before the first.
    pub fn token_stream(&self, text: &str) -> (r: TokenCursor)
        ensures
            r.wf(),
            r.index() == 0,
            r.tokens() == index_tokens(jieba_search_tokens(text@)),
            r.tokens().len() == jieba_search_tokens(text@).len(),
            forall|i: int|
                0 <= i < r.tokens().len() ==> #[trigger] r.tokens()[i] == (
                    jieba_search_tokens(text@)[i].1,
                    jieba_search_tokens(text@)[i].2,
                    i as usize,
                    jieba_search_tokens(text@)[i].0,
                    1usize,
                ),
    {
        let raw = search_tokens(&self.jieba, text);
        let ghost ts = jieba_search_tokens(text@);
        assert(raw@.len() == ts.len());
        let mut tokens: Vec<IndexToken> = Vec::new();
        let mut i: usize = 0;
        let n = raw.len();
        let mut rest = raw;
        let ghost all = rest@;
        assert(all.skip(0) =~= all);
        while rest.len() > 0
            invariant
                all.len() == ts.len(),
                all.len() == n,
                forall|k: int|
                    0 <= k < all.len() ==> (#[trigger] all[k].0@, all[k].1, all[k].2) == ts[k],
                i + rest@.len() == all.len(),
                rest@ == all.skip(i as int),
                tokens@.len() == i,
                forall|k: int|
                    0 <= k < i ==> token_view(#[trigger] tokens@[k]) == index_tokens(ts)[k],
            decreases rest@.len(),
        {
            let (word, start, end) = rest.remove(0);
            assert((word, start, end) == all[i as int]);
            assert((all[i as int].0@, all[i as int].1, all[i as int].2) == ts[i as int]);
            tokens.push(
                IndexToken {
                    offset_from: start,
                    offset_to: end,
                    position: i,
                    text: word,
                    position_length: 1,
                },
            );
            assert(rest@ =~= all.skip(i + 1));
            i += 1;
        }
        let r = TokenCursor { tokens, idx: 0 };
        assert(r.tokens() =~= index_tokens(ts));
        r
    }
}

} // verus!
