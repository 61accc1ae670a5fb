//! Splits a string into a list of tokens.
//!
//! Available tokenizers:
//! - [`whitespace_tokenizer::WhiteSpaceTokenizer`]: splits on whitespace
pub mod filter;
pub mod whitespace_tokenizer;

use filter::Filter;
use filter::TokenFilter;
use vstd::prelude::*;

verus! {

/// `Token` is a type that holds an owned slice of the input string after being split by the tokenizer.
#[derive(Debug, PartialEq)]
pub struct Token {
    /// The position of the token in the input string, starting at 1
    pub position: u32,
    /// A split outputted by a tokenizer
    pub token: String,
}

/// The text of a split once each filter of `fs` ran on it, first filter first.
pub open spec fn filtered(fs: Seq<TokenFilter>, s: Seq<char>) -> Seq<char>
    decreases fs.len(),
{
    if fs.len() == 0 {
        s
    } else {
        fs.last().spec_apply(filtered(fs.drop_last(), s))
    }
}

/// The tokens made of `splits`: numbered from 1, each filtered by `fs`.
pub open spec fn token_seq(splits: Seq<Seq<char>>, fs: Seq<TokenFilter>) -> Seq<(u32, Seq<char>)> {
    splits.map(|i: int, w: Seq<char>| ((i + 1) as u32, filtered(fs, w)))
}

/// Each token as its position and its text.
pub open spec fn tokens_view(ts: Seq<Token>) -> Seq<(u32, Seq<char>)> {
    ts.map(|i: int, t: Token| (t.position, t.token@))
}

/// Each string as its characters.
pub open spec fn strings_view(ss: Seq<String>) -> Seq<Seq<char>> {
    ss.map(|i: int, s: String| s@)
}

/// An interface for splitting an input string and further applying [`filter::Filter`]s on each
/// split.
pub trait Tokenizer {
    /// The splits of `input`, in order.
    spec fn split_spec(&self, input: Seq<char>) -> Seq<Seq<char>>;

    /// The filters to run on each split, in the order they were added.
    spec fn filters_spec(&self) -> Seq<TokenFilter>;

    /// Returns the list of [`filter::TokenFilter`]s applied on each split.
    fn get_filters(&self) -> (r: &Vec<TokenFilter>)
        ensures
            r@ == self.filters_spec(),
    ;

    /// Returns the splits outputted by the tokenizer for the given string.
    fn splits(&self, input: &str) -> (r: Vec<String>)
        ensures
            strings_view(r@) == self.split_spec(input@),
    ;

    /// Adds a [`filter::TokenFilter`].
    ///
    /// The order of the filters is important for the final resulting [`Token`].
    fn add_filter(&mut self, filter: TokenFilter)
        ensures
            final(self).filters_spec() == old(self).filters_spec().push(filter),
            forall|s: Seq<char>| #[trigger] final(self).split_spec(s) == old(self).split_spec(s),
    ;

    /// Returns the [`Token`]s created from the splits of [`Tokenizer::splits`], numbered
    /// from 1.
    ///
    /// Each token is processed with the configured list of [`filter::TokenFilter`]s.
    fn tokenize(&self, input: &str) -> (r: Vec<Token>)
        requires
            self.split_spec(input@).len() < u32::MAX,
        ensures
            tokens_view(r@) == token_seq(self.split_spec(input@), self.filters_spec()),
    {
        let parts = self.splits(input);
        let filters = self.get_filters();
        let mut tokens: Vec<Token> = Vec::new();
        let mut i: usize = 0;
        while i < parts.len()
            invariant
                i <= parts@.len(),
                strings_view(parts@) == self.split_spec(input@),
                filters@ == self.filters_spec(),
                parts@.len() < u32::MAX,
                tokens_view(tokens@) == token_seq(self.split_spec(input@), filters@).take(i as int),
            decreases parts@.len() - i,
        {
            let mut token = Token { position: (i + 1) as u32, token: parts[i].clone() };
            let mut j: usize = 0;
            while j < filters.len()
                invariant
                    j <= filters@.len(),
                    i < parts@.len(),
                    parts@.len() < u32::MAX,
                    token.position == (i + 1) as u32,
                    token.token@ == filtered(filters@.take(j as int), parts@[i as int]@),
                decreases filters@.len() - j,
            {
                filters[j].apply(&mut token);
                assert(filters@.take(j + 1).drop_last() == filters@.take(j as int));
                j += 1;
            }
            assert(filters@.take(j as int) == filters@);
            proof {
                let want = token_seq(self.split_spec(input@), filters@);
                assert(parts@[i as int]@ == self.split_spec(input@)[i as int]);
                assert(want[i as int] == (token.position, token.token@));
            }
            let ghost prev = tokens@;
            tokens.push(token);
            proof {
                let want = token_seq(self.split_spec(input@), filters@);
                assert(strings_view(parts@).len() == parts@.len());
                assert(want.len() == parts@.len());
                assert(tokens@ == prev.push(token));
                assert(tokens_view(prev).len() == i);
                assert(tokens_view(tokens@).len() == i + 1);
                assert forall|k: int| 0 <= k < i + 1 implies tokens_view(tokens@)[k] == want.take(
                    i + 1,
                )[k] by {
                    if k < i {
                        assert(tokens_view(prev)[k] == want.take(i as int)[k]);
                    }
                }
                assert(tokens_view(tokens@) =~= want.take(i + 1));
            }
            i += 1;
        }
        assert(token_seq(self.split_spec(input@), filters@).take(i as int) =~= token_seq(
            self.split_spec(input@),
            filters@,
        ));
        tokens
    }
}

} // verus!
