//! A tokenizer splitting on Unicode whitespace.
use super::filter::TokenFilter;
use super::strings_view;
use super::Tokenizer;
use vstd::prelude::*;

verus! {

/// Whether `c` has the Unicode `White_Space` property.
pub open spec fn is_white_space(c: char) -> bool {
    let u = c as u32;
    (0x09 <= u <= 0x0d) || u == 0x20 || u == 0x85 || u == 0xa0 || u == 0x1680 || (0x2000 <= u
        <= 0x200a) || u == 0x2028 || u == 0x2029 || u == 0x202f || u == 0x205f || u == 0x3000
}

/// The maximal runs of non-whitespace characters of `s`, in order.
pub open spec fn white_space_split(s: Seq<char>) -> Seq<Seq<char>>
    decreases s.len(),
{
    if s.len() == 0 {
        seq![]
    } else {
        let words = white_space_split(s.drop_last());
        if is_white_space(s.last()) {
            words
        } else if s.len() >= 2 && !is_white_space(s[s.len() - 2]) {
            words.update(words.len() - 1, words.last().push(s.last()))
        } else {
            words.push(seq![s.last()])
        }
    }
}

/// There are never more splits than characters.
pub proof fn lemma_split_len(s: Seq<char>)
    ensures
        white_space_split(s).len() <= s.len(),
        s.len() > 0 && !is_white_space(s.last()) ==> white_space_split(s).len() > 0,
    decreases s.len(),
{
    if s.len() > 0 {
        lemma_split_len(s.drop_last());
        assert(s.len() >= 2 ==> s.drop_last().last() == s[s.len() - 2]);
    }
}

/// Relies on `str::split_whitespace`: the sub-slices of the input separated by any amount of
/// Unicode `White_Space`, in order, without empty ones.
#[verifier::external_body]
fn split_on_white_space(input: &str) -> (r: Vec<String>)
    ensures
        strings_view(r@) == white_space_split(input@),
{
    input.split_whitespace().map(String::from).collect()
}

/// A [`Tokenizer`] whose splits are the runs of non-whitespace characters.
pub struct WhiteSpaceTokenizer {
    filters: Vec<TokenFilter>,
}

impl View for WhiteSpaceTokenizer {
    type V = Seq<TokenFilter>;

    closed spec fn view(&self) -> Seq<TokenFilter> {
        self.filters@
    }
}

impl Tokenizer for WhiteSpaceTokenizer {
    open spec fn split_spec(&self, input: Seq<char>) -> Seq<Seq<char>> {
        white_space_split(input)
    }

    open spec fn filters_spec(&self) -> Seq<TokenFilter> {
        self@
    }

    fn get_filters(&self) -> (r: &Vec<TokenFilter>) {
        &self.filters
    }

    fn splits(&self, input: &str) -> (r: Vec<String>) {
        split_on_white_space(input)
    }

    fn add_filter(&mut self, filter: TokenFilter) {
        self.filters.push(filter);
    }
}

impl WhiteSpaceTokenizer {
    /// A tokenizer with no filter.
    pub fn new() -> (r: WhiteSpaceTokenizer)
        ensures
            r@ == Seq::<TokenFilter>::empty(),
    {
        WhiteSpaceTokenizer { filters: Vec::new() }
    }
}

} // verus!
