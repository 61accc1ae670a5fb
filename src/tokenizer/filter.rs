//! Apply some operation over a token.
use super::Token;
use vstd::prelude::*;

verus! {

/// What `str::to_lowercase` returns for a sequence of characters.
pub uninterp spec fn lower_of(s: Seq<char>) -> Seq<char>;

/// Relies on `str::to_lowercase`: Unicode lowercase mapping, a function of the characters alone.
#[verifier::external_body]
fn lowercase(s: &str) -> (r: String)
    ensures
        r@ == lower_of(s@),
{
    s.to_lowercase()
}

/// Filter interface allows to apply a mutating operation over a token.
pub trait Filter {
    /// The text a token holds after this filter ran on a token holding `s`.
    spec fn spec_apply(&self, s: Seq<char>) -> Seq<char>;

    /// Rewrites the token's text; its position is kept.
    fn apply(&self, token: &mut Token)
        ensures
            final(token).position == old(token).position,
            final(token).token@ == self.spec_apply(old(token).token@),
    ;
}

/// Type of possible builtin [`Filter`]s.
#[derive(Debug, Clone, Copy, PartialEq, Eq)]
pub enum TokenFilter {
    /// Returns a lowercased version of the token
    LowerCase,
}

impl Filter for TokenFilter {
    open spec fn spec_apply(&self, s: Seq<char>) -> Seq<char> {
        match *self {
            TokenFilter::LowerCase => lower_of(s),
        }
    }

    fn apply(&self, token: &mut Token) {
        match *self {
            TokenFilter::LowerCase => {
                token.token = lowercase(token.token.as_str());
            },
        }
    }
}

} // verus!
