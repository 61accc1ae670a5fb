//! Define what to search for in a document.
//!
//! The following queries can be executed over an index via an [`IndexSearcher`]:
//! - a [`boolean_query::BooleanQuery`]: a boolean combination of other queries.
//! - a [`phrase_query::PhraseQuery`]: match documents that have some terms close to each other.
//! - a [`term_query::TermQuery`]: match documents that have a specific term occurring.
pub mod boolean_query;
pub mod phrase_query;
pub mod term_query;

use super::has_doc;
use super::sorted_items;
use super::DocIterator;
use super::Hits;
use super::IndexSearcher;
use crate::index::posting_lists::doc_ids;
use crate::index::posting_or_empty;
use crate::index::posting_key;
use crate::index::Index;
use boolean_query::BooleanQuery;
use phrase_query::phrase_matches;
use phrase_query::PhraseQuery;
use term_query::TermQuery;
use vstd::prelude::*;

verus! {

/// One of the queries, as a clause of a [`BooleanQuery`].
pub enum QueryClause<'q> {
    Term(TermQuery<'q>),
    Phrase(PhraseQuery<'q>),
    Boolean(BooleanQuery<'q>),
}

/// Each string as its characters.
pub open spec fn strs_view<'q>(ss: Seq<&'q str>) -> Seq<Seq<char>> {
    ss.map(|i: int, s: &'q str| s@)
}

/// Document `d` of `index` holds `term` in `field`.
pub open spec fn term_matches(field: Seq<char>, term: Seq<char>, index: Index, d: u32) -> bool {
    doc_ids(posting_or_empty(index.postings(), posting_key(field, term))).contains(d)
}

/// Document `d` of `index` matches the clause `c`.
///
/// A Boolean clause matches the documents that every one of its (at least one) `must` clauses
/// matches and none of its `must_not` clauses does.
pub open spec fn clause_matches<'q>(c: QueryClause<'q>, index: Index, d: u32) -> bool
    decreases c,
{
    match c {
        QueryClause::Term(t) => term_matches(t.field@, t.term@, index, d),
        QueryClause::Phrase(p) => phrase_matches(p.field@, strs_view(p.terms@), p.slop, index, d),
        QueryClause::Boolean(b) => {
            &&& b.must@.len() > 0
            &&& forall|i: int| 0 <= i < b.must@.len() ==> clause_matches(#[trigger] b.must@[i], index, d)
            &&& !exists|i: int| 0 <= i < b.must_not@.len() && clause_matches(#[trigger] b.must_not@[i], index, d)
        },
    }
}

/// The `Query` type filters an index and returns the matching documents.
pub trait Query<'q>: Sized {
    /// This query as a clause.
    spec fn clause(&self) -> QueryClause<'q>;

    /// Turns this query into a clause of a [`BooleanQuery`].
    fn into_clause(self) -> (r: QueryClause<'q>)
        ensures
            r == self.clause(),
    ;

    /// Retains the matching documents of the searcher's index, in increasing order.
    fn execute(&self, index_search: &IndexSearcher) -> (r: Hits)
        requires
            index_search.index_view().wf(),
        ensures
            r.wf(),
            sorted_items(r.items()),
            forall|d: u32| has_doc(r.items(), d) <==> clause_matches(self.clause(), index_search.index_view(), d),
    ;
}

impl<'q> QueryClause<'q> {
    /// Retains the matching documents of the searcher's index, in increasing order.
    pub fn execute(&self, index_search: &IndexSearcher) -> (r: Hits)
        requires
            index_search.index_view().wf(),
        ensures
            r.wf(),
            sorted_items(r.items()),
            forall|d: u32| has_doc(r.items(), d) <==> clause_matches(*self, index_search.index_view(), d),
        decreases *self,
    {
        match self {
            QueryClause::Term(t) => t.execute(index_search),
            QueryClause::Phrase(p) => p.execute(index_search),
            QueryClause::Boolean(b) => b.run(index_search),
        }
    }
}

} // verus!
