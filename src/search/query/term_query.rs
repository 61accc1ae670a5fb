//! Match documents that have a term occurring in a field.
use super::clause_matches;
use super::Query;
use super::QueryClause;
use crate::index::posting_key_of;
use crate::index::posting_lists::doc_ids;
use crate::index::posting_lists::doc_id_items;
use crate::index::posting_lists::DocItem;
use crate::index::posting_lists::Posting;
use crate::search::has_doc;
use crate::search::sorted_items;
use crate::search::DocIterator;
use crate::search::Hits;
use crate::search::IndexSearcher;
use crate::search::SearchHit;
use vstd::prelude::*;

verus! {

/// A query for the documents in which `term` occurs in `field`.
#[derive(Debug, Clone, Copy)]
pub struct TermQuery<'a> {
    pub field: &'a str,
    pub term: &'a str,
}

impl<'a> TermQuery<'a> {
    /// The query of `term` in `field`.
    pub fn new(field: &'a str, term: &'a str) -> (r: TermQuery<'a>)
        ensures
            r.field@ == field@,
            r.term@ == term@,
    {
        TermQuery { field, term }
    }
}

impl<'a> Query<'a> for TermQuery<'a> {
    open spec fn clause(&self) -> QueryClause<'a> {
        QueryClause::Term(*self)
    }

    fn into_clause(self) -> (r: QueryClause<'a>) {
        QueryClause::Term(self)
    }

    fn execute(&self, index_search: &IndexSearcher) -> (r: Hits) {
        let key = posting_key_of(self.field, self.term);
        let posting = index_search.get_index().get_postings_list(key.as_str());
        let mut docs = posting.iter_docs();
        let ghost all = docs.items();
        let mut hits: Vec<SearchHit> = Vec::new();
        proof {
            posting.lemma_sorted();
        }
        loop
            invariant
                docs.wf(),
                all == doc_id_items(posting@),
                crate::index::posting_lists::strictly_increasing(doc_ids(posting@)),
                hits@.len() + docs.items().len() == all.len(),
                docs.items() == all.skip(hits@.len() as int),
                forall|k: int| 0 <= k < hits@.len() ==> (#[trigger] hits@[k]).spec_doc_id() == all[k].doc_id,
            ensures
                hits@.len() == all.len(),
                forall|k: int| 0 <= k < hits@.len() ==> (#[trigger] hits@[k]).spec_doc_id() == all[k].doc_id,
            decreases docs.items().len(),
        {
            match docs.next() {
                None => {
                    break;
                },
                Some(item) => {
                    let ghost k = hits@.len() as int;
                    assert(item == all[k]);
                    hits.push(SearchHit::new(item.doc_id));
                    assert(docs.items() =~= all.skip(hits@.len() as int));
                },
            }
        }
        let r = Hits::new(hits);
        proof {
            assert(hits@.len() == all.len());
            assert forall|a: int, b: int| 0 <= a < b < r.items().len() implies r.items()[a].spec_doc_id() < r.items()[b].spec_doc_id() by {
                assert(doc_ids(posting@)[a] < doc_ids(posting@)[b]);
            }
            assert forall|d: u32| has_doc(r.items(), d) <==> doc_ids(posting@).contains(d) by {
                if has_doc(r.items(), d) {
                    let k = choose|k: int| 0 <= k < r.items().len() && #[trigger] r.items()[k].spec_doc_id() == d;
                    assert(doc_ids(posting@)[k] == d);
                }
                if doc_ids(posting@).contains(d) {
                    let k = choose|k: int| 0 <= k < doc_ids(posting@).len() && doc_ids(posting@)[k] == d;
                    assert(r.items()[k].spec_doc_id() == d);
                }
            }
        }
        r
    }
}

} // verus!
