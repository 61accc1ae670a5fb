//! Match a document that fulfils a boolean combination of queries.
//!
//! The `must` clauses are queries that must match a document, the `must_not` clauses queries
//! that must not. They are added thanks to [`BooleanQuery::must`] and [`BooleanQuery::must_not`].
use super::clause_matches;
use super::Query;
use super::QueryClause;
use crate::index::posting_lists::DocItem;
use crate::index::Index;
use crate::search::common_ids;
use crate::search::has_doc;
use crate::search::union_ids;
use crate::search::lemma_first_at_least;
use crate::search::first_at_least;
use crate::search::sorted_items;
use crate::search::DocIterator;
use crate::search::Hits;
use crate::search::IndexSearcher;
use crate::search::SearchHit;
use vstd::prelude::*;

verus! {

/// A query for the documents that all `must` clauses match and no `must_not` clause does; with
/// no `must` clause it matches nothing.
pub struct BooleanQuery<'bq> {
    pub must: Vec<QueryClause<'bq>>,
    pub must_not: Vec<QueryClause<'bq>>,
}

impl<'bq> Default for BooleanQuery<'bq> {
    fn default() -> (r: BooleanQuery<'bq>)
        ensures
            r.must@.len() == 0,
            r.must_not@.len() == 0,
    {
        BooleanQuery { must: Vec::new(), must_not: Vec::new() }
    }
}

impl<'bq> BooleanQuery<'bq> {
    /// Adds a query that must be matched
    pub fn must<T: Query<'bq>>(&mut self, query: T)
        ensures
            final(self).must@ == old(self).must@.push(query.clause()),
            final(self).must_not@ == old(self).must_not@,
    {
        self.must.push(query.into_clause());
    }

    /// Adds a query that must not be matched
    pub fn must_not<T: Query<'bq>>(&mut self, query: T)
        ensures
            final(self).must_not@ == old(self).must_not@.push(query.clause()),
            final(self).must@ == old(self).must@,
    {
        self.must_not.push(query.into_clause());
    }

    /// Runs each clause of `clauses` over the searcher's index.
    fn run_all(clauses: &Vec<QueryClause<'bq>>, index_search: &IndexSearcher) -> (r: Vec<Hits>)
        requires
            index_search.index_view().wf(),
        ensures
            r@.len() == clauses@.len(),
            forall|i: int| 0 <= i < r@.len() ==> (#[trigger] r@[i]).wf(),
            forall|i: int| 0 <= i < r@.len() ==> sorted_items((#[trigger] r@[i]).items()),
            forall|i: int, d: u32|
                0 <= i < r@.len() ==> (#[trigger] has_doc(r@[i].items(), d) <==> clause_matches(
                    clauses@[i],
                    index_search.index_view(),
                    d,
                )),
        decreases clauses,
    {
        let mut results: Vec<Hits> = Vec::new();
        let mut i: usize = 0;
        while i < clauses.len()
            invariant
                i <= clauses@.len(),
                index_search.index_view().wf(),
                results@.len() == i,
                forall|j: int| 0 <= j < i ==> (#[trigger] results@[j]).wf(),
                forall|j: int| 0 <= j < i ==> sorted_items((#[trigger] results@[j]).items()),
                forall|j: int, d: u32|
                    0 <= j < i ==> (#[trigger] has_doc(results@[j].items(), d) <==> clause_matches(
                        clauses@[j],
                        index_search.index_view(),
                        d,
                    )),
            decreases clauses@.len() - i,
        {
            proof {
                assert(decreases_to!(clauses => clauses@[i as int]));
            }
            let hits = clauses[i].execute(index_search);
            results.push(hits);
            i += 1;
        }
        results
    }

    /// Retains the matching documents of the searcher's index, in increasing order.
    pub fn run(&self, index_search: &IndexSearcher) -> (r: Hits)
        requires
            index_search.index_view().wf(),
        ensures
            r.wf(),
            sorted_items(r.items()),
            forall|d: u32| has_doc(r.items(), d) <==> clause_matches(QueryClause::Boolean(*self), index_search.index_view(), d),
        decreases *self,
    {
        let ghost iv = index_search.index_view();
        if self.must.len() == 0 {
            let r = Hits::new(Vec::new());
            assert(r.items().len() == 0);
            assert forall|d: u32| !has_doc(r.items(), d) by {}
            return r;
        }
        let must_results = Self::run_all(&self.must, index_search);
        let must_not_results = Self::run_all(&self.must_not, index_search);
        let ghost must_slots = must_results@.map(|j: int, h: Hits| h.items());
        let ghost not_slots = must_not_results@.map(|j: int, h: Hits| h.items());
        let mut conj = index_search.conjunction(must_results);
        let mut disj = index_search.disjunction(must_not_results);
        let ghost c0 = conj.common();
        let ghost u0 = disj.remaining();
        proof {
            assert forall|d: u32| c0.contains(d) <==> (forall|i: int| 0 <= i < self.must@.len() ==> clause_matches(#[trigger] self.must@[i], iv, d)) by {
                if c0.contains(d) {
                    assert forall|i: int| 0 <= i < self.must@.len() implies clause_matches(#[trigger] self.must@[i], iv, d) by {
                        assert(has_doc(must_slots[i], d));
                    }
                }
                if forall|i: int| 0 <= i < self.must@.len() ==> clause_matches(#[trigger] self.must@[i], iv, d) {
                    assert forall|i: int| 0 <= i < must_slots.len() implies has_doc(#[trigger] must_slots[i], d) by {
                        assert(clause_matches(self.must@[i], iv, d));
                    }
                }
            }
            assert forall|d: u32| u0.contains(d) <==> (exists|i: int| 0 <= i < self.must_not@.len() && clause_matches(#[trigger] self.must_not@[i], iv, d)) by {
                if u0.contains(d) {
                    let i = choose|i: int| 0 <= i < not_slots.len() && has_doc(#[trigger] not_slots[i], d);
                    assert(clause_matches(self.must_not@[i], iv, d));
                }
                if exists|i: int| 0 <= i < self.must_not@.len() && clause_matches(#[trigger] self.must_not@[i], iv, d) {
                    let i = choose|i: int| 0 <= i < self.must_not@.len() && clause_matches(#[trigger] self.must_not@[i], iv, d);
                    assert(has_doc(not_slots[i], d));
                }
            }
        }
        let mut current: Option<u32> = match disj.next() {
            None => None,
            Some(item) => Some(item.get_doc_id()),
        };
        let mut hits: Vec<SearchHit> = Vec::new();
        loop
            invariant
                conj.wf(),
                disj.wf(),
                conj.slots().len() == self.must@.len(),
                self.must@.len() > 0,
                iv == index_search.index_view(),
                forall|d: u32| #[trigger] c0.contains(d) <==> (forall|i: int| 0 <= i < self.must@.len() ==> clause_matches(#[trigger] self.must@[i], iv, d)),
                forall|d: u32| #[trigger] u0.contains(d) <==> (exists|i: int| 0 <= i < self.must_not@.len() && clause_matches(#[trigger] self.must_not@[i], iv, d)),
                conj.common().subset_of(c0),
                disj.remaining().subset_of(u0),
                current matches Some(c) ==> u0.contains(c) && forall|x: u32| disj.remaining().contains(x) ==> c < x,
                current is None ==> disj.remaining().is_empty(),
                forall|x: u32| u0.contains(x) ==> (current == Some(x) || disj.remaining().contains(x) || forall|y: u32| conj.common().contains(y) ==> x < y),
                sorted_items(hits@),
                forall|a: int, y: u32|
                    #![trigger hits@[a], conj.common().contains(y)]
                    0 <= a < hits@.len() && conj.common().contains(y) ==> hits@[a].spec_doc_id() < y,
                forall|d: u32| has_doc(hits@, d) <==> (c0.contains(d) && !conj.common().contains(d) && !u0.contains(d)),
            ensures
                sorted_items(hits@),
                forall|d: u32| has_doc(hits@, d) <==> clause_matches(QueryClause::Boolean(*self), iv, d),
            decreases conj.slots()[0].len(),
        {
            let ghost before = conj.slots();
            let ghost cb = conj.common();
            let ghost rb = disj.remaining();
            let ghost hb = hits@;
            match conj.next() {
                None => {
                    proof {
                        assert forall|d: u32| !conj.common().contains(d) by {
                            assert(!Set::<u32>::empty().contains(d));
                        }
                        assert forall|d: u32| has_doc(hits@, d) <==> clause_matches(QueryClause::Boolean(*self), iv, d) by {
                            if c0.contains(d) {}
                            if u0.contains(d) {}
                        }
                    }
                    break;
                },
                Some((d, _items)) => {
                    let mut keep = true;
                    match current {
                        Some(c) => {
                            if c == d {
                                keep = false;
                            } else if c < d {
                                match disj.advance(d) {
                                    None => {
                                        current = None;
                                    },
                                    Some((found, item)) => {
                                        current = Some(item.get_doc_id());
                                        keep = !found;
                                    },
                                }
                            }
                        },
                        None => {},
                    }
                    proof {
                        assert(keep == !u0.contains(d));
                    }
                    if keep {
                        hits.push(SearchHit::new(d));
                    }
                    proof {
                        assert(_items@[0].spec_doc_id() == d);
                        lemma_first_at_least(before[0], d);
                        assert forall|d2: u32| has_doc(hits@, d2) <==> (c0.contains(d2) && !conj.common().contains(d2) && !u0.contains(d2)) by {
                            if has_doc(hits@, d2) && !has_doc(hb, d2) {
                                let p = choose|p: int| 0 <= p < hits@.len() && #[trigger] hits@[p].spec_doc_id() == d2;
                                assert(p == hb.len());
                            }
                            if has_doc(hb, d2) {
                                let p = choose|p: int| 0 <= p < hb.len() && #[trigger] hb[p].spec_doc_id() == d2;
                                assert(hits@[p] == hb[p]);
                            }
                            if d2 == d && keep {
                                assert(hits@[hb.len() as int].spec_doc_id() == d2);
                            }
                        }
                        assert forall|a: int, b: int| 0 <= a < b < hits@.len() implies hits@[a].spec_doc_id() < hits@[b].spec_doc_id() by {
                            if b < hb.len() {
                                assert(hits@[a] == hb[a] && hits@[b] == hb[b]);
                            } else {
                                assert(hits@[a] == hb[a]);
                            }
                        }
                    }
                },
            }
        }
        let r = Hits::new(hits);
        r
    }
}

impl<'bq> Query<'bq> for BooleanQuery<'bq> {
    open spec fn clause(&self) -> QueryClause<'bq> {
        QueryClause::Boolean(*self)
    }

    fn into_clause(self) -> (r: QueryClause<'bq>) {
        QueryClause::Boolean(self)
    }

    fn execute(&self, index_search: &IndexSearcher) -> (r: Hits) {
        self.run(index_search)
    }
}

/// Whatever the documents, the hits of a Boolean query are the documents in the hits of every
/// `must` clause (there being at least one) and in the hits of no `must_not` clause.
pub proof fn lemma_boolean_is_difference<'bq>(
    b: BooleanQuery<'bq>,
    index: Index,
    must_hits: Seq<Seq<SearchHit>>,
    not_hits: Seq<Seq<SearchHit>>,
    result: Seq<SearchHit>,
)
    requires
        must_hits.len() == b.must@.len(),
        not_hits.len() == b.must_not@.len(),
        forall|i: int, d: u32|
            0 <= i < must_hits.len() ==> (#[trigger] has_doc(must_hits[i], d) <==> clause_matches(
                b.must@[i],
                index,
                d,
            )),
        forall|i: int, d: u32|
            0 <= i < not_hits.len() ==> (#[trigger] has_doc(not_hits[i], d) <==> clause_matches(
                b.must_not@[i],
                index,
                d,
            )),
        forall|d: u32| has_doc(result, d) <==> clause_matches(QueryClause::Boolean(b), index, d),
    ensures
        forall|d: u32|
            has_doc(result, d) <==> (common_ids(must_hits).contains(d) && !union_ids(
                not_hits,
            ).contains(d)),
{
    assert forall|d: u32| has_doc(result, d) <==> (common_ids(must_hits).contains(d) && !union_ids(
        not_hits,
    ).contains(d)) by {
        if common_ids(must_hits).contains(d) {
            assert forall|i: int| 0 <= i < b.must@.len() implies clause_matches(#[trigger] b.must@[i], index, d) by {
                assert(has_doc(must_hits[i], d));
            }
        }
        if forall|i: int| 0 <= i < b.must@.len() ==> clause_matches(#[trigger] b.must@[i], index, d) {
            assert forall|i: int| 0 <= i < must_hits.len() implies has_doc(#[trigger] must_hits[i], d) by {
                assert(clause_matches(b.must@[i], index, d));
            }
        }
        if union_ids(not_hits).contains(d) {
            let i = choose|i: int| 0 <= i < not_hits.len() && has_doc(#[trigger] not_hits[i], d);
            assert(clause_matches(b.must_not@[i], index, d));
        }
        if exists|i: int| 0 <= i < b.must_not@.len() && clause_matches(#[trigger] b.must_not@[i], index, d) {
            let i = choose|i: int| 0 <= i < b.must_not@.len() && clause_matches(#[trigger] b.must_not@[i], index, d);
            assert(has_doc(not_hits[i], d));
        }
    }
}

} // verus!
