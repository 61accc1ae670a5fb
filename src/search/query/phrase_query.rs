//! Match a document that has terms juxtaposing within a configurable slop in any order.
//!
//! Set the slop to a value greater or equal to 1 in order to configure the maximum distance
//! between two terms.
use super::clause_matches;
use super::Query;
use super::QueryClause;
use crate::index::posting_key;
use crate::index::posting_key_of;
use crate::index::posting_lists::doc_ids;
use crate::index::posting_lists::pos_items_view;
use crate::index::posting_lists::strictly_increasing;
use crate::index::posting_lists::DocIdAndPosItem;
use crate::index::posting_lists::DocIdAndPosIter;
use crate::index::posting_lists::DocItem;
use crate::index::posting_lists::Posting;
use crate::index::posting_lists::PostingView;
use crate::index::posting_or_empty;
use crate::index::Index;
use crate::search::common_ids;
use crate::search::first_at_least;
use crate::search::has_doc;
use crate::search::lemma_first_at_least;
use crate::search::sorted_items;
use crate::search::DocIterator;
use crate::search::Hits;
use crate::search::IndexSearcher;
use crate::search::MatchingDocIterator;
use crate::search::SearchHit;
use vstd::prelude::*;

verus! {

/// Positions `a` and `b` are at most `slop` apart.
pub open spec fn near(a: u32, b: u32, slop: u8) -> bool {
    if a >= b {
        a - b <= slop
    } else {
        b - a <= slop
    }
}

/// Position `q` may join the chosen positions `w`: it is not one of them and is near one of them.
pub open spec fn fits(w: Seq<u32>, q: u32, slop: u8) -> bool {
    !w.contains(q) && exists|j: int| 0 <= j < w.len() && near(#[trigger] w[j], q, slop)
}

/// The index of the first position of `ps` that fits `w` (`ps.len()` if none does).
pub open spec fn first_fit(w: Seq<u32>, ps: Seq<u32>, slop: u8) -> int
    decreases ps.len(),
{
    if ps.len() == 0 {
        0
    } else if fits(w, ps[0], slop) {
        0
    } else {
        1 + first_fit(w, ps.drop_first(), slop)
    }
}

/// One pass over the terms from `t` on: each term not placed yet whose positions have one that
/// fits the chosen positions adds its first such position.
pub open spec fn pass(w: Seq<u32>, placed: Seq<bool>, ps: Seq<Seq<u32>>, slop: u8, t: int) -> (
    Seq<u32>,
    Seq<bool>,
)
    decreases ps.len() - t,
{
    if t < 0 || t >= ps.len() {
        (w, placed)
    } else if !placed[t] && first_fit(w, ps[t], slop) < ps[t].len() {
        pass(w.push(ps[t][first_fit(w, ps[t], slop)]), placed.update(t, true), ps, slop, t + 1)
    } else {
        pass(w, placed, ps, slop, t + 1)
    }
}

/// Passes are repeated, at most `fuel` times, until every term has a position (a match) or a
/// pass adds none (no match).
pub open spec fn grow(w: Seq<u32>, placed: Seq<bool>, ps: Seq<Seq<u32>>, slop: u8, fuel: nat) -> bool
    decreases fuel,
{
    if w.len() == ps.len() {
        true
    } else if fuel == 0 {
        false
    } else {
        let next = pass(w, placed, ps, slop, 1);
        if next.0.len() == w.len() {
            false
        } else {
            grow(next.0, next.1, ps, slop, (fuel - 1) as nat)
        }
    }
}

/// Only the first term is placed.
pub open spec fn first_placed(k: nat) -> Seq<bool> {
    Seq::new(k, |i: int| i == 0)
}

/// The positions `ps` of the terms in one document match: from some position of the first term,
/// passes reach one position for every term. A pass is at most one per term, so `ps.len()`
/// passes are enough.
pub open spec fn phrase_doc_matches(ps: Seq<Seq<u32>>, slop: u8) -> bool {
    ps.len() > 0 && exists|a: int|
        0 <= a < ps[0].len() && grow(
            seq![#[trigger] ps[0][a]],
            first_placed(ps.len()),
            ps,
            slop,
            ps.len(),
        )
}

/// The positions of document `d` in the posting `p`.
pub open spec fn positions_at(p: PostingView, d: u32) -> Seq<u32> {
    p[choose|k: int| 0 <= k < p.len() && #[trigger] p[k].0 == d].1
}

/// The postings of `terms` in `field`.
pub open spec fn term_postings(index: Index, field: Seq<char>, terms: Seq<Seq<char>>) -> Seq<PostingView> {
    terms.map(|i: int, t: Seq<char>| posting_or_empty(index.postings(), posting_key(field, t)))
}

/// Document `d` of `index` holds every one of the (at least one) `terms` in `field`, and their
/// positions there match within `slop`.
pub open spec fn phrase_matches(field: Seq<char>, terms: Seq<Seq<char>>, slop: u8, index: Index, d: u32) -> bool {
    let ps = term_postings(index, field, terms);
    &&& terms.len() > 0
    &&& forall|i: int| 0 <= i < terms.len() ==> doc_ids(#[trigger] ps[i]).contains(d)
    &&& phrase_doc_matches(ps.map(|i: int, p: PostingView| positions_at(p, d)), slop)
}

/// Each slice as its elements.
pub open spec fn slices_view(v: Seq<&[u32]>) -> Seq<Seq<u32>> {
    v.map(|i: int, s: &[u32]| s@)
}

fn near_exec(a: u32, b: u32, slop: u8) -> (r: bool)
    ensures
        r == near(a, b, slop),
{
    if a >= b {
        a - b <= slop as u32
    } else {
        b - a <= slop as u32
    }
}

fn fits_exec(w: &Vec<u32>, q: u32, slop: u8) -> (r: bool)
    ensures
        r == fits(w@, q, slop),
{
    let mut found_near = false;
    let mut i: usize = 0;
    while i < w.len()
        invariant
            i <= w@.len(),
            forall|j: int| 0 <= j < i ==> w@[j] != q,
            found_near == exists|j: int| 0 <= j < i && near(#[trigger] w@[j], q, slop),
        decreases w@.len() - i,
    {
        if w[i] == q {
            assert(w@.contains(q));
            return false;
        }
        if near_exec(w[i], q, slop) {
            found_near = true;
        }
        proof {
            if found_near {
                if near(w@[i as int], q, slop) {
                    assert(exists|j: int| 0 <= j < i + 1 && near(#[trigger] w@[j], q, slop));
                } else {
                    let j = choose|j: int| 0 <= j < i && near(#[trigger] w@[j], q, slop);
                    assert(0 <= j < i + 1);
                }
            }
        }
        i += 1;
    }
    found_near
}

/// `first_fit` is the first index whose position fits.
proof fn lemma_first_fit(w: Seq<u32>, ps: Seq<u32>, slop: u8)
    ensures
        0 <= first_fit(w, ps, slop) <= ps.len(),
        forall|j: int| 0 <= j < first_fit(w, ps, slop) ==> !fits(w, #[trigger] ps[j], slop),
        first_fit(w, ps, slop) < ps.len() ==> fits(w, ps[first_fit(w, ps, slop)], slop),
    decreases ps.len(),
{
    if ps.len() > 0 && !fits(w, ps[0], slop) {
        lemma_first_fit(w, ps.drop_first(), slop);
        assert forall|j: int| 0 <= j < first_fit(w, ps, slop) implies !fits(w, #[trigger] ps[j], slop) by {
            if j > 0 {
                assert(ps[j] == ps.drop_first()[j - 1]);
            }
        }
    }
}

fn first_fit_exec(w: &Vec<u32>, ps: &[u32], slop: u8) -> (r: usize)
    ensures
        r == first_fit(w@, ps@, slop),
{
    proof {
        lemma_first_fit(w@, ps@, slop);
    }
    let mut i: usize = 0;
    while i < ps.len()
        invariant
            i <= ps@.len(),
            forall|j: int| 0 <= j < i ==> !fits(w@, #[trigger] ps@[j], slop),
            0 <= first_fit(w@, ps@, slop) <= ps@.len(),
            forall|j: int| 0 <= j < first_fit(w@, ps@, slop) ==> !fits(w@, #[trigger] ps@[j], slop),
            first_fit(w@, ps@, slop) < ps@.len() ==> fits(w@, ps@[first_fit(w@, ps@, slop)], slop),
        decreases ps@.len() - i,
    {
        if fits_exec(w, ps[i], slop) {
            return i;
        }
        i += 1;
    }
    i
}

fn run_pass(w: &mut Vec<u32>, placed: &mut Vec<bool>, ps: &Vec<&[u32]>, slop: u8)
    requires
        old(placed)@.len() == ps@.len(),
    ensures
        (final(w)@, final(placed)@) == pass(old(w)@, old(placed)@, slices_view(ps@), slop, 1),
        final(placed)@.len() == ps@.len(),
{
    let ghost target = pass(w@, placed@, slices_view(ps@), slop, 1);
    let mut t: usize = 1;
    while t < ps.len()
        invariant
            1 <= t,
            placed@.len() == ps@.len(),
            pass(w@, placed@, slices_view(ps@), slop, t as int) == target,
        decreases ps@.len() - t,
    {
        let ghost pv = slices_view(ps@);
        assert(pv[t as int] == ps@[t as int]@);
        if !placed[t] {
            let f = first_fit_exec(w, ps[t], slop);
            if f < ps[t].len() {
                w.push(ps[t][f]);
                placed.set(t, true);
            }
        }
        t += 1;
    }
}

fn grows(anchor: u32, ps: &Vec<&[u32]>, slop: u8) -> (r: bool)
    requires
        ps@.len() > 0,
    ensures
        r == grow(seq![anchor], first_placed(ps@.len()), slices_view(ps@), slop, ps@.len()),
{
    let k = ps.len();
    let mut w: Vec<u32> = Vec::new();
    w.push(anchor);
    let mut placed: Vec<bool> = Vec::new();
    let mut i: usize = 0;
    while i < k
        invariant
            i <= k,
            placed@ == first_placed(k as nat).take(i as int),
        decreases k - i,
    {
        placed.push(i == 0);
        assert(placed@ =~= first_placed(k as nat).take(i + 1));
        i += 1;
    }
    assert(placed@ =~= first_placed(k as nat));
    assert(w@ =~= seq![anchor]);
    let ghost target = grow(w@, placed@, slices_view(ps@), slop, k as nat);
    let mut fuel: usize = k;
    loop
        invariant
            placed@.len() == k,
            k == ps@.len(),
            slices_view(ps@).len() == k,
            target == grow(seq![anchor], first_placed(ps@.len()), slices_view(ps@), slop, ps@.len() as nat),
            grow(w@, placed@, slices_view(ps@), slop, fuel as nat) == target,
        decreases fuel,
    {
        if w.len() == k {
            return true;
        }
        if fuel == 0 {
            return false;
        }
        let before = w.len();
        run_pass(&mut w, &mut placed, ps, slop);
        if w.len() == before {
            return false;
        }
        fuel = fuel - 1;
    }
}

/// Whether the positions `ps` of the terms in one document match within `slop`.
pub fn phrase_match(ps: &Vec<&[u32]>, slop: u8) -> (r: bool)
    ensures
        r == phrase_doc_matches(slices_view(ps@), slop),
{
    if ps.len() == 0 {
        return false;
    }
    let first = ps[0];
    let ghost pv = slices_view(ps@);
    assert(pv[0] == first@);
    let mut a: usize = 0;
    while a < first.len()
        invariant
            a <= first@.len(),
            ps@.len() > 0,
            pv == slices_view(ps@),
            pv[0] == first@,
            forall|b: int|
                0 <= b < a ==> !grow(
                    seq![#[trigger] pv[0][b]],
                    first_placed(pv.len()),
                    pv,
                    slop,
                    pv.len(),
                ),
        decreases first@.len() - a,
    {
        assert(pv[0][a as int] == first@[a as int]);
        if grows(first[a], ps, slop) {
            return true;
        }
        a += 1;
    }
    false
}

/// A query for the documents in which some terms occur close to each other, in any order.
#[derive(Debug)]
pub struct PhraseQuery<'a> {
    pub field: &'a str,
    pub terms: Vec<&'a str>,
    pub slop: u8,
}

impl<'a> PhraseQuery<'a> {
    /// Creates a new phrase query for specified sequence of terms, with a slop of 1. The order
    /// of terms is not relevant while matching.
    pub fn new(field: &'a str, terms: Vec<&'a str>) -> (r: PhraseQuery<'a>)
        ensures
            r.field@ == field@,
            r.terms@ == terms@,
            r.slop == 1,
    {
        PhraseQuery { field, terms, slop: 1 }
    }

    /// Defines the maximum distance separating two terms.
    pub fn set_slop(&mut self, slop: u8)
        ensures
            final(self).field == old(self).field,
            final(self).terms == old(self).terms,
            final(self).slop == slop,
    {
        self.slop = slop;
    }
}

/// In a posting with increasing documents, an item taken from it holds the positions of its
/// document.
proof fn lemma_positions_at(p: PostingView, x: DocIdAndPosItem)
    requires
        strictly_increasing(doc_ids(p)),
        x.from_posting(p),
    ensures
        positions_at(p, x.spec_doc_id()) == x.positions_spec(),
        doc_ids(p).contains(x.spec_doc_id()),
{
    let m = choose|m: int| 0 <= m < p.len() && #[trigger] p[m] == (x.spec_doc_id(), x.positions_spec());
    assert(doc_ids(p)[m] == x.spec_doc_id());
    let k = choose|k: int| 0 <= k < p.len() && #[trigger] p[k].0 == x.spec_doc_id();
    if k != m {
        if k < m {
            assert(doc_ids(p)[k] < doc_ids(p)[m]);
        } else {
            assert(doc_ids(p)[m] < doc_ids(p)[k]);
        }
    }
}

/// The items of an iterator over `p`'s documents hold exactly `p`'s documents.
proof fn lemma_has_doc_posting(s: Seq<DocIdAndPosItem>, p: PostingView, d: u32)
    requires
        pos_items_view(s) == p,
    ensures
        has_doc(s, d) <==> doc_ids(p).contains(d),
{
    if has_doc(s, d) {
        let k = choose|k: int| 0 <= k < s.len() && #[trigger] s[k].spec_doc_id() == d;
        assert(doc_ids(p)[k] == d);
    }
    if doc_ids(p).contains(d) {
        let k = choose|k: int| 0 <= k < doc_ids(p).len() && doc_ids(p)[k] == d;
        assert(pos_items_view(s)[k].0 == d);
        assert(s[k].spec_doc_id() == d);
    }
}

/// The positions of each item.
fn collect_positions<'b>(items: &Vec<DocIdAndPosItem<'b>>) -> (r: Vec<&'b [u32]>)
    requires
        forall|t: int| 0 <= t < items@.len() ==> (#[trigger] items@[t]).valid(),
    ensures
        r@.len() == items@.len(),
        forall|t: int| 0 <= t < items@.len() ==> (#[trigger] r@[t])@ == items@[t].positions_spec(),
{
    let mut positions: Vec<&'b [u32]> = Vec::new();
    let mut j: usize = 0;
    while j < items.len()
        invariant
            j <= items@.len(),
            positions@.len() == j,
            forall|t: int| 0 <= t < items@.len() ==> (#[trigger] items@[t]).valid(),
            forall|t: int| 0 <= t < j ==> (#[trigger] positions@[t])@ == items@[t].positions_spec(),
        decreases items@.len() - j,
    {
        positions.push(items[j].positions());
        j += 1;
    }
    positions
}

impl<'a> Query<'a> for PhraseQuery<'a> {
    open spec fn clause(&self) -> QueryClause<'a> {
        QueryClause::Phrase(*self)
    }

    fn into_clause(self) -> (r: QueryClause<'a>) {
        QueryClause::Phrase(self)
    }

    fn execute(&self, index_search: &IndexSearcher) -> (r: Hits) {
        let index = index_search.get_index();
        let ghost iv = index_search.index_view();
        let ghost terms = super::strs_view(self.terms@);
        let ghost ps = term_postings(iv, self.field@, terms);
        let k = self.terms.len();
        if k == 0 {
            let r = Hits::new(Vec::new());
            assert(r.items().len() == 0);
            return r;
        }
        let mut its: Vec<DocIdAndPosIter> = Vec::new();
        let mut i: usize = 0;
        while i < k
            invariant
                i <= k,
                k == self.terms@.len() == terms.len() == ps.len(),
                terms == super::strs_view(self.terms@),
                ps == term_postings(iv, self.field@, terms),
                *index == iv,
                iv.wf(),
                its@.len() == i,
                forall|j: int| 0 <= j < i ==> (#[trigger] its@[j]).wf(),
                forall|j: int| 0 <= j < i ==> sorted_items((#[trigger] its@[j]).items()),
                forall|j: int| 0 <= j < i ==> pos_items_view((#[trigger] its@[j]).items()) == ps[j],
                forall|j: int| 0 <= j < i ==> strictly_increasing(doc_ids(#[trigger] ps[j])),
                forall|j: int, m: int|
                    0 <= j < i && 0 <= m < its@[j].items().len() ==> (#[trigger] its@[j].items()[m]).from_posting(ps[j]),
            decreases k - i,
        {
            let key = posting_key_of(self.field, self.terms[i]);
            let posting = index.get_postings_list(key.as_str());
            let it = posting.iter_docs_pos();
            proof {
                assert(terms[i as int] == self.terms@[i as int]@);
                assert(posting@ == ps[i as int]);
                posting.lemma_sorted();
                it.lemma_items_valid();
                assert forall|a: int, b: int| 0 <= a < b < it.items().len() implies it.items()[a].spec_doc_id() < it.items()[b].spec_doc_id() by {
                    assert(pos_items_view(it.items())[a].0 == doc_ids(posting@)[a]);
                    assert(pos_items_view(it.items())[b].0 == doc_ids(posting@)[b]);
                }
            }
            its.push(it);
            i += 1;
        }
        let ghost slots0 = its@.map(|j: int, it: DocIdAndPosIter| it.items());
        let mut conj = index_search.conjunction(its);
        let ghost c0 = conj.common();
        proof {
            assert(conj.slots() == slots0);
            assert forall|d: u32| c0.contains(d) <==> (forall|j: int| 0 <= j < k ==> doc_ids(#[trigger] ps[j]).contains(d)) by {
                assert forall|j: int| 0 <= j < k implies (has_doc(#[trigger] slots0[j], d) <==> doc_ids(ps[j]).contains(d)) by {
                    assert(slots0[j] == its@[j].items());
                    lemma_has_doc_posting(slots0[j], ps[j], d);
                }
                if c0.contains(d) {
                    assert forall|j: int| 0 <= j < k implies doc_ids(#[trigger] ps[j]).contains(d) by {
                        assert(has_doc(slots0[j], d));
                    }
                }
                if forall|j: int| 0 <= j < k ==> doc_ids(#[trigger] ps[j]).contains(d) {
                    assert forall|j: int| 0 <= j < slots0.len() implies has_doc(#[trigger] slots0[j], d) by {
                        assert(doc_ids(ps[j]).contains(d));
                    }
                }
            }
        }
        let mut hits: Vec<SearchHit> = Vec::new();
        loop
            invariant_except_break
                conj.wf(),
                conj.slots().len() == k,
                k > 0,
                k == ps.len(),
                k == terms.len(),
                iv == index_search.index_view(),
                terms == super::strs_view(self.terms@),
                ps == term_postings(iv, self.field@, terms),
                forall|d: u32| #[trigger] c0.contains(d) <==> (forall|j: int| 0 <= j < k ==> doc_ids(#[trigger] ps[j]).contains(d)),
                forall|j: int| 0 <= j < k ==> strictly_increasing(doc_ids(#[trigger] ps[j])),
                forall|j: int, m: int|
                    0 <= j < k && 0 <= m < conj.slots()[j].len() ==> (#[trigger] conj.slots()[j][m]).from_posting(ps[j]),
                conj.common().subset_of(c0),
                sorted_items(hits@),
                forall|a: int, d: u32|
                    #![trigger hits@[a], conj.common().contains(d)]
                    0 <= a < hits@.len() && conj.common().contains(d) ==> hits@[a].spec_doc_id() < d,
                forall|d: u32| has_doc(hits@, d) <==> (c0.contains(d) && !conj.common().contains(d) && phrase_doc_matches(ps.map(|j: int, p: PostingView| positions_at(p, d)), self.slop)),
            ensures
                sorted_items(hits@),
                forall|d: u32| has_doc(hits@, d) <==> phrase_matches(self.field@, terms, self.slop, iv, d),
            decreases conj.slots()[0].len(),
        {
            let ghost before = conj.slots();
            let ghost common_before = conj.common();
            match conj.next() {
                None => {
                    proof {
                        assert forall|d: u32| !conj.common().contains(d) by {
                            assert(!Set::<u32>::empty().contains(d));
                        }
                        assert forall|d: u32| has_doc(hits@, d) <==> phrase_matches(self.field@, terms, self.slop, iv, d) by {
                            if c0.contains(d) {}
                        }
                    }
                    break;
                },
                Some((d, items)) => {
                    proof {
                        assert(items@[0].spec_doc_id() == d);
                        assert forall|t: int| 0 <= t < k implies (#[trigger] items@[t]).from_posting(ps[t]) by {
                            lemma_first_at_least(before[t], d);
                        }
                    }
                    let positions = collect_positions(&items);
                    let ok = phrase_match(&positions, self.slop);
                    proof {
                        assert(slices_view(positions@) =~= ps.map(|t: int, p: PostingView| positions_at(p, d))) by {
                            assert forall|t: int| 0 <= t < k implies slices_view(positions@)[t] == positions_at(ps[t], d) by {
                                lemma_positions_at(ps[t], items@[t]);
                            }
                        }
                    }
                    let ghost hb = hits@;
                    if ok {
                        hits.push(SearchHit::new(d));
                    }
                    proof {
                        assert(ok == phrase_doc_matches(ps.map(|j: int, p: PostingView| positions_at(p, d)), self.slop));
                        assert(common_before.contains(d));
                        assert(conj.common() == common_before.remove(d));
                        assert forall|d2: u32| has_doc(hits@, d2) <==> (c0.contains(d2) && !conj.common().contains(d2) && phrase_doc_matches(ps.map(|j: int, p: PostingView| positions_at(p, d2)), self.slop)) by {
                            assert(has_doc(hb, d2) <==> (c0.contains(d2) && !common_before.contains(d2) && phrase_doc_matches(ps.map(|j: int, p: PostingView| positions_at(p, d2)), self.slop)));
                            if has_doc(hits@, d2) && !has_doc(hb, d2) {
                                let p = choose|p: int| 0 <= p < hits@.len() && #[trigger] hits@[p].spec_doc_id() == d2;
                                assert(p == hb.len());
                            }
                            if has_doc(hb, d2) {
                                let p = choose|p: int| 0 <= p < hb.len() && #[trigger] hb[p].spec_doc_id() == d2;
                                assert(hits@[p] == hb[p]);
                            }
                            if d2 == d && ok {
                                assert(hits@[hb.len() as int].spec_doc_id() == d2);
                            }
                            if d2 == d && has_doc(hb, d2) {
                                let p = choose|p: int| 0 <= p < hb.len() && #[trigger] hb[p].spec_doc_id() == d2;
                                assert(hb[p].spec_doc_id() < d);
                            }
                        }
                        assert forall|a: int, b: int| 0 <= a < b < hits@.len() implies hits@[a].spec_doc_id() < hits@[b].spec_doc_id() by {
                            if b < hb.len() {
                                assert(hits@[a] == hb[a] && hits@[b] == hb[b]);
                            } else {
                                assert(hits@[a] == hb[a]);
                            }
                        }
                    }
                    proof {
                        // the slots only lose items
                        assert forall|t: int, m: int|
                            0 <= t < k && 0 <= m < conj.slots()[t].len() implies (#[trigger] conj.slots()[t][m]).from_posting(ps[t]) by {
                            assert(items@[t].spec_doc_id() == d);
                            lemma_first_at_least(before[t], d);
                            let f = first_at_least(before[t], d);
                            assert(conj.slots()[t] == before[t].skip(f + 1));
                            assert(conj.slots()[t][m] == before[t][m + f + 1]);
                        }
                        lemma_first_at_least(before[0], d);
                    }
                },
            }
        }
        let r = Hits::new(hits);
        proof {
            assert forall|d: u32| has_doc(r.items(), d) <==> clause_matches(self.clause(), iv, d) by {
                assert(super::strs_view(self.terms@) == terms);
            }
        }
        r
    }
}

} // verus!
