//! Execute queries over an index and retrieve matching documents.
//!
//! An [`Index`] is passed to the [`IndexSearcher`] immutably and queries can be executed
//! thanks to the [`IndexSearcher::search`] method.
pub mod query;

use crate::index::posting_lists::DocItem;
use crate::index::Index;
use query::Query;
use vstd::prelude::*;

verus! {

/// The document IDs of a sequence of items, in order.
pub open spec fn item_ids<T: DocItem>(s: Seq<T>) -> Seq<u32> {
    s.map(|i: int, x: T| x.spec_doc_id())
}

/// The index of the first item of `s` whose document ID is `target` or more (`s.len()` if none).
pub open spec fn first_at_least<T: DocItem>(s: Seq<T>, target: u32) -> int
    decreases s.len(),
{
    if s.len() == 0 {
        0
    } else if s[0].spec_doc_id() >= target {
        0
    } else {
        1 + first_at_least(s.drop_first(), target)
    }
}

/// `first_at_least` is the first index at or above `target`.
pub proof fn lemma_first_at_least<T: DocItem>(s: Seq<T>, target: u32)
    ensures
        0 <= first_at_least(s, target) <= s.len(),
        forall|j: int| 0 <= j < first_at_least(s, target) ==> s[j].spec_doc_id() < target,
        first_at_least(s, target) < s.len() ==> s[first_at_least(s, target)].spec_doc_id()
            >= target,
    decreases s.len(),
{
    if s.len() > 0 && s[0].spec_doc_id() < target {
        lemma_first_at_least(s.drop_first(), target);
        assert forall|j: int| 0 <= j < first_at_least(s, target) implies s[j].spec_doc_id()
            < target by {
            if j > 0 {
                assert(s[j] == s.drop_first()[j - 1]);
            }
        }
    }
}

/// What [`DocIterator::advance`] returns on items `s`.
pub open spec fn advance_result<T: DocItem>(s: Seq<T>, target: u32) -> Option<(bool, T)> {
    let k = first_at_least(s, target);
    if k < s.len() {
        Some((s[k].spec_doc_id() == target, s[k]))
    } else {
        None
    }
}

/// The items left after [`DocIterator::advance`] on items `s`.
pub open spec fn advance_rest<T: DocItem>(s: Seq<T>, target: u32) -> Seq<T> {
    let k = first_at_least(s, target);
    if k < s.len() {
        s.skip(k + 1)
    } else {
        Seq::empty()
    }
}

/// A lazy sequence of [`DocItem`]s.
pub trait DocIterator {
    type Item: DocItem;

    /// The items still to come, in order.
    spec fn items(&self) -> Seq<Self::Item>;

    /// The internal invariant.
    spec fn wf(&self) -> bool;

    /// Returns the next item, or `None` once all were returned.
    fn next(&mut self) -> (r: Option<Self::Item>)
        requires
            old(self).wf(),
        ensures
            final(self).wf(),
            old(self).items().len() == 0 ==> r is None && final(self).items() == old(self).items(),
            old(self).items().len() > 0 ==> r == Some(old(self).items()[0])
                && final(self).items() == old(self).items().drop_first(),
    ;

    /// Iterates over this iterator until the item's doc_id is equal or greater than the given
    /// doc_id, and returns that item with `true` if its doc_id is the given one.
    fn advance(&mut self, doc_id: u32) -> (r: Option<(bool, Self::Item)>)
        requires
            old(self).wf(),
        ensures
            final(self).wf(),
            r == advance_result(old(self).items(), doc_id),
            final(self).items() == advance_rest(old(self).items(), doc_id),
    {
        let ghost start = self.items();
        proof {
            lemma_first_at_least(start, doc_id);
        }
        let ghost mut taken: int = 0;
        loop
            invariant
                self.wf(),
                start == old(self).items(),
                0 <= taken <= first_at_least(start, doc_id),
                first_at_least(start, doc_id) <= start.len(),
                self.items() == start.skip(taken),
                forall|j: int|
                    0 <= j < first_at_least(start, doc_id) ==> start[j].spec_doc_id() < doc_id,
                first_at_least(start, doc_id) < start.len() ==> start[first_at_least(
                    start,
                    doc_id,
                )].spec_doc_id() >= doc_id,
            decreases start.len() - taken,
        {
            match self.next() {
                None => {
                    assert(start.skip(taken).len() == start.len() - taken);
                    assert(taken == start.len());
                    assert(self.items() =~= Seq::<Self::Item>::empty());
                    return None;
                },
                Some(item) => {
                    let id = item.get_doc_id();
                    proof {
                        assert(item == start[taken]);
                        assert(self.items() =~= start.skip(taken + 1));
                        taken = taken + 1;
                    }
                    if id >= doc_id {
                        return Some((id == doc_id, item));
                    }
                },
            }
        }
    }
}


/// The items of `s` are in strictly increasing document order.
pub open spec fn sorted_items<T: DocItem>(s: Seq<T>) -> bool {
    forall|i: int, j: int| 0 <= i < j < s.len() ==> s[i].spec_doc_id() < s[j].spec_doc_id()
}

/// Some item of `s` has document ID `d`.
pub open spec fn has_doc<T: DocItem>(s: Seq<T>, d: u32) -> bool {
    exists|k: int| 0 <= k < s.len() && #[trigger] s[k].spec_doc_id() == d
}

/// The document IDs found in every one of at least one sequence of items.
pub open spec fn common_ids<T: DocItem>(ss: Seq<Seq<T>>) -> Set<u32> {
    Set::new(|d: u32| ss.len() > 0 && forall|i: int| 0 <= i < ss.len() ==> has_doc(#[trigger] ss[i], d))
}

/// In a sorted sequence, the first item at or above `t` is at or below every document at or above `t`.
pub proof fn lemma_sorted_first_at_least<T: DocItem>(s: Seq<T>, t: u32, d: u32)
    requires
        sorted_items(s),
        has_doc(s, d),
        d >= t,
    ensures
        first_at_least(s, t) < s.len(),
        s[first_at_least(s, t)].spec_doc_id() <= d,
{
    lemma_first_at_least(s, t);
    let p = choose|p: int| 0 <= p < s.len() && #[trigger] s[p].spec_doc_id() == d;
    assert(p >= first_at_least(s, t));
}

/// In a sorted sequence, what is left after index `c - 1` holds exactly the documents above it.
pub proof fn lemma_sorted_skip<T: DocItem>(s: Seq<T>, c: int, d: u32)
    requires
        sorted_items(s),
        1 <= c <= s.len(),
    ensures
        has_doc(s.skip(c), d) <==> (has_doc(s, d) && d > s[c - 1].spec_doc_id()),
{
    if has_doc(s.skip(c), d) {
        let p = choose|p: int| 0 <= p < s.skip(c).len() && #[trigger] s.skip(c)[p].spec_doc_id() == d;
        assert(s[p + c].spec_doc_id() == d);
    }
    if has_doc(s, d) && d > s[c - 1].spec_doc_id() {
        let p = choose|p: int| 0 <= p < s.len() && #[trigger] s[p].spec_doc_id() == d;
        assert(p >= c);
        assert(s.skip(c)[p - c].spec_doc_id() == d);
    }
}

/// The first item at or above the ID of item `c` of a sorted sequence is that item.
pub proof fn lemma_sorted_first_at_item<T: DocItem>(s: Seq<T>, c: int)
    requires
        sorted_items(s),
        0 <= c < s.len(),
    ensures
        first_at_least(s, s[c].spec_doc_id()) == c,
{
    lemma_first_at_least(s, s[c].spec_doc_id());
}

/// What [`DocIterator::advance`] returns is nothing, or an item at or above the target, flagged
/// as matched exactly when it is the target.
pub proof fn lemma_advance_law<T: DocItem>(s: Seq<T>, target: u32)
    ensures
        advance_result(s, target) matches Some((matched, item)) ==> item.spec_doc_id() >= target
            && matched == (item.spec_doc_id() == target),
        advance_result(s, target) is None ==> forall|k: int|
            0 <= k < s.len() ==> (#[trigger] s[k]).spec_doc_id() < target,
{
    lemma_first_at_least(s, target);
}

/// The documents common to sequences of items are those found in the document IDs of every
/// one of them; in sorted sequences, advancing every one to a target loses none of the common
/// documents at or above it: each is the item returned or is still to come.
pub proof fn lemma_conjunction_intersection<T: DocItem>(ss: Seq<Seq<T>>, target: u32)
    requires
        forall|i: int| 0 <= i < ss.len() ==> sorted_items(#[trigger] ss[i]),
    ensures
        forall|d: u32|
            common_ids(ss).contains(d) <==> (ss.len() > 0 && forall|i: int|
                0 <= i < ss.len() ==> #[trigger] item_ids(ss[i]).contains(d)),
        forall|d: u32|
            #![trigger common_ids(ss).contains(d)]
            d >= target ==> (common_ids(ss).contains(d) <==> (ss.len() > 0 && forall|i: int|
                0 <= i < ss.len() ==> (advance_result(#[trigger] ss[i], target) matches Some((_, x))
                    && (x.spec_doc_id() == d || has_doc(advance_rest(ss[i], target), d))))),
{
    assert forall|d: u32| common_ids(ss).contains(d) <==> (ss.len() > 0 && forall|i: int|
        0 <= i < ss.len() ==> #[trigger] item_ids(ss[i]).contains(d)) by {
        assert forall|i: int| 0 <= i < ss.len() implies (has_doc(#[trigger] ss[i], d) <==> item_ids(ss[i]).contains(d)) by {
            lemma_has_doc_ids(ss[i], d);
        }
    }
    assert forall|d: u32|
        #![trigger common_ids(ss).contains(d)]
        d >= target implies (common_ids(ss).contains(d) <==> (ss.len() > 0 && forall|i: int|
            0 <= i < ss.len() ==> (advance_result(#[trigger] ss[i], target) matches Some((_, x))
                && (x.spec_doc_id() == d || has_doc(advance_rest(ss[i], target), d))))) by {
        assert forall|i: int| 0 <= i < ss.len() implies (has_doc(#[trigger] ss[i], d) <==> (advance_result(ss[i], target) matches Some((_, x))
            && (x.spec_doc_id() == d || has_doc(advance_rest(ss[i], target), d)))) by {
            lemma_advance_keeps(ss[i], target, d);
        }
    }
}

/// `has_doc` is membership among the document IDs.
pub proof fn lemma_has_doc_ids<T: DocItem>(s: Seq<T>, d: u32)
    ensures
        has_doc(s, d) <==> item_ids(s).contains(d),
{
    if has_doc(s, d) {
        let k = choose|k: int| 0 <= k < s.len() && #[trigger] s[k].spec_doc_id() == d;
        assert(item_ids(s)[k] == d);
    }
    if item_ids(s).contains(d) {
        let k = choose|k: int| 0 <= k < item_ids(s).len() && item_ids(s)[k] == d;
        assert(s[k].spec_doc_id() == d);
    }
}

/// In a sorted sequence, a document at or above the target is the item advance returns or is
/// left after it.
proof fn lemma_advance_keeps<T: DocItem>(s: Seq<T>, target: u32, d: u32)
    requires
        sorted_items(s),
        d >= target,
    ensures
        has_doc(s, d) <==> (advance_result(s, target) matches Some((_, x)) && (x.spec_doc_id() == d
            || has_doc(advance_rest(s, target), d))),
{
    lemma_first_at_least(s, target);
    let k = first_at_least(s, target);
    if has_doc(s, d) {
        let p = choose|p: int| 0 <= p < s.len() && #[trigger] s[p].spec_doc_id() == d;
        assert(p >= k);
        if p > k {
            assert(s.skip(k + 1)[p - k - 1] == s[p]);
        }
    }
    if k < s.len() && has_doc(advance_rest(s, target), d) {
        let p = choose|p: int| 0 <= p < s.skip(k + 1).len() && #[trigger] s.skip(k + 1)[p].spec_doc_id() == d;
        assert(s[p + k + 1].spec_doc_id() == d);
    }
}

/// The documents of a union of sequences of items are those found in the document IDs of at
/// least one of them.
pub proof fn lemma_disjunction_union<T: DocItem>(ss: Seq<Seq<T>>)
    ensures
        forall|d: u32|
            union_ids(ss).contains(d) <==> exists|i: int|
                0 <= i < ss.len() && #[trigger] item_ids(ss[i]).contains(d),
{
    assert forall|d: u32| union_ids(ss).contains(d) <==> exists|i: int|
        0 <= i < ss.len() && #[trigger] item_ids(ss[i]).contains(d) by {
        if union_ids(ss).contains(d) {
            let i = choose|i: int| 0 <= i < ss.len() && has_doc(#[trigger] ss[i], d);
            lemma_has_doc_ids(ss[i], d);
        }
        if exists|i: int| 0 <= i < ss.len() && #[trigger] item_ids(ss[i]).contains(d) {
            let i = choose|i: int| 0 <= i < ss.len() && #[trigger] item_ids(ss[i]).contains(d);
            lemma_has_doc_ids(ss[i], d);
        }
    }
}

/// A stream that emits the lowest remaining document and then drops it emits strictly
/// increasing, distinct documents: two steps in a row emit `m1 < m2`.
pub proof fn lemma_emission_increasing(r0: Set<u32>, m1: u32, m2: u32)
    requires
        r0.contains(m1),
        forall|d: u32| r0.contains(d) ==> m1 <= d,
        r0.remove(m1).contains(m2),
    ensures
        m1 < m2,
{
}

/// An iterator over the documents that every one of several iterators holds.
pub struct MatchingDocIterator<I: DocIterator> {
    docs: Vec<I>,
}

impl<I: DocIterator> MatchingDocIterator<I> {
    /// The items still to come of each iterator.
    pub closed spec fn slots(&self) -> Seq<Seq<I::Item>> {
        self.docs@.map(|i: int, it: I| it.items())
    }

    /// The documents still to be emitted.
    pub open spec fn common(&self) -> Set<u32> {
        common_ids(self.slots())
    }

    /// Each iterator is well formed and its items are in increasing document order.
    pub closed spec fn wf(&self) -> bool {
        forall|i: int|
            0 <= i < self.docs@.len() ==> (#[trigger] self.docs@[i]).wf() && sorted_items(
                self.docs@[i].items(),
            )
    }

    /// Combines iterators whose items come in strictly increasing document order.
    pub fn new(docs: Vec<I>) -> (r: Self)
        requires
            forall|i: int|
                0 <= i < docs@.len() ==> (#[trigger] docs@[i]).wf() && sorted_items(
                    docs@[i].items(),
                ),
        ensures
            r.wf(),
            r.slots() == docs@.map(|i: int, it: I| it.items()),
    {
        MatchingDocIterator { docs }
    }

    /// Returns the lowest document that all iterators hold, with the item of each iterator for
    /// it, in the order of the iterators; every iterator is left just past that document.
    pub fn next(&mut self) -> (r: Option<(u32, Vec<I::Item>)>)
        requires
            old(self).wf(),
        ensures
            final(self).wf(),
            final(self).slots().len() == old(self).slots().len(),
            r is None <==> old(self).common().is_empty(),
            r is None ==> final(self).common().is_empty(),
            r matches Some((m, items)) ==> {
                &&& old(self).common().contains(m)
                &&& forall|d: u32| old(self).common().contains(d) ==> m <= d
                &&& final(self).common() == old(self).common().remove(m)
                &&& items@.len() == old(self).slots().len()
                &&& forall|i: int|
                    0 <= i < items@.len() ==> {
                        &&& #[trigger] items@[i] == old(self).slots()[i][first_at_least(
                            old(self).slots()[i],
                            m,
                        )]
                        &&& items@[i].spec_doc_id() == m
                        &&& first_at_least(old(self).slots()[i], m) < old(self).slots()[i].len()
                        &&& final(self).slots()[i] == advance_rest(old(self).slots()[i], m)
                    }
            },
    {
        let ghost orig = self.slots();
        let n = self.docs.len();
        if n == 0 {
            return None;
        }
        let mut cur: Vec<I::Item> = Vec::new();
        let mut max_doc_id: u32 = 0;
        let ghost mut c: Seq<int> = Seq::empty();
        proof {
            assert forall|j: int| 0 <= j < n implies sorted_items(#[trigger] orig[j]) by {
                assert(orig[j] == old(self).docs@[j].items());
            }
        }
        // pull one item from each iterator
        let mut i: usize = 0;
        while i < n
            invariant
                n == self.docs@.len() == orig.len(),
                0 <= i <= n,
                cur@.len() == i,
                c.len() == i,
                orig == old(self).slots(),
                forall|j: int| 0 <= j < n ==> (#[trigger] self.docs@[j]).wf(),
                forall|j: int| 0 <= j < n ==> sorted_items(#[trigger] orig[j]),
                forall|j: int| i <= j < n ==> (#[trigger] self.docs@[j]).items() == orig[j],
                forall|j: int| 0 <= j < i ==> 1 <= #[trigger] c[j] <= orig[j].len(),
                forall|j: int| 0 <= j < i ==> (#[trigger] self.docs@[j]).items() == orig[j].skip(c[j]),
                forall|j: int| 0 <= j < i ==> #[trigger] cur@[j] == orig[j][c[j] - 1],
                forall|j: int| 0 <= j < i ==> (#[trigger] cur@[j]).spec_doc_id() <= max_doc_id,
                forall|d: u32| common_ids(orig).contains(d) ==> d >= max_doc_id,
            decreases n - i,
        {
            match self.docs[i].next() {
                None => {
                    proof {
                        assert forall|d: u32| !common_ids(orig).contains(d) by {
                            assert(orig[i as int].len() == 0);
                            if common_ids(orig).contains(d) {
                                assert(has_doc(orig[i as int], d));
                            }
                        }
                        assert(common_ids(orig) =~= Set::empty());
                        self.lemma_empty_slot(i as int);
                    }
                    return None;
                },
                Some(item) => {
                    let id = item.get_doc_id();
                    proof {
                        assert forall|d: u32| common_ids(orig).contains(d) implies d >= id by {
                            assert(has_doc(orig[i as int], d));
                            let p = choose|p: int|
                                0 <= p < orig[i as int].len() && #[trigger] orig[i as int][p].spec_doc_id()
                                    == d;
                            assert(p >= 0);
                        }
                        c = c.push(1);
                    }
                    if id > max_doc_id {
                        max_doc_id = id;
                    }
                    cur.push(item);
                    proof {
                        assert forall|j: int| 0 <= j < i + 1 implies 1 <= #[trigger] c[j] <= orig[j].len() by {}
                        assert forall|j: int| 0 <= j < i + 1 implies (#[trigger] self.docs@[j]).items() == orig[j].skip(c[j]) by {}
                        assert forall|j: int| 0 <= j < i + 1 implies #[trigger] cur@[j] == orig[j][c[j] - 1] by {}
                        assert forall|j: int| 0 <= j < i + 1 implies (#[trigger] cur@[j]).spec_doc_id() <= max_doc_id by {}
                    }
                },
            }
            i += 1;
        }
        // advance on the docs lists until a match is found
        loop
            invariant
                n == self.docs@.len() == orig.len() == cur@.len() == c.len(),
                n > 0,
                orig == old(self).slots(),
                forall|j: int| 0 <= j < n ==> (#[trigger] self.docs@[j]).wf(),
                forall|j: int| 0 <= j < n ==> sorted_items(#[trigger] orig[j]),
                forall|j: int| 0 <= j < n ==> 1 <= #[trigger] c[j] <= orig[j].len(),
                forall|j: int| 0 <= j < n ==> (#[trigger] self.docs@[j]).items() == orig[j].skip(c[j]),
                forall|j: int| 0 <= j < n ==> #[trigger] cur@[j] == orig[j][c[j] - 1],
                forall|j: int| 0 <= j < n ==> (#[trigger] cur@[j]).spec_doc_id() <= max_doc_id,
                forall|d: u32| common_ids(orig).contains(d) ==> d >= max_doc_id,
            decreases u32::MAX - max_doc_id,
        {
            let ghost max_before = max_doc_id;
            let mut restart = false;
            let mut i: usize = 0;
            while i < n
                invariant
                    n == self.docs@.len() == orig.len() == cur@.len() == c.len(),
                    0 <= i <= n,
                    orig == old(self).slots(),
                    forall|j: int| 0 <= j < n ==> (#[trigger] self.docs@[j]).wf(),
                    forall|j: int| 0 <= j < n ==> sorted_items(#[trigger] orig[j]),
                    forall|j: int| 0 <= j < n ==> 1 <= #[trigger] c[j] <= orig[j].len(),
                    forall|j: int| 0 <= j < n ==> (#[trigger] self.docs@[j]).items() == orig[j].skip(c[j]),
                    forall|j: int| 0 <= j < n ==> #[trigger] cur@[j] == orig[j][c[j] - 1],
                    forall|j: int| 0 <= j < n ==> (#[trigger] cur@[j]).spec_doc_id() <= max_doc_id,
                    forall|d: u32| common_ids(orig).contains(d) ==> d >= max_doc_id,
                    !restart ==> max_doc_id == max_before,
                    restart ==> max_doc_id > max_before,
                    !restart ==> forall|j: int| 0 <= j < i ==> (#[trigger] cur@[j]).spec_doc_id() == max_doc_id,
                ensures
                    !restart ==> i == n,
                decreases n - i,
            {
                if cur[i].get_doc_id() < max_doc_id {
                    let ghost s = orig[i as int];
                    let ghost ci = c[i as int];
                    let ghost rest = self.docs@[i as int].items();
                    proof {
                        lemma_first_at_least(rest, max_doc_id);
                        assert(s[ci - 1] == cur@[i as int]);
                    }
                    match self.docs[i].advance(max_doc_id) {
                        None => {
                            proof {
                                assert forall|d: u32| !common_ids(orig).contains(d) by {
                                    if common_ids(orig).contains(d) {
                                        assert(has_doc(orig[i as int], d));
                                        lemma_sorted_skip(s, ci, d);
                                        lemma_sorted_first_at_least(rest, max_doc_id, d);
                                    }
                                }
                                assert(common_ids(orig) =~= Set::empty());
                                assert(self.docs@[i as int].items() =~= Seq::<I::Item>::empty());
                                self.lemma_empty_slot(i as int);
                            }
                            return None;
                        },
                        Some((found, item)) => {
                            let id = item.get_doc_id();
                            proof {
                                let k = first_at_least(rest, max_doc_id);
                                assert(rest == s.skip(ci));
                                assert(item == rest[k]);
                                assert(rest[k] == s[ci + k]);
                                assert(self.docs@[i as int].items() =~= s.skip(ci + k + 1));
                                assert forall|d: u32| common_ids(orig).contains(d) implies d >= id by {
                                    assert(has_doc(orig[i as int], d));
                                    lemma_sorted_skip(s, ci, d);
                                    lemma_sorted_first_at_least(rest, max_doc_id, d);
                                }
                                c = c.update(i as int, ci + k + 1);
                            }
                            cur.set(i, item);
                            proof {
                                assert forall|j: int| 0 <= j < n implies 1 <= #[trigger] c[j] <= orig[j].len() by {}
                                assert forall|j: int| 0 <= j < n implies (#[trigger] self.docs@[j]).items() == orig[j].skip(c[j]) by {}
                                assert forall|j: int| 0 <= j < n implies #[trigger] cur@[j] == orig[j][c[j] - 1] by {}
                            }
                            if !found {
                                max_doc_id = id;
                                restart = true;
                                proof {
                                    assert forall|j: int| 0 <= j < n implies (#[trigger] cur@[j]).spec_doc_id() <= max_doc_id by {}
                                }
                                break;
                            }
                        },
                    }
                }
                i += 1;
            }
            if !restart {
                // it's a match!
                let m = max_doc_id;
                proof {
                    assert forall|j: int| 0 <= j < n implies has_doc(#[trigger] orig[j], m) by {
                        assert(orig[j][c[j] - 1] == cur@[j]);
                        assert(orig[j][c[j] - 1].spec_doc_id() == m);
                    }
                    assert(forall|j: int| 0 <= j < orig.len() ==> has_doc(#[trigger] orig[j], m));
                    assert(common_ids(orig).contains(m));
                    assert forall|d: u32| common_ids(self.slots()).contains(d) <==> common_ids(
                        orig,
                    ).remove(m).contains(d) by {
                        if common_ids(self.slots()).contains(d) {
                            assert forall|j: int| 0 <= j < n implies has_doc(#[trigger] orig[j], d) by {
                                assert(self.slots()[j] == self.docs@[j].items());
                                assert(has_doc(self.slots()[j], d));
                                lemma_sorted_skip(orig[j], c[j], d);
                            }
                            assert(self.slots()[0] == self.docs@[0].items());
                            assert(has_doc(self.slots()[0], d));
                            assert(orig[0][c[0] - 1] == cur@[0]);
                            lemma_sorted_skip(orig[0], c[0], d);
                        }
                        if common_ids(orig).remove(m).contains(d) {
                            assert forall|j: int| 0 <= j < n implies has_doc(#[trigger] self.slots()[j], d) by {
                                assert(self.slots()[j] == self.docs@[j].items());
                                assert(has_doc(orig[j], d));
                                assert(orig[j][c[j] - 1] == cur@[j]);
                                lemma_sorted_skip(orig[j], c[j], d);
                            }
                        }
                    }
                    assert(common_ids(self.slots()) =~= common_ids(orig).remove(m));
                    assert forall|j: int| 0 <= j < n implies {
                        &&& #[trigger] cur@[j] == orig[j][first_at_least(orig[j], m)]
                        &&& first_at_least(orig[j], m) < orig[j].len()
                        &&& self.slots()[j] == advance_rest(orig[j], m)
                    } by {
                        lemma_sorted_first_at_item(orig[j], c[j] - 1);
                    }
                    self.lemma_wf_after(orig, c);
                }
                return Some((m, cur));
            }
        }
    }

    /// One iterator without items leaves no common document.
    proof fn lemma_empty_slot(&self, i: int)
        requires
            0 <= i < self.docs@.len(),
            self.docs@[i].items().len() == 0,
        ensures
            self.common().is_empty(),
    {
        assert forall|d: u32| !#[trigger] self.common().contains(d) by {
            if self.common().contains(d) {
                assert(has_doc(self.slots()[i], d));
            }
        }
        assert(self.common() =~= Set::empty());
    }

    /// Iterators left part way into sorted sequences are well formed.
    proof fn lemma_wf_after(&self, orig: Seq<Seq<I::Item>>, c: Seq<int>)
        requires
            orig.len() == c.len() == self.docs@.len(),
            forall|j: int| 0 <= j < orig.len() ==> (#[trigger] self.docs@[j]).wf(),
            forall|j: int| 0 <= j < orig.len() ==> sorted_items(#[trigger] orig[j]),
            forall|j: int| 0 <= j < orig.len() ==> 0 <= #[trigger] c[j] <= orig[j].len(),
            forall|j: int| 0 <= j < orig.len() ==> (#[trigger] self.docs@[j]).items() == orig[j].skip(c[j]),
        ensures
            self.wf(),
    {
        assert forall|j: int| 0 <= j < self.docs@.len() implies sorted_items(
            (#[trigger] self.docs@[j]).items(),
        ) by {
            let s = orig[j];
            assert forall|a: int, b: int| 0 <= a < b < s.skip(c[j]).len() implies s.skip(c[j])[a].spec_doc_id() < s.skip(c[j])[b].spec_doc_id() by {
                assert(s.skip(c[j])[a] == s[a + c[j]]);
                assert(s.skip(c[j])[b] == s[b + c[j]]);
            }
        }
    }
}

/// The document IDs found in at least one of several sequences of items.
pub open spec fn union_ids<T: DocItem>(ss: Seq<Seq<T>>) -> Set<u32> {
    Set::new(|d: u32| exists|i: int| 0 <= i < ss.len() && has_doc(#[trigger] ss[i], d))
}

/// The items of one input of a disjunction: its current head, if any, then the rest.
pub open spec fn pending<T>(head: Option<T>, rest: Seq<T>) -> Seq<T> {
    match head {
        Some(h) => seq![h] + rest,
        None => Seq::empty(),
    }
}

/// In a sorted sequence the first item is the lowest, and dropping it drops only its document.
pub proof fn lemma_sorted_head<T: DocItem>(s: Seq<T>, d: u32)
    requires
        sorted_items(s),
        s.len() > 0,
    ensures
        has_doc(s, d) ==> d >= s[0].spec_doc_id(),
        has_doc(s.drop_first(), d) <==> (has_doc(s, d) && d != s[0].spec_doc_id()),
{
    if has_doc(s, d) {
        let p = choose|p: int| 0 <= p < s.len() && #[trigger] s[p].spec_doc_id() == d;
        assert(p == 0 || s[0].spec_doc_id() < s[p].spec_doc_id());
    }
    lemma_sorted_skip(s, 1, d);
    assert(s.drop_first() == s.skip(1));
}

/// An iterator over the documents that at least one of several iterators holds, each once and
/// in increasing order.
pub struct DisjunctionIterator<I: DocIterator> {
    docs: Vec<I>,
    heads: Vec<Option<I::Item>>,
}

impl<I: DocIterator> DisjunctionIterator<I> {
    /// The items still to come of each input, its head first.
    pub closed spec fn slots(&self) -> Seq<Seq<I::Item>> {
        Seq::new(self.docs@.len(), |j: int| pending(self.heads@[j], self.docs@[j].items()))
    }

    /// The documents still to be emitted.
    pub open spec fn remaining(&self) -> Set<u32> {
        union_ids(self.slots())
    }

    /// Each input is well formed and its items are in increasing document order.
    pub closed spec fn wf(&self) -> bool {
        &&& self.heads@.len() == self.docs@.len()
        &&& forall|j: int| 0 <= j < self.docs@.len() ==> (#[trigger] self.docs@[j]).wf()
        &&& forall|j: int| 0 <= j < self.docs@.len() ==> sorted_items(#[trigger] self.slots()[j])
        &&& forall|j: int|
            0 <= j < self.docs@.len() ==> (#[trigger] self.heads@[j]) is None ==> self.docs@[j].items().len() == 0
    }

    /// Merges iterators whose items come in strictly increasing document order.
    pub fn new(docs: Vec<I>) -> (r: Self)
        requires
            forall|i: int| 0 <= i < docs@.len() ==> (#[trigger] docs@[i]).wf(),
            forall|i: int| 0 <= i < docs@.len() ==> sorted_items((#[trigger] docs@[i]).items()),
        ensures
            r.wf(),
            r.remaining() == union_ids(docs@.map(|i: int, it: I| it.items())),
    {
        let ghost input = docs@;
        let ghost orig = docs@.map(|i: int, it: I| it.items());
        let mut docs = docs;
        let mut heads: Vec<Option<I::Item>> = Vec::new();
        let n = docs.len();
        let mut j: usize = 0;
        while j < n
            invariant
                n == docs@.len() == orig.len(),
                0 <= j <= n,
                heads@.len() == j,
                orig == input.map(|i: int, it: I| it.items()),
                forall|i: int| 0 <= i < n ==> (#[trigger] docs@[i]).wf(),
                forall|i: int| 0 <= i < n ==> sorted_items(#[trigger] orig[i]),
                forall|i: int| j <= i < n ==> (#[trigger] docs@[i]).items() == orig[i],
                forall|i: int| 0 <= i < j ==> pending(#[trigger] heads@[i], docs@[i].items()) == orig[i],
                forall|i: int| 0 <= i < j ==> (#[trigger] heads@[i]) is None ==> docs@[i].items().len() == 0,
            decreases n - j,
        {
            proof {
                assert(orig[j as int] == input[j as int].items());
            }
            let h = docs[j].next();
            heads.push(h);
            proof {
                if orig[j as int].len() > 0 {
                    assert(seq![orig[j as int][0]] + orig[j as int].drop_first() =~= orig[j as int]);
                } else {
                    assert(orig[j as int] =~= Seq::<I::Item>::empty());
                }
                assert(pending(heads@[j as int], docs@[j as int].items()) == orig[j as int]);
                assert forall|i: int| 0 <= i < j + 1 implies pending(#[trigger] heads@[i], docs@[i].items()) == orig[i] by {}
            }
            j += 1;
        }
        proof {
            assert forall|i: int| 0 <= i < n implies sorted_items(#[trigger] orig[i]) by {
                assert(orig[i] == input[i].items());
            }
        }
        let r = DisjunctionIterator { docs, heads };
        proof {
            assert(r.slots() =~= orig);
        }
        r
    }

    /// Returns the lowest document still held by some input, and moves every input holding it
    /// past it.
    pub fn next(&mut self) -> (r: Option<I::Item>)
        requires
            old(self).wf(),
        ensures
            final(self).wf(),
            r is None <==> old(self).remaining().is_empty(),
            r is None ==> final(self).remaining().is_empty(),
            r matches Some(item) ==> {
                &&& old(self).remaining().contains(item.spec_doc_id())
                &&& forall|d: u32| old(self).remaining().contains(d) ==> item.spec_doc_id() <= d
                &&& final(self).remaining() == old(self).remaining().remove(item.spec_doc_id())
                &&& exists|j: int|
                    0 <= j < old(self).slots().len() && old(self).slots()[j].len() > 0
                        && #[trigger] old(self).slots()[j][0] == item
            },
    {
        let ghost os = self.slots();
        let n = self.heads.len();
        let mut best: usize = n;
        let mut min_id: u32 = 0;
        let mut j: usize = 0;
        while j < n
            invariant
                *self == *old(self),
                os == self.slots(),
                self.wf(),
                n == self.heads@.len() == os.len(),
                0 <= j <= n,
                best == n || best < j,
                best == n ==> forall|k: int| 0 <= k < j ==> (#[trigger] os[k]).len() == 0,
                best < n ==> os[best as int].len() > 0 && os[best as int][0].spec_doc_id() == min_id,
                best < n ==> forall|k: int|
                    0 <= k < j && (#[trigger] os[k]).len() > 0 ==> os[k][0].spec_doc_id() >= min_id,
            decreases n - j,
        {
            match &self.heads[j] {
                Some(h) => {
                    let id = h.get_doc_id();
                    if best == n || id < min_id {
                        best = j;
                        min_id = id;
                    }
                },
                None => {},
            }
            j += 1;
        }
        if best == n {
            proof {
                assert forall|d: u32| !#[trigger] self.remaining().contains(d) by {
                    if self.remaining().contains(d) {
                        let k = choose|k: int| 0 <= k < os.len() && has_doc(#[trigger] os[k], d);
                        assert(os[k].len() == 0);
                    }
                }
                assert(self.remaining() =~= Set::empty());
            }
            return None;
        }
        let ghost m = min_id;
        let mut result: Option<I::Item> = None;
        let mut j: usize = 0;
        while j < n
            invariant
                n == self.heads@.len() == self.docs@.len() == os.len(),
                os == old(self).slots(),
                old(self).wf(),
                0 <= j <= n,
                best < n,
                os[best as int].len() > 0 && os[best as int][0].spec_doc_id() == m,
                min_id == m,
                forall|k: int| 0 <= k < n ==> (#[trigger] self.docs@[k]).wf(),
                forall|k: int| 0 <= k < n ==> sorted_items(#[trigger] os[k]),
                forall|k: int| 0 <= k < n && (#[trigger] os[k]).len() > 0 ==> os[k][0].spec_doc_id() >= m,
                forall|k: int| j <= k < n ==> #[trigger] self.heads@[k] == old(self).heads@[k] && self.docs@[k] == old(self).docs@[k],
                forall|k: int|
                    0 <= k < j ==> #[trigger] pending(self.heads@[k], self.docs@[k].items()) == if os[k].len() > 0
                        && os[k][0].spec_doc_id() == m {
                        os[k].drop_first()
                    } else {
                        os[k]
                    },
                forall|k: int| 0 <= k < n ==> (#[trigger] self.heads@[k]) is None ==> self.docs@[k].items().len() == 0,
                j > best ==> result == Some(os[best as int][0]),
            decreases n - j,
        {
            let is_min = match &self.heads[j] {
                Some(h) => h.get_doc_id() == min_id,
                None => false,
            };
            proof {
                assert(os[j as int] == pending(old(self).heads@[j as int], old(self).docs@[j as int].items()));
            }
            if is_min {
                let mut taken = self.docs[j].next();
                std::mem::swap(&mut self.heads[j], &mut taken);
                proof {
                    let rest = old(self).docs@[j as int].items();
                    if rest.len() > 0 {
                        assert(pending(self.heads@[j as int], self.docs@[j as int].items()) =~= rest);
                    } else {
                        assert(pending(self.heads@[j as int], self.docs@[j as int].items()) =~= rest);
                    }
                    assert(os[j as int].drop_first() =~= rest);
                }
                if j == best {
                    result = taken;
                }
            }
            proof {
                assert forall|k: int|
                    0 <= k < j + 1 implies #[trigger] pending(self.heads@[k], self.docs@[k].items()) == if os[k].len() > 0
                        && os[k][0].spec_doc_id() == m {
                        os[k].drop_first()
                    } else {
                        os[k]
                    } by {}
            }
            j += 1;
        }
        proof {
            assert forall|k: int| 0 <= k < n implies #[trigger] self.slots()[k] == if os[k].len() > 0
                && os[k][0].spec_doc_id() == m {
                os[k].drop_first()
            } else {
                os[k]
            } by {
                assert(self.slots()[k] == pending(self.heads@[k], self.docs@[k].items()));
            }
            assert forall|k: int| 0 <= k < n implies sorted_items(#[trigger] self.slots()[k]) by {
                if os[k].len() > 0 && os[k][0].spec_doc_id() == m {
                    let s = os[k];
                    assert forall|a: int, b: int| 0 <= a < b < s.drop_first().len() implies s.drop_first()[a].spec_doc_id() < s.drop_first()[b].spec_doc_id() by {
                        assert(s.drop_first()[a] == s[a + 1]);
                        assert(s.drop_first()[b] == s[b + 1]);
                    }
                }
            }
            assert(os[best as int].len() > 0);
            assert forall|d: u32| #[trigger] old(self).remaining().contains(d) implies m <= d by {
                let k = choose|k: int| 0 <= k < os.len() && has_doc(#[trigger] os[k], d);
                lemma_sorted_head(os[k], d);
            }
            assert(has_doc(os[best as int], m));
            assert(old(self).remaining().contains(m));
            assert forall|d: u32| self.remaining().contains(d) <==> old(self).remaining().remove(m).contains(d) by {
                if self.remaining().contains(d) {
                    let k = choose|k: int| 0 <= k < n && has_doc(#[trigger] self.slots()[k], d);
                    if os[k].len() > 0 && os[k][0].spec_doc_id() == m {
                        lemma_sorted_head(os[k], d);
                    } else {
                        if os[k].len() > 0 {
                            lemma_sorted_head(os[k], d);
                        }
                    }
                    assert(has_doc(os[k], d));
                }
                if old(self).remaining().remove(m).contains(d) {
                    let k = choose|k: int| 0 <= k < n && has_doc(#[trigger] os[k], d);
                    lemma_sorted_head(os[k], d);
                    assert(has_doc(self.slots()[k], d));
                }
            }
            assert(self.remaining() =~= old(self).remaining().remove(m));
            assert(old(self).slots()[best as int][0] == os[best as int][0]);
        }
        result
    }
}

impl<I: DocIterator> DisjunctionIterator<I> {
    /// Skips forward to the lowest remaining document at or above `doc_id` and returns it, with
    /// `true` if it is `doc_id` itself; every remaining document up to it is consumed.
    pub fn advance(&mut self, doc_id: u32) -> (r: Option<(bool, I::Item)>)
        requires
            old(self).wf(),
        ensures
            final(self).wf(),
            r is None ==> forall|d: u32| old(self).remaining().contains(d) ==> d < doc_id,
            r is None ==> final(self).remaining().is_empty(),
            r matches Some((found, item)) ==> {
                &&& item.spec_doc_id() >= doc_id
                &&& found == (item.spec_doc_id() == doc_id)
                &&& old(self).remaining().contains(item.spec_doc_id())
                &&& forall|d: u32|
                    old(self).remaining().contains(d) && d >= doc_id ==> item.spec_doc_id() <= d
                &&& final(self).remaining() == old(self).remaining().filter(
                    |d: u32| d > item.spec_doc_id(),
                )
            },
    {
        let ghost start = self.remaining();
        loop
            invariant
                self.wf(),
                start == old(self).remaining(),
                self.remaining().subset_of(start),
                forall|d: u32| start.contains(d) && !self.remaining().contains(d) ==> d < doc_id,
                forall|d: u32| start.contains(d) && d >= doc_id ==> self.remaining().contains(d),
                forall|x: u32, y: u32|
                    #![trigger start.contains(x), self.remaining().contains(y)]
                    start.contains(x) && !self.remaining().contains(x) && self.remaining().contains(y) ==> x < y,
            decreases self.remaining().len(),
        {
            let ghost before = self.remaining();
            proof {
                self.lemma_remaining_finite();
            }
            match self.next() {
                None => {
                    return None;
                },
                Some(item) => {
                    let id = item.get_doc_id();
                    proof {
                        assert(before.remove(id).len() < before.len());
                        assert(self.remaining() == before.remove(id));
                    }
                    if id >= doc_id {
                        proof {
                            assert forall|x: u32| self.remaining().contains(x) <==> start.filter(|d: u32| d > id).contains(x) by {
                                if start.contains(x) && x > id {
                                    assert(before.contains(x));
                                }
                            }
                            assert(self.remaining() =~= start.filter(|d: u32| d > id));
                        }
                        return Some((id == doc_id, item));
                    }
                },
            }
        }
    }

    /// The remaining documents are finitely many.
    pub proof fn lemma_remaining_finite(&self)
        ensures
            self.remaining().finite(),
    {
        <u32 as vstd::set_lib::FiniteFull>::full_properties();
        vstd::set_lib::lemma_set_subset_finite(Set::<u32>::full(), self.remaining());
    }
}

/// A SearchHit references a document that is a match for a query.
///
/// This type implements [`DocItem`] so that a list of search hits can be seen as another posting
/// lists, allowing it to be used with [`IndexSearcher::step_on_matching_doc`].
#[derive(Debug, Clone, Copy, PartialEq, Eq)]
pub struct SearchHit {
    doc_id: u32,
}

impl SearchHit {
    /// A hit on document `doc_id`.
    pub fn new(doc_id: u32) -> (r: SearchHit)
        ensures
            r.spec_doc_id() == doc_id,
    {
        SearchHit { doc_id }
    }
}

impl DocItem for SearchHit {
    closed spec fn spec_doc_id(&self) -> u32 {
        self.doc_id
    }

    fn get_doc_id(&self) -> (r: u32) {
        self.doc_id
    }
}

/// The hits of a query, in increasing document order.
pub struct Hits {
    hits: Vec<SearchHit>,
    next: usize,
}

impl Hits {
    /// Iterates over `hits`.
    pub fn new(hits: Vec<SearchHit>) -> (r: Hits)
        ensures
            r.wf(),
            r.items() == hits@,
    {
        let r = Hits { hits, next: 0 };
        assert(r.items() =~= hits@);
        r
    }
}

impl DocIterator for Hits {
    type Item = SearchHit;

    closed spec fn items(&self) -> Seq<SearchHit> {
        self.hits@.skip(self.next as int)
    }

    closed spec fn wf(&self) -> bool {
        self.next <= self.hits@.len()
    }

    fn next(&mut self) -> (r: Option<SearchHit>) {
        if self.next < self.hits.len() {
            let h = self.hits[self.next];
            self.next = self.next + 1;
            assert(self.items() =~= old(self).items().drop_first());
            Some(h)
        } else {
            None
        }
    }
}

/// The `IndexSearcher` type provides an API for executing queries over an index.
pub struct IndexSearcher<'a> {
    index: &'a Index,
}

impl<'a> IndexSearcher<'a> {
    /// The index searched.
    pub closed spec fn index_view(&self) -> Index {
        *self.index
    }

    /// Creates a new IndexSearcher instance over an index.
    pub fn new(index: &'a Index) -> (r: IndexSearcher<'a>)
        ensures
            r.index_view() == *index,
    {
        IndexSearcher { index }
    }

    /// Returns the index this searcher operates on.
    pub fn get_index(&self) -> (r: &'a Index)
        ensures
            *r == self.index_view(),
    {
        self.index
    }

    /// Execute a query over the index and returns its hits, in increasing document order.
    pub fn search<'q, Q: Query<'q>>(&self, query: &Q) -> (r: Hits)
        requires
            self.index_view().wf(),
        ensures
            r.wf(),
            sorted_items(r.items()),
            forall|d: u32| has_doc(r.items(), d) <==> query::clause_matches(query.clause(), self.index_view(), d),
    {
        query.execute(self)
    }

    /// Iterates over iterators of [`DocItem`]s and returns another iterator whose items are
    /// the documents that all of them hold.
    pub fn step_on_matching_doc<I: DocIterator>(&self, docs: Vec<I>) -> (r: MatchingDocIterator<I>)
        requires
            forall|i: int|
                0 <= i < docs@.len() ==> (#[trigger] docs@[i]).wf() && sorted_items(
                    docs@[i].items(),
                ),
        ensures
            r.wf(),
            r.slots() == docs@.map(|i: int, it: I| it.items()),
    {
        MatchingDocIterator::new(docs)
    }

    /// The documents that all of the given iterators hold (see [`MatchingDocIterator`]).
    pub fn conjunction<I: DocIterator>(&self, docs: Vec<I>) -> (r: MatchingDocIterator<I>)
        requires
            forall|i: int|
                0 <= i < docs@.len() ==> (#[trigger] docs@[i]).wf() && sorted_items(
                    docs@[i].items(),
                ),
        ensures
            r.wf(),
            r.slots() == docs@.map(|i: int, it: I| it.items()),
    {
        MatchingDocIterator::new(docs)
    }

    /// The documents that some of the given iterators hold (see [`DisjunctionIterator`]).
    pub fn disjunction<I: DocIterator>(&self, docs: Vec<I>) -> (r: DisjunctionIterator<I>)
        requires
            forall|i: int| 0 <= i < docs@.len() ==> (#[trigger] docs@[i]).wf(),
            forall|i: int| 0 <= i < docs@.len() ==> sorted_items((#[trigger] docs@[i]).items()),
        ensures
            r.wf(),
            r.remaining() == union_ids(docs@.map(|i: int, it: I| it.items())),
    {
        DisjunctionIterator::new(docs)
    }
}

} // verus!
