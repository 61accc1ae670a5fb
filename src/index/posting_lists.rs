//! Logic for creating a posting lists and interacting with it.
use crate::search::DocIterator;
use vstd::prelude::*;
use vstd::slice::slice_subrange;

verus! {

/// The documents of a posting, in order: each with its ID and the positions of the term in it.
pub type PostingView = Seq<(u32, Seq<u32>)>;

/// The document IDs of a posting view, in order.
pub open spec fn doc_ids(p: PostingView) -> Seq<u32> {
    p.map(|i: int, e: (u32, Seq<u32>)| e.0)
}

/// Each element is strictly below the next one.
pub open spec fn strictly_increasing(s: Seq<u32>) -> bool {
    forall|i: int, j: int| 0 <= i < j < s.len() ==> s[i] < s[j]
}

/// What adding the token at `position` of document `doc_id` makes of the posting `p`.
pub open spec fn add_token_spec(p: PostingView, doc_id: u32, position: u32) -> PostingView {
    if p.len() == 0 || p.last().0 != doc_id {
        p.push((doc_id, seq![position]))
    } else {
        p.update(p.len() - 1, (doc_id, p.last().1.push(position)))
    }
}

/// The `Posting` type allows to add tokens to the index and then iterating over them
pub trait Posting {
    /// The documents this posting holds, in order.
    spec fn view_entries(&self) -> PostingView;

    /// The internal invariant.
    spec fn wf(&self) -> bool;

    /// Whether a token of `doc_id` may be added now.
    spec fn accepts(&self, doc_id: u32) -> bool;

    /// The documents after a token of `doc_id` at `position` was added.
    spec fn added(&self, doc_id: u32, position: u32) -> PostingView;

    /// Returns `true` if there is no token in this posting lists.
    fn is_empty(&self) -> (r: bool)
        requires
            self.wf(),
        ensures
            r == (self.view_entries().len() == 0),
    ;

    /// Returns the number of documents this posting lists contains.
    fn len(&self) -> (r: usize)
        requires
            self.wf(),
        ensures
            r == self.view_entries().len(),
    ;

    /// Adds a token to this posting list with the given document ID occurring at position within
    /// that document.
    fn add_token(&mut self, doc_id: u32, position: u32)
        requires
            old(self).wf(),
            old(self).accepts(doc_id),
        ensures
            final(self).wf(),
            final(self).view_entries() == old(self).added(doc_id, position),
    ;

    /// Creates an iterator over [`DocIdItem`]s, in the order of the documents.
    fn iter_docs<'a>(&'a self) -> (r: DocIdIter<'a>)
        requires
            self.wf(),
        ensures
            r.wf(),
            r.items() == doc_id_items(self.view_entries()),
    ;

    /// Creates an iterator over [`DocIdAndPosItem`]s, in the order of the documents.
    fn iter_docs_pos<'a>(&'a self) -> (r: DocIdAndPosIter<'a>)
        requires
            self.wf(),
        ensures
            r.wf(),
            pos_items_view(r.items()) == self.view_entries(),
            r.source() == self.view_entries(),
    ;
}

/// Creates a new [`Posting`] instance.
pub fn new() -> (r: PostingImpl)
    ensures
        r.wf(),
        r@ == PostingView::empty(),
{
    PostingImpl { docs: Vec::new(), positions: Vec::new() }
}

/// Returns a [`Posting`] instance which is always empty.
pub fn empty() -> (r: EmptyPosting)
    ensures
        r.wf(),
        r.view_entries() == PostingView::empty(),
{
    EmptyPosting { none: new() }
}

/// A posting with no document, to which tokens cannot be added.
pub struct EmptyPosting {
    none: PostingImpl,
}

impl Posting for EmptyPosting {
    closed spec fn view_entries(&self) -> PostingView {
        self.none@
    }

    closed spec fn wf(&self) -> bool {
        self.none.wf() && self.none@.len() == 0
    }

    open spec fn accepts(&self, doc_id: u32) -> bool {
        true
    }

    open spec fn added(&self, doc_id: u32, position: u32) -> PostingView {
        self.view_entries()
    }

    fn is_empty(&self) -> (r: bool) {
        true
    }

    fn len(&self) -> (r: usize) {
        0
    }

    fn add_token(&mut self, doc_id: u32, position: u32) {
    }

    fn iter_docs<'a>(&'a self) -> (r: DocIdIter<'a>) {
        self.none.iter_docs()
    }

    fn iter_docs_pos<'a>(&'a self) -> (r: DocIdAndPosIter<'a>) {
        self.none.iter_docs_pos()
    }
}

/// A posting list: the documents in which one term occurs, with its positions in each.
///
/// The positions of all documents are kept in one buffer; each document entry frames its own
/// slice of it.
#[derive(Debug)]
pub struct PostingImpl {
    docs: Vec<DocEntry>,
    positions: Vec<u32>,
}

#[derive(Debug)]
struct DocEntry {
    doc_id: u32,
    freqs: usize,
    positions_offset: usize,
}

impl DocEntry {
    fn new(doc_id: u32, positions_offset: usize) -> (r: DocEntry)
        ensures
            r.doc_id == doc_id,
            r.freqs == 0,
            r.positions_offset == positions_offset,
    {
        DocEntry { doc_id, freqs: 0, positions_offset }
    }
}

impl View for PostingImpl {
    type V = PostingView;

    closed spec fn view(&self) -> PostingView {
        self.docs@.map(
            |i: int, e: DocEntry|
                (
                    e.doc_id,
                    self.positions@.subrange(
                        e.positions_offset as int,
                        e.positions_offset + e.freqs,
                    ),
                ),
        )
    }
}

impl PostingImpl {
    /// The positions buffer, all documents one after the other.
    pub closed spec fn raw_positions(&self) -> Seq<u32> {
        self.positions@
    }

    /// Where the positions of the `i`-th document start in [`PostingImpl::raw_positions`].
    pub closed spec fn offset(&self, i: int) -> int {
        self.docs@[i].positions_offset as int
    }

    /// The internal invariant: increasing documents whose slices tile the positions buffer.
    pub closed spec fn wf(&self) -> bool {
        &&& self.docs@.len() <= usize::MAX
        &&& self.positions@.len() <= usize::MAX
        &&& forall|i: int, j: int|
            0 <= i < j < self.docs@.len() ==> self.docs@[i].doc_id < self.docs@[j].doc_id
        &&& forall|i: int| 0 <= i < self.docs@.len() ==> self.docs@[i].freqs > 0
        &&& self.docs@.len() > 0 ==> self.docs@[0].positions_offset == 0
        &&& forall|i: int|
            0 <= i < self.docs@.len() - 1 ==> #[trigger] self.docs@[i + 1].positions_offset
                == self.docs@[i].positions_offset + self.docs@[i].freqs
        &&& self.docs@.len() == 0 ==> self.positions@.len() == 0
        &&& self.docs@.len() > 0 ==> self.docs@.last().positions_offset + self.docs@.last().freqs
            == self.positions@.len()
    }

    /// Returns the positions buffer: the positions of all documents, one document after the
    /// other.
    pub fn positions_buffer(&self) -> (r: &Vec<u32>)
        ensures
            r@ == self.raw_positions(),
    {
        &self.positions
    }

    /// Returns where the positions of the `i`-th document start in the positions buffer.
    pub fn offset_of(&self, i: usize) -> (r: usize)
        requires
            i < self@.len(),
        ensures
            r == self.offset(i as int),
    {
        self.docs[i].positions_offset
    }

    /// The documents of a posting come in strictly increasing order.
    pub proof fn lemma_sorted(&self)
        requires
            self.wf(),
        ensures
            strictly_increasing(doc_ids(self@)),
    {
        assert forall|i: int, j: int| 0 <= i < j < doc_ids(self@).len() implies doc_ids(self@)[i]
            < doc_ids(self@)[j] by {
            assert(doc_ids(self@)[i] == self.docs@[i].doc_id);
            assert(doc_ids(self@)[j] == self.docs@[j].doc_id);
        }
    }

    /// The slices of the documents lie inside the buffer, one after the other.
    proof fn lemma_offsets(&self)
        requires
            self.wf(),
        ensures
            forall|i: int, j: int|
                0 <= i < j < self.docs@.len() ==> self.docs@[i].positions_offset
                    + self.docs@[i].freqs <= self.docs@[j].positions_offset,
            forall|i: int|
                0 <= i < self.docs@.len() ==> self.docs@[i].positions_offset + self.docs@[i].freqs
                    <= self.positions@.len(),
    {
        assert forall|i: int, j: int|
            0 <= i < j < self.docs@.len() implies self.docs@[i].positions_offset
            + self.docs@[i].freqs <= self.docs@[j].positions_offset by {
            self.lemma_offsets_from(i, j);
        }
        assert forall|i: int|
            0 <= i < self.docs@.len() implies self.docs@[i].positions_offset
            + self.docs@[i].freqs <= self.positions@.len() by {
            if i < self.docs@.len() - 1 {
                self.lemma_offsets_from(i, self.docs@.len() - 1);
            }
        }
    }

    proof fn lemma_offsets_from(&self, i: int, j: int)
        requires
            self.wf(),
            0 <= i < j < self.docs@.len(),
        ensures
            self.docs@[i].positions_offset + self.docs@[i].freqs <= self.docs@[j].positions_offset,
        decreases j - i,
    {
        if j > i + 1 {
            self.lemma_offsets_from(i, j - 1);
            assert(self.docs@[(j - 1) + 1].positions_offset == self.docs@[j - 1].positions_offset
                + self.docs@[j - 1].freqs);
        } else {
            assert(self.docs@[i + 1].positions_offset == self.docs@[i].positions_offset
                + self.docs@[i].freqs);
        }
    }
}

impl Posting for PostingImpl {
    open spec fn view_entries(&self) -> PostingView {
        self@
    }

    open spec fn wf(&self) -> bool {
        self.wf()
    }

    open spec fn accepts(&self, doc_id: u32) -> bool {
        self@.len() > 0 ==> self@.last().0 <= doc_id
    }

    open spec fn added(&self, doc_id: u32, position: u32) -> PostingView {
        add_token_spec(self@, doc_id, position)
    }

    fn is_empty(&self) -> (r: bool) {
        self.docs.len() == 0
    }

    fn len(&self) -> (r: usize) {
        self.docs.len()
    }

    fn add_token(&mut self, doc_id: u32, position: u32) {
        let ghost before = *self;
        proof {
            self.lemma_offsets();
        }
        let n = self.docs.len();
        let create_doc_posting = n == 0 || self.docs[n - 1].doc_id != doc_id;
        if create_doc_posting {
            let offset = self.positions.len();
            self.docs.push(DocEntry::new(doc_id, offset));
        }
        self.positions.push(position);
        let total = self.positions.len();
        let last = self.docs.len() - 1;
        let mut entry = self.docs.pop().unwrap();
        entry.freqs = entry.freqs + 1;
        self.docs.push(entry);
        assert(total == self.positions@.len());
        proof {
            let want = add_token_spec(before@, doc_id, position);
            assert(self.positions@ == before.positions@.push(position));
            if create_doc_posting {
                assert forall|i: int| 0 <= i < before.docs@.len() implies self@[i] == want[i] by {
                    before.lemma_offsets();
                    assert(self.positions@.subrange(
                        before.docs@[i].positions_offset as int,
                        before.docs@[i].positions_offset + before.docs@[i].freqs,
                    ) =~= before.positions@.subrange(
                        before.docs@[i].positions_offset as int,
                        before.docs@[i].positions_offset + before.docs@[i].freqs,
                    ));
                }
                assert(self@[last as int].1 =~= seq![position]);
            } else {
                assert forall|i: int| 0 <= i < last implies self@[i] == want[i] by {
                    before.lemma_offsets();
                    assert(self.positions@.subrange(
                        before.docs@[i].positions_offset as int,
                        before.docs@[i].positions_offset + before.docs@[i].freqs,
                    ) =~= before.positions@.subrange(
                        before.docs@[i].positions_offset as int,
                        before.docs@[i].positions_offset + before.docs@[i].freqs,
                    ));
                }
                assert(self@[last as int].1 =~= before@[last as int].1.push(position));
            }
            assert(self@ =~= want);
        }
    }

    fn iter_docs<'a>(&'a self) -> (r: DocIdIter<'a>) {
        let r = DocIdIter { posting: self, next: 0 };
        assert(r.items() =~= doc_id_items(self@));
        r
    }

    fn iter_docs_pos<'a>(&'a self) -> (r: DocIdAndPosIter<'a>) {
        let r = DocIdAndPosIter { posting: self, next: 0 };
        assert forall|i: int| 0 <= i < self@.len() implies pos_items_view(r.items())[i]
            == self@[i] by {
            assert(r.items()[i].index == i);
        }
        assert(pos_items_view(r.items()) =~= self@);
        r
    }
}

/// Interface for any item of an iteration over a list of documents.
pub trait DocItem {
    /// The document ID of this item.
    spec fn spec_doc_id(&self) -> u32;

    /// Returns the document ID of this item.
    fn get_doc_id(&self) -> (r: u32)
        ensures
            r == self.spec_doc_id(),
    ;
}

/// A [`DocItem`] which provides only the ID of a document.
#[derive(Debug, Clone, Copy, PartialEq, Eq)]
pub struct DocIdItem {
    pub doc_id: u32,
}

impl DocItem for DocIdItem {
    open spec fn spec_doc_id(&self) -> u32 {
        self.doc_id
    }

    fn get_doc_id(&self) -> (r: u32) {
        self.doc_id
    }
}

/// A [`DocItem`] which provides in addition to a document's ID the positions of each token's occurrence.
#[derive(Debug, Clone, Copy)]
pub struct DocIdAndPosItem<'a> {
    doc_id: u32,
    posting: &'a PostingImpl,
    index: usize,
}

impl<'a> DocIdAndPosItem<'a> {
    /// The item names a document of a well-formed posting.
    pub closed spec fn valid(&self) -> bool {
        self.posting.wf() && self.index < self.posting@.len() && self.doc_id
            == self.posting@[self.index as int].0
    }

    /// The positions of the term in the document.
    pub closed spec fn positions_spec(&self) -> Seq<u32> {
        self.posting@[self.index as int].1
    }

    /// Returns the positions of the term in the document, in the order they were added.
    pub fn positions(&self) -> (r: &'a [u32])
        requires
            self.valid(),
        ensures
            r@ == self.positions_spec(),
    {
        self.posting.positions_of(self.index)
    }
}

impl<'a> DocIdAndPosItem<'a> {
    /// The item is valid and is one of the documents of `p`, with its positions.
    pub open spec fn from_posting(&self, p: PostingView) -> bool {
        self.valid() && exists|m: int|
            0 <= m < p.len() && #[trigger] p[m] == (self.spec_doc_id(), self.positions_spec())
    }
}

impl<'a> DocItem for DocIdAndPosItem<'a> {
    closed spec fn spec_doc_id(&self) -> u32 {
        self.doc_id
    }

    fn get_doc_id(&self) -> (r: u32) {
        self.doc_id
    }
}

/// The items that iterate over the documents of `p` by ID.
pub open spec fn doc_id_items(p: PostingView) -> Seq<DocIdItem> {
    p.map(|i: int, e: (u32, Seq<u32>)| DocIdItem { doc_id: e.0 })
}

/// Each item as its document ID and its positions.
pub open spec fn pos_items_view<'a>(s: Seq<DocIdAndPosItem<'a>>) -> PostingView {
    s.map(|i: int, x: DocIdAndPosItem<'a>| (x.spec_doc_id(), x.positions_spec()))
}

/// An iterator over the document IDs of a posting.
pub struct DocIdIter<'a> {
    posting: &'a PostingImpl,
    next: usize,
}

impl<'a> DocIterator for DocIdIter<'a> {
    type Item = DocIdItem;

    closed spec fn items(&self) -> Seq<DocIdItem> {
        doc_id_items(self.posting@).skip(self.next as int)
    }

    closed spec fn wf(&self) -> bool {
        self.posting.wf() && self.next <= self.posting@.len()
    }

    fn next(&mut self) -> (r: Option<DocIdItem>) {
        if self.next < self.posting.docs.len() {
            let item = DocIdItem { doc_id: self.posting.docs[self.next].doc_id };
            self.next = self.next + 1;
            proof {
                let s = doc_id_items(self.posting@);
                assert(s.skip(self.next as int) =~= s.skip(self.next - 1).drop_first());
            }
            Some(item)
        } else {
            None
        }
    }
}

/// An iterator over the documents of a posting with the positions of the term in each.
pub struct DocIdAndPosIter<'a> {
    posting: &'a PostingImpl,
    next: usize,
}

impl<'a> DocIdAndPosIter<'a> {
    /// Each item still to come names a document of the posting.
    pub proof fn lemma_items_valid(&self)
        requires
            self.wf(),
        ensures
            forall|k: int| 0 <= k < self.items().len() ==> (#[trigger] self.items()[k]).valid(),
            forall|k: int|
                0 <= k < self.items().len() ==> (#[trigger] self.items()[k]).from_posting(
                    self.source(),
                ),
    {
        assert forall|k: int| 0 <= k < self.items().len() implies (#[trigger] self.items()[k]).from_posting(
            self.posting@,
        ) by {
            let m = self.next + k;
            assert(self.posting@[m] == (self.items()[k].spec_doc_id(), self.items()[k].positions_spec()));
        }
    }

    /// The posting iterated over.
    pub closed spec fn source(&self) -> PostingView {
        self.posting@
    }
}

impl<'a> DocIterator for DocIdAndPosIter<'a> {
    type Item = DocIdAndPosItem<'a>;

    closed spec fn items(&self) -> Seq<DocIdAndPosItem<'a>> {
        Seq::new(
            (self.posting@.len() - self.next) as nat,
            |i: int|
                DocIdAndPosItem {
                    doc_id: self.posting@[self.next + i].0,
                    posting: self.posting,
                    index: (self.next + i) as usize,
                },
        )
    }

    closed spec fn wf(&self) -> bool {
        self.posting.wf() && self.next <= self.posting@.len()
    }

    fn next(&mut self) -> (r: Option<DocIdAndPosItem<'a>>) {
        if self.next < self.posting.docs.len() {
            let item = DocIdAndPosItem {
                doc_id: self.posting.docs[self.next].doc_id,
                posting: self.posting,
                index: self.next,
            };
            self.next = self.next + 1;
            proof {
                assert(self.items() =~= old(self).items().drop_first());
            }
            Some(item)
        } else {
            None
        }
    }
}

impl PostingImpl {
    /// The positions of the `i`-th document.
    fn positions_of<'a>(&'a self, i: usize) -> (r: &'a [u32])
        requires
            self.wf(),
            i < self@.len(),
        ensures
            r@ == self@[i as int].1,
    {
        proof {
            self.lemma_offsets();
        }
        let e = &self.docs[i];
        let start = e.positions_offset;
        let end = e.positions_offset + e.freqs;
        slice_subrange(self.positions.as_slice(), start, end)
    }
}

/// The posting made by adding each token of `calls`, as `(doc_id, position)`, in order.
pub open spec fn posting_of_calls(calls: Seq<(u32, u32)>) -> PostingView
    decreases calls.len(),
{
    if calls.len() == 0 {
        PostingView::empty()
    } else {
        add_token_spec(posting_of_calls(calls.drop_last()), calls.last().0, calls.last().1)
    }
}

/// The positions of the calls for document `d`, in call order.
pub open spec fn positions_of_doc(calls: Seq<(u32, u32)>, d: u32) -> Seq<u32>
    decreases calls.len(),
{
    if calls.len() == 0 {
        Seq::empty()
    } else if calls.last().0 == d {
        positions_of_doc(calls.drop_last(), d).push(calls.last().1)
    } else {
        positions_of_doc(calls.drop_last(), d)
    }
}

/// Document IDs of the calls never decrease.
pub open spec fn calls_sorted(calls: Seq<(u32, u32)>) -> bool {
    forall|i: int, j: int| 0 <= i < j < calls.len() ==> calls[i].0 <= calls[j].0
}

/// `p` is strictly increasing and holds for each document the positions of its calls, in call
/// order.
pub open spec fn built_from_calls(calls: Seq<(u32, u32)>, p: PostingView) -> bool {
    &&& strictly_increasing(doc_ids(p))
    &&& forall|k: int|
        0 <= k < p.len() ==> (#[trigger] p[k]).1 == positions_of_doc(calls, p[k].0)
}

/// Tokens added with non-decreasing document IDs give a posting whose documents are strictly
/// increasing and hold for each document the positions of its calls, in call order (so as many
/// positions as calls).
pub proof fn lemma_posting_monotonic(calls: Seq<(u32, u32)>)
    requires
        calls_sorted(calls),
    ensures
        built_from_calls(calls, posting_of_calls(calls)),
        calls.len() > 0 ==> posting_of_calls(calls).len() > 0 && posting_of_calls(calls).last().0
            == calls.last().0,
    decreases calls.len(),
{
    if calls.len() > 0 {
        let prev = calls.drop_last();
        assert(calls_sorted(prev)) by {
            assert forall|i: int, j: int| 0 <= i < j < prev.len() implies prev[i].0 <= prev[j].0 by {
                assert(prev[i] == calls[i] && prev[j] == calls[j]);
            }
        }
        lemma_posting_monotonic(prev);
        let p0 = posting_of_calls(prev);
        let x = calls.last();
        assert(calls == prev.push(x));
        if p0.len() == 0 || p0.last().0 != x.0 {
            lemma_step_new_doc(prev, x);
        } else {
            lemma_step_same_doc(prev, x);
        }
    }
}

proof fn lemma_step_new_doc(prev: Seq<(u32, u32)>, x: (u32, u32))
    requires
        calls_sorted(prev.push(x)),
        built_from_calls(prev, posting_of_calls(prev)),
        prev.len() > 0 ==> posting_of_calls(prev).len() > 0 && posting_of_calls(prev).last().0
            == prev.last().0,
        posting_of_calls(prev).len() == 0 || posting_of_calls(prev).last().0 != x.0,
    ensures
        built_from_calls(prev.push(x), posting_of_calls(prev.push(x))),
        posting_of_calls(prev.push(x)).last().0 == x.0,
{
    let calls = prev.push(x);
    let p0 = posting_of_calls(prev);
    let p = posting_of_calls(calls);
    assert(calls.drop_last() =~= prev);
    assert(p == p0.push((x.0, seq![x.1])));
    if prev.len() > 0 {
        assert(calls[prev.len() - 1] == prev.last());
        assert(prev.last().0 < x.0);
    }
    assert forall|i: int| 0 <= i < prev.len() implies (#[trigger] prev[i]).0 != x.0 by {
        assert(calls[i] == prev[i]);
        assert(calls[prev.len() - 1] == prev.last());
    }
    lemma_positions_of_absent(prev, x.0);
    assert forall|k: int| 0 <= k < p0.len() implies (#[trigger] p0[k]).0 < x.0 by {
        if k < p0.len() - 1 {
            assert(doc_ids(p0)[k] < doc_ids(p0)[p0.len() - 1]);
        }
    }
    assert forall|k: int| 0 <= k < p.len() implies (#[trigger] p[k]).1 == positions_of_doc(
        calls,
        p[k].0,
    ) by {
        if k < p0.len() {
            assert(p[k] == p0[k]);
        }
    }
    assert forall|i: int, j: int| 0 <= i < j < p.len() implies doc_ids(p)[i] < doc_ids(p)[j] by {
        if j < p0.len() {
            assert(doc_ids(p0)[i] < doc_ids(p0)[j]);
        } else {
            assert(p[i] == p0[i]);
        }
    }
}

proof fn lemma_step_same_doc(prev: Seq<(u32, u32)>, x: (u32, u32))
    requires
        built_from_calls(prev, posting_of_calls(prev)),
        posting_of_calls(prev).len() > 0,
        posting_of_calls(prev).last().0 == x.0,
    ensures
        built_from_calls(prev.push(x), posting_of_calls(prev.push(x))),
        posting_of_calls(prev.push(x)).last().0 == x.0,
{
    let calls = prev.push(x);
    let p0 = posting_of_calls(prev);
    let p = posting_of_calls(calls);
    assert(calls.drop_last() =~= prev);
    let last = p0.len() - 1;
    assert(p == p0.update(last, (x.0, p0[last].1.push(x.1))));
    assert forall|k: int| 0 <= k < p.len() implies (#[trigger] p[k]).1 == positions_of_doc(
        calls,
        p[k].0,
    ) by {
        if k < last {
            assert(doc_ids(p0)[k] < doc_ids(p0)[last]);
        }
    }
    assert forall|i: int, j: int| 0 <= i < j < p.len() implies doc_ids(p)[i] < doc_ids(p)[j] by {
        assert(doc_ids(p0)[i] < doc_ids(p0)[j]);
    }
}

/// A document with no call has no position.
proof fn lemma_positions_of_absent(calls: Seq<(u32, u32)>, d: u32)
    requires
        forall|i: int| 0 <= i < calls.len() ==> (#[trigger] calls[i]).0 != d,
    ensures
        positions_of_doc(calls, d) == Seq::<u32>::empty(),
    decreases calls.len(),
{
    if calls.len() > 0 {
        assert forall|i: int| 0 <= i < calls.len() - 1 implies (#[trigger] calls.drop_last()[i]).0
            != d by {
            assert(calls.drop_last()[i] == calls[i]);
        }
        lemma_positions_of_absent(calls.drop_last(), d);
    }
}

/// The positions of the documents of `p`, one document after the other.
pub open spec fn concat_positions(p: PostingView) -> Seq<u32>
    decreases p.len(),
{
    if p.len() == 0 {
        Seq::empty()
    } else {
        concat_positions(p.drop_last()) + p.last().1
    }
}

impl PostingImpl {
    /// The documents' position slices, one after the other, are the positions buffer; the
    /// offset of each document is the number of positions of the documents before it.
    pub proof fn lemma_positions_framing(&self)
        requires
            self.wf(),
        ensures
            concat_positions(self@) == self.raw_positions(),
            forall|i: int|
                0 <= i < self@.len() ==> #[trigger] self.offset(i) == concat_positions(
                    self@.take(i),
                ).len(),
    {
        self.lemma_offsets();
        assert forall|i: int| 0 <= i <= self@.len() implies concat_positions(#[trigger] self@.take(i))
            == self.positions@.take(self.end_of(i)) by {
            self.lemma_prefix_framing(i);
        }
        assert(self@.take(self@.len() as int) =~= self@);
        assert(self.positions@.take(self.positions@.len() as int) =~= self.positions@);
        assert forall|i: int| 0 <= i < self@.len() implies #[trigger] self.offset(i)
            == concat_positions(self@.take(i)).len() by {
            if i > 0 {
                assert(self.docs@[(i - 1) + 1].positions_offset == self.docs@[i - 1].positions_offset
                    + self.docs@[i - 1].freqs);
            }
        }
    }

    /// Where the slice of the `i - 1`-th document ends (0 for none).
    spec fn end_of(&self, i: int) -> int {
        if i == 0 {
            0
        } else {
            self.docs@[i - 1].positions_offset + self.docs@[i - 1].freqs
        }
    }

    proof fn lemma_prefix_framing(&self, i: int)
        requires
            self.wf(),
            0 <= i <= self@.len(),
        ensures
            concat_positions(self@.take(i)) == self.positions@.take(self.end_of(i)),
            self.end_of(i) <= self.positions@.len(),
        decreases i,
    {
        self.lemma_offsets();
        if i > 0 {
            self.lemma_prefix_framing(i - 1);
            assert(self@.take(i).drop_last() =~= self@.take(i - 1));
            let e = self.docs@[i - 1];
            if i > 1 {
                assert(self.docs@[(i - 2) + 1].positions_offset == self.docs@[i - 2].positions_offset
                    + self.docs@[i - 2].freqs);
            }
            assert(self.end_of(i - 1) == e.positions_offset);
            assert(self.positions@.take(self.end_of(i)) =~= self.positions@.take(self.end_of(i - 1))
                + self.positions@.subrange(
                e.positions_offset as int,
                e.positions_offset + e.freqs,
            ));
        }
    }
}

} // verus!
