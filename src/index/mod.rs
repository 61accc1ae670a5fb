//! Indexing logic of documents.
//!
//! The [`Index`] type provides an API for adding documents to an index and interacting with it.
pub mod document;
pub mod error;
pub mod posting_lists;
pub mod str_map;

use crate::tokenizer::filter::TokenFilter;
use crate::tokenizer::token_seq;
use crate::tokenizer::tokens_view;
use crate::tokenizer::whitespace_tokenizer::lemma_split_len;
use crate::tokenizer::whitespace_tokenizer::white_space_split;
use crate::tokenizer::whitespace_tokenizer::WhiteSpaceTokenizer;
use crate::tokenizer::Tokenizer;
use document::Document;
use error::IndexingError;
use posting_lists::add_token_spec;
use posting_lists::Posting;
use posting_lists::PostingImpl;
use posting_lists::PostingView;
use str_map::StrMap;
use vstd::prelude::*;
use vstd::string::StringExecFns;

verus! {

/// The key of the posting of `term` in `field`: the field, a colon, then the term.
pub open spec fn posting_key(field: Seq<char>, term: Seq<char>) -> Seq<char> {
    field + seq![':'] + term
}

/// The key of the posting of `term` in `field`.
pub fn posting_key_of(field: &str, term: &str) -> (r: String)
    ensures
        r@ == posting_key(field@, term@),
{
    let mut key = String::from_str(field);
    key.append(":");
    key.append(term);
    proof {
        reveal_strlit(":");
    }
    key
}

/// The tokens of one value of `field` under the filters `fs`, each as its posting key and
/// position.
pub open spec fn value_stream(field: Seq<char>, value: Seq<char>, fs: Seq<TokenFilter>) -> Seq<
    (Seq<char>, u32),
> {
    token_seq(white_space_split(value), fs).map(
        |i: int, t: (u32, Seq<char>)| (posting_key(field, t.1), t.0),
    )
}

/// The tokens of a document's field-value pairs `cs`, in order, each field tokenized with the
/// filters that `mappings` gives it.
pub open spec fn doc_stream(
    cs: Seq<(Seq<char>, Seq<char>)>,
    mappings: Map<Seq<char>, Seq<TokenFilter>>,
) -> Seq<(Seq<char>, u32)>
    decreases cs.len(),
{
    if cs.len() == 0 {
        Seq::empty()
    } else {
        doc_stream(cs.drop_last(), mappings) + value_stream(
            cs.last().0,
            cs.last().1,
            mappings[cs.last().0],
        )
    }
}

/// The posting stored under `k`, or an empty one.
pub open spec fn posting_or_empty(m: Map<Seq<char>, PostingView>, k: Seq<char>) -> PostingView {
    if m.contains_key(k) {
        m[k]
    } else {
        PostingView::empty()
    }
}

/// The postings `m` once each token of `s` was added for document `d`.
pub open spec fn index_stream(
    m: Map<Seq<char>, PostingView>,
    d: u32,
    s: Seq<(Seq<char>, u32)>,
) -> Map<Seq<char>, PostingView>
    decreases s.len(),
{
    if s.len() == 0 {
        m
    } else {
        let m1 = index_stream(m, d, s.drop_last());
        m1.insert(s.last().0, add_token_spec(posting_or_empty(m1, s.last().0), d, s.last().1))
    }
}

/// Some field of the pairs `cs` has no mapping.
pub open spec fn has_unmapped(
    cs: Seq<(Seq<char>, Seq<char>)>,
    mappings: Map<Seq<char>, Seq<TokenFilter>>,
) -> bool {
    exists|k: int| 0 <= k < cs.len() && !mappings.contains_key(#[trigger] cs[k].0)
}

/// `field` is the field of the first pair of `cs` that has no mapping.
pub open spec fn first_unmapped(
    cs: Seq<(Seq<char>, Seq<char>)>,
    mappings: Map<Seq<char>, Seq<TokenFilter>>,
    field: Seq<char>,
) -> bool {
    exists|k: int|
        0 <= k < cs.len() && #[trigger] cs[k].0 == field && !mappings.contains_key(field) && forall|
            j: int,
        |
            0 <= j < k ==> mappings.contains_key(#[trigger] cs[j].0)
}

/// What [`Index::set_mapping`] does: an error for a field that has a tokenizer, which stays in
/// place; otherwise the field gets the tokenizer.
pub open spec fn set_mapping_outcome(
    before: Index,
    after: Index,
    field: Seq<char>,
    filters: Seq<TokenFilter>,
    r: Result<(), IndexingError>,
) -> bool {
    &&& after.next_doc_id() == before.next_doc_id()
    &&& after.postings() == before.postings()
    &&& if before.mappings().contains_key(field) {
        &&& after.mappings() == before.mappings()
        &&& r matches Err(IndexingError::MappingFieldAlreadyExists { field: f }) && f@ == field
    } else {
        &&& after.mappings() == before.mappings().insert(field, filters)
        &&& r is Ok
    }
}

/// What [`Index::add_doc`] does with a document whose field-value pairs are `cs`: an error
/// naming the first field without mapping, the index unchanged; otherwise every token goes
/// into its posting under the next document ID, which then moves on by one.
pub open spec fn add_doc_outcome(
    before: Index,
    after: Index,
    cs: Seq<(Seq<char>, Seq<char>)>,
    r: Result<(), IndexingError>,
) -> bool {
    &&& after.mappings() == before.mappings()
    &&& if has_unmapped(cs, before.mappings()) {
        &&& after.next_doc_id() == before.next_doc_id()
        &&& after.postings() == before.postings()
        &&& r matches Err(IndexingError::MissingFieldMapping { field: f }) && first_unmapped(
            cs,
            before.mappings(),
            f@,
        )
    } else {
        &&& after.next_doc_id() == before.next_doc_id() + 1
        &&& after.postings() == index_stream(
            before.postings(),
            before.next_doc_id(),
            doc_stream(cs, before.mappings()),
        )
        &&& r is Ok
    }
}

/// An index: the tokenizer of each field, the posting of each `field:term` key, and the ID the
/// next document will get.
pub struct Index {
    doc_id: u32,
    postings: StrMap<PostingImpl>,
    mappings: StrMap<WhiteSpaceTokenizer>,
    empty: PostingImpl,
}

impl Index {
    /// The ID the next added document gets.
    pub closed spec fn next_doc_id(&self) -> u32 {
        self.doc_id
    }

    /// The filters of the tokenizer of each mapped field.
    pub closed spec fn mappings(&self) -> Map<Seq<char>, Seq<TokenFilter>> {
        self.mappings.as_map().map_values(|t: WhiteSpaceTokenizer| t@)
    }

    /// The posting of each key.
    pub closed spec fn postings(&self) -> Map<Seq<char>, PostingView> {
        self.postings.as_map().map_values(|p: PostingImpl| p@)
    }

    /// Every posting is well formed and holds only documents below `bound`.
    closed spec fn postings_below(&self, bound: int) -> bool {
        forall|i: int|
            0 <= i < self.postings.entries().len() ==> {
                let p = #[trigger] self.postings.entries()[i].1;
                p.wf() && (p@.len() > 0 ==> p@.last().0 < bound)
            }
    }

    /// The internal invariant.
    pub closed spec fn wf(&self) -> bool {
        &&& self.postings.wf()
        &&& self.mappings.wf()
        &&& self.empty.wf()
        &&& self.empty@.len() == 0
        &&& self.postings_below(self.doc_id as int)
    }

    /// An index with no mapping and no document.
    pub fn new() -> (r: Index)
        ensures
            r.wf(),
            r.next_doc_id() == 0,
            r.mappings() == Map::<Seq<char>, Seq<TokenFilter>>::empty(),
            r.postings() == Map::<Seq<char>, PostingView>::empty(),
    {
        let r = Index {
            doc_id: 0,
            postings: StrMap::new(),
            mappings: StrMap::new(),
            empty: posting_lists::new(),
        };
        assert(r.mappings() =~= Map::<Seq<char>, Seq<TokenFilter>>::empty());
        assert(r.postings() =~= Map::<Seq<char>, PostingView>::empty());
        r
    }

    /// Sets the tokenizer to be used on content of the specified field.
    ///
    /// # Errors
    ///
    /// An [`error::IndexingError::MappingFieldAlreadyExists`] error is returned if a tokenizer is
    /// already set for the specified field.
    pub fn set_mapping(&mut self, field: String, tokenizer: WhiteSpaceTokenizer) -> (r: Result<
        (),
        IndexingError,
    >)
        requires
            old(self).wf(),
        ensures
            final(self).wf(),
            set_mapping_outcome(*old(self), *final(self), field@, tokenizer@, r),
    {
        match self.mappings.find(&field) {
            Some(_) => {
                proof {
                    assert(self.mappings.as_map().contains_key(field@));
                }
                Err(IndexingError::MappingFieldAlreadyExists { field })
            },
            None => {
                let ghost before = self.mappings();
                let ghost f = field@;
                let ghost t = tokenizer@;
                self.mappings.push(field, tokenizer);
                assert(self.mappings() =~= before.insert(f, t));
                Ok(())
            },
        }
    }

    /// Adds the token at `position` of document `doc_id` to the posting of `key`, which is
    /// made on first use.
    fn add_posting(&mut self, key: String, doc_id: u32, position: u32)
        requires
            old(self).postings.wf(),
            old(self).postings_below(doc_id + 1),
        ensures
            final(self).postings.wf(),
            final(self).postings_below(doc_id + 1),
            final(self).postings() == old(self).postings().insert(
                key@,
                add_token_spec(posting_or_empty(old(self).postings(), key@), doc_id, position),
            ),
            final(self).doc_id == old(self).doc_id,
            final(self).mappings == old(self).mappings,
            final(self).empty == old(self).empty,
    {
        let ghost before = self.postings();
        let ghost es = self.postings.entries();
        let ghost k = key@;
        match self.postings.find(&key) {
            Some(i) => {
                proof {
                    str_map::lemma_key_index(es, i as int);
                }
                let mut p = self.postings.replace(i, posting_lists::new());
                p.add_token(doc_id, position);
                let ghost pv = p@;
                self.postings.replace(i, p);
                proof {
                    assert(self.postings() =~= before.insert(k, pv));
                    assert forall|j: int| 0 <= j < self.postings.entries().len() implies {
                        let q = #[trigger] self.postings.entries()[j].1;
                        q.wf() && (q@.len() > 0 ==> q@.last().0 < doc_id + 1)
                    } by {
                        if j != i {
                            assert(self.postings.entries()[j] == es[j]);
                        }
                    }
                }
            },
            None => {
                let mut p = posting_lists::new();
                p.add_token(doc_id, position);
                let ghost pv = p@;
                self.postings.push(key, p);
                proof {
                    assert(!before.contains_key(k));
                    assert(self.postings() =~= before.insert(k, pv));
                    assert forall|j: int| 0 <= j < self.postings.entries().len() implies {
                        let q = #[trigger] self.postings.entries()[j].1;
                        q.wf() && (q@.len() > 0 ==> q@.last().0 < doc_id + 1)
                    } by {
                        if j < es.len() {
                            assert(self.postings.entries()[j] == es[j]);
                        }
                    }
                }
            },
        }
    }

    /// Adds the given document to the index.
    ///
    /// Every field is checked for a mapping before any posting changes.
    ///
    /// # Errors
    ///
    /// An [`error::IndexingError::MissingFieldMapping`] error is returned if the document contains
    /// a field that has no mapping defined.
    pub fn add_doc(&mut self, doc: &Document) -> (r: Result<(), IndexingError>)
        requires
            old(self).wf(),
            old(self).next_doc_id() < u32::MAX,
            forall|k: int|
                0 <= k < doc.contents().len() ==> (#[trigger] doc.contents()[k]).1.len()
                    < u32::MAX,
        ensures
            final(self).wf(),
            add_doc_outcome(*old(self), *final(self), doc.contents(), r),
    {
        let contents = doc.fields();
        let ghost cs = doc.contents();
        let ghost maps = self.mappings();
        let n = contents.len();
        let mut i: usize = 0;
        while i < n
            invariant
                n == contents@.len() == cs.len(),
                cs == document::contents_view(contents@),
                i <= n,
                cs == doc.contents(),
                old(self).wf(),
                *self == *old(self),
                maps == self.mappings(),
                forall|j: int| 0 <= j < i ==> maps.contains_key(#[trigger] cs[j].0),
            decreases n - i,
        {
            let f = String::from_str(contents[i].field);
            proof {
                assert(cs[i as int].0 == f@);
            }
            if self.mappings.find(&f).is_none() {
                proof {
                    assert(!maps.contains_key(f@));
                    assert(first_unmapped(cs, maps, f@));
                    assert(!maps.contains_key(cs[i as int].0));
                    assert(has_unmapped(cs, maps));
                }
                return Err(IndexingError::MissingFieldMapping { field: f });
            }
            proof {
                assert(maps.contains_key(f@));
            }
            i += 1;
        }
        proof {
            assert(!has_unmapped(cs, maps));
        }
        let d = self.doc_id;
        let ghost start = self.postings();
        proof {
            assert(cs.take(0) =~= Seq::<(Seq<char>, Seq<char>)>::empty());
            assert forall|j: int| 0 <= j < self.postings.entries().len() implies {
                let q = #[trigger] self.postings.entries()[j].1;
                q.wf() && (q@.len() > 0 ==> q@.last().0 < d + 1)
            } by {}
        }
        let mut i: usize = 0;
        while i < n
            invariant
                n == contents@.len() == cs.len(),
                cs == document::contents_view(contents@),
                cs == doc.contents(),
                i <= n,
                d == old(self).doc_id,
                old(self).wf(),
                d < u32::MAX,
                self.doc_id == d,
                self.mappings == old(self).mappings,
                self.empty == old(self).empty,
                maps == self.mappings(),
                forall|j: int| 0 <= j < n ==> maps.contains_key(#[trigger] cs[j].0),
                forall|k: int| 0 <= k < n ==> (#[trigger] cs[k]).1.len() < u32::MAX,
                self.postings.wf(),
                self.postings_below(d + 1),
                self.postings() == index_stream(start, d, doc_stream(cs.take(i as int), maps)),
            decreases n - i,
        {
            let value_field = contents[i].field;
            let f = String::from_str(value_field);
            let value = contents[i].value;
            proof {
                assert(cs[i as int] == (f@, value@));
            }
            if let Some(ti) = self.mappings.find(&f) {
                let tokenizer = self.mappings.value_at(ti);
                proof {
                    str_map::lemma_key_index(self.mappings.entries(), ti as int);
                    assert(maps[f@] == tokenizer@);
                    lemma_split_len(value@);
                }
                let tokens = tokenizer.tokenize(value);
                let ghost vs = value_stream(f@, value@, maps[f@]);
                let ghost prefix = doc_stream(cs.take(i as int), maps);
                proof {
                    assert(tokens_view(tokens@) == token_seq(white_space_split(value@), maps[f@]));
                    assert(vs.len() == tokens@.len());
                    assert(prefix + vs.take(0) =~= prefix);
                }
                let mut j: usize = 0;
                while j < tokens.len()
                    invariant
                        j <= tokens@.len(),
                        vs.len() == tokens@.len(),
                        vs == value_stream(f@, value@, maps[f@]),
                        value_field@ == f@,
                        tokens_view(tokens@) == token_seq(white_space_split(value@), maps[f@]),
                        d < u32::MAX,
                        old(self).wf(),
                        self.doc_id == d,
                        self.mappings == old(self).mappings,
                        self.empty == old(self).empty,
                        self.postings.wf(),
                        self.postings_below(d + 1),
                        self.postings() == index_stream(start, d, prefix + vs.take(j as int)),
                    decreases tokens@.len() - j,
                {
                    let key = posting_key_of(value_field, tokens[j].token.as_str());
                    let position = tokens[j].position;
                    proof {
                        assert(tokens_view(tokens@)[j as int] == (position, tokens@[j as int].token@));
                        assert(vs[j as int] == (key@, position));
                        assert((prefix + vs.take(j + 1)).drop_last() =~= prefix + vs.take(j as int));
                        assert((prefix + vs.take(j + 1)).last() == vs[j as int]);
                    }
                    self.add_posting(key, d, position);
                    j += 1;
                }
                proof {
                    assert(vs.take(j as int) =~= vs);
                    assert(cs.take(i + 1).drop_last() =~= cs.take(i as int));
                    assert(cs.take(i + 1).last() == cs[i as int]);
                }
            } else {
                proof {
                    assert(maps.contains_key(cs[i as int].0));
                    assert(false);
                }
            }
            i += 1;
        }
        proof {
            assert(cs.take(n as int) =~= cs);
        }
        self.doc_id = d + 1;
        Ok(())
    }

    /// Returns the keys of all postings, each once.
    pub fn posting_keys(&self) -> (r: Vec<String>)
        requires
            self.wf(),
        ensures
            forall|k: Seq<char>| self.postings().contains_key(k) <==> crate::tokenizer::strings_view(r@).contains(k),
            forall|i: int, j: int| 0 <= i < j < r@.len() ==> r@[i]@ != r@[j]@,
    {
        let mut keys: Vec<String> = Vec::new();
        let n = self.postings.len();
        let ghost es = self.postings.entries();
        let mut i: usize = 0;
        while i < n
            invariant
                i <= n,
                n == es.len(),
                es == self.postings.entries(),
                str_map::keys_unique(es),
                keys@.len() == i,
                forall|j: int| 0 <= j < i ==> (#[trigger] keys@[j])@ == es[j].0,
            decreases n - i,
        {
            keys.push(self.postings.key_at(i).clone());
            i += 1;
        }
        proof {
            assert forall|k: Seq<char>| self.postings().contains_key(k) <==> crate::tokenizer::strings_view(keys@).contains(k) by {
                if self.postings().contains_key(k) {
                    let j = choose|j: int| 0 <= j < es.len() && #[trigger] es[j].0 == k;
                    assert(crate::tokenizer::strings_view(keys@)[j] == k);
                }
                if crate::tokenizer::strings_view(keys@).contains(k) {
                    let j = choose|j: int| 0 <= j < keys@.len() && crate::tokenizer::strings_view(keys@)[j] == k;
                    assert(es[j].0 == k);
                    assert(str_map::has_key(es, k));
                }
            }
        }
        keys
    }

    /// Returns the posting lists associated with the given `field:term` key.
    ///
    /// If the index does not have a posting lists for that key, then an empty posting is
    /// returned.
    pub fn get_postings_list(&self, key: &str) -> (r: &PostingImpl)
        requires
            self.wf(),
        ensures
            r.wf(),
            r@ == posting_or_empty(self.postings(), key@),
    {
        let k = String::from_str(key);
        match self.postings.find(&k) {
            None => {
                assert(!self.postings().contains_key(key@));
                &self.empty
            },
            Some(i) => {
                proof {
                    str_map::lemma_key_index(self.postings.entries(), i as int);
                }
                self.postings.value_at(i)
            },
        }
    }
}

impl Default for Index {
    fn default() -> (r: Index)
        ensures
            r.wf(),
            r.next_doc_id() == 0,
            r.mappings() == Map::<Seq<char>, Seq<TokenFilter>>::empty(),
            r.postings() == Map::<Seq<char>, PostingView>::empty(),
    {
        Index::new()
    }
}

/// Setting a mapping twice for the same field fails the second time and leaves the tokenizer
/// that the field had after the first call in place.
pub proof fn lemma_set_mapping_twice(
    i0: Index,
    i1: Index,
    i2: Index,
    field: Seq<char>,
    first: Seq<TokenFilter>,
    second: Seq<TokenFilter>,
    r1: Result<(), IndexingError>,
    r2: Result<(), IndexingError>,
)
    requires
        set_mapping_outcome(i0, i1, field, first, r1),
        set_mapping_outcome(i1, i2, field, second, r2),
    ensures
        r2 is Err,
        i2.mappings() == i1.mappings(),
        i2.mappings().contains_key(field),
        r1 is Ok ==> i2.mappings()[field] == first,
{
}

/// After a failed `add_doc` the index is as before, so the next document added gets the ID the
/// failed one would have had.
pub proof fn lemma_failed_add_doc_keeps_id(
    i0: Index,
    i1: Index,
    i2: Index,
    failed: Seq<(Seq<char>, Seq<char>)>,
    added: Seq<(Seq<char>, Seq<char>)>,
    r1: Result<(), IndexingError>,
    r2: Result<(), IndexingError>,
)
    requires
        add_doc_outcome(i0, i1, failed, r1),
        r1 is Err,
        add_doc_outcome(i1, i2, added, r2),
        r2 is Ok,
    ensures
        i1.next_doc_id() == i0.next_doc_id(),
        i1.postings() == i0.postings(),
        i2.next_doc_id() == i0.next_doc_id() + 1,
        i2.postings() == index_stream(
            i0.postings(),
            i0.next_doc_id(),
            doc_stream(added, i0.mappings()),
        ),
{
}

} // verus!
