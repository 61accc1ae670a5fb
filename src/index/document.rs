//! Document representation for the purpose of indexing.
use super::str_map::has_key;
use super::str_map::StrMap;
use crate::tokenizer::strings_view;
use vstd::prelude::*;
use vstd::string::StringExecFns;

verus! {

/// A document as its fields in the order they first appeared, each with its values in the
/// order they were added.
pub type DocumentView = Seq<(Seq<char>, Seq<Seq<char>>)>;

/// The fields of `d` after `value` was added to `field`.
pub open spec fn field_added(d: DocumentView, field: Seq<char>, value: Seq<char>) -> DocumentView {
    if has_key(d, field) {
        let i = choose|i: int| 0 <= i < d.len() && #[trigger] d[i].0 == field;
        d.update(i, (field, d[i].1.push(value)))
    } else {
        d.push((field, seq![value]))
    }
}

/// Every field-value pair of `d`: field by field, values in order.
pub open spec fn flatten_fields(d: DocumentView) -> Seq<(Seq<char>, Seq<char>)>
    decreases d.len(),
{
    if d.len() == 0 {
        Seq::empty()
    } else {
        flatten_fields(d.drop_last()) + d.last().1.map(
            |i: int, v: Seq<char>| (d.last().0, v),
        )
    }
}

/// A document is designed as a multi-valued list of fields.
pub struct Document {
    fields: StrMap<Vec<String>>,
}

impl View for Document {
    type V = DocumentView;

    closed spec fn view(&self) -> DocumentView {
        self.fields.entries().map(|i: int, e: (Seq<char>, Vec<String>)| (e.0, strings_view(e.1@)))
    }
}

impl Document {
    /// The internal invariant: each field once.
    pub closed spec fn wf(&self) -> bool {
        self.fields.wf()
    }

    /// Every field-value pair of this document.
    pub open spec fn contents(&self) -> Seq<(Seq<char>, Seq<char>)> {
        flatten_fields(self@)
    }

    /// A document with no field.
    pub fn new() -> (r: Document)
        ensures
            r.wf(),
            r@ == DocumentView::empty(),
    {
        let r = Document { fields: StrMap::new() };
        assert(r@ =~= DocumentView::empty());
        r
    }

    /// Removes all values within this document.
    pub fn clear(&mut self)
        ensures
            final(self).wf(),
            final(self)@ == DocumentView::empty(),
    {
        self.fields.clear();
        assert(self@ =~= DocumentView::empty());
    }

    /// Returns `true` if this document has no content.
    pub fn is_empty(&self) -> (r: bool)
        ensures
            r == (self@.len() == 0),
    {
        self.fields.len() == 0
    }

    /// Returns the number of fields this document contains.
    pub fn len(&self) -> (r: usize)
        ensures
            r == self@.len(),
    {
        self.fields.len()
    }

    /// Adds a field-value pair to this document.
    pub fn add_field(&mut self, field: &str, value: &str)
        requires
            old(self).wf(),
        ensures
            final(self).wf(),
            final(self)@ == field_added(old(self)@, field@, value@),
    {
        let ghost before = self@;
        let key = String::from_str(field);
        let ghost es = self.fields.entries();
        proof {
            assert forall|x: Seq<char>| has_key(before, x) <==> has_key(es, x) by {
                if has_key(before, x) {
                    let i = choose|i: int| 0 <= i < before.len() && #[trigger] before[i].0 == x;
                    assert(es[i].0 == x);
                }
                if has_key(es, x) {
                    let i = choose|i: int| 0 <= i < es.len() && #[trigger] es[i].0 == x;
                    assert(before[i].0 == x);
                }
            }
        }
        match self.fields.find(&key) {
            Some(i) => {
                let mut values = self.fields.replace(i, Vec::new());
                values.push(String::from_str(value));
                let ghost vs = values@;
                self.fields.replace(i, values);
                proof {
                    let j = choose|j: int| 0 <= j < before.len() && #[trigger] before[j].0 == field@;
                    assert(es[j].0 == field@);
                    assert(j == i);
                    assert(strings_view(vs) =~= before[j].1.push(value@));
                    assert(self@ =~= field_added(before, field@, value@));
                }
            },
            None => {
                let mut values: Vec<String> = Vec::new();
                values.push(String::from_str(value));
                proof {
                    assert(strings_view(values@) =~= seq![value@]);
                }
                self.fields.push(key, values);
                assert(self@ =~= field_added(before, field@, value@));
            },
        }
    }

    /// Returns this document's content: every field-value pair, field by field in the order
    /// the fields first appeared, the values of a field in the order they were added.
    pub fn fields<'a>(&'a self) -> (r: Vec<Content<'a>>)
        ensures
            contents_view(r@) == self.contents(),
    {
        let mut r: Vec<Content<'a>> = Vec::new();
        let n = self.fields.len();
        let mut i: usize = 0;
        while i < n
            invariant
                n == self@.len(),
                i <= n,
                contents_view(r@) == flatten_fields(self@.take(i as int)),
            decreases n - i,
        {
            let field = self.fields.key_at(i);
            let values = self.fields.value_at(i);
            let ghost base = r@;
            let mut j: usize = 0;
            while j < values.len()
                invariant
                    n == self@.len(),
                    i < n,
                    field@ == self@[i as int].0,
                    strings_view(values@) == self@[i as int].1,
                    j <= values@.len(),
                    contents_view(base) == flatten_fields(self@.take(i as int)),
                    contents_view(r@) == contents_view(base) + self@[i as int].1.take(j as int).map(
                        |k: int, v: Seq<char>| (self@[i as int].0, v),
                    ),
                decreases values@.len() - j,
            {
                let ghost prev = r@;
                r.push(Content::new(field.as_str(), values[j].as_str()));
                proof {
                    let vals = self@[i as int].1;
                    let f = self@[i as int].0;
                    assert(strings_view(values@)[j as int] == values@[j as int]@);
                    assert(contents_view(r@) =~= contents_view(prev).push((f, vals[j as int])));
                    assert(vals.take(j + 1) =~= vals.take(j as int).push(vals[j as int]));
                    assert(vals.take(j + 1).map(|k: int, v: Seq<char>| (f, v)) =~= vals.take(
                        j as int,
                    ).map(|k: int, v: Seq<char>| (f, v)).push((f, vals[j as int])));
                    assert(contents_view(r@) =~= contents_view(base) + self@[i as int].1.take(
                        j + 1,
                    ).map(|k: int, v: Seq<char>| (self@[i as int].0, v)));
                }
                j += 1;
            }
            proof {
                assert(self@.take(i + 1).drop_last() =~= self@.take(i as int));
                assert(self@[i as int].1.take(j as int) =~= self@[i as int].1);
            }
            i += 1;
        }
        assert(self@.take(n as int) =~= self@);
        r
    }
}

impl Default for Document {
    fn default() -> (r: Document)
        ensures
            r.wf(),
            r@ == DocumentView::empty(),
    {
        Document::new()
    }
}

/// Each content as its field and its value.
pub open spec fn contents_view<'a>(cs: Seq<Content<'a>>) -> Seq<(Seq<char>, Seq<char>)> {
    cs.map(|i: int, c: Content<'a>| (c.field@, c.value@))
}

/// A type containing a pair of a field with one of its values.
#[derive(Debug, PartialEq)]
pub struct Content<'a> {
    /// The field name.
    pub field: &'a str,
    /// The content associated to that field.
    pub value: &'a str,
}

impl<'a> Content<'a> {
    /// A field with one of its values.
    pub fn new(field: &'a str, value: &'a str) -> (r: Content<'a>)
        ensures
            r.field@ == field@,
            r.value@ == value@,
    {
        Content { field, value }
    }
}

} // verus!
