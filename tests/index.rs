use iryfful::index::document::Document;
use iryfful::index::error::IndexingError;
use iryfful::index::posting_lists::Posting;
use iryfful::index::Index;
use iryfful::search::DocIterator;
use iryfful::tokenizer::filter::TokenFilter;
use iryfful::tokenizer::whitespace_tokenizer::WhiteSpaceTokenizer;
use iryfful::tokenizer::Tokenizer;

#[test]
fn should_return_empty_posting_on_unknown_field() {
    let index: Index = Default::default();

    let posting = index.get_postings_list("field1");
    assert_eq!(posting.len(), 0);

    let mut iter = posting.iter_docs();
    assert!(iter.next().is_none());

    let mut iter = posting.iter_docs_pos();
    assert!(iter.next().is_none());
}

#[test]
fn should_fail_when_setting_two_times_a_mapping_field() {
    let mut index: Index = Default::default();

    let set_mapping_res = index.set_mapping(String::from("field1"), WhiteSpaceTokenizer::new());
    assert_eq!(set_mapping_res.is_ok(), true);

    let set_mapping_res = index.set_mapping(String::from("field1"), WhiteSpaceTokenizer::new());
    assert_eq!(set_mapping_res.is_err(), true);
}

#[test]
fn should_fail_when_adding_doc_with_missing_field_mapping() {
    let mut index: Index = Default::default();

    let set_mapping_res = index.set_mapping(String::from("field1"), WhiteSpaceTokenizer::new());
    assert_eq!(set_mapping_res.is_ok(), true);

    let set_mapping_res = index.set_mapping(String::from("field1"), WhiteSpaceTokenizer::new());
    assert_eq!(set_mapping_res.is_err(), true);
}

/// Should index 2 docs over two postings list
#[test]
fn should_create_some_postings_list() {
    let mut index: Index = Default::default();
    index
        .set_mapping(String::from("field1"), WhiteSpaceTokenizer::new())
        .unwrap();

    let mut doc: Document = Default::default();
    doc.add_field("field1", "aaa bbb aaa");
    index.add_doc(&doc).unwrap();

    doc.clear();
    doc.add_field("field1", "bbb");
    index.add_doc(&doc).unwrap();

    let keys = index.posting_keys();
    assert_eq!(keys.len(), 2);
    for key in keys.iter() {
        let posting = index.get_postings_list(key.as_str());
        match key.as_ref() {
            "field1:aaa" => assert_eq!(posting.len(), 1),
            "field1:bbb" => assert_eq!(posting.len(), 2),
            _ => panic!("got unexpected key={}", key),
        }
    }
}

#[test]
fn add_doc_reports_the_missing_field() {
    let mut index = Index::new();
    index.set_mapping(String::from("field1"), WhiteSpaceTokenizer::new()).unwrap();
    let mut doc = Document::new();
    doc.add_field("field1", "aaa");
    doc.add_field("field2", "bbb");
    match index.add_doc(&doc) {
        Err(IndexingError::MissingFieldMapping { field }) => assert_eq!(field, "field2"),
        other => panic!("unexpected result: {:?}", other),
    }
    // nothing of the failed document was indexed
    assert_eq!(index.get_postings_list("field1:aaa").len(), 0);
    assert_eq!(index.posting_keys().len(), 0);
}

#[test]
fn set_mapping_reports_the_existing_field() {
    let mut index = Index::new();
    let mut lower = WhiteSpaceTokenizer::new();
    lower.add_filter(TokenFilter::LowerCase);
    index.set_mapping(String::from("field1"), lower).unwrap();
    match index.set_mapping(String::from("field1"), WhiteSpaceTokenizer::new()) {
        Err(IndexingError::MappingFieldAlreadyExists { field }) => assert_eq!(field, "field1"),
        other => panic!("unexpected result: {:?}", other),
    }
    // the first tokenizer, which lowercases, is still in place
    let mut doc = Document::new();
    doc.add_field("field1", "AAA");
    index.add_doc(&doc).unwrap();
    assert_eq!(index.get_postings_list("field1:aaa").len(), 1);
    assert_eq!(index.get_postings_list("field1:AAA").len(), 0);
}

#[test]
fn failed_add_doc_keeps_the_doc_id() {
    let mut index = Index::new();
    index.set_mapping(String::from("field1"), WhiteSpaceTokenizer::new()).unwrap();
    let mut doc = Document::new();
    doc.add_field("field1", "aaa");
    index.add_doc(&doc).unwrap();

    let mut bad = Document::new();
    bad.add_field("field1", "aaa");
    bad.add_field("other", "zzz");
    assert!(index.add_doc(&bad).is_err());

    index.add_doc(&doc).unwrap();
    let posting = index.get_postings_list("field1:aaa");
    let mut iter = posting.iter_docs();
    assert_eq!(iter.next().unwrap().doc_id, 0);
    assert_eq!(iter.next().unwrap().doc_id, 1);
    assert!(iter.next().is_none());
}

#[test]
fn multi_valued_field_restarts_positions() {
    let mut index = Index::new();
    index.set_mapping(String::from("field1"), WhiteSpaceTokenizer::new()).unwrap();
    let mut doc = Document::new();
    doc.add_field("field1", "aaa bbb aaa");
    doc.add_field("field1", "ccc aaa");
    index.add_doc(&doc).unwrap();
    let posting = index.get_postings_list("field1:aaa");
    let mut iter = posting.iter_docs_pos();
    let item = iter.next().unwrap();
    assert_eq!(item.positions(), &[1, 3, 2]);
    assert!(iter.next().is_none());
}

#[test]
fn empty_values_add_nothing() {
    let mut index = Index::new();
    index.set_mapping(String::from("field1"), WhiteSpaceTokenizer::new()).unwrap();
    let mut doc = Document::new();
    doc.add_field("field1", "   ");
    index.add_doc(&doc).unwrap();
    assert_eq!(index.posting_keys().len(), 0);
    let mut doc = Document::new();
    doc.add_field("field1", "aaa");
    index.add_doc(&doc).unwrap();
    let posting = index.get_postings_list("field1:aaa");
    assert_eq!(posting.iter_docs().next().unwrap().doc_id, 1);
}
