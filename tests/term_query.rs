use iryfful::index::document::Document;
use iryfful::index::Index;
use iryfful::search::query::term_query::TermQuery;
use iryfful::search::query::Query;
use iryfful::search::DocIterator;
use iryfful::search::IndexSearcher;
use iryfful::search::SearchHit;
use iryfful::tokenizer::whitespace_tokenizer::WhiteSpaceTokenizer;

#[test]
fn test_hits() {
    let mut index = Index::new();
    index
        .set_mapping(String::from("field1"), WhiteSpaceTokenizer::new())
        .unwrap();

    let mut doc = Document::new();
    doc.add_field("field1", "aaa bbb aaa");
    index.add_doc(&doc).unwrap();

    let mut doc = Document::new();
    doc.add_field("field1", "bbb");
    index.add_doc(&doc).unwrap();

    let mut doc = Document::new();
    doc.add_field("field1", "aaa");
    index.add_doc(&doc).unwrap();

    let index_search = &IndexSearcher::new(&index);

    let tq = TermQuery::new("field1", "aaa");
    let mut iter = tq.execute(index_search);

    let next_doc = iter.next();
    assert_eq!(next_doc, Some(SearchHit::new(0)));

    let next_doc = iter.next();
    assert_eq!(next_doc, Some(SearchHit::new(2)));

    let next_doc = iter.next();
    assert_eq!(next_doc, None);
}

#[test]
fn term_query_on_unknown_term_or_field() {
    let mut index = Index::new();
    index.set_mapping(String::from("field1"), WhiteSpaceTokenizer::new()).unwrap();
    let mut doc = Document::new();
    doc.add_field("field1", "aaa");
    index.add_doc(&doc).unwrap();
    let searcher = IndexSearcher::new(&index);
    assert_eq!(TermQuery::new("field1", "zzz").execute(&searcher).next(), None);
    assert_eq!(TermQuery::new("field2", "aaa").execute(&searcher).next(), None);
    let mut hits = searcher.search(&TermQuery::new("field1", "aaa"));
    assert_eq!(hits.next(), Some(SearchHit::new(0)));
    assert_eq!(hits.next(), None);
}
