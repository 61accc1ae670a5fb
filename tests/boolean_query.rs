use iryfful::index::document::Document;
use iryfful::index::Index;
use iryfful::search::query::boolean_query::BooleanQuery;
use iryfful::search::query::phrase_query::PhraseQuery;
use iryfful::search::query::term_query::TermQuery;
use iryfful::search::query::Query;
use iryfful::search::DocIterator;
use iryfful::search::IndexSearcher;
use iryfful::search::SearchHit;
use iryfful::tokenizer::whitespace_tokenizer::WhiteSpaceTokenizer;

#[test]
fn test_must_term_queries() {
    let mut index: Index = Default::default();
    index
        .set_mapping(String::from("field1"), WhiteSpaceTokenizer::new())
        .unwrap();

    let mut doc: Document = Default::default();
    doc.add_field("field1", "aaa ccc");
    index.add_doc(&doc).unwrap();

    doc.clear();
    doc.add_field("field1", "aaa bbb");
    index.add_doc(&doc).unwrap();

    doc.clear();
    doc.add_field("field1", "aaa bbb ccc");
    index.add_doc(&doc).unwrap();

    let index_search = IndexSearcher::new(&index);

    let mut bq: BooleanQuery = Default::default();
    bq.must(TermQuery::new("field1", "aaa"));
    bq.must(TermQuery::new("field1", "ccc"));

    let mut iter = bq.execute(&index_search);

    let next_doc = iter.next();
    assert_eq!(next_doc, Some(SearchHit::new(0)));

    let next_doc = iter.next();
    assert_eq!(next_doc, Some(SearchHit::new(2)));

    let next_doc = iter.next();
    assert_eq!(next_doc, None);
}

#[test]
fn test_must_phrase_queries() {
    let mut index: Index = Default::default();
    index
        .set_mapping(String::from("field1"), WhiteSpaceTokenizer::new())
        .unwrap();

    let mut doc: Document = Default::default();
    doc.add_field("field1", "aaa bbb");
    index.add_doc(&doc).unwrap();

    doc.clear();
    doc.add_field("field1", "bbb ccc");
    index.add_doc(&doc).unwrap();

    doc.clear();
    doc.add_field("field1", "aaa bbb ccc");
    index.add_doc(&doc).unwrap();

    doc.clear();
    doc.add_field("field1", "aaa bbb ddd ccc");
    index.add_doc(&doc).unwrap();

    doc.clear();
    doc.add_field("field1", "aaa bbb ddd eee ccc");
    index.add_doc(&doc).unwrap();

    doc.clear();
    doc.add_field("field1", "aaa ddd bbb ccc");
    index.add_doc(&doc).unwrap();

    let index_search = IndexSearcher::new(&index);

    let pq1 = PhraseQuery::new("field1", vec!["aaa", "bbb"]);
    let mut pq2 = PhraseQuery::new("field1", vec!["bbb", "ccc"]);
    pq2.set_slop(2);
    let mut bq: BooleanQuery = Default::default();
    bq.must(pq1);
    bq.must(pq2);

    let mut iter = bq.execute(&index_search);

    let next_doc = iter.next();
    assert_eq!(next_doc, Some(SearchHit::new(2)));

    let next_doc = iter.next();
    assert_eq!(next_doc, Some(SearchHit::new(3)));

    let next_doc = iter.next();
    assert_eq!(next_doc, None);
}

#[test]
fn test_must_phrase_and_term_queries() {
    let mut index: Index = Default::default();
    index
        .set_mapping(String::from("field1"), WhiteSpaceTokenizer::new())
        .unwrap();

    let mut doc: Document = Default::default();
    doc.add_field("field1", "aaa bbb");
    index.add_doc(&doc).unwrap();

    doc.clear();
    doc.add_field("field1", "bbb ccc");
    index.add_doc(&doc).unwrap();

    doc.clear();
    doc.add_field("field1", "aaa bbb ccc");
    index.add_doc(&doc).unwrap();

    doc.clear();
    doc.add_field("field1", "aaa bbb ddd ccc");
    index.add_doc(&doc).unwrap();

    doc.clear();
    doc.add_field("field1", "aaa bbb ddd eee ccc");
    index.add_doc(&doc).unwrap();

    doc.clear();
    doc.add_field("field1", "aaa ddd bbb ccc");
    index.add_doc(&doc).unwrap();

    let index_search = IndexSearcher::new(&index);

    let mut bq: BooleanQuery = Default::default();
    bq.must(PhraseQuery::new("field1", vec!["aaa", "bbb"]));
    bq.must(TermQuery::new("field1", "ccc"));

    let mut iter = bq.execute(&index_search);

    let next_doc = iter.next();
    assert_eq!(next_doc, Some(SearchHit::new(2)));

    let next_doc = iter.next();
    assert_eq!(next_doc, Some(SearchHit::new(3)));

    let next_doc = iter.next();
    assert_eq!(next_doc, Some(SearchHit::new(4)));

    let next_doc = iter.next();
    assert_eq!(next_doc, None);
}

#[test]
fn test_nested_must() {
    let mut index: Index = Default::default();
    index
        .set_mapping(String::from("field1"), WhiteSpaceTokenizer::new())
        .unwrap();

    let mut doc: Document = Default::default();
    doc.add_field("field1", "aaa bbb ddd");
    index.add_doc(&doc).unwrap();

    doc.clear();
    doc.add_field("field1", "ddd aaa bbb ccc eee");
    index.add_doc(&doc).unwrap();

    doc.clear();
    doc.add_field("field1", "bbb ccc eee");
    index.add_doc(&doc).unwrap();

    doc.clear();
    doc.add_field("field1", "eee ccc bbb aaa ddd");
    index.add_doc(&doc).unwrap();

    let index_search = IndexSearcher::new(&index);

    let mut bq1: BooleanQuery = Default::default();
    bq1.must(PhraseQuery::new("field1", vec!["aaa", "bbb"]));
    bq1.must(TermQuery::new("field1", "ddd"));

    let mut bq2: BooleanQuery = Default::default();
    bq2.must(PhraseQuery::new("field1", vec!["bbb", "ccc"]));
    bq2.must(TermQuery::new("field1", "eee"));

    let mut bq: BooleanQuery = Default::default();
    bq.must(bq1);
    bq.must(bq2);

    let mut iter = bq.execute(&index_search);

    let next_doc = iter.next();
    assert_eq!(next_doc, Some(SearchHit::new(1)));

    let next_doc = iter.next();
    assert_eq!(next_doc, Some(SearchHit::new(3)));

    let next_doc = iter.next();
    assert_eq!(next_doc, None);
}

#[test]
fn test_must_not1() {
    let mut index: Index = Default::default();
    index
        .set_mapping(String::from("field1"), WhiteSpaceTokenizer::new())
        .unwrap();

    let mut doc: Document = Default::default();
    doc.add_field("field1", "aaa bbb");
    index.add_doc(&doc).unwrap();

    doc.clear();
    doc.add_field("field1", "aaa ccc");
    index.add_doc(&doc).unwrap();

    doc.clear();
    doc.add_field("field1", "bbb aaa ccc");
    index.add_doc(&doc).unwrap();

    let index_search = IndexSearcher::new(&index);

    let mut bq: BooleanQuery = Default::default();
    bq.must(TermQuery::new("field1", "aaa"));
    bq.must_not(TermQuery::new("field1", "bbb"));

    let mut iter = bq.execute(&index_search);

    let next_doc = iter.next();
    assert_eq!(next_doc, Some(SearchHit::new(1)));

    let next_doc = iter.next();
    assert_eq!(next_doc, None);
}

#[test]
fn test_must_not2() {
    let mut index: Index = Default::default();
    index
        .set_mapping(String::from("field1"), WhiteSpaceTokenizer::new())
        .unwrap();

    let mut doc: Document = Default::default();
    doc.add_field("field1", "aaa bbb");
    index.add_doc(&doc).unwrap();

    doc.clear();
    doc.add_field("field1", "aaa ccc");
    index.add_doc(&doc).unwrap();

    doc.clear();
    doc.add_field("field1", "aaa ccc ddd");
    index.add_doc(&doc).unwrap();

    let index_search = IndexSearcher::new(&index);

    let mut bq: BooleanQuery = Default::default();
    bq.must(TermQuery::new("field1", "aaa"));
    bq.must_not(PhraseQuery::new("field1", vec!["ccc", "ddd"]));
    bq.must_not(TermQuery::new("field1", "bbb"));

    let mut iter = bq.execute(&index_search);

    let next_doc = iter.next();
    assert_eq!(next_doc, Some(SearchHit::new(1)));

    let next_doc = iter.next();
    assert_eq!(next_doc, None);
}

#[test]
fn test_must_not_overlapping_results() {
    let mut index: Index = Default::default();
    index
        .set_mapping(String::from("field1"), WhiteSpaceTokenizer::new())
        .unwrap();

    let mut doc: Document = Default::default();
    doc.add_field("field1", "aaa bbb");
    index.add_doc(&doc).unwrap();

    doc.clear();
    doc.add_field("field1", "aaa ccc");
    index.add_doc(&doc).unwrap();

    doc.clear();
    doc.add_field("field1", "aaa bbb ccc");
    index.add_doc(&doc).unwrap();

    doc.clear();
    doc.add_field("field1", "ddd aaa");
    index.add_doc(&doc).unwrap();

    let index_search = IndexSearcher::new(&index);

    let mut bq: BooleanQuery = Default::default();
    bq.must(TermQuery::new("field1", "aaa"));
    bq.must_not(PhraseQuery::new("field1", vec!["bbb", "ccc"]));
    bq.must_not(TermQuery::new("field1", "bbb"));

    let mut iter = bq.execute(&index_search);

    let next_doc = iter.next();
    assert_eq!(next_doc, Some(SearchHit::new(1)));

    let next_doc = iter.next();
    assert_eq!(next_doc, Some(SearchHit::new(3)));

    let next_doc = iter.next();
    assert_eq!(next_doc, None);
}
#[test]
fn test_nested_must_not() {
    let mut index: Index = Default::default();
    index
        .set_mapping(String::from("field1"), WhiteSpaceTokenizer::new())
        .unwrap();

    let mut doc: Document = Default::default();
    doc.add_field("field1", "aaa bbb");
    index.add_doc(&doc).unwrap();

    doc.clear();
    doc.add_field("field1", "aaa ccc");
    index.add_doc(&doc).unwrap();

    doc.clear();
    doc.add_field("field1", "aaa bbb ccc");
    index.add_doc(&doc).unwrap();

    doc.clear();
    doc.add_field("field1", "aaa ddd");
    index.add_doc(&doc).unwrap();

    let index_search = IndexSearcher::new(&index);

    let mut bq1: BooleanQuery = Default::default();
    bq1.must(TermQuery::new("field1", "bbb"));
    bq1.must(TermQuery::new("field1", "ccc"));

    let mut bq: BooleanQuery = Default::default();
    bq.must(TermQuery::new("field1", "aaa"));
    bq.must_not(bq1);

    let mut iter = bq.execute(&index_search);

    let next_doc = iter.next();
    assert_eq!(next_doc, Some(SearchHit::new(0)));

    let next_doc = iter.next();
    assert_eq!(next_doc, Some(SearchHit::new(1)));

    let next_doc = iter.next();
    assert_eq!(next_doc, Some(SearchHit::new(3)));

    let next_doc = iter.next();
    assert_eq!(next_doc, None);
}
