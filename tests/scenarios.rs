use iryfful::index::document::Document;
use iryfful::index::Index;
use iryfful::search::query::boolean_query::BooleanQuery;
use iryfful::search::query::phrase_query::PhraseQuery;
use iryfful::search::query::term_query::TermQuery;
use iryfful::search::query::Query;
use iryfful::search::DocIterator;
use iryfful::search::Hits;
use iryfful::search::IndexSearcher;
use iryfful::index::posting_lists::DocItem;
use iryfful::tokenizer::whitespace_tokenizer::WhiteSpaceTokenizer;

fn scenario_index(values: &[&str]) -> Index {
    let mut index = Index::new();
    index.set_mapping(String::from("field1"), WhiteSpaceTokenizer::new()).unwrap();
    for value in values {
        let mut doc = Document::new();
        doc.add_field("field1", value);
        index.add_doc(&doc).unwrap();
    }
    index
}

fn ids(mut hits: Hits) -> Vec<u32> {
    let mut out = Vec::new();
    while let Some(hit) = hits.next() {
        out.push(hit.get_doc_id());
    }
    out
}

#[test]
fn scenario_term_match() {
    let index = scenario_index(&["aaa bbb aaa", "bbb", "aaa"]);
    let searcher = IndexSearcher::new(&index);
    assert_eq!(ids(TermQuery::new("field1", "aaa").execute(&searcher)), vec![0, 2]);
}

#[test]
fn scenario_conjunction() {
    let index = scenario_index(&["aaa ccc", "aaa bbb", "bbb ccc", "aaa bbb"]);
    let searcher = IndexSearcher::new(&index);
    let mut bq = BooleanQuery::default();
    bq.must(TermQuery::new("field1", "aaa"));
    bq.must(TermQuery::new("field1", "bbb"));
    assert_eq!(ids(bq.execute(&searcher)), vec![1, 3]);
}

#[test]
fn scenario_phrase_slop_one() {
    let index = scenario_index(&[
        "aaa bbb ccc aaa",
        "aaa ccc aaa bbb",
        "aaa ccc bbb aaa",
        "aaa ccc bbb",
    ]);
    let searcher = IndexSearcher::new(&index);
    let pq = PhraseQuery::new("field1", vec!["aaa", "bbb"]);
    assert_eq!(ids(pq.execute(&searcher)), vec![0, 1, 2]);
}

#[test]
fn scenario_phrase_slop_two() {
    let index = scenario_index(&["aaa ccc bbb", "bbb ccc aaa", "bbb ccc ddd aaa", "aaa bbb"]);
    let searcher = IndexSearcher::new(&index);
    let mut pq = PhraseQuery::new("field1", vec!["aaa", "bbb"]);
    pq.set_slop(2);
    assert_eq!(ids(pq.execute(&searcher)), vec![0, 1, 3]);
}

#[test]
fn scenario_must_not() {
    let index = scenario_index(&["aaa bbb", "aaa ccc", "aaa bbb ccc", "ddd aaa"]);
    let searcher = IndexSearcher::new(&index);
    let mut bq = BooleanQuery::default();
    bq.must(TermQuery::new("field1", "aaa"));
    bq.must_not(PhraseQuery::new("field1", vec!["bbb", "ccc"]));
    bq.must_not(TermQuery::new("field1", "bbb"));
    assert_eq!(ids(bq.execute(&searcher)), vec![1, 3]);
}

#[test]
fn scenario_nested_boolean() {
    let index = scenario_index(&[
        "aaa bbb ddd",
        "ddd aaa bbb ccc eee",
        "bbb ccc eee",
        "eee ccc bbb aaa ddd",
    ]);
    let searcher = IndexSearcher::new(&index);
    let mut bq1 = BooleanQuery::default();
    bq1.must(PhraseQuery::new("field1", vec!["aaa", "bbb"]));
    bq1.must(TermQuery::new("field1", "ddd"));
    let mut bq2 = BooleanQuery::default();
    bq2.must(PhraseQuery::new("field1", vec!["bbb", "ccc"]));
    bq2.must(TermQuery::new("field1", "eee"));
    let mut bq = BooleanQuery::default();
    bq.must(bq1);
    bq.must(bq2);
    assert_eq!(ids(bq.execute(&searcher)), vec![1, 3]);
}

#[test]
fn boolean_is_must_minus_must_not() {
    let values = [
        "aaa bbb", "bbb ccc", "aaa ccc ddd", "ddd", "aaa bbb ccc ddd", "ccc aaa", "eee", "aaa ddd bbb",
    ];
    let index = scenario_index(&values);
    let searcher = IndexSearcher::new(&index);
    let must_a = ids(TermQuery::new("field1", "aaa").execute(&searcher));
    let must_b = ids(PhraseQuery::new("field1", vec!["ccc", "ddd"]).execute(&searcher));
    let not_a = ids(TermQuery::new("field1", "bbb").execute(&searcher));
    let mut bq = BooleanQuery::default();
    bq.must(TermQuery::new("field1", "aaa"));
    bq.must(PhraseQuery::new("field1", vec!["ccc", "ddd"]));
    bq.must_not(TermQuery::new("field1", "bbb"));
    let got = ids(bq.execute(&searcher));
    let want: Vec<u32> = must_a
        .iter()
        .cloned()
        .filter(|d| must_b.contains(d) && !not_a.contains(d))
        .collect();
    assert_eq!(got, want);
    assert_eq!(got, vec![2]);
}

#[test]
fn boolean_without_must_matches_nothing() {
    let index = scenario_index(&["aaa", "bbb"]);
    let searcher = IndexSearcher::new(&index);
    let mut bq = BooleanQuery::default();
    bq.must_not(TermQuery::new("field1", "aaa"));
    assert_eq!(ids(bq.execute(&searcher)), Vec::<u32>::new());
}

#[test]
fn phrase_edge_cases() {
    let index = scenario_index(&["aaa bbb", "ccc", "aaa aaa"]);
    let searcher = IndexSearcher::new(&index);
    // a single term matches every document holding it
    assert_eq!(ids(PhraseQuery::new("field1", vec!["aaa"]).execute(&searcher)), vec![0, 2]);
    // no term matches nothing
    assert_eq!(ids(PhraseQuery::new("field1", vec![]).execute(&searcher)), Vec::<u32>::new());
    // a repeated term needs two distinct positions
    assert_eq!(ids(PhraseQuery::new("field1", vec!["aaa", "aaa"]).execute(&searcher)), vec![2]);
    // slop 0 lets no position join
    let mut pq = PhraseQuery::new("field1", vec!["aaa", "bbb"]);
    pq.set_slop(0);
    assert_eq!(ids(pq.execute(&searcher)), Vec::<u32>::new());
}

#[test]
fn phrase_three_terms_needs_each_term() {
    // the second term sits next to the first, the third is far away
    let index = scenario_index(&["aaa bbb bbb xxx xxx ccc", "ccc bbb aaa"]);
    let searcher = IndexSearcher::new(&index);
    let pq = PhraseQuery::new("field1", vec!["aaa", "bbb", "ccc"]);
    assert_eq!(ids(pq.execute(&searcher)), vec![1]);
}
