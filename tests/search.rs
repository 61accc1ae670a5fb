use iryfful::index::document::Document;
use iryfful::index::posting_lists;
use iryfful::index::posting_lists::DocIdAndPosItem;
use iryfful::index::posting_lists::DocIdItem;
use iryfful::index::posting_lists::DocItem;
use iryfful::index::posting_lists::Posting;
use iryfful::index::Index;
use iryfful::search::DocIterator;
use iryfful::search::Hits;
use iryfful::search::IndexSearcher;
use iryfful::search::SearchHit;
use iryfful::tokenizer::whitespace_tokenizer::WhiteSpaceTokenizer;

fn searched_index(values: &[&str]) -> Index {
    let mut index: Index = Default::default();
    index
        .set_mapping(String::from("field1"), WhiteSpaceTokenizer::new())
        .unwrap();
    let mut doc: Document = Default::default();
    for value in values {
        doc.clear();
        doc.add_field("field1", value);
        index.add_doc(&doc).unwrap();
    }
    index
}

#[test]
fn test_advance_doc() {
    let mut posting = posting_lists::new();
    posting.add_token(1, 42);
    posting.add_token(1, 45);
    posting.add_token(3, 1);
    posting.add_token(3, 2);
    posting.add_token(5, 3);
    posting.add_token(5, 33);
    posting.add_token(8, 6);
    posting.add_token(12, 4);

    let mut iter = posting.iter_docs();

    let next = iter.advance(3).unwrap();
    assert_eq!(next.0, true);
    assert_eq!(next.1.get_doc_id(), 3);

    let next = iter.advance(12).unwrap();
    assert_eq!(next.0, true);
    assert_eq!(next.1.get_doc_id(), 12);

    let next = iter.advance(15);
    assert_eq!(next.is_none(), true);
}

#[test]
fn test_advance_doc_missing() {
    let mut posting = posting_lists::new();
    posting.add_token(1, 42);
    posting.add_token(1, 45);
    posting.add_token(3, 1);
    posting.add_token(3, 2);
    posting.add_token(5, 3);
    posting.add_token(5, 33);
    posting.add_token(8, 6);
    posting.add_token(12, 4);

    let mut iter = posting.iter_docs();

    let next = iter.advance(4).unwrap();
    assert_eq!(next.0, false);
    assert_eq!(next.1.get_doc_id(), 5);

    let next = iter.advance(15);
    assert_eq!(next.is_none(), true);
}

#[test]
fn test_step_on_matching_doc_with_iter_docs() {
    let index = searched_index(&["aaa bbb ccc", "bbb", "aaa ccc"]);

    // get the postings lists for aaa and ccc
    let postings = ["aaa", "ccc"]
        .iter()
        .map(|term| index.get_postings_list(&format!("field1:{}", term)).iter_docs())
        .collect();
    let searcher = IndexSearcher::new(&index);
    let mut iter = searcher.step_on_matching_doc(postings);

    assert_eq!(iter.next().unwrap().0, 0);
    assert_eq!(iter.next().unwrap().0, 2);
    assert_eq!(iter.next().is_none(), true);
}

#[test]
fn test_step_on_matching_doc_with_iter_docs_pos() {
    let index = searched_index(&["aaa bbb ccc", "bbb", "aaa ccc"]);

    // get the postings lists for aaa and ccc
    let postings = ["aaa", "ccc"]
        .iter()
        .map(|term| index.get_postings_list(&format!("field1:{}", term)).iter_docs_pos())
        .collect();
    let searcher = IndexSearcher::new(&index);
    let on_match = |(doc_id, docs): (u32, Vec<DocIdAndPosItem>)| {
        let mut diff = 0;
        for item in docs {
            if diff == 0 {
                diff = item.positions()[0];
            } else {
                diff = item.positions()[0] - diff;
            }
        }
        return if diff == 1 { Some(doc_id) } else { None };
    };
    let mut matches = searcher.step_on_matching_doc(postings);
    let mut found = Vec::new();
    while let Some(hit) = matches.next() {
        if let Some(doc_id) = on_match(hit) {
            found.push(doc_id);
        }
    }
    let mut iter = found.into_iter();

    assert_eq!(iter.next().unwrap(), 2);
    assert_eq!(iter.next(), None);
}

#[test]
fn test_step_on_matching_doc() {
    let index = searched_index(&["aaa ccc", "aaa bbb", "bbb ccc", "aaa bbb"]);

    // get the postings lists for aaa and bbb
    let postings = ["aaa", "bbb"]
        .iter()
        .map(|term| index.get_postings_list(&format!("field1:{}", term)).iter_docs())
        .collect();
    let searcher = IndexSearcher::new(&index);
    let mut iter = searcher.step_on_matching_doc(postings);

    assert_eq!(iter.next().unwrap().0, 1);
    assert_eq!(iter.next().unwrap().0, 3);
    assert_eq!(iter.next().is_none(), true);
}

#[test]
fn test_step_on_matching_doc_advance() {
    let index = searched_index(&["aaa", "bbb", "aaa bbb", "aaa bbb", "aaa", "bbb"]);

    // get the postings lists for aaa and bbb
    let postings = ["aaa", "bbb"]
        .iter()
        .map(|term| index.get_postings_list(&format!("field1:{}", term)).iter_docs())
        .collect();
    let searcher = IndexSearcher::new(&index);
    let mut iter = searcher.step_on_matching_doc(postings);

    assert_eq!(iter.next().unwrap().0, 2);
    assert_eq!(iter.next().unwrap().0, 3);
    assert_eq!(iter.next().is_none(), true);
}

fn hits_of(ids: &[u32]) -> Hits {
    Hits::new(ids.iter().map(|d| SearchHit::new(*d)).collect())
}

#[test]
fn conjunction_is_sorted_intersection() {
    let index = Index::new();
    let searcher = IndexSearcher::new(&index);
    let mut conj = searcher.conjunction(vec![
        hits_of(&[1, 3, 4, 7, 9, 12]),
        hits_of(&[0, 3, 7, 8, 12]),
        hits_of(&[3, 5, 7, 12, 20]),
    ]);
    let mut out = Vec::new();
    while let Some((d, items)) = conj.next() {
        assert_eq!(items.len(), 3);
        for item in items.iter() {
            assert_eq!(item.get_doc_id(), d);
        }
        out.push(d);
    }
    assert_eq!(out, vec![3, 7, 12]);
    assert!(conj.next().is_none());
}

#[test]
fn conjunction_of_nothing_is_empty() {
    let index = Index::new();
    let searcher = IndexSearcher::new(&index);
    let mut conj = searcher.conjunction(Vec::<Hits>::new());
    assert!(conj.next().is_none());
    let mut conj = searcher.conjunction(vec![hits_of(&[1, 2]), hits_of(&[])]);
    assert!(conj.next().is_none());
}

#[test]
fn disjunction_is_sorted_deduplicated_union() {
    let index = Index::new();
    let searcher = IndexSearcher::new(&index);
    let mut disj = searcher.disjunction(vec![
        hits_of(&[1, 3, 9]),
        hits_of(&[]),
        hits_of(&[0, 3, 4, 9]),
        hits_of(&[3, 10]),
    ]);
    let mut out = Vec::new();
    while let Some(item) = disj.next() {
        out.push(item.get_doc_id());
    }
    assert_eq!(out, vec![0, 1, 3, 4, 9, 10]);
    assert!(disj.next().is_none());
}

#[test]
fn disjunction_advance() {
    let index = Index::new();
    let searcher = IndexSearcher::new(&index);
    let mut disj = searcher.disjunction(vec![hits_of(&[1, 5, 9]), hits_of(&[2, 5, 12])]);
    let (found, item) = disj.advance(5).unwrap();
    assert!(found);
    assert_eq!(item.get_doc_id(), 5);
    let (found, item) = disj.advance(10).unwrap();
    assert!(!found);
    assert_eq!(item.get_doc_id(), 12);
    assert!(disj.advance(13).is_none());
}

#[test]
fn advance_law_on_posting() {
    let mut posting = posting_lists::new();
    for d in [2u32, 4, 6, 8].iter() {
        posting.add_token(*d, 1);
    }
    for target in 0u32..10 {
        let mut iter = posting.iter_docs();
        match iter.advance(target) {
            None => assert!(target > 8),
            Some((matched, item)) => {
                let item: DocIdItem = item;
                assert!(item.doc_id >= target);
                assert_eq!(matched, item.doc_id == target);
                let expected = [2u32, 4, 6, 8].iter().cloned().find(|d| *d >= target);
                assert_eq!(Some(item.doc_id), expected);
            }
        }
    }
}

#[test]
fn search_hit_and_searcher() {
    let index = searched_index(&["aaa"]);
    let searcher = IndexSearcher::new(&index);
    assert_eq!(searcher.get_index().get_postings_list("field1:aaa").len(), 1);
    let hit = SearchHit::new(7);
    assert_eq!(hit.get_doc_id(), 7);
    assert_eq!(hit, SearchHit::new(7));
}
