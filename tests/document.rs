use iryfful::index::document::Content;
use iryfful::index::document::Document;

#[test]
fn should_create_multi_valued_document() {
    let mut doc: Document = Default::default();
    doc.add_field("field1", "aaa");
    doc.add_field("field1", "bbb");
    doc.add_field("field2", "ccc");

    assert_eq!(doc.len(), 2);
    let mut n_values = 0;
    for field in doc.fields() {
        if field == Content::new("field1", "aaa")
            || field == Content::new("field1", "bbb")
            || field == Content::new("field2", "ccc")
        {
            n_values += 1;
        }
    }
    assert_eq!(n_values, 3);
}

#[test]
fn document_values_keep_insertion_order() {
    let mut doc = Document::new();
    assert!(doc.is_empty());
    doc.add_field("field1", "aaa");
    doc.add_field("field2", "ccc");
    doc.add_field("field1", "bbb");
    let contents = doc.fields();
    assert_eq!(contents.len(), 3);
    assert_eq!(contents[0], Content::new("field1", "aaa"));
    assert_eq!(contents[1], Content::new("field1", "bbb"));
    assert_eq!(contents[2], Content::new("field2", "ccc"));
    doc.clear();
    assert!(doc.is_empty());
    assert_eq!(doc.len(), 0);
    assert_eq!(doc.fields().len(), 0);
}
