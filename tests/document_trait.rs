use tantivy_ingest::document::{Document, DocumentTrait};
use tantivy_ingest::schema::{Field, Value};

fn build<D: DocumentTrait>() -> D {
    let mut d = D::new();
    d.add_u64(Field(2), 20);
    d.add_text(Field(1), "one");
    d.add_u64(Field(2), 21);
    d
}

#[test]
fn document_through_the_trait() {
    let mut d: Document = build();
    assert_eq!(DocumentTrait::len(&d), 3);
    assert!(!DocumentTrait::is_empty(&d));
    let groups = DocumentTrait::get_sorted_field_values(&d);
    assert_eq!(groups.len(), 2);
    assert_eq!(groups[1].1.len(), 2);
    assert_eq!(DocumentTrait::get_all(&d, Field(2)).len(), 2);
    assert!(matches!(DocumentTrait::get_first(&d, Field(2)), Some(Value::U64(20))));
    DocumentTrait::filter_fields(&mut d, |f: Field| f.0 == 2);
    assert_eq!(DocumentTrait::field_values(&d).len(), 2);
}
