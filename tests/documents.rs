use burrow_db::document::{Document, DocumentStore};
use burrow_db::value::Value;

fn ids(docs: &[&Document]) -> Vec<String> {
    docs.iter().map(|d| d.id().clone()).collect()
}

fn doc(id: &str) -> Document {
    Document::new_at(id.to_string(), Value::Number(1), 10)
}

#[test]
fn new_document_defaults() {
    let d = Document::new_at("x".to_string(), Value::Number(3), 77);
    assert_eq!(d.id(), "x");
    assert_eq!(d.created_at(), 77);
    assert_eq!(d.updated_at(), 77);
    assert_eq!(d.version(), 1);
    assert_eq!(d.size_bytes(), 100);
    assert!(d.tags().is_empty());
    assert!(d.link_targets().is_empty());
    let c = Document::new("y".to_string(), Value::Number(0));
    assert_eq!(c.created_at(), c.updated_at());
    assert_eq!(c.version(), 1);
}

#[test]
fn add_tag_keeps_first_insertion_order_without_duplicates() {
    let mut d = doc("a");
    d.add_tag("x");
    d.add_tag("y");
    d.add_tag("x");
    assert_eq!(d.tags().to_vec(), vec!["x".to_string(), "y".to_string()]);
}

#[test]
fn add_link_overwrites_same_relationship() {
    let mut d = doc("a");
    d.add_link("references", "doc_1");
    d.add_link("parent", "doc_2");
    d.add_link("references", "doc_3");
    assert_eq!(d.link_names().to_vec(), vec!["references".to_string(), "parent".to_string()]);
    assert_eq!(d.link_targets().to_vec(), vec!["doc_3".to_string(), "doc_2".to_string()]);
}

#[test]
fn store_and_get() {
    let mut s = DocumentStore::new();
    assert!(s.get("doc_0").is_none());
    s.store(doc("doc_0"));
    assert_eq!(s.get("doc_0").unwrap().id(), "doc_0");
    assert!(s.get("doc_1").is_none());
    assert_eq!(s.len(), 1);
}

#[test]
fn get_returns_most_recent_store() {
    let mut s = DocumentStore::new();
    s.store(Document::new_at("doc_0".to_string(), Value::Number(1), 1));
    s.store(Document::new_at("doc_0".to_string(), Value::Number(2), 2));
    let d = s.get("doc_0").unwrap();
    assert_eq!(d.created_at(), 2);
    assert!(matches!(d.data(), Value::Number(2)));
    assert_eq!(s.len(), 1);
}

#[test]
fn restore_keeps_stale_tag_entry() {
    let mut s = DocumentStore::new();
    let mut a = doc("doc_0");
    a.add_tag("a");
    s.store(a);
    let mut b = doc("doc_0");
    b.add_tag("b");
    s.store(b);
    assert_eq!(ids(&s.find_by_tag("a")), vec!["doc_0".to_string()]);
    assert_eq!(ids(&s.find_by_tag("b")), vec!["doc_0".to_string()]);
    assert_eq!(s.find_by_tag("a")[0].tags().to_vec(), vec!["b".to_string()]);
}

#[test]
fn find_by_tag_once_per_store() {
    let mut s = DocumentStore::new();
    for _ in 0..3 {
        let mut d = doc("doc_5");
        d.add_tag("t");
        d.add_tag("t");
        s.store(d);
    }
    assert_eq!(s.find_by_tag("t").len(), 3);
    assert!(s.find_by_tag("missing").is_empty());
}

#[test]
fn find_linked_to_lists_sources_in_store_order() {
    let mut s = DocumentStore::new();
    s.store(doc("doc_0"));
    let mut a = doc("doc_1");
    a.add_link("references", "doc_0");
    s.store(a);
    let mut b = doc("doc_2");
    b.add_link("references", "doc_0");
    b.add_link("cites", "doc_1");
    s.store(b);
    assert_eq!(ids(&s.find_linked_to("doc_0")), vec!["doc_1".to_string(), "doc_2".to_string()]);
    assert_eq!(ids(&s.find_linked_to("doc_1")), vec!["doc_2".to_string()]);
    assert!(s.find_linked_to("doc_2").is_empty());
    assert_eq!(s.indexed_targets(), 2);
    assert_eq!(s.indexed_tags(), 0);
}
