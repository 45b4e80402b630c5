use burrow_db::document::Document;
use burrow_db::generator::Rng;
use burrow_db::relational::Row;
use burrow_db::text::{numbered, signed_text};
use burrow_db::workload::{
    build_document, document_memory_estimate, draw_plan, load_documents, load_relational,
    record_fields, relational_memory_estimate, run_document_queries, run_relational_queries,
    RecordPlan,
};
use burrow_db::value::Value;

fn doc_ids(docs: &[&Document]) -> Vec<String> {
    docs.iter().map(|d| d.id().clone()).collect()
}

fn row_ids(rows: &[&Row]) -> Vec<String> {
    rows.iter().map(|r| r.id.clone()).collect()
}

#[test]
fn numbered_and_signed_text() {
    assert_eq!(numbered("doc_", 0), "doc_0");
    assert_eq!(numbered("doc_", 1234), "doc_1234");
    assert_eq!(signed_text(-42), "-42");
    assert_eq!(signed_text(0), "0");
}

#[test]
fn plans_from_seed_42() {
    let mut r = Rng::new(42);
    let plan0 = draw_plan(&mut r, 0);
    assert_eq!(plan0, RecordPlan { score: 92, category: 1, tag: None, important: false, link: None });
    let plan1 = draw_plan(&mut r, 1);
    assert_eq!(plan1, RecordPlan { score: 2, category: 6, tag: None, important: false, link: Some(0) });
    let plan2 = draw_plan(&mut r, 2);
    assert_eq!(plan2, RecordPlan { score: 71, category: 8, tag: Some(1), important: false, link: None });
    let plan3 = draw_plan(&mut r, 3);
    assert_eq!(plan3, RecordPlan { score: 68, category: 8, tag: Some(10), important: true, link: None });
}

#[test]
fn record_document_contents() {
    let plan = RecordPlan { score: 5, category: 3, tag: Some(7), important: true, link: Some(2) };
    let d = build_document(4, &plan, 9);
    assert_eq!(d.id(), "doc_4");
    assert_eq!(d.tags().to_vec(), vec!["tag_7".to_string(), "important".to_string()]);
    assert_eq!(d.link_names().to_vec(), vec!["references".to_string()]);
    assert_eq!(d.link_targets().to_vec(), vec!["doc_2".to_string()]);
    assert_eq!(
        d.data().serialized(),
        "{\"title\":\"Document 4\",\"content\":\"Content for document 4\",\"score\":5,\"category\":\"cat_3\"}"
    );
    let f = record_fields(4, &plan);
    assert_eq!(f.len(), 4);
    assert!(matches!(f[2].1, Value::Number(5)));
}

#[test]
fn seed_42_three_documents_scenario() {
    let mut r = Rng::new(42);
    let store = load_documents(&mut r, 3, 0);
    assert_eq!(store.len(), 3);
    assert_eq!(doc_ids(&store.find_by_tag("tag_1")), vec!["doc_2".to_string()]);
    assert_eq!(doc_ids(&store.find_linked_to("doc_0")), vec!["doc_1".to_string()]);
    assert!(store.find_by_tag("important").is_empty());
    assert!(store.get("doc_1").unwrap().tags().is_empty());
}

#[test]
fn seed_42_three_records_relational() {
    let mut r = Rng::new(42);
    let db = load_relational(&mut r, 3);
    assert_eq!(db.len(), 3);
    assert_eq!(row_ids(&db.find_by_column("tags", "tag", "\"tag_1\"")), vec!["tag_2_1".to_string()]);
    assert_eq!(row_ids(&db.find_by_column("links", "to_id", "\"doc_0\"")), vec!["link_1_0".to_string()]);
    assert_eq!(row_ids(&db.find_by_column("documents", "score", "92")), vec!["doc_0".to_string()]);
    assert!(db.get("documents", "doc_2").is_some());
    assert!(db.get("documents", "doc_3").is_none());
}

#[test]
fn both_models_get_the_same_tags_and_links() {
    let mut a = Rng::new(42);
    let store = load_documents(&mut a, 10, 0);
    let mut b = Rng::new(42);
    let db = load_relational(&mut b, 10);
    assert_eq!(a.next(), b.next());
    for t in 1..20 {
        let tag = format!("tag_{}", t);
        let docs = store.find_by_tag(&tag).len();
        let rows = db.find_by_column("tags", "tag", &format!("\"{}\"", tag)).len();
        assert_eq!(docs, rows);
    }
    assert_eq!(store.find_by_tag("important").len(), db.find_by_column("tags", "tag", "\"important\"").len());
    for i in 0..10 {
        let id = format!("doc_{}", i);
        assert_eq!(store.find_linked_to(&id).len(), db.find_by_column("links", "to_id", &format!("\"{}\"", id)).len());
    }
    assert_eq!(doc_ids(&store.find_by_tag("important")), vec!["doc_3", "doc_5", "doc_6", "doc_7", "doc_9"]);
}

#[test]
fn same_seed_same_dataset() {
    let mut a = Rng::new(42);
    let mut b = Rng::new(42);
    let s1 = load_documents(&mut a, 50, 0);
    let s2 = load_documents(&mut b, 50, 0);
    for t in 1..20 {
        let tag = format!("tag_{}", t);
        assert_eq!(doc_ids(&s1.find_by_tag(&tag)), doc_ids(&s2.find_by_tag(&tag)));
    }
    for i in 0..50 {
        let id = format!("doc_{}", i);
        assert_eq!(doc_ids(&s1.find_linked_to(&id)), doc_ids(&s2.find_linked_to(&id)));
        assert_eq!(s1.get(&id).unwrap().data().serialized(), s2.get(&id).unwrap().data().serialized());
    }
}

#[test]
fn queries_are_deterministic_and_hit_rate_nonnegative() {
    let mut a = Rng::new(42);
    let store = load_documents(&mut a, 20, 0);
    let mut b = Rng::new(42);
    let store2 = load_documents(&mut b, 20, 0);
    let f1 = run_document_queries(&store, &mut a, 20, 100);
    let f2 = run_document_queries(&store2, &mut b, 20, 100);
    assert_eq!(f1, f2);
    assert!(f1 as f64 / 100.0 >= 0.0);
    let mut c = Rng::new(42);
    let db = load_relational(&mut c, 20);
    let g = run_relational_queries(&db, &mut c, 20, 100);
    assert!(g as f64 / 100.0 >= 0.0);
    assert_eq!(run_document_queries(&store, &mut Rng::new(1), 20, 0), 0);
}

#[test]
fn single_query_counts() {
    let mut a = Rng::new(42);
    let store = load_documents(&mut a, 3, 0);
    // The first draw picks the query kind.
    let mut q = Rng::new(0);
    let kind = q.gen_range(0, 4);
    let expected: u128 = match kind {
        0 => 1,
        1 => store.find_by_tag(&format!("tag_{}", q.gen_range(1, 20))).len() as u128,
        2 => store.find_linked_to(&format!("doc_{}", q.gen_range(0, 3))).len() as u128,
        _ => 0,
    };
    assert_eq!(run_document_queries(&store, &mut Rng::new(0), 3, 1), expected);
}

#[test]
fn memory_estimates() {
    let mut a = Rng::new(42);
    let store = load_documents(&mut a, 3, 0);
    // 3 documents, one tag (tag_1), one link target (doc_0).
    assert_eq!(document_memory_estimate(&store, 96, 200), Some(96 + 3 * 200 + 64 + 64));
    assert_eq!(document_memory_estimate(&store, usize::MAX, 1), None);
    let mut b = Rng::new(42);
    let db = load_relational(&mut b, 3);
    assert_eq!(relational_memory_estimate(&db, 48, 3), Some(48 + 3 * 1000 + 3 * 200));
    assert_eq!(relational_memory_estimate(&db, 0, usize::MAX), None);
}
