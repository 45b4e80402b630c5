//! The synthetic workload: records drawn from one seeded generator, loaded
//! into either storage model, then queried with randomly chosen query kinds.

use crate::document::{repeat_for, Document, DocumentStore};
use crate::generator::{below_ratio, lcg, range_of, Rng};
use crate::relational::{cell_hits, row_cells, Row, RelationalDB};
use crate::text::{append, decimal, int_text, lemma_numbered_injective, numbered};
use crate::value::{quoted, serialize, value_wf, Value};
use vstd::prelude::*;

verus! {

/// The number of record categories: categories run from 1 to 9.
pub const CATEGORY_END: usize = 10;

/// Bucket tags run from 1 to 19.
pub const TAG_END: usize = 20;

/// Scores run from 1 to 99.
pub const SCORE_END: usize = 100;

/// `"doc_"` followed by `i`.
pub open spec fn doc_id(i: nat) -> Seq<char> {
    "doc_"@ + decimal(i)
}

/// `"tag_"` followed by `t`.
pub open spec fn tag_name(t: nat) -> Seq<char> {
    "tag_"@ + decimal(t)
}

/// The fixed tag that some records carry besides their bucket tag.
pub open spec fn important_tag() -> Seq<char> {
    "important"@
}

/// The relationship name of a record's link to an earlier record.
pub open spec fn references_rel() -> Seq<char> {
    "references"@
}

/// The draws that make up one synthetic record.
#[derive(Clone, Copy, Debug, PartialEq, Eq)]
pub struct RecordPlan {
    /// In `[1, 100)`.
    pub score: usize,
    /// In `[1, 10)`.
    pub category: usize,
    /// The bucket tag, in `[1, 20)`, drawn with probability 7/10.
    pub tag: Option<usize>,
    /// Whether the record carries the `important` tag, probability 3/10.
    pub important: bool,
    /// The earlier record referred to, drawn with probability 4/10 for
    /// every record but the first.
    pub link: Option<usize>,
}

/// The plan of record `i` drawn from generator state `s`, and the state after it.
pub open spec fn plan_of(s: u64, i: usize) -> (RecordPlan, u64) {
    let s1 = lcg(s);
    let s2 = lcg(s1);
    let s3 = lcg(s2);
    let has_tag = below_ratio(s3, 7, 10);
    let s4 = if has_tag { lcg(s3) } else { s3 };
    let s5 = lcg(s4);
    let base = RecordPlan {
        score: range_of(s1, 1, SCORE_END),
        category: range_of(s2, 1, CATEGORY_END),
        tag: if has_tag { Some(range_of(s4, 1, TAG_END)) } else { None },
        important: below_ratio(s5, 3, 10),
        link: None,
    };
    if i > 0 {
        let s6 = lcg(s5);
        if below_ratio(s6, 4, 10) {
            let s7 = lcg(s6);
            (RecordPlan { link: Some(range_of(s7, 0, i)), ..base }, s7)
        } else {
            (base, s6)
        }
    } else {
        (base, s5)
    }
}

/// The plans of records `0..n` drawn in order from state `s`, and the state after them.
pub open spec fn plans_of(s: u64, n: nat) -> (Seq<RecordPlan>, u64)
    decreases n,
{
    if n == 0 {
        (Seq::empty(), s)
    } else {
        let (ps, s1) = plans_of(s, (n - 1) as nat);
        let (p, s2) = plan_of(s1, (n - 1) as usize);
        (ps.push(p), s2)
    }
}

/// Draws the plan of record `i`.
pub fn draw_plan(rng: &mut Rng, i: usize) -> (r: RecordPlan)
    ensures
        (r, final(rng)@) == plan_of(old(rng)@, i),
{
    let score = rng.gen_range(1, SCORE_END);
    let category = rng.gen_range(1, CATEGORY_END);
    let tag = if rng.gen_bool(7, 10) {
        Some(rng.gen_range(1, TAG_END))
    } else {
        None
    };
    let important = rng.gen_bool(3, 10);
    let link = if i > 0 && rng.gen_bool(4, 10) {
        Some(rng.gen_range(0, i))
    } else {
        None
    };
    RecordPlan { score, category, tag, important, link }
}

/// Whether `v` is the string `s`.
pub open spec fn is_text(v: Value, s: Seq<char>) -> bool {
    v is String && v->String_0@ == s
}

/// The payload fields of record `i`: a title, a content text, the score and
/// the category, in that order.
pub open spec fn record_fields_ok(f: Seq<(String, Value)>, i: nat, p: RecordPlan) -> bool {
    &&& f.len() == 4
    &&& f[0].0@ == "title"@ && is_text(f[0].1, "Document "@ + decimal(i))
    &&& f[1].0@ == "content"@ && is_text(f[1].1, "Content for document "@ + decimal(i))
    &&& f[2].0@ == "score"@ && f[2].1 == Value::Number(p.score as i64)
    &&& f[3].0@ == "category"@ && is_text(f[3].1, "cat_"@ + decimal(p.category as nat))
}

/// The tags of a record: its bucket tag, then `important`, each when drawn.
pub open spec fn plan_tags(p: RecordPlan) -> Seq<Seq<char>> {
    (match p.tag {
        Some(t) => seq![tag_name(t as nat)],
        None => Seq::empty(),
    }) + if p.important {
        seq![important_tag()]
    } else {
        Seq::empty()
    }
}

/// The ids of the records that a record links to.
pub open spec fn plan_targets(p: RecordPlan) -> Seq<Seq<char>> {
    match p.link {
        Some(t) => seq![doc_id(t as nat)],
        None => Seq::empty(),
    }
}

/// The payload fields of record `i`.
pub fn record_fields(i: usize, plan: &RecordPlan) -> (r: Vec<(String, Value)>)
    ensures
        record_fields_ok(r@, i as nat, *plan),
{
    let mut r: Vec<(String, Value)> = Vec::new();
    r.push(("title".to_owned(), Value::String(numbered("Document ", i))));
    r.push(("content".to_owned(), Value::String(numbered("Content for document ", i))));
    r.push(("score".to_owned(), Value::Number(plan.score as i64)));
    r.push(("category".to_owned(), Value::String(numbered("cat_", plan.category))));
    r
}

/// Whether `d` is the document of record `i` planned by `p`: its id, its
/// payload fields, its tags and its `references` link.
pub open spec fn doc_matches_plan(d: Document, i: nat, p: RecordPlan) -> bool {
    &&& d.wf()
    &&& d.key() == doc_id(i)
    &&& d.payload() is Object
    &&& record_fields_ok(d.payload()->Object_0@, i, p)
    &&& d.tag_list() == plan_tags(p)
    &&& d.target_list() == plan_targets(p)
    &&& d.rel_list() == match p.link {
        Some(_) => seq![references_rel()],
        None => Seq::<Seq<char>>::empty(),
    }
}

/// The document of record `i`, stamped with time `now`.
pub fn build_document(i: usize, plan: &RecordPlan, now: u64) -> (r: Document)
    ensures
        doc_matches_plan(r, i as nat, *plan),
        r.meta().0 == now,
        r.meta().2 == 1,
{
    let mut doc = Document::new_at(numbered("doc_", i), Value::Object(record_fields(i, plan)), now);
    let ghost t0 = doc.tag_list();
    match plan.tag {
        Some(t) => {
            let name = numbered("tag_", t);
            doc.add_tag(name.as_str());
        },
        None => {},
    }
    let ghost t1 = doc.tag_list();
    assert(t1 == (match plan.tag {
        Some(t) => seq![tag_name(t as nat)],
        None => Seq::<Seq<char>>::empty(),
    })) by {
        assert(t0 =~= Seq::<Seq<char>>::empty());
        if plan.tag is Some {
            assert(t0.push(tag_name(plan.tag->Some_0 as nat)) =~= seq![tag_name(plan.tag->Some_0 as nat)]);
        }
    }
    if plan.important {
        proof {
            reveal_strlit("important");
            reveal_strlit("tag_");
            if plan.tag is Some {
                assert(t1[0][0] == 't');
                assert(!t1.contains(important_tag())) by {
                    if t1.contains(important_tag()) {
                        assert(t1[0] == important_tag());
                    }
                }
            }
        }
        doc.add_tag("important");
    }
    assert(doc.tag_list() =~= plan_tags(*plan));
    match plan.link {
        Some(t) => {
            let target = numbered("doc_", t);
            doc.add_link("references", target.as_str());
            assert(doc.target_list() =~= plan_targets(*plan));
            assert(doc.rel_list() =~= seq![references_rel()]);
        },
        None => {
            assert(doc.target_list() =~= plan_targets(*plan));
        },
    }
    doc
}

/// The ids that the tag index holds under `t` once the records planned by
/// `ps` are stored in order.
pub open spec fn doc_tag_hits(ps: Seq<RecordPlan>, t: Seq<char>) -> Seq<Seq<char>>
    decreases ps.len(),
{
    if ps.len() == 0 {
        Seq::empty()
    } else {
        doc_tag_hits(ps.drop_last(), t) + repeat_for(plan_tags(ps.last()), t, doc_id((ps.len() - 1) as nat))
    }
}

/// The ids that the link index holds under `t` once the records planned by
/// `ps` are stored in order.
pub open spec fn doc_link_hits(ps: Seq<RecordPlan>, t: Seq<char>) -> Seq<Seq<char>>
    decreases ps.len(),
{
    if ps.len() == 0 {
        Seq::empty()
    } else {
        doc_link_hits(ps.drop_last(), t) + repeat_for(plan_targets(ps.last()), t, doc_id((ps.len() - 1) as nat))
    }
}

/// What the document store holds once the records planned by `ps` are
/// stored: a document for each record id, and the tag and link indexes
/// filled in record order.
pub open spec fn doc_loaded(st: DocumentStore, ps: Seq<RecordPlan>) -> bool {
    &&& st.wf()
    &&& forall|k: Seq<char>| #![auto] st.has_doc(k) == exists|i: nat| i < ps.len() && k == doc_id(i)
    &&& forall|t: Seq<char>| #![auto] st.tag_ids(t) == doc_tag_hits(ps, t)
    &&& forall|t: Seq<char>| #![auto] st.link_ids(t) == doc_link_hits(ps, t)
    &&& forall|i: nat| i < ps.len() ==> doc_matches_plan(#[trigger] st.doc(doc_id(i)), i, ps[i as int])
    &&& st.doc_count() == ps.len()
    &&& st.tag_count() == Set::new(|t: Seq<char>| doc_tag_hits(ps, t).len() > 0).len()
    &&& st.target_count() == Set::new(|t: Seq<char>| doc_link_hits(ps, t).len() > 0).len()
}

/// Draws records `0..n` and stores each as a document stamped `now`.
pub fn load_documents(rng: &mut Rng, n: usize, now: u64) -> (r: DocumentStore)
    ensures
        final(rng)@ == plans_of(old(rng)@, n as nat).1,
        doc_loaded(r, plans_of(old(rng)@, n as nat).0),
{
    let ghost s0 = rng@;
    let mut store = DocumentStore::new();
    let mut i: usize = 0;
    while i < n
        invariant
            i <= n,
            rng@ == plans_of(s0, i as nat).1,
            plans_of(s0, i as nat).0.len() == i,
            store.wf(),
            forall|k: Seq<char>| #![auto] store.has_doc(k) == exists|j: nat| j < i && k == doc_id(j),
            forall|t: Seq<char>| #![auto] store.tag_ids(t) == doc_tag_hits(plans_of(s0, i as nat).0, t),
            forall|t: Seq<char>| #![auto] store.link_ids(t) == doc_link_hits(plans_of(s0, i as nat).0, t),
            forall|j: nat|
                j < i ==> doc_matches_plan(#[trigger] store.doc(doc_id(j)), j, plans_of(s0, i as nat).0[j as int]),
            store.doc_count() == i,
        decreases n - i,
    {
        let ghost pre = store;
        let ghost ps = plans_of(s0, i as nat).0;
        let plan = draw_plan(rng, i);
        let doc = build_document(i, &plan, now);
        proof {
            if store.has_doc(doc_id(i as nat)) {
                let j = choose|j: nat| j < i && doc_id(i as nat) == doc_id(j);
                lemma_numbered_injective("doc_"@, j, i as nat);
            }
        }
        store.store(doc);
        proof {
            let ps1 = plans_of(s0, (i + 1) as nat).0;
            assert(ps1 == ps.push(plan));
            assert(ps1.drop_last() =~= ps);
            assert forall|k: Seq<char>|
                #![auto]
                store.has_doc(k) == exists|j: nat| j < i + 1 && k == doc_id(j) by {
                if k == doc_id(i as nat) {
                    assert(exists|j: nat| j < i + 1 && k == doc_id(j));
                }
                if exists|j: nat| j < i + 1 && k == doc_id(j) {
                    let j = choose|j: nat| j < i + 1 && k == doc_id(j);
                    if j < i {
                        assert(pre.has_doc(k));
                    }
                }
                if pre.has_doc(k) {
                    let j = choose|j: nat| j < i && k == doc_id(j);
                    assert(j < i + 1);
                }
            }
            assert forall|j: nat| j < i + 1 implies doc_matches_plan(
                #[trigger] store.doc(doc_id(j)),
                j,
                ps1[j as int],
            ) by {
                if j < i {
                    if doc_id(j) == doc_id(i as nat) {
                        lemma_numbered_injective("doc_"@, j, i as nat);
                    }
                    assert(pre.has_doc(doc_id(j)));
                    assert(ps1[j as int] == ps[j as int]);
                }
            }
        }
        i = i + 1;
    }
    proof {
        let ps = plans_of(s0, n as nat).0;
        store.lemma_index_counts();
        assert(Set::new(|t: Seq<char>| store.tag_ids(t).len() > 0) =~= Set::new(
            |t: Seq<char>| doc_tag_hits(ps, t).len() > 0,
        ));
        assert(Set::new(|t: Seq<char>| store.link_ids(t).len() > 0) =~= Set::new(
            |t: Seq<char>| doc_link_hits(ps, t).len() > 0,
        ));
    }
    store
}

/// The cells of the `documents` row of record `i`.
pub open spec fn record_cells(i: nat, p: RecordPlan) -> Seq<(Seq<char>, Seq<char>)> {
    seq![
        ("title"@, quoted("Document "@ + decimal(i))),
        ("content"@, quoted("Content for document "@ + decimal(i))),
        ("score"@, int_text(p.score as i64 as int)),
        ("category"@, quoted("cat_"@ + decimal(p.category as nat))),
    ]
}

/// The cells of a `tags` row giving record `i` the tag `tag`.
pub open spec fn tag_cells(i: nat, tag: Seq<char>) -> Seq<(Seq<char>, Seq<char>)> {
    seq![("doc_id"@, quoted(doc_id(i))), ("tag"@, quoted(tag))]
}

/// The cells of the `links` row from record `i` to record `t`.
pub open spec fn link_cells(i: nat, t: nat) -> Seq<(Seq<char>, Seq<char>)> {
    seq![("from_id"@, quoted(doc_id(i))), ("to_id"@, quoted(doc_id(t))), ("relationship"@, quoted(references_rel()))]
}

/// The id of the `k`-th `tags` row of record `i`.
pub open spec fn tag_row_id(i: nat, k: nat) -> Seq<char> {
    "tag_"@ + decimal(i) + "_"@ + decimal(k)
}

/// The id of the `links` row from record `i` to record `t`.
pub open spec fn link_row_id(i: nat, t: nat) -> Seq<char> {
    "link_"@ + decimal(i) + "_"@ + decimal(t)
}

/// The ids that the `documents` table holds under `(c, v)` once the records
/// planned by `ps` are inserted in order.
pub open spec fn rel_doc_hits(ps: Seq<RecordPlan>, c: Seq<char>, v: Seq<char>) -> Seq<Seq<char>>
    decreases ps.len(),
{
    if ps.len() == 0 {
        Seq::empty()
    } else {
        let i = (ps.len() - 1) as nat;
        rel_doc_hits(ps.drop_last(), c, v) + cell_hits(record_cells(i, ps.last()), c, v, doc_id(i))
    }
}

/// The `tags` rows of record `i`: one for its bucket tag, one for `important`.
pub open spec fn rel_tag_rows(i: nat, p: RecordPlan, c: Seq<char>, v: Seq<char>) -> Seq<Seq<char>> {
    (match p.tag {
        Some(t) => cell_hits(tag_cells(i, tag_name(t as nat)), c, v, tag_row_id(i, 1)),
        None => Seq::empty(),
    }) + if p.important {
        cell_hits(tag_cells(i, important_tag()), c, v, tag_row_id(i, 2))
    } else {
        Seq::empty()
    }
}

/// The ids that the `tags` table holds under `(c, v)` once the records
/// planned by `ps` are inserted in order.
pub open spec fn rel_tag_hits(ps: Seq<RecordPlan>, c: Seq<char>, v: Seq<char>) -> Seq<Seq<char>>
    decreases ps.len(),
{
    if ps.len() == 0 {
        Seq::empty()
    } else {
        let i = (ps.len() - 1) as nat;
        rel_tag_hits(ps.drop_last(), c, v) + rel_tag_rows(i, ps.last(), c, v)
    }
}

/// The ids that the `links` table holds under `(c, v)` once the records
/// planned by `ps` are inserted in order.
pub open spec fn rel_link_hits(ps: Seq<RecordPlan>, c: Seq<char>, v: Seq<char>) -> Seq<Seq<char>>
    decreases ps.len(),
{
    if ps.len() == 0 {
        Seq::empty()
    } else {
        let i = (ps.len() - 1) as nat;
        rel_link_hits(ps.drop_last(), c, v) + match ps.last().link {
            Some(t) => cell_hits(link_cells(i, t as nat), c, v, link_row_id(i, t as nat)),
            None => Seq::empty(),
        }
    }
}

/// `s` as a string value.
fn text_value(s: &str) -> (r: Value)
    ensures
        is_text(r, s@),
        serialize(r) == quoted(s@),
{
    Value::String(s.to_owned())
}

/// The `documents` row of record `i`.
pub fn record_row(i: usize, plan: &RecordPlan) -> (r: Row)
    ensures
        r.id@ == doc_id(i as nat),
        row_cells(r.data@) == record_cells(i as nat, *plan),
        r.wf(),
{
    let data = record_fields(i, plan);
    let r = Row { id: numbered("doc_", i), data };
    proof {
        reveal_strlit("title");
        reveal_strlit("content");
        reveal_strlit("score");
        reveal_strlit("category");
        let f = r.data@;
        assert(f[0].0@[0] == 't' && f[1].0@[0] == 'c' && f[2].0@[0] == 's' && f[3].0@[0] == 'c');
        assert(f[1].0@.len() == 7 && f[3].0@.len() == 8);
        assert forall|a: int, b: int| 0 <= a < f.len() && 0 <= b < f.len() && a != b implies #[trigger] f[a].0@
            != #[trigger] f[b].0@ by {
            assert(a == 0 || a == 1 || a == 2 || a == 3);
            assert(b == 0 || b == 1 || b == 2 || b == 3);
        }
        assert forall|a: int| 0 <= a < f.len() implies value_wf(#[trigger] f[a].1) by {
            assert(a == 0 || a == 1 || a == 2 || a == 3);
        }
    }
    assert(row_cells(r.data@) =~= record_cells(i as nat, *plan));
    r
}

/// The `k`-th `tags` row of record `i`, giving it the tag `tag`.
pub fn tag_row(i: usize, k: usize, tag: &str) -> (r: Row)
    ensures
        r.id@ == "tag_"@ + decimal(i as nat) + "_"@ + decimal(k as nat),
        row_cells(r.data@) == tag_cells(i as nat, tag@),
        r.wf(),
{
    let mut id = numbered("tag_", i);
    let suffix = numbered("_", k);
    append(&mut id, suffix.as_str());
    let doc = numbered("doc_", i);
    let mut data: Vec<(String, Value)> = Vec::new();
    data.push(("doc_id".to_owned(), text_value(doc.as_str())));
    data.push(("tag".to_owned(), text_value(tag)));
    let r = Row { id, data };
    assert(r.id@ =~= "tag_"@ + decimal(i as nat) + "_"@ + decimal(k as nat));
    assert(row_cells(r.data@) =~= tag_cells(i as nat, tag@));
    proof {
        reveal_strlit("doc_id");
        reveal_strlit("tag");
        let f = r.data@;
        assert(f[0].0@.len() == 6 && f[1].0@.len() == 3);
        assert forall|a: int, b: int| 0 <= a < f.len() && 0 <= b < f.len() && a != b implies #[trigger] f[a].0@
            != #[trigger] f[b].0@ by {
            assert(a == 0 || a == 1);
            assert(b == 0 || b == 1);
        }
        assert forall|a: int| 0 <= a < f.len() implies value_wf(#[trigger] f[a].1) by {
            assert(a == 0 || a == 1);
        }
    }
    r
}

/// The `links` row from record `i` to record `t`.
pub fn link_row(i: usize, t: usize) -> (r: Row)
    ensures
        r.id@ == link_row_id(i as nat, t as nat),
        row_cells(r.data@) == link_cells(i as nat, t as nat),
        r.wf(),
{
    let mut id = numbered("link_", i);
    let suffix = numbered("_", t);
    append(&mut id, suffix.as_str());
    let from = numbered("doc_", i);
    let to = numbered("doc_", t);
    let mut data: Vec<(String, Value)> = Vec::new();
    data.push(("from_id".to_owned(), text_value(from.as_str())));
    data.push(("to_id".to_owned(), text_value(to.as_str())));
    data.push(("relationship".to_owned(), text_value("references")));
    let r = Row { id, data };
    assert(r.id@ =~= link_row_id(i as nat, t as nat));
    assert(row_cells(r.data@) =~= link_cells(i as nat, t as nat));
    proof {
        reveal_strlit("from_id");
        reveal_strlit("to_id");
        reveal_strlit("relationship");
        let f = r.data@;
        assert(f[0].0@.len() == 7 && f[1].0@.len() == 5 && f[2].0@.len() == 12);
        assert forall|a: int, b: int| 0 <= a < f.len() && 0 <= b < f.len() && a != b implies #[trigger] f[a].0@
            != #[trigger] f[b].0@ by {
            assert(a == 0 || a == 1 || a == 2);
            assert(b == 0 || b == 1 || b == 2);
        }
        assert forall|a: int| 0 <= a < f.len() implies value_wf(#[trigger] f[a].1) by {
            assert(a == 0 || a == 1 || a == 2);
        }
    }
    r
}

/// The three table names are distinct.
proof fn lemma_table_names_distinct()
    ensures
        "documents"@ != "tags"@,
        "documents"@ != "links"@,
        "tags"@ != "links"@,
{
    reveal_strlit("documents");
    reveal_strlit("tags");
    reveal_strlit("links");
    assert("documents"@.len() == 9);
    assert("tags"@.len() == 4);
    assert("links"@.len() == 5);
}

/// What the relational database holds once the records planned by `ps` are
/// inserted: the tables `documents`, `tags` and `links` and no other, with
/// the record rows, the tag rows and the link rows indexed in order.
pub open spec fn rel_loaded(db: RelationalDB, ps: Seq<RecordPlan>) -> bool {
    &&& db.wf()
    &&& db.table_count() == 3
    &&& forall|nm: Seq<char>|
        #![auto]
        db.has_table(nm) == (nm == "documents"@ || nm == "tags"@ || nm == "links"@)
    &&& forall|k: Seq<char>|
        #![auto]
        db.table("documents"@).has_row(k) == exists|j: nat| j < ps.len() && k == doc_id(j)
    &&& forall|i: nat|
        i < ps.len() ==> row_cells(#[trigger] db.table("documents"@).row(doc_id(i)).data@) == record_cells(
            i,
            ps[i as int],
        )
    &&& forall|c: Seq<char>, v: Seq<char>|
        #![auto]
        db.table("documents"@).column_ids(c, v) == rel_doc_hits(ps, c, v)
    &&& forall|c: Seq<char>, v: Seq<char>|
        #![auto]
        db.table("tags"@).column_ids(c, v) == rel_tag_hits(ps, c, v)
    &&& forall|c: Seq<char>, v: Seq<char>|
        #![auto]
        db.table("links"@).column_ids(c, v) == rel_link_hits(ps, c, v)
}

/// Inserts the rows of record `i` into a database loaded with the records before it.
#[verifier::rlimit(40)]
fn add_record(db: &mut RelationalDB, i: usize, plan: &RecordPlan, Ghost(ps): Ghost<Seq<RecordPlan>>)
    requires
        ps.len() == i,
        rel_loaded(*old(db), ps),
    ensures
        rel_loaded(*final(db), ps.push(*plan)),
{
        proof {
            lemma_table_names_distinct();
        }
        let ghost pre = db;
        let ghost ps1 = ps.push(*plan);
        assert(ps1.drop_last() =~= ps);
        let row = record_row(i, plan);
        let ghost cells = row_cells(row.data@);
        db.insert("documents", row);
        let ghost d1 = db;
        assert forall|c: Seq<char>, v: Seq<char>|
            #![auto]
            db.table("documents"@).column_ids(c, v) == rel_doc_hits(ps1, c, v) by {
            assert(cells == record_cells(i as nat, *plan));
            assert(ps1.last() == *plan);
            assert(rel_doc_hits(ps1, c, v) == rel_doc_hits(ps, c, v) + cell_hits(
                record_cells(i as nat, *plan),
                c,
                v,
                doc_id(i as nat),
            ));
        }
        assert(db.table("links"@) == pre.table("links"@));
        assert(db.table("tags"@) == pre.table("tags"@));
        assert forall|k: Seq<char>|
            #![auto]
            db.table("documents"@).has_row(k) == exists|j: nat| j < i + 1 && k == doc_id(j) by {
            if k == doc_id(i as nat) {
                assert(exists|j: nat| j < i + 1 && k == doc_id(j));
            }
            if exists|j: nat| j < i + 1 && k == doc_id(j) {
                let j = choose|j: nat| j < i + 1 && k == doc_id(j);
                if j < i {
                    assert(pre.table("documents"@).has_row(k));
                }
            }
            if pre.table("documents"@).has_row(k) {
                let j = choose|j: nat| j < i && k == doc_id(j);
                assert(j < i + 1);
            }
        }
        assert forall|j: nat| j < i + 1 implies row_cells(
            #[trigger] db.table("documents"@).row(doc_id(j)).data@,
        ) == record_cells(j, ps1[j as int]) by {
            if j < i {
                if doc_id(j) == doc_id(i as nat) {
                    lemma_numbered_injective("doc_"@, j, i as nat);
                }
                assert(pre.table("documents"@).has_row(doc_id(j)));
                assert(ps1[j as int] == ps[j as int]);
            } else {
                assert(ps1[j as int] == *plan);
            }
        }
        match plan.tag {
            Some(t) => {
                let name = numbered("tag_", t);
                db.insert("tags", tag_row(i, 1, name.as_str()));
            },
            None => {},
        }
        let ghost d2 = db;
        assert forall|c: Seq<char>, v: Seq<char>|
            #![auto]
            db.table("tags"@).column_ids(c, v) == rel_tag_hits(ps, c, v) + match plan.tag {
                Some(t) => cell_hits(tag_cells(i as nat, tag_name(t as nat)), c, v, tag_row_id(i as nat, 1)),
                None => Seq::empty(),
            } by {
            if plan.tag is None {
                assert(db.table("tags"@).column_ids(c, v) =~= rel_tag_hits(ps, c, v) + Seq::<Seq<char>>::empty());
            }
        }
        if plan.important {
            db.insert("tags", tag_row(i, 2, "important"));
        }
        assert forall|c: Seq<char>, v: Seq<char>|
            #![auto]
            db.table("tags"@).column_ids(c, v) == rel_tag_hits(ps1, c, v) by {
            if !plan.important {
                assert(db.table("tags"@).column_ids(c, v) =~= d2.table("tags"@).column_ids(c, v) + Seq::<Seq<char>>::empty());
            }
            assert(rel_tag_hits(ps1, c, v) =~= rel_tag_hits(ps, c, v) + rel_tag_rows(i as nat, *plan, c, v));
            assert(d2.table("tags"@).column_ids(c, v) + (if plan.important {
                cell_hits(tag_cells(i as nat, important_tag()), c, v, tag_row_id(i as nat, 2))
            } else {
                Seq::empty()
            }) =~= rel_tag_hits(ps1, c, v));
        }
        let ghost d3 = db;
        assert(db.table("links"@) == pre.table("links"@));
        assert(db.table("documents"@) == d1.table("documents"@));
        match plan.link {
            Some(t) => {
                let row = link_row(i, t);
                let ghost cells = row_cells(row.data@);
                let ghost rid = row.id@;
                db.insert("links", row);
                assert forall|c: Seq<char>, v: Seq<char>|
                    #![auto]
                    db.table("links"@).column_ids(c, v) == d3.table("links"@).column_ids(c, v) + cell_hits(
                        link_cells(i as nat, t as nat),
                        c,
                        v,
                        link_row_id(i as nat, t as nat),
                    ) by {
                    assert(cells == link_cells(i as nat, t as nat));
                }
                assert forall|c: Seq<char>, v: Seq<char>|
                    #![auto]
                    db.table("links"@).column_ids(c, v) == rel_link_hits(ps1, c, v) by {
                    assert(ps1.last() == *plan);
                    assert(rel_link_hits(ps1, c, v) == rel_link_hits(ps, c, v) + cell_hits(
                        link_cells(i as nat, t as nat),
                        c,
                        v,
                        link_row_id(i as nat, t as nat),
                    ));
                }
            },
            None => {},
        }
        assert forall|c: Seq<char>, v: Seq<char>|
            #![auto]
            db.table("links"@).column_ids(c, v) == rel_link_hits(ps1, c, v) by {
            assert(ps1.last() == *plan);
            if plan.link is None {
                assert(rel_link_hits(ps1, c, v) =~= rel_link_hits(ps, c, v) + Seq::<Seq<char>>::empty());
            }
        }
        assert(db.table("documents"@) == d1.table("documents"@));
        assert(db.table("tags"@) == d3.table("tags"@));
        assert(db.wf());
        assert(forall|nm: Seq<char>|
            #![auto]
            db.has_table(nm) == (nm == "documents"@ || nm == "tags"@ || nm == "links"@));
}

/// Makes the tables `documents`, `tags` and `links`, then draws records
/// `0..n` and inserts each as a `documents` row, a `tags` row for each of
/// its tags and a `links` row for its link.
pub fn load_relational(rng: &mut Rng, n: usize) -> (r: RelationalDB)
    ensures
        final(rng)@ == plans_of(old(rng)@, n as nat).1,
        rel_loaded(r, plans_of(old(rng)@, n as nat).0),
{
    let ghost s0 = rng@;
    let mut db = RelationalDB::new();
    db.create_table("documents".to_owned());
    db.create_table("tags".to_owned());
    db.create_table("links".to_owned());
    proof {
        lemma_table_names_distinct();
        assert(plans_of(s0, 0).0 =~= Seq::<RecordPlan>::empty());
        assert forall|k: Seq<char>|
            #![auto]
            db.table("documents"@).has_row(k) == exists|j: nat| j < 0 && k == doc_id(j) by {}
    }
    let mut i: usize = 0;
    while i < n
        invariant
            i <= n,
            rng@ == plans_of(s0, i as nat).1,
            plans_of(s0, i as nat).0.len() == i,
            rel_loaded(db, plans_of(s0, i as nat).0),
        decreases n - i,
    {
        let ghost ps = plans_of(s0, i as nat).0;
        let plan = draw_plan(rng, i);
        let ghost ps1 = plans_of(s0, (i + 1) as nat).0;
        assert(ps1 == ps.push(plan));
        add_record(&mut db, i, &plan, Ghost(ps));
        i = i + 1;
    }
    db
}

/// The number of query kinds run against the document store.
pub const DOC_QUERY_KINDS: usize = 4;

/// The number of query kinds run against the relational database.
pub const REL_QUERY_KINDS: usize = 3;

/// The documents that one query surfaces from store `st`, drawn from state
/// `s`, and the state after it: a lookup of a random id (1 or 0), a search
/// by a random bucket tag, a search by a random link target, or a search by
/// the `important` tag.
pub open spec fn doc_query(st: DocumentStore, s: u64, num_docs: usize) -> (nat, u64) {
    let s1 = lcg(s);
    let s2 = lcg(s1);
    let kind = range_of(s1, 0, DOC_QUERY_KINDS);
    if kind == 0 {
        (if st.has_doc(doc_id(range_of(s2, 0, num_docs) as nat)) { 1nat } else { 0nat }, s2)
    } else if kind == 1 {
        (st.tag_ids(tag_name(range_of(s2, 1, TAG_END) as nat)).len(), s2)
    } else if kind == 2 {
        (st.link_ids(doc_id(range_of(s2, 0, num_docs) as nat)).len(), s2)
    } else {
        (st.tag_ids(important_tag()).len(), s1)
    }
}

/// The documents that `q` queries surface in all, and the state after them.
pub open spec fn doc_queries(st: DocumentStore, s: u64, num_docs: usize, q: nat) -> (nat, u64)
    decreases q,
{
    if q == 0 {
        (0, s)
    } else {
        let (f, s1) = doc_queries(st, s, num_docs, (q - 1) as nat);
        let (g, s2) = doc_query(st, s1, num_docs);
        (f + g, s2)
    }
}

/// The rows that one query surfaces from database `db`, drawn from state
/// `s`, and the state after it: a lookup of a random id in `documents` (1 or
/// 0), a search of `tags` by a random bucket tag, or a search of `links` by a
/// random target. A missing table surfaces nothing.
pub open spec fn rel_query(db: RelationalDB, s: u64, num_docs: usize) -> (nat, u64) {
    let s1 = lcg(s);
    let s2 = lcg(s1);
    let kind = range_of(s1, 0, REL_QUERY_KINDS);
    if kind == 0 {
        (if db.has_table("documents"@) && db.table("documents"@).has_row(
            doc_id(range_of(s2, 0, num_docs) as nat),
        ) {
            1nat
        } else {
            0nat
        }, s2)
    } else if kind == 1 {
        (if db.has_table("tags"@) {
            db.table("tags"@).column_ids("tag"@, quoted(tag_name(range_of(s2, 1, TAG_END) as nat))).len()
        } else {
            0nat
        }, s2)
    } else {
        (if db.has_table("links"@) {
            db.table("links"@).column_ids("to_id"@, quoted(doc_id(range_of(s2, 0, num_docs) as nat))).len()
        } else {
            0nat
        }, s2)
    }
}

/// The rows that `q` queries surface in all, and the state after them.
pub open spec fn rel_queries(db: RelationalDB, s: u64, num_docs: usize, q: nat) -> (nat, u64)
    decreases q,
{
    if q == 0 {
        (0, s)
    } else {
        let (f, s1) = rel_queries(db, s, num_docs, (q - 1) as nat);
        let (g, s2) = rel_query(db, s1, num_docs);
        (f + g, s2)
    }
}

proof fn lemma_count_bound(f: int, g: int, i: int)
    requires
        0 <= f <= i * 0xffff_ffff_ffff_ffff,
        0 <= g <= 0xffff_ffff_ffff_ffff,
        0 <= i,
    ensures
        f + g <= (i + 1) * 0xffff_ffff_ffff_ffff,
{
    assert((i + 1) * 0xffff_ffff_ffff_ffff == i * 0xffff_ffff_ffff_ffff + 0xffff_ffff_ffff_ffff) by (nonlinear_arith);
}

proof fn lemma_count_fits(i: int, q: int)
    requires
        0 <= i < q <= 0xffff_ffff_ffff_ffff,
    ensures
        (i + 1) * 0xffff_ffff_ffff_ffff <= 0xffff_ffff_ffff_ffff * 0xffff_ffff_ffff_ffff,
{
    assert((i + 1) * 0xffff_ffff_ffff_ffff <= 0xffff_ffff_ffff_ffff * 0xffff_ffff_ffff_ffff) by (nonlinear_arith)
        requires
            0 <= i < q <= 0xffff_ffff_ffff_ffff,
    ;
}

/// Runs `q` random queries against `store` and sums what each surfaces.
/// Record ids are drawn from `0..num_docs`.
pub fn run_document_queries(store: &DocumentStore, rng: &mut Rng, num_docs: usize, q: usize) -> (found: u128)
    requires
        store.wf(),
        num_docs > 0,
    ensures
        (found as nat, final(rng)@) == doc_queries(*store, old(rng)@, num_docs, q as nat),
{
    let ghost s0 = rng@;
    let mut found: u128 = 0;
    let mut i: usize = 0;
    while i < q
        invariant
            store.wf(),
            num_docs > 0,
            i <= q,
            (found as nat, rng@) == doc_queries(*store, s0, num_docs, i as nat),
            found <= i * 0xffff_ffff_ffff_ffff,
        decreases q - i,
    {
        let ghost sb = rng@;
        let kind = rng.gen_range(0, DOC_QUERY_KINDS);
        let got: usize = if kind == 0 {
            let id = numbered("doc_", rng.gen_range(0, num_docs));
            if store.get(id.as_str()).is_some() {
                1
            } else {
                0
            }
        } else if kind == 1 {
            let tag = numbered("tag_", rng.gen_range(1, TAG_END));
            store.find_by_tag(tag.as_str()).len()
        } else if kind == 2 {
            let target = numbered("doc_", rng.gen_range(0, num_docs));
            store.find_linked_to(target.as_str()).len()
        } else {
            store.find_by_tag("important").len()
        };
        assert((got as nat, rng@) == doc_query(*store, sb, num_docs));
        proof {
            lemma_count_bound(found as int, got as int, i as int);
            lemma_count_fits(i as int, q as int);
        }
        found = found + got as u128;
        i = i + 1;
    }
    found
}

/// Runs `q` random queries against `db` and sums what each surfaces.
/// Record ids are drawn from `0..num_docs`.
pub fn run_relational_queries(db: &RelationalDB, rng: &mut Rng, num_docs: usize, q: usize) -> (found: u128)
    requires
        db.wf(),
        num_docs > 0,
    ensures
        (found as nat, final(rng)@) == rel_queries(*db, old(rng)@, num_docs, q as nat),
{
    let ghost s0 = rng@;
    let mut found: u128 = 0;
    let mut i: usize = 0;
    while i < q
        invariant
            db.wf(),
            num_docs > 0,
            i <= q,
            (found as nat, rng@) == rel_queries(*db, s0, num_docs, i as nat),
            found <= i * 0xffff_ffff_ffff_ffff,
        decreases q - i,
    {
        let ghost sb = rng@;
        let kind = rng.gen_range(0, REL_QUERY_KINDS);
        let got: usize = if kind == 0 {
            let id = numbered("doc_", rng.gen_range(0, num_docs));
            if db.get("documents", id.as_str()).is_some() {
                1
            } else {
                0
            }
        } else if kind == 1 {
            let tag = numbered("tag_", rng.gen_range(1, TAG_END));
            let key = Value::String(tag).serialized();
            db.find_by_column("tags", "tag", key.as_str()).len()
        } else {
            let target = numbered("doc_", rng.gen_range(0, num_docs));
            let key = Value::String(target).serialized();
            db.find_by_column("links", "to_id", key.as_str()).len()
        };
        assert((got as nat, rng@) == rel_query(*db, sb, num_docs));
        proof {
            lemma_count_bound(found as int, got as int, i as int);
            lemma_count_fits(i as int, q as int);
        }
        found = found + got as u128;
        i = i + 1;
    }
    found
}

/// The estimated bytes of each index entry of the document store.
pub const INDEX_ENTRY_ESTIMATE: usize = 64;

/// The estimated bytes of each relational table.
pub const TABLE_ESTIMATE: usize = 1000;

/// The estimated bytes of each record in the relational database.
pub const ROW_ESTIMATE: usize = 200;

/// The memory estimate of a document store: the store itself, each document,
/// and a fixed amount for each indexed tag and each indexed link target.
pub open spec fn doc_memory(store_bytes: nat, doc_bytes: nat, docs: nat, tags: nat, targets: nat) -> nat {
    store_bytes + docs * doc_bytes + tags * (INDEX_ENTRY_ESTIMATE as nat) + targets * (INDEX_ENTRY_ESTIMATE as nat)
}

/// The memory estimate of a relational database: the database itself, a
/// fixed amount for each table and a fixed amount for each record.
pub open spec fn rel_memory(db_bytes: nat, tables: nat, records: nat) -> nat {
    db_bytes + tables * (TABLE_ESTIMATE as nat) + records * (ROW_ESTIMATE as nat)
}

/// The memory estimate of `store`, given the size of the store value and of
/// one document; none when it does not fit in a `usize`.
pub fn document_memory_estimate(store: &DocumentStore, store_bytes: usize, doc_bytes: usize) -> (r: Option<usize>)
    requires
        store.wf(),
    ensures
        r == if doc_memory(store_bytes as nat, doc_bytes as nat, store.doc_count(), store.tag_count(), store.target_count()) <= usize::MAX {
            Some(doc_memory(store_bytes as nat, doc_bytes as nat, store.doc_count(), store.tag_count(), store.target_count()) as usize)
        } else {
            None::<usize>
        },
{
    let docs = store.len();
    let tags = store.indexed_tags();
    let targets = store.indexed_targets();
    proof {
        assert(docs * doc_bytes >= 0) by (nonlinear_arith);
        assert(tags * INDEX_ENTRY_ESTIMATE >= 0) by (nonlinear_arith);
        assert(targets * INDEX_ENTRY_ESTIMATE >= 0) by (nonlinear_arith);
    }
    let a = match docs.checked_mul(doc_bytes) {
        Some(x) => x,
        None => return None,
    };
    let b = match tags.checked_mul(INDEX_ENTRY_ESTIMATE) {
        Some(x) => x,
        None => return None,
    };
    let c = match targets.checked_mul(INDEX_ENTRY_ESTIMATE) {
        Some(x) => x,
        None => return None,
    };
    let s1 = match store_bytes.checked_add(a) {
        Some(x) => x,
        None => return None,
    };
    let s2 = match s1.checked_add(b) {
        Some(x) => x,
        None => return None,
    };
    s2.checked_add(c)
}

/// The memory estimate of `db` holding `records` records, given the size of
/// the database value; none when it does not fit in a `usize`.
pub fn relational_memory_estimate(db: &RelationalDB, db_bytes: usize, records: usize) -> (r: Option<usize>)
    requires
        db.wf(),
    ensures
        r == if rel_memory(db_bytes as nat, db.table_count(), records as nat) <= usize::MAX {
            Some(rel_memory(db_bytes as nat, db.table_count(), records as nat) as usize)
        } else {
            None::<usize>
        },
{
    let tables = db.len();
    proof {
        assert(tables * TABLE_ESTIMATE >= 0) by (nonlinear_arith);
        assert(records * ROW_ESTIMATE >= 0) by (nonlinear_arith);
    }
    let a = match tables.checked_mul(TABLE_ESTIMATE) {
        Some(x) => x,
        None => return None,
    };
    let b = match records.checked_mul(ROW_ESTIMATE) {
        Some(x) => x,
        None => return None,
    };
    let s1 = match db_bytes.checked_add(a) {
        Some(x) => x,
        None => return None,
    };
    s1.checked_add(b)
}

} // verus!
