//! Properties that relate several operations of the library.

use crate::document::{repeat_for, stored, Document, DocumentStore};
use crate::generator::{below_ratio, lcg, range_of};
use crate::relational::{cell_hits, inserted, row_cells, RelationalDB, Row, Table};
use crate::value::{quoted, serialize};
use crate::workload::{
    doc_id, doc_link_hits, doc_loaded, doc_tag_hits, important_tag, link_cells, link_row_id,
    plan_tags, plan_targets, plans_of, rel_doc_hits, rel_link_hits, rel_loaded, rel_tag_hits,
    rel_tag_rows, tag_cells, tag_name, tag_row_id, RecordPlan,
};
use vstd::prelude::*;

verus! {

/// Two generators seeded alike make the same draws in the same order: the
/// first `n` records drawn from a seed, and the state left after them, are
/// the same for both, and so is every later range or probability draw.
pub proof fn lemma_same_seed_same_draws(seed_a: u64, seed_b: u64, n: nat, min: usize, max: usize, num: u64, den: u64)
    requires
        seed_a == seed_b,
    ensures
        plans_of(seed_a, n) == plans_of(seed_b, n),
        range_of(lcg(plans_of(seed_a, n).1), min, max) == range_of(lcg(plans_of(seed_b, n).1), min, max),
        below_ratio(lcg(plans_of(seed_a, n).1), num, den) == below_ratio(lcg(plans_of(seed_b, n).1), num, den),
{
}

/// Two document stores loaded from the same seed with the same record count
/// hold the same ids, the same tag and link indexes, and the same counts
/// that the memory estimate reads.
pub proof fn lemma_same_seed_same_documents(a: DocumentStore, b: DocumentStore, seed: u64, n: nat)
    requires
        doc_loaded(a, plans_of(seed, n).0),
        doc_loaded(b, plans_of(seed, n).0),
    ensures
        forall|k: Seq<char>| #![auto] a.has_doc(k) == b.has_doc(k),
        forall|t: Seq<char>| #![auto] a.tag_ids(t) == b.tag_ids(t),
        forall|t: Seq<char>| #![auto] a.link_ids(t) == b.link_ids(t),
        a.doc_count() == b.doc_count(),
        a.tag_count() == b.tag_count(),
        a.target_count() == b.target_count(),
{
}

/// Two relational databases loaded from the same seed with the same record
/// count hold the same tables, the same record ids and the same indexes.
pub proof fn lemma_same_seed_same_tables(a: RelationalDB, b: RelationalDB, seed: u64, n: nat)
    requires
        rel_loaded(a, plans_of(seed, n).0),
        rel_loaded(b, plans_of(seed, n).0),
    ensures
        a.table_count() == b.table_count(),
        forall|nm: Seq<char>| #![auto] a.has_table(nm) == b.has_table(nm),
        forall|k: Seq<char>| #![auto] a.table("documents"@).has_row(k) == b.table("documents"@).has_row(k),
        forall|c: Seq<char>, v: Seq<char>|
            #![auto]
            a.table("documents"@).column_ids(c, v) == b.table("documents"@).column_ids(c, v),
        forall|c: Seq<char>, v: Seq<char>|
            #![auto]
            a.table("tags"@).column_ids(c, v) == b.table("tags"@).column_ids(c, v),
        forall|c: Seq<char>, v: Seq<char>|
            #![auto]
            a.table("links"@).column_ids(c, v) == b.table("links"@).column_ids(c, v),
{
    let ps = plans_of(seed, n).0;
    assert forall|k: Seq<char>| #![auto] a.table("documents"@).has_row(k) == b.table("documents"@).has_row(k) by {
        assert(a.table("documents"@).has_row(k) == exists|i: nat| i < ps.len() && k == doc_id(i));
        assert(b.table("documents"@).has_row(k) == exists|i: nat| i < ps.len() && k == doc_id(i));
    }
    assert forall|c: Seq<char>, v: Seq<char>|
        #![auto]
        a.table("documents"@).column_ids(c, v) == b.table("documents"@).column_ids(c, v) by {
        assert(a.table("documents"@).column_ids(c, v) == rel_doc_hits(ps, c, v));
        assert(b.table("documents"@).column_ids(c, v) == rel_doc_hits(ps, c, v));
    }
    assert forall|c: Seq<char>, v: Seq<char>|
        #![auto]
        a.table("tags"@).column_ids(c, v) == b.table("tags"@).column_ids(c, v) by {
        assert(a.table("tags"@).column_ids(c, v) == rel_tag_hits(ps, c, v));
        assert(b.table("tags"@).column_ids(c, v) == rel_tag_hits(ps, c, v));
    }
    assert forall|c: Seq<char>, v: Seq<char>|
        #![auto]
        a.table("links"@).column_ids(c, v) == b.table("links"@).column_ids(c, v) by {
        assert(a.table("links"@).column_ids(c, v) == rel_link_hits(ps, c, v));
        assert(b.table("links"@).column_ids(c, v) == rel_link_hits(ps, c, v));
    }
}

/// In a sequence without duplicates that holds `t`, `t` occurs once.
pub proof fn lemma_repeat_for_once(s: Seq<Seq<char>>, t: Seq<char>, id: Seq<char>)
    requires
        s.no_duplicates(),
        s.contains(t),
    ensures
        repeat_for(s, t, id) == seq![id],
    decreases s.len(),
{
    let p = s.drop_last();
    assert(p.no_duplicates());
    if s.last() == t {
        lemma_repeat_for_absent(p, t, id);
        assert(repeat_for(s, t, id) =~= seq![id]);
    } else {
        let j = choose|j: int| 0 <= j < s.len() && s[j] == t;
        assert(p[j] == t);
        lemma_repeat_for_once(p, t, id);
        assert(repeat_for(s, t, id) =~= seq![id]);
    }
}

/// Where `t` does not occur in `s`, nothing is repeated for it.
pub proof fn lemma_repeat_for_absent(s: Seq<Seq<char>>, t: Seq<char>, id: Seq<char>)
    requires
        !s.contains(t),
    ensures
        repeat_for(s, t, id) == Seq::<Seq<char>>::empty(),
    decreases s.len(),
{
    if s.len() > 0 {
        let p = s.drop_last();
        assert(!p.contains(t)) by {
            if p.contains(t) {
                let j = choose|j: int| 0 <= j < p.len() && p[j] == t;
                assert(s[j] == t);
            }
        }
        assert(s[s.len() - 1] != t);
        lemma_repeat_for_absent(p, t, id);
        assert(repeat_for(s, t, id) =~= Seq::<Seq<char>>::empty());
    }
}

/// Storing a document appends its id exactly once under each of its tags:
/// every store that carries a tag adds one entry for it, and earlier entries,
/// also those of earlier stores of the same id, stay.
pub proof fn lemma_store_tags_once(pre: DocumentStore, post: DocumentStore, doc: Document, t: Seq<char>)
    requires
        doc.wf(),
        stored(pre, post, doc),
        doc.tag_list().contains(t),
    ensures
        post.tag_ids(t) == pre.tag_ids(t).push(doc.key()),
{
    doc.lemma_tags_distinct();
    lemma_repeat_for_once(doc.tag_list(), t, doc.key());
    assert(pre.tag_ids(t) + seq![doc.key()] =~= pre.tag_ids(t).push(doc.key()));
}

/// After a store, a lookup of the stored id finds the stored document, and
/// every other stored document is found as it was.
pub proof fn lemma_get_after_store(pre: DocumentStore, post: DocumentStore, doc: Document, k: Seq<char>)
    requires
        stored(pre, post, doc),
    ensures
        post.has_doc(doc.key()),
        post.doc(doc.key()) == doc,
        k != doc.key() ==> post.has_doc(k) == pre.has_doc(k),
        k != doc.key() && pre.has_doc(k) ==> post.doc(k) == pre.doc(k),
{
}

/// If some cell of `cells` is `(c, v)`, `id` is among the hits for `(c, v)`.
pub proof fn lemma_cell_hits_contains(cells: Seq<(Seq<char>, Seq<char>)>, c: Seq<char>, v: Seq<char>, id: Seq<char>, j: int)
    requires
        0 <= j < cells.len(),
        cells[j] == (c, v),
    ensures
        cell_hits(cells, c, v, id).contains(id),
    decreases cells.len(),
{
    let p = cells.drop_last();
    let h = cell_hits(cells, c, v, id);
    if j == cells.len() - 1 {
        assert(h[h.len() - 1] == id);
    } else {
        lemma_cell_hits_contains(p, c, v, id, j);
        let hp = cell_hits(p, c, v, id);
        let w = choose|w: int| 0 <= w < hp.len() && hp[w] == id;
        assert(h[w] == id);
    }
}

/// After a row is inserted into a table, a search of any of its columns by
/// the canonical text of its value there finds the row's id.
pub proof fn lemma_insert_indexes_cell(pre: Table, post: Table, row: Row, j: int)
    requires
        inserted(pre, post, row),
        0 <= j < row.data@.len(),
    ensures
        post.column_ids(row.data@[j].0@, serialize(row.data@[j].1)).contains(row.id@),
        post.has_row(row.id@),
        post.row(row.id@) == row,
{
    let c = row.data@[j].0@;
    let v = serialize(row.data@[j].1);
    let cells = row_cells(row.data@);
    lemma_cell_hits_contains(cells, c, v, row.id@, j);
    let h = cell_hits(cells, c, v, row.id@);
    let w = choose|w: int| 0 <= w < h.len() && h[w] == row.id@;
    let all = post.column_ids(c, v);
    assert(all[pre.column_ids(c, v).len() + w] == row.id@);
}

/// Quoting keeps strings apart.
pub proof fn lemma_quoted_injective(a: Seq<char>, b: Seq<char>)
    requires
        quoted(a) == quoted(b),
    ensures
        a == b,
{
    assert(quoted(a).len() == a.len() + 2);
    assert(quoted(b).len() == b.len() + 2);
    assert(a =~= quoted(a).subrange(1, a.len() as int + 1));
    assert(b =~= quoted(b).subrange(1, b.len() as int + 1));
}

/// Both storage models receive the same tags for every record: for any
/// planned records and any tag, the document tag index and the `tags` table
/// searched by the tag's canonical text hold as many entries.
pub proof fn lemma_tag_parity(ps: Seq<RecordPlan>, t: Seq<char>)
    ensures
        doc_tag_hits(ps, t).len() == rel_tag_hits(ps, "tag"@, quoted(t)).len(),
    decreases ps.len(),
{
    if ps.len() > 0 {
        lemma_tag_parity(ps.drop_last(), t);
        let i = (ps.len() - 1) as nat;
        let p = ps.last();
        let id = doc_id(i);
        reveal_strlit("doc_id");
        reveal_strlit("tag");
        assert("doc_id"@.len() == 6 && "tag"@.len() == 3);
        let v = quoted(t);
        assert forall|name: Seq<char>, k: nat|
            #![auto]
            cell_hits(tag_cells(i, name), "tag"@, v, tag_row_id(i, k)).len() == if name == t {
                1nat
            } else {
                0nat
            } by {
            let rid = tag_row_id(i, k);
            let cells = tag_cells(i, name);
            let c1 = cells.drop_last();
            assert(c1.drop_last() =~= Seq::<(Seq<char>, Seq<char>)>::empty());
            assert(c1.last() == cells[0]);
            assert(cells[0].0 != "tag"@);
            assert(cell_hits(c1.drop_last(), "tag"@, v, rid).len() == 0);
            assert(cell_hits(c1, "tag"@, v, rid).len() == 0);
            if quoted(name) == v {
                lemma_quoted_injective(name, t);
            }
            assert(cell_hits(cells, "tag"@, v, rid) == cell_hits(c1, "tag"@, v, rid) + if cells.last() == ("tag"@, v) {
                seq![rid]
            } else {
                Seq::empty()
            });
        }
        let tags = plan_tags(p);
        let bucket = match p.tag {
            Some(b) => seq![tag_name(b as nat)],
            None => Seq::<Seq<char>>::empty(),
        };
        reveal_strlit("important");
        reveal_strlit("tag_");
        assert(important_tag()[0] == 'i');
        let e = Seq::<Seq<char>>::empty();
        assert(repeat_for(e, t, id).len() == 0);
        let rb = match p.tag {
            Some(b) => cell_hits(tag_cells(i, tag_name(b as nat)), "tag"@, v, tag_row_id(i, 1)),
            None => Seq::empty(),
        };
        assert(repeat_for(bucket, t, id).len() == rb.len()) by {
            if p.tag is Some {
                assert(bucket.drop_last() =~= e);
                assert(repeat_for(bucket, t, id) == repeat_for(bucket.drop_last(), t, id) + if bucket.last() == t {
                    seq![id]
                } else {
                    Seq::empty()
                });
            }
        }
        assert(repeat_for(tags, t, id).len() == rel_tag_rows(i, p, "tag"@, v).len()) by {
            if p.important {
                assert(tags.drop_last() =~= bucket);
                assert(tags.last() == important_tag());
                assert(repeat_for(tags, t, id) == repeat_for(bucket, t, id) + if important_tag() == t {
                    seq![id]
                } else {
                    Seq::empty()
                });
            } else {
                assert(tags =~= bucket);
            }
        }
    }
}

/// Both storage models receive the same links for every record: for any
/// planned records and any target id, the document link index and the
/// `links` table searched by the target's canonical text hold as many entries.
pub proof fn lemma_link_parity(ps: Seq<RecordPlan>, t: Seq<char>)
    ensures
        doc_link_hits(ps, t).len() == rel_link_hits(ps, "to_id"@, quoted(t)).len(),
    decreases ps.len(),
{
    if ps.len() > 0 {
        lemma_link_parity(ps.drop_last(), t);
        let i = (ps.len() - 1) as nat;
        let p = ps.last();
        reveal_strlit("from_id");
        reveal_strlit("to_id");
        reveal_strlit("relationship");
        assert("from_id"@.len() == 7 && "to_id"@.len() == 5 && "relationship"@.len() == 12);
        let v = quoted(t);
        let id = doc_id(i);
        assert(repeat_for(Seq::<Seq<char>>::empty(), t, id).len() == 0);
        if p.link is Some {
            let target = p.link->Some_0 as nat;
            let rid = link_row_id(i, target);
            let cells = link_cells(i, target);
            let c2 = cells.drop_last();
            let c1 = c2.drop_last();
            assert(c1.drop_last() =~= Seq::<(Seq<char>, Seq<char>)>::empty());
            assert(c1.last() == cells[0]);
            assert(c2.last() == cells[1]);
            assert(cell_hits(c1.drop_last(), "to_id"@, v, rid).len() == 0);
            assert(cell_hits(c1, "to_id"@, v, rid).len() == 0);
            assert(cells.last() != ("to_id"@, v));
            assert(cell_hits(cells, "to_id"@, v, rid).len() == cell_hits(c2, "to_id"@, v, rid).len());
            if quoted(doc_id(target)) == v {
                lemma_quoted_injective(doc_id(target), t);
            }
            let tg = plan_targets(p);
            assert(tg.drop_last() =~= Seq::<Seq<char>>::empty());
            assert(repeat_for(tg, t, id) == repeat_for(tg.drop_last(), t, id) + if tg.last() == t {
                seq![id]
            } else {
                Seq::empty()
            });
        } else {
            assert(plan_targets(p) =~= Seq::<Seq<char>>::empty());
        }
    }
}

/// `states` runs from an empty store through one store of each of `docs`.
pub open spec fn store_run(states: Seq<DocumentStore>, docs: Seq<Document>) -> bool {
    &&& states.len() == docs.len() + 1
    &&& forall|k: Seq<char>|
        #![auto]
        !states[0].has_doc(k) && states[0].tag_ids(k) == Seq::<Seq<char>>::empty()
            && states[0].link_ids(k) == Seq::<Seq<char>>::empty()
    &&& forall|i: int| 0 <= i < docs.len() ==> stored(#[trigger] states[i], states[i + 1], docs[i])
}

/// The last of `docs` with id `id`, if any.
pub open spec fn last_with(docs: Seq<Document>, id: Seq<char>) -> Option<Document>
    decreases docs.len(),
{
    if docs.len() == 0 {
        None
    } else if docs.last().key() == id {
        Some(docs.last())
    } else {
        last_with(docs.drop_last(), id)
    }
}

/// The entries that storing `docs` in order appends under tag `t`.
pub open spec fn all_tag_hits(docs: Seq<Document>, t: Seq<char>) -> Seq<Seq<char>>
    decreases docs.len(),
{
    if docs.len() == 0 {
        Seq::empty()
    } else {
        all_tag_hits(docs.drop_last(), t) + repeat_for(docs.last().tag_list(), t, docs.last().key())
    }
}

/// After any sequence of stores from an empty store, a lookup of `id` finds
/// the most recently stored document with that id, and nothing when none
/// had it.
pub proof fn lemma_get_after_stores(states: Seq<DocumentStore>, docs: Seq<Document>, id: Seq<char>)
    requires
        store_run(states, docs),
    ensures
        states.last().has_doc(id) == (last_with(docs, id) is Some),
        last_with(docs, id) is Some ==> states.last().doc(id) == last_with(docs, id)->Some_0,
    decreases docs.len(),
{
    if docs.len() > 0 {
        let n = docs.len() - 1;
        let sp = states.drop_last();
        assert(store_run(sp, docs.drop_last())) by {
            assert forall|i: int| 0 <= i < docs.drop_last().len() implies stored(#[trigger] sp[i], sp[i + 1], docs.drop_last()[i]) by {
                assert(stored(states[i], states[i + 1], docs[i]));
            }
        }
        lemma_get_after_stores(sp, docs.drop_last(), id);
        assert(stored(states[n], states[n + 1], docs[n]));
    }
}

/// After any sequence of stores from an empty store, the entries under tag
/// `t` are, in order, one per store of a document carrying `t`: stores of
/// the same id compound.
pub proof fn lemma_tags_after_stores(states: Seq<DocumentStore>, docs: Seq<Document>, t: Seq<char>)
    requires
        store_run(states, docs),
    ensures
        states.last().tag_ids(t) == all_tag_hits(docs, t),
    decreases docs.len(),
{
    if docs.len() > 0 {
        let n = docs.len() - 1;
        let sp = states.drop_last();
        assert(store_run(sp, docs.drop_last())) by {
            assert forall|i: int| 0 <= i < docs.drop_last().len() implies stored(#[trigger] sp[i], sp[i + 1], docs.drop_last()[i]) by {
                assert(stored(states[i], states[i + 1], docs[i]));
            }
        }
        lemma_tags_after_stores(sp, docs.drop_last(), t);
        assert(stored(states[n], states[n + 1], docs[n]));
    } else {
        assert(states.last() == states[0]);
    }
}

/// `states` runs from an empty table through one insert of each of `rows`.
pub open spec fn insert_run(states: Seq<Table>, rows: Seq<Row>) -> bool {
    &&& states.len() == rows.len() + 1
    &&& forall|k: Seq<char>| #![auto] !states[0].has_row(k)
    &&& forall|i: int| 0 <= i < rows.len() ==> inserted(#[trigger] states[i], states[i + 1], rows[i])
}

/// The last of `rows` with id `id`, if any.
pub open spec fn last_row_with(rows: Seq<Row>, id: Seq<char>) -> Option<Row>
    decreases rows.len(),
{
    if rows.len() == 0 {
        None
    } else if rows.last().id@ == id {
        Some(rows.last())
    } else {
        last_row_with(rows.drop_last(), id)
    }
}

/// After any sequence of inserts into an empty table, a lookup of `id`
/// finds the most recently inserted row with that id, and nothing when
/// none had it.
pub proof fn lemma_get_after_inserts(states: Seq<Table>, rows: Seq<Row>, id: Seq<char>)
    requires
        insert_run(states, rows),
    ensures
        states.last().has_row(id) == (last_row_with(rows, id) is Some),
        last_row_with(rows, id) is Some ==> states.last().row(id) == last_row_with(rows, id)->Some_0,
    decreases rows.len(),
{
    if rows.len() > 0 {
        let n = rows.len() - 1;
        let sp = states.drop_last();
        assert(insert_run(sp, rows.drop_last())) by {
            assert forall|i: int| 0 <= i < rows.drop_last().len() implies inserted(#[trigger] sp[i], sp[i + 1], rows.drop_last()[i]) by {
                assert(inserted(states[i], states[i + 1], rows[i]));
            }
        }
        lemma_get_after_inserts(sp, rows.drop_last(), id);
        assert(inserted(states[n], states[n + 1], rows[n]));
    }
}

/// Whether `states` is what a generator passes through: each call of
/// `next`, `gen_range` or `gen_bool` moves it one step.
pub open spec fn lcg_trace(states: Seq<u64>) -> bool {
    forall|i: int| 0 <= i < states.len() - 1 ==> states[i + 1] == lcg(#[trigger] states[i])
}

/// Two generators seeded alike pass through the same states for any
/// sequence of calls, whatever the calls are. Since each call's result is a
/// function of the state before it and its arguments, the `k`-th call with
/// the same arguments returns the same value on both.
pub proof fn lemma_same_seed_same_trace(a: Seq<u64>, b: Seq<u64>)
    requires
        lcg_trace(a),
        lcg_trace(b),
        a.len() == b.len(),
        a.len() > 0,
        a[0] == b[0],
    ensures
        a == b,
{
    assert forall|i: int| 0 <= i < a.len() implies a[i] == b[i] by {
        lemma_trace_at(a, b, i);
    }
    assert(a =~= b);
}

proof fn lemma_trace_at(a: Seq<u64>, b: Seq<u64>, i: int)
    requires
        lcg_trace(a),
        lcg_trace(b),
        a.len() == b.len(),
        0 <= i < a.len(),
        a[0] == b[0],
    ensures
        a[i] == b[i],
    decreases i,
{
    if i > 0 {
        lemma_trace_at(a, b, i - 1);
        assert(a[i] == lcg(a[i - 1]));
        assert(b[i] == lcg(b[i - 1]));
    }
}

} // verus!
