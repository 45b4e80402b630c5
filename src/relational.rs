//! The relational model: named tables of rows, each table with an index from
//! (column, canonical value text) to the ids of the rows inserted with it.

use crate::index::{position, texts, IdIndex};
use crate::value::{keys_distinct, serialize, value_wf, Value};
use vstd::prelude::*;

verus! {

/// A row: an id and a value for each named column.
pub struct Row {
    pub id: String,
    pub data: Vec<(String, Value)>,
}

impl Row {
    /// No column occurs twice, and every value is well formed.
    pub open spec fn wf(&self) -> bool {
        &&& keys_distinct(self.data@)
        &&& forall|i: int| 0 <= i < self.data@.len() ==> value_wf(#[trigger] self.data@[i].1)
    }
}

/// The (column, canonical value text) of each cell, in order.
pub open spec fn row_cells(data: Seq<(String, Value)>) -> Seq<(Seq<char>, Seq<char>)> {
    data.map_values(|e: (String, Value)| (e.0@, serialize(e.1)))
}

/// `id` once for each cell of `cells` equal to `(c, v)`, in cell order.
pub open spec fn cell_hits(cells: Seq<(Seq<char>, Seq<char>)>, c: Seq<char>, v: Seq<char>, id: Seq<char>) -> Seq<Seq<char>>
    decreases cells.len(),
{
    if cells.len() == 0 {
        Seq::empty()
    } else {
        cell_hits(cells.drop_last(), c, v, id) + if cells.last() == (c, v) {
            seq![id]
        } else {
            Seq::empty()
        }
    }
}

/// Every entry of `cell_hits(cells, c, v, id)` is `id`.
pub proof fn lemma_cell_hits_only(cells: Seq<(Seq<char>, Seq<char>)>, c: Seq<char>, v: Seq<char>, id: Seq<char>)
    ensures
        forall|i: int| 0 <= i < cell_hits(cells, c, v, id).len() ==> #[trigger] cell_hits(cells, c, v, id)[i] == id,
    decreases cells.len(),
{
    if cells.len() > 0 {
        lemma_cell_hits_only(cells.drop_last(), c, v, id);
        let a = cell_hits(cells.drop_last(), c, v, id);
        assert forall|i: int| 0 <= i < cell_hits(cells, c, v, id).len() implies #[trigger] cell_hits(
            cells,
            c,
            v,
            id,
        )[i] == id by {
            if i < a.len() {
                assert(cell_hits(cells, c, v, id)[i] == a[i]);
            }
        }
    }
}

/// What inserting `row` into table `pre` leaves: `row` stored under its id in
/// place of any earlier one, other rows kept, and its id appended under each
/// of its cells' (column, canonical value text).
pub open spec fn inserted(pre: Table, post: Table, row: Row) -> bool {
    &&& post.name_view() == pre.name_view()
    &&& forall|k: Seq<char>| #![auto] post.has_row(k) == (pre.has_row(k) || k == row.id@)
    &&& post.row(row.id@) == row
    &&& forall|k: Seq<char>|
        #![auto]
        k != row.id@ && pre.has_row(k) ==> post.row(k) == pre.row(k)
    &&& forall|c: Seq<char>, v: Seq<char>|
        #![auto]
        post.column_ids(c, v) == pre.column_ids(c, v) + cell_hits(row_cells(row.data@), c, v, row.id@)
    &&& post.row_count() == pre.row_count() + if pre.has_row(row.id@) {
        0nat
    } else {
        1nat
    }
}

/// A named table: rows by id and a per-column value index.
pub struct Table {
    name: String,
    ids: Vec<String>,
    rows: Vec<Row>,
    columns: Vec<String>,
    indexes: Vec<IdIndex>,
}

impl Table {
    /// The table's name.
    pub closed spec fn name_view(&self) -> Seq<char> {
        self.name@
    }

    /// Whether a row with id `k` is stored.
    pub closed spec fn has_row(&self, k: Seq<char>) -> bool {
        exists|j: int| 0 <= j < self.ids@.len() && #[trigger] self.ids@[j]@ == k
    }

    /// The row stored under id `k`.
    pub closed spec fn row(&self, k: Seq<char>) -> Row {
        let j = choose|j: int| 0 <= j < self.ids@.len() && #[trigger] self.ids@[j]@ == k;
        self.rows@[j]
    }

    /// The number of rows.
    pub closed spec fn row_count(&self) -> nat {
        self.ids@.len()
    }

    closed spec fn has_column(&self, c: Seq<char>) -> bool {
        exists|j: int| 0 <= j < self.columns@.len() && #[trigger] self.columns@[j]@ == c
    }

    /// The ids appended under column `c` and value text `v`, oldest first.
    pub closed spec fn column_ids(&self, c: Seq<char>, v: Seq<char>) -> Seq<Seq<char>> {
        if self.has_column(c) {
            let j = choose|j: int| 0 <= j < self.columns@.len() && #[trigger] self.columns@[j]@ == c;
            self.indexes@[j].ids(v)
        } else {
            Seq::empty()
        }
    }

    closed spec fn primary_ok(&self) -> bool {
        &&& self.ids@.len() == self.rows@.len()
        &&& forall|j: int| 0 <= j < self.ids@.len() ==> #[trigger] self.ids@[j]@ == self.rows@[j].id@
        &&& forall|i: int, j: int|
            0 <= i < self.ids@.len() && 0 <= j < self.ids@.len() && i != j
                ==> #[trigger] self.ids@[i]@ != #[trigger] self.ids@[j]@
    }

    closed spec fn columns_ok(&self) -> bool {
        &&& self.columns@.len() == self.indexes@.len()
        &&& forall|j: int| 0 <= j < self.indexes@.len() ==> #[trigger] self.indexes@[j].wf()
        &&& forall|i: int, j: int|
            0 <= i < self.columns@.len() && 0 <= j < self.columns@.len() && i != j
                ==> #[trigger] self.columns@[i]@ != #[trigger] self.columns@[j]@
    }

    /// Ids are distinct and match their rows, and every indexed id is stored.
    pub closed spec fn wf(&self) -> bool {
        &&& self.primary_ok()
        &&& self.columns_ok()
        &&& forall|c: Seq<char>, v: Seq<char>, i: int|
            0 <= i < self.column_ids(c, v).len() ==> self.has_row(#[trigger] self.column_ids(c, v)[i])
    }

    proof fn lemma_row_at(&self, j: int)
        requires
            self.primary_ok(),
            0 <= j < self.ids@.len(),
        ensures
            self.has_row(self.ids@[j]@),
            self.row(self.ids@[j]@) == self.rows@[j],
    {
        let k = self.ids@[j]@;
        let c = choose|c: int| 0 <= c < self.ids@.len() && #[trigger] self.ids@[c]@ == k;
        assert(c == j);
    }

    proof fn lemma_column_at(&self, j: int)
        requires
            self.columns_ok(),
            0 <= j < self.columns@.len(),
        ensures
            self.has_column(self.columns@[j]@),
            forall|v: Seq<char>| #[trigger] self.column_ids(self.columns@[j]@, v) == self.indexes@[j].ids(v),
    {
        let k = self.columns@[j]@;
        let c = choose|c: int| 0 <= c < self.columns@.len() && #[trigger] self.columns@[c]@ == k;
        assert(c == j);
    }

    /// A stored row carries the id it is stored under.
    pub proof fn lemma_stored_key(&self, k: Seq<char>)
        requires
            self.wf(),
            self.has_row(k),
        ensures
            self.row(k).id@ == k,
    {
        let c = choose|c: int| 0 <= c < self.ids@.len() && #[trigger] self.ids@[c]@ == k;
        self.lemma_row_at(c);
    }

    /// An empty table named `name`.
    pub fn new(name: String) -> (r: Table)
        ensures
            r.wf(),
            r.name_view() == name@,
            r.row_count() == 0,
            forall|k: Seq<char>| #![auto] !r.has_row(k),
            forall|c: Seq<char>, v: Seq<char>| #![auto] r.column_ids(c, v) == Seq::<Seq<char>>::empty(),
    {
        Table { name, ids: Vec::new(), rows: Vec::new(), columns: Vec::new(), indexes: Vec::new() }
    }

    /// Appends `id` under column `col` and value text `val`.
    fn index_cell(&mut self, col: &String, val: &String, id: &String)
        requires
            old(self).columns_ok(),
        ensures
            final(self).columns_ok(),
            final(self).name == old(self).name,
            final(self).ids == old(self).ids,
            final(self).rows == old(self).rows,
            forall|c: Seq<char>, v: Seq<char>|
                #![auto]
                final(self).column_ids(c, v) == if c == col@ && v == val@ {
                    old(self).column_ids(c, v).push(id@)
                } else {
                    old(self).column_ids(c, v)
                },
    {
        let ghost pre = *self;
        match position(&self.columns, col) {
            Some(j) => {
                proof {
                    pre.lemma_column_at(j as int);
                }
                let mut idx = IdIndex::new();
                self.indexes.set_and_swap(j, &mut idx);
                idx.append(val, id);
                self.indexes.set_and_swap(j, &mut idx);
                proof {
                    self.lemma_column_at(j as int);
                }
                assert forall|c: Seq<char>, v: Seq<char>|
                    #![auto]
                    self.column_ids(c, v) == if c == col@ && v == val@ {
                        pre.column_ids(c, v).push(id@)
                    } else {
                        pre.column_ids(c, v)
                    } by {
                    if pre.has_column(c) {
                        let k = choose|k: int| 0 <= k < pre.columns@.len() && #[trigger] pre.columns@[k]@ == c;
                        pre.lemma_column_at(k);
                        self.lemma_column_at(k);
                    } else {
                        assert(!self.has_column(c));
                    }
                }
            },
            None => {
                let mut idx = IdIndex::new();
                idx.append(val, id);
                let ghost n = pre.columns@.len() as int;
                self.columns.push(col.clone());
                self.indexes.push(idx);
                proof {
                    self.lemma_column_at(n);
                }
                assert forall|c: Seq<char>, v: Seq<char>|
                    #![auto]
                    self.column_ids(c, v) == if c == col@ && v == val@ {
                        pre.column_ids(c, v).push(id@)
                    } else {
                        pre.column_ids(c, v)
                    } by {
                    if pre.has_column(c) {
                        let k = choose|k: int| 0 <= k < pre.columns@.len() && #[trigger] pre.columns@[k]@ == c;
                        pre.lemma_column_at(k);
                        self.lemma_column_at(k);
                    } else if c != col@ {
                        if self.has_column(c) {
                            let k = choose|k: int| 0 <= k < self.columns@.len() && #[trigger] self.columns@[k]@ == c;
                            if k < n {
                                assert(pre.columns@[k]@ == c);
                            }
                        }
                    }
                }
            },
        }
    }

    /// Stores `row`, replacing any row with its id, and appends its id under
    /// each of its cells' (column, canonical value text). Earlier entries stay.
    pub fn insert(&mut self, row: Row)
        requires
            old(self).wf(),
            row.wf(),
        ensures
            final(self).wf(),
            inserted(*old(self), *final(self), row),
    {
        let ghost pre = *self;
        let id = row.id.clone();
        let mut i: usize = 0;
        while i < row.data.len()
            invariant
                pre.wf(),
                id@ == row.id@,
                i <= row.data@.len(),
                self.name == pre.name,
                self.ids == pre.ids,
                self.rows == pre.rows,
                self.columns_ok(),
                forall|c: Seq<char>, v: Seq<char>|
                    #![auto]
                    self.column_ids(c, v) == pre.column_ids(c, v) + cell_hits(
                        row_cells(row.data@).take(i as int),
                        c,
                        v,
                        row.id@,
                    ),
            decreases row.data@.len() - i,
        {
            let text = row.data[i].1.serialized();
            self.index_cell(&row.data[i].0, &text, &id);
            proof {
                let s = row_cells(row.data@);
                assert(s.take(i + 1).drop_last() =~= s.take(i as int));
                assert(s.take(i + 1).last() == s[i as int]);
            }
            i = i + 1;
        }
        proof {
            assert(row_cells(row.data@).take(row.data@.len() as int) =~= row_cells(row.data@));
        }
        let ghost mid = *self;
        match position(&self.ids, &id) {
            Some(j) => {
                proof {
                    pre.lemma_row_at(j as int);
                }
                self.rows.set(j, row);
                assert forall|k: Seq<char>| #![auto] self.has_row(k) == pre.has_row(k) by {
                    if pre.has_row(k) {
                        let c = choose|c: int| 0 <= c < pre.ids@.len() && #[trigger] pre.ids@[c]@ == k;
                        assert(self.ids@[c]@ == k);
                    }
                }
                proof {
                    self.lemma_row_at(j as int);
                }
                assert forall|k: Seq<char>|
                    #![auto]
                    k != row.id@ && pre.has_row(k) implies self.row(k) == pre.row(k) by {
                    let c = choose|c: int| 0 <= c < pre.ids@.len() && #[trigger] pre.ids@[c]@ == k;
                    pre.lemma_row_at(c);
                    self.lemma_row_at(c);
                }
            },
            None => {
                let ghost n = pre.ids@.len() as int;
                self.ids.push(id);
                self.rows.push(row);
                assert forall|k: Seq<char>|
                    #![auto]
                    self.has_row(k) == (pre.has_row(k) || k == row.id@) by {
                    if pre.has_row(k) {
                        let c = choose|c: int| 0 <= c < pre.ids@.len() && #[trigger] pre.ids@[c]@ == k;
                        assert(self.ids@[c]@ == k);
                    }
                    if k == row.id@ {
                        assert(self.ids@[n]@ == k);
                    }
                    if self.has_row(k) {
                        let c = choose|c: int| 0 <= c < self.ids@.len() && #[trigger] self.ids@[c]@ == k;
                        if c < n {
                            assert(pre.ids@[c]@ == k);
                        }
                    }
                }
                proof {
                    self.lemma_row_at(n);
                }
                assert forall|k: Seq<char>|
                    #![auto]
                    k != row.id@ && pre.has_row(k) implies self.row(k) == pre.row(k) by {
                    let c = choose|c: int| 0 <= c < pre.ids@.len() && #[trigger] pre.ids@[c]@ == k;
                    pre.lemma_row_at(c);
                    self.lemma_row_at(c);
                }
            },
        }
        assert forall|c: Seq<char>, v: Seq<char>|
            #![auto]
            self.column_ids(c, v) == pre.column_ids(c, v) + cell_hits(row_cells(row.data@), c, v, row.id@) by {
            assert(self.columns == mid.columns && self.indexes == mid.indexes);
            assert(self.column_ids(c, v) == mid.column_ids(c, v));
        }
        assert forall|c: Seq<char>, v: Seq<char>, i: int|
            0 <= i < self.column_ids(c, v).len() implies self.has_row(
            #[trigger] self.column_ids(c, v)[i],
        ) by {
            lemma_cell_hits_only(row_cells(row.data@), c, v, row.id@);
            assert(self.columns == mid.columns && self.indexes == mid.indexes);
            assert(self.column_ids(c, v) == mid.column_ids(c, v));
            if i >= pre.column_ids(c, v).len() {
                assert(self.column_ids(c, v)[i] == cell_hits(row_cells(row.data@), c, v, row.id@)[i - pre.column_ids(c, v).len()]);
            } else {
                assert(self.column_ids(c, v)[i] == pre.column_ids(c, v)[i]);
            }
        }
    }

    fn get_key(&self, id: &String) -> (r: Option<&Row>)
        requires
            self.wf(),
        ensures
            r is Some == self.has_row(id@),
            r is Some ==> *r->Some_0 == self.row(id@),
    {
        match position(&self.ids, id) {
            Some(j) => {
                proof {
                    self.lemma_row_at(j as int);
                }
                Some(&self.rows[j])
            },
            None => None,
        }
    }

    /// The row stored under `id`, if any.
    pub fn get(&self, id: &str) -> (r: Option<&Row>)
        requires
            self.wf(),
        ensures
            r is Some == self.has_row(id@),
            r is Some ==> *r->Some_0 == self.row(id@),
    {
        self.get_key(&id.to_owned())
    }

    /// The rows appended under column `col` and canonical value text `val`,
    /// oldest entry first. `val` must be written as the value's canonical text.
    pub fn find_by_column(&self, col: &str, val: &str) -> (r: Vec<&Row>)
        requires
            self.wf(),
        ensures
            r@.len() == self.column_ids(col@, val@).len(),
            forall|i: int|
                0 <= i < r@.len() ==> *#[trigger] r@[i] == self.row(self.column_ids(col@, val@)[i]),
            forall|i: int|
                0 <= i < r@.len() ==> self.has_row(self.column_ids(col@, val@)[i]) && (#[trigger] r@[i]).id@
                    == self.column_ids(col@, val@)[i],
    {
        let col = col.to_owned();
        let val = val.to_owned();
        let mut r: Vec<&Row> = Vec::new();
        match position(&self.columns, &col) {
            Some(j) => {
                proof {
                    self.lemma_column_at(j as int);
                }
                let ids = self.indexes[j].lookup(&val);
                let ghost want = self.column_ids(col@, val@);
                assert(texts(ids@) == want);
                let mut i: usize = 0;
                while i < ids.len()
                    invariant
                        self.wf(),
                        texts(ids@) == want,
                        want == self.column_ids(col@, val@),
                        i <= ids@.len(),
                        r@.len() == i,
                        forall|j: int| 0 <= j < i ==> *#[trigger] r@[j] == self.row(want[j]),
                    decreases ids@.len() - i,
                {
                    assert(texts(ids@)[i as int] == ids@[i as int]@);
                    match self.get_key(&ids[i]) {
                        Some(row) => r.push(row),
                        None => {},
                    }
                    i = i + 1;
                }
            },
            None => {
                assert(!self.has_column(col@));
            },
        }
        assert forall|i: int|
            0 <= i < r@.len() implies self.has_row(self.column_ids(col@, val@)[i]) && (#[trigger] r@[i]).id@
                == self.column_ids(col@, val@)[i] by {
            self.lemma_stored_key(self.column_ids(col@, val@)[i]);
        }
        r
    }

    /// The number of rows.
    pub fn len(&self) -> (r: usize)
        requires
            self.wf(),
        ensures
            r == self.row_count(),
    {
        self.ids.len()
    }
}

/// Tables by name.
pub struct RelationalDB {
    names: Vec<String>,
    tables: Vec<Table>,
}

impl RelationalDB {
    /// Whether a table named `n` exists.
    pub closed spec fn has_table(&self, n: Seq<char>) -> bool {
        exists|j: int| 0 <= j < self.names@.len() && #[trigger] self.names@[j]@ == n
    }

    /// The table named `n`.
    pub closed spec fn table(&self, n: Seq<char>) -> Table {
        let j = choose|j: int| 0 <= j < self.names@.len() && #[trigger] self.names@[j]@ == n;
        self.tables@[j]
    }

    /// The number of tables.
    pub closed spec fn table_count(&self) -> nat {
        self.names@.len()
    }

    /// Names are distinct and every table is well formed.
    pub closed spec fn wf(&self) -> bool {
        &&& self.names@.len() == self.tables@.len()
        &&& forall|j: int| 0 <= j < self.tables@.len() ==> #[trigger] self.tables@[j].wf()
        &&& forall|i: int, j: int|
            0 <= i < self.names@.len() && 0 <= j < self.names@.len() && i != j
                ==> #[trigger] self.names@[i]@ != #[trigger] self.names@[j]@
    }

    proof fn lemma_table_at(&self, j: int)
        requires
            self.wf(),
            0 <= j < self.names@.len(),
        ensures
            self.has_table(self.names@[j]@),
            self.table(self.names@[j]@) == self.tables@[j],
    {
        let k = self.names@[j]@;
        let c = choose|c: int| 0 <= c < self.names@.len() && #[trigger] self.names@[c]@ == k;
        assert(c == j);
    }

    /// Every table of a well-formed database is well formed.
    pub proof fn lemma_tables_wf(&self, n: Seq<char>)
        requires
            self.wf(),
            self.has_table(n),
        ensures
            self.table(n).wf(),
    {
        let c = choose|c: int| 0 <= c < self.names@.len() && #[trigger] self.names@[c]@ == n;
        self.lemma_table_at(c);
    }

    /// A database with no tables.
    pub fn new() -> (r: RelationalDB)
        ensures
            r.wf(),
            r.table_count() == 0,
            forall|n: Seq<char>| #![auto] !r.has_table(n),
    {
        RelationalDB { names: Vec::new(), tables: Vec::new() }
    }

    /// Puts `t` under its name, in place of any table of that name.
    fn put_table(&mut self, name: &String, t: Table)
        requires
            old(self).wf(),
            t.wf(),
        ensures
            final(self).wf(),
            forall|n: Seq<char>| #![auto] final(self).has_table(n) == (old(self).has_table(n) || n == name@),
            final(self).table(name@) == t,
            forall|n: Seq<char>|
                #![auto]
                n != name@ && old(self).has_table(n) ==> final(self).table(n) == old(self).table(n),
            final(self).table_count() == old(self).table_count() + if old(self).has_table(name@) {
                0nat
            } else {
                1nat
            },
    {
        let ghost pre = *self;
        match position(&self.names, name) {
            Some(j) => {
                proof {
                    pre.lemma_table_at(j as int);
                }
                self.tables.set(j, t);
                assert forall|n: Seq<char>| #![auto] self.has_table(n) == pre.has_table(n) by {
                    if pre.has_table(n) {
                        let c = choose|c: int| 0 <= c < pre.names@.len() && #[trigger] pre.names@[c]@ == n;
                        assert(self.names@[c]@ == n);
                    }
                }
                proof {
                    self.lemma_table_at(j as int);
                }
                assert forall|n: Seq<char>|
                    #![auto]
                    n != name@ && pre.has_table(n) implies self.table(n) == pre.table(n) by {
                    let c = choose|c: int| 0 <= c < pre.names@.len() && #[trigger] pre.names@[c]@ == n;
                    pre.lemma_table_at(c);
                    self.lemma_table_at(c);
                }
            },
            None => {
                let ghost k = pre.names@.len() as int;
                self.names.push(name.clone());
                self.tables.push(t);
                assert forall|n: Seq<char>|
                    #![auto]
                    self.has_table(n) == (pre.has_table(n) || n == name@) by {
                    if pre.has_table(n) {
                        let c = choose|c: int| 0 <= c < pre.names@.len() && #[trigger] pre.names@[c]@ == n;
                        assert(self.names@[c]@ == n);
                    }
                    if n == name@ {
                        assert(self.names@[k]@ == n);
                    }
                    if self.has_table(n) {
                        let c = choose|c: int| 0 <= c < self.names@.len() && #[trigger] self.names@[c]@ == n;
                        if c < k {
                            assert(pre.names@[c]@ == n);
                        }
                    }
                }
                proof {
                    self.lemma_table_at(k);
                }
                assert forall|n: Seq<char>|
                    #![auto]
                    n != name@ && pre.has_table(n) implies self.table(n) == pre.table(n) by {
                    let c = choose|c: int| 0 <= c < pre.names@.len() && #[trigger] pre.names@[c]@ == n;
                    pre.lemma_table_at(c);
                    self.lemma_table_at(c);
                }
            },
        }
    }

    /// Makes an empty table named `name`, replacing any table of that name.
    pub fn create_table(&mut self, name: String)
        requires
            old(self).wf(),
        ensures
            final(self).wf(),
            forall|n: Seq<char>| #![auto] final(self).has_table(n) == (old(self).has_table(n) || n == name@),
            final(self).table(name@).name_view() == name@,
            final(self).table(name@).row_count() == 0,
            forall|k: Seq<char>| #![auto] !final(self).table(name@).has_row(k),
            forall|c: Seq<char>, v: Seq<char>|
                #![auto]
                final(self).table(name@).column_ids(c, v) == Seq::<Seq<char>>::empty(),
            forall|n: Seq<char>|
                #![auto]
                n != name@ && old(self).has_table(n) ==> final(self).table(n) == old(self).table(n),
            final(self).table_count() == old(self).table_count() + if old(self).has_table(name@) {
                0nat
            } else {
                1nat
            },
    {
        let key = name.clone();
        let t = Table::new(name);
        self.put_table(&key, t);
    }

    /// Inserts `row` into the table named `table`; when there is no such
    /// table the row is dropped and nothing changes.
    pub fn insert(&mut self, table: &str, row: Row)
        requires
            old(self).wf(),
            row.wf(),
        ensures
            final(self).wf(),
            final(self).table_count() == old(self).table_count(),
            !old(self).has_table(table@) ==> *final(self) == *old(self),
            old(self).has_table(table@) ==> {
                &&& forall|n: Seq<char>| #![auto] final(self).has_table(n) == old(self).has_table(n)
                &&& inserted(old(self).table(table@), final(self).table(table@), row)
                &&& forall|n: Seq<char>|
                    #![auto]
                    n != table@ && old(self).has_table(n) ==> final(self).table(n) == old(self).table(n)
            },
    {
        let name = table.to_owned();
        match position(&self.names, &name) {
            Some(j) => {
                proof {
                    self.lemma_table_at(j as int);
                }
                let mut t = Table::new(String::new());
                self.tables.set_and_swap(j, &mut t);
                let ghost mid = *self;
                t.insert(row);
                self.tables.set_and_swap(j, &mut t);
                assert forall|n: Seq<char>| #![auto] self.has_table(n) == old(self).has_table(n) by {
                    if old(self).has_table(n) {
                        let c = choose|c: int| 0 <= c < old(self).names@.len() && #[trigger] old(self).names@[c]@ == n;
                        assert(self.names@[c]@ == n);
                    }
                }
                proof {
                    self.lemma_table_at(j as int);
                }
                assert forall|n: Seq<char>|
                    #![auto]
                    n != table@ && old(self).has_table(n) implies self.table(n) == old(self).table(n) by {
                    let c = choose|c: int| 0 <= c < old(self).names@.len() && #[trigger] old(self).names@[c]@ == n;
                    old(self).lemma_table_at(c);
                    self.lemma_table_at(c);
                }
            },
            None => {
                assert(!self.has_table(table@));
            },
        }
    }

    /// The table named `name`, if any.
    pub fn table_named(&self, name: &str) -> (r: Option<&Table>)
        requires
            self.wf(),
        ensures
            r is Some == self.has_table(name@),
            r is Some ==> *r->Some_0 == self.table(name@),
    {
        match position(&self.names, &name.to_owned()) {
            Some(j) => {
                proof {
                    self.lemma_table_at(j as int);
                }
                Some(&self.tables[j])
            },
            None => None,
        }
    }

    /// The row `id` of table `table`; none when either is missing.
    pub fn get(&self, table: &str, id: &str) -> (r: Option<&Row>)
        requires
            self.wf(),
        ensures
            r is Some == (self.has_table(table@) && self.table(table@).has_row(id@)),
            r is Some ==> *r->Some_0 == self.table(table@).row(id@),
    {
        match self.table_named(table) {
            Some(t) => {
                proof {
                    self.lemma_tables_wf(table@);
                }
                t.get(id)
            },
            None => None,
        }
    }

    /// The rows of table `table` appended under column `col` and canonical
    /// value text `val`, oldest first; empty when the table is missing.
    pub fn find_by_column(&self, table: &str, col: &str, val: &str) -> (r: Vec<&Row>)
        requires
            self.wf(),
        ensures
            !self.has_table(table@) ==> r@.len() == 0,
            self.has_table(table@) ==> {
                &&& r@.len() == self.table(table@).column_ids(col@, val@).len()
                &&& forall|i: int|
                    0 <= i < r@.len() ==> *#[trigger] r@[i] == self.table(table@).row(
                        self.table(table@).column_ids(col@, val@)[i],
                    )
                &&& forall|i: int|
                    0 <= i < r@.len() ==> self.table(table@).has_row(
                        self.table(table@).column_ids(col@, val@)[i],
                    ) && (#[trigger] r@[i]).id@ == self.table(table@).column_ids(col@, val@)[i]
            },
    {
        match self.table_named(table) {
            Some(t) => {
                proof {
                    self.lemma_tables_wf(table@);
                }
                t.find_by_column(col, val)
            },
            None => Vec::new(),
        }
    }

    /// The number of tables.
    pub fn len(&self) -> (r: usize)
        requires
            self.wf(),
        ensures
            r == self.table_count(),
    {
        self.names.len()
    }
}

} // verus!
