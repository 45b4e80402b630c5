//! The document model: self-describing records with tags and named links,
//! kept in a store with a tag index and a link-target index.

use crate::index::{position, texts, IdIndex};
use crate::value::Value;
use vstd::prelude::*;

verus! {

/// The estimated size of a document, in bytes.
pub const DOCUMENT_SIZE_ESTIMATE: usize = 100;

/// Relies on `SystemTime::now` and `SystemTime::duration_since(UNIX_EPOCH)`:
/// the whole seconds since the epoch, or nothing when the clock reads earlier.
#[verifier::external_body]
fn clock_seconds() -> (r: Option<u64>)
{
    std::time::SystemTime::now().duration_since(std::time::UNIX_EPOCH).ok().map(|d| d.as_secs())
}

/// `id` once for each time `t` occurs in `s`, in order.
pub open spec fn repeat_for(s: Seq<Seq<char>>, t: Seq<char>, id: Seq<char>) -> Seq<Seq<char>>
    decreases s.len(),
{
    if s.len() == 0 {
        Seq::empty()
    } else {
        repeat_for(s.drop_last(), t, id) + if s.last() == t {
            seq![id]
        } else {
            Seq::empty()
        }
    }
}

/// A record with an id, timestamps, a payload, tags and named links.
pub struct Document {
    id: String,
    created_at: u64,
    updated_at: u64,
    version: u64,
    size_bytes: usize,
    data: Value,
    rels: Vec<String>,
    targets: Vec<String>,
    tags: Vec<String>,
}

impl Document {
    /// Tags are distinct, and each relationship name has one target.
    pub closed spec fn wf(&self) -> bool {
        &&& self.rels@.len() == self.targets@.len()
        &&& texts(self.rels@).no_duplicates()
        &&& texts(self.tags@).no_duplicates()
    }

    /// The id.
    pub closed spec fn key(&self) -> Seq<char> {
        self.id@
    }

    /// The payload.
    pub closed spec fn payload(&self) -> Value {
        self.data
    }

    /// Creation time, last update time, version and estimated size.
    pub closed spec fn meta(&self) -> (u64, u64, u64, usize) {
        (self.created_at, self.updated_at, self.version, self.size_bytes)
    }

    /// The tags, in the order first added.
    pub closed spec fn tag_list(&self) -> Seq<Seq<char>> {
        texts(self.tags@)
    }

    /// The relationship names, in the order first added.
    pub closed spec fn rel_list(&self) -> Seq<Seq<char>> {
        texts(self.rels@)
    }

    /// The link targets, position for position with `rel_list`.
    pub closed spec fn target_list(&self) -> Seq<Seq<char>> {
        texts(self.targets@)
    }

    /// A document's tags are distinct.
    pub proof fn lemma_tags_distinct(&self)
        requires
            self.wf(),
        ensures
            self.tag_list().no_duplicates(),
    {
    }

    /// A document made at time `now`, at version 1, with no tags or links.
    pub fn new_at(id: String, data: Value, now: u64) -> (r: Document)
        ensures
            r.wf(),
            r.key() == id@,
            r.payload() == data,
            r.meta() == (now, now, 1u64, DOCUMENT_SIZE_ESTIMATE),
            r.tag_list() == Seq::<Seq<char>>::empty(),
            r.rel_list() == Seq::<Seq<char>>::empty(),
            r.target_list() == Seq::<Seq<char>>::empty(),
    {
        let r = Document {
            id,
            created_at: now,
            updated_at: now,
            version: 1,
            size_bytes: DOCUMENT_SIZE_ESTIMATE,
            data,
            rels: Vec::new(),
            targets: Vec::new(),
            tags: Vec::new(),
        };
        assert(r.tag_list() =~= Seq::<Seq<char>>::empty());
        assert(r.rel_list() =~= Seq::<Seq<char>>::empty());
        assert(r.target_list() =~= Seq::<Seq<char>>::empty());
        r
    }

    /// A document stamped with the clock's current time (zero when the clock
    /// reads before the epoch).
    pub fn new(id: String, data: Value) -> (r: Document)
        ensures
            r.wf(),
            r.key() == id@,
            r.payload() == data,
            r.meta().0 == r.meta().1,
            r.meta().2 == 1,
            r.meta().3 == DOCUMENT_SIZE_ESTIMATE,
            r.tag_list() == Seq::<Seq<char>>::empty(),
            r.rel_list() == Seq::<Seq<char>>::empty(),
            r.target_list() == Seq::<Seq<char>>::empty(),
    {
        let now = match clock_seconds() {
            Some(s) => s,
            None => 0,
        };
        Document::new_at(id, data, now)
    }

    /// Links this document to `target` under the name `rel`; a link of the
    /// same name is overwritten.
    pub fn add_link(&mut self, rel: &str, target: &str)
        requires
            old(self).wf(),
        ensures
            final(self).wf(),
            final(self).key() == old(self).key(),
            final(self).payload() == old(self).payload(),
            final(self).meta() == old(self).meta(),
            final(self).tag_list() == old(self).tag_list(),
            !old(self).rel_list().contains(rel@) ==> {
                &&& final(self).rel_list() == old(self).rel_list().push(rel@)
                &&& final(self).target_list() == old(self).target_list().push(target@)
            },
            old(self).rel_list().contains(rel@) ==> {
                &&& final(self).rel_list() == old(self).rel_list()
                &&& final(self).target_list() == Seq::new(
                    old(self).target_list().len(),
                    |i: int|
                        if old(self).rel_list()[i] == rel@ {
                            target@
                        } else {
                            old(self).target_list()[i]
                        },
                )
            },
    {
        let rel = rel.to_owned();
        let target = target.to_owned();
        match position(&self.rels, &rel) {
            Some(j) => {
                let ghost pre = *self;
                self.targets.set(j, target);
                proof {
                    assert(pre.rel_list()[j as int] == rel@);
                    assert(pre.rel_list().contains(rel@));
                    assert forall|i: int| 0 <= i < pre.rel_list().len() && pre.rel_list()[i] == rel@ implies i == j by {
                        assert(pre.rel_list()[j as int] == rel@);
                    }
                    assert(self.target_list() =~= Seq::new(
                        pre.target_list().len(),
                        |i: int|
                            if pre.rel_list()[i] == rel@ {
                                target@
                            } else {
                                pre.target_list()[i]
                            },
                    ));
                }
            },
            None => {
                let ghost pre = *self;
                assert(!pre.rel_list().contains(rel@));
                self.rels.push(rel);
                self.targets.push(target);
                assert(self.rel_list() =~= pre.rel_list().push(rel@));
                assert(self.target_list() =~= pre.target_list().push(target@));
            },
        }
    }

    /// Adds `tag` unless the document already carries it.
    pub fn add_tag(&mut self, tag: &str)
        requires
            old(self).wf(),
        ensures
            final(self).wf(),
            final(self).key() == old(self).key(),
            final(self).payload() == old(self).payload(),
            final(self).meta() == old(self).meta(),
            final(self).rel_list() == old(self).rel_list(),
            final(self).target_list() == old(self).target_list(),
            final(self).tag_list() == if old(self).tag_list().contains(tag@) {
                old(self).tag_list()
            } else {
                old(self).tag_list().push(tag@)
            },
    {
        let tag = tag.to_owned();
        match position(&self.tags, &tag) {
            Some(j) => {
                assert(self.tag_list()[j as int] == tag@);
            },
            None => {
                let ghost pre = *self;
                assert(!pre.tag_list().contains(tag@));
                self.tags.push(tag);
                assert(self.tag_list() =~= pre.tag_list().push(tag@));
            },
        }
    }

    /// The id.
    pub fn id(&self) -> (r: &String)
        ensures
            r@ == self.key(),
    {
        &self.id
    }

    /// The payload.
    pub fn data(&self) -> (r: &Value)
        ensures
            *r == self.payload(),
    {
        &self.data
    }

    /// When the document was made, in seconds since the epoch.
    pub fn created_at(&self) -> (r: u64)
        ensures
            r == self.meta().0,
    {
        self.created_at
    }

    /// When the document was last changed, in seconds since the epoch.
    pub fn updated_at(&self) -> (r: u64)
        ensures
            r == self.meta().1,
    {
        self.updated_at
    }

    /// The version, 1 for a new document.
    pub fn version(&self) -> (r: u64)
        ensures
            r == self.meta().2,
    {
        self.version
    }

    /// The estimated size in bytes.
    pub fn size_bytes(&self) -> (r: usize)
        ensures
            r == self.meta().3,
    {
        self.size_bytes
    }

    /// The tags, in the order first added.
    pub fn tags(&self) -> (r: &[String])
        ensures
            texts(r@) == self.tag_list(),
    {
        self.tags.as_slice()
    }

    /// The link targets, in the order their names were first added.
    pub fn link_targets(&self) -> (r: &[String])
        ensures
            texts(r@) == self.target_list(),
    {
        self.targets.as_slice()
    }

    /// The relationship names, in the order first added.
    pub fn link_names(&self) -> (r: &[String])
        ensures
            texts(r@) == self.rel_list(),
    {
        self.rels.as_slice()
    }
}

/// What storing `doc` into `pre` leaves: `doc` under its id in place of any
/// earlier one, other documents kept, and its id appended under each of its
/// tags and link targets.
pub open spec fn stored(pre: DocumentStore, post: DocumentStore, doc: Document) -> bool {
    &&& forall|k: Seq<char>| #![auto] post.has_doc(k) == (pre.has_doc(k) || k == doc.key())
    &&& post.doc(doc.key()) == doc
    &&& forall|k: Seq<char>|
        #![auto]
        k != doc.key() && pre.has_doc(k) ==> post.doc(k) == pre.doc(k)
    &&& forall|t: Seq<char>|
        #![auto]
        post.tag_ids(t) == pre.tag_ids(t) + repeat_for(doc.tag_list(), t, doc.key())
    &&& forall|t: Seq<char>|
        #![auto]
        post.link_ids(t) == pre.link_ids(t) + repeat_for(doc.target_list(), t, doc.key())
    &&& post.doc_count() == pre.doc_count() + if pre.has_doc(doc.key()) {
        0nat
    } else {
        1nat
    }
}

/// Documents by id, with an index from each tag and from each link target to
/// the ids of the documents stored with it.
pub struct DocumentStore {
    ids: Vec<String>,
    documents: Vec<Document>,
    tag_index: IdIndex,
    link_index: IdIndex,
}

impl DocumentStore {
    /// Whether a document with id `k` is stored.
    pub closed spec fn has_doc(&self, k: Seq<char>) -> bool {
        exists|j: int| 0 <= j < self.ids@.len() && #[trigger] self.ids@[j]@ == k
    }

    /// The document stored under id `k`.
    pub closed spec fn doc(&self, k: Seq<char>) -> Document {
        let j = choose|j: int| 0 <= j < self.ids@.len() && #[trigger] self.ids@[j]@ == k;
        self.documents@[j]
    }

    /// The ids appended under tag `t`, oldest first.
    pub closed spec fn tag_ids(&self, t: Seq<char>) -> Seq<Seq<char>> {
        self.tag_index.ids(t)
    }

    /// The ids appended under link target `t`, oldest first.
    pub closed spec fn link_ids(&self, t: Seq<char>) -> Seq<Seq<char>> {
        self.link_index.ids(t)
    }

    /// The number of stored documents.
    pub closed spec fn doc_count(&self) -> nat {
        self.ids@.len()
    }

    /// The number of distinct tags indexed.
    pub closed spec fn tag_count(&self) -> nat {
        self.tag_index.key_count()
    }

    /// The number of distinct link targets indexed.
    pub closed spec fn target_count(&self) -> nat {
        self.link_index.key_count()
    }

    /// Ids are distinct and match their documents, and every indexed id is stored.
    pub closed spec fn wf(&self) -> bool {
        &&& self.primary_ok()
        &&& self.tag_index.wf()
        &&& self.link_index.wf()
        &&& forall|k: Seq<char>, i: int|
            0 <= i < self.tag_index.ids(k).len() ==> self.has_doc(#[trigger] self.tag_index.ids(k)[i])
        &&& forall|k: Seq<char>, i: int|
            0 <= i < self.link_index.ids(k).len() ==> self.has_doc(#[trigger] self.link_index.ids(k)[i])
    }

    /// Ids are distinct and match their documents.
    closed spec fn primary_ok(&self) -> bool {
        &&& self.ids@.len() == self.documents@.len()
        &&& forall|j: int|
            0 <= j < self.ids@.len() ==> #[trigger] self.ids@[j]@ == self.documents@[j].key()
                && self.documents@[j].wf()
        &&& forall|i: int, j: int|
            0 <= i < self.ids@.len() && 0 <= j < self.ids@.len() && i != j
                ==> #[trigger] self.ids@[i]@ != #[trigger] self.ids@[j]@
    }

    proof fn lemma_doc_at(&self, j: int)
        requires
            self.primary_ok(),
            0 <= j < self.ids@.len(),
        ensures
            self.has_doc(self.ids@[j]@),
            self.doc(self.ids@[j]@) == self.documents@[j],
    {
        let k = self.ids@[j]@;
        let c = choose|c: int| 0 <= c < self.ids@.len() && #[trigger] self.ids@[c]@ == k;
        assert(c == j);
    }

    /// A stored document carries the id it is stored under.
    pub proof fn lemma_stored_key(&self, k: Seq<char>)
        requires
            self.wf(),
            self.has_doc(k),
        ensures
            self.doc(k).key() == k,
            self.doc(k).wf(),
    {
        let c = choose|c: int| 0 <= c < self.ids@.len() && #[trigger] self.ids@[c]@ == k;
        self.lemma_doc_at(c);
    }

    /// Every id in the tag and link indexes is stored.
    pub proof fn lemma_indexed_stored(&self, k: Seq<char>, i: int)
        requires
            self.wf(),
        ensures
            0 <= i < self.tag_ids(k).len() ==> self.has_doc(self.tag_ids(k)[i]),
            0 <= i < self.link_ids(k).len() ==> self.has_doc(self.link_ids(k)[i]),
    {
    }

    /// The indexed tags are the tags with at least one entry, and likewise
    /// for link targets; `tag_count` and `target_count` count them.
    pub proof fn lemma_index_counts(&self)
        requires
            self.wf(),
        ensures
            self.tag_count() == Set::new(|t: Seq<char>| self.tag_ids(t).len() > 0).len(),
            self.target_count() == Set::new(|t: Seq<char>| self.link_ids(t).len() > 0).len(),
    {
        self.tag_index.lemma_key_count();
        self.link_index.lemma_key_count();
        assert(Set::new(|t: Seq<char>| self.tag_ids(t).len() > 0) =~= Set::new(
            |t: Seq<char>| self.tag_index.ids(t).len() > 0,
        ));
        assert(Set::new(|t: Seq<char>| self.link_ids(t).len() > 0) =~= Set::new(
            |t: Seq<char>| self.link_index.ids(t).len() > 0,
        ));
    }

    /// An empty store.
    pub fn new() -> (r: DocumentStore)
        ensures
            r.wf(),
            r.doc_count() == 0,
            r.tag_count() == 0,
            r.target_count() == 0,
            forall|k: Seq<char>|
                #![auto]
                !r.has_doc(k) && r.tag_ids(k) == Seq::<Seq<char>>::empty() && r.link_ids(k)
                    == Seq::<Seq<char>>::empty(),
    {
        DocumentStore {
            ids: Vec::new(),
            documents: Vec::new(),
            tag_index: IdIndex::new(),
            link_index: IdIndex::new(),
        }
    }

    /// Stores `doc`, replacing any document with its id, and appends its id
    /// under each of its tags and each of its link targets. Entries appended
    /// by earlier stores of the same id stay.
    pub fn store(&mut self, doc: Document)
        requires
            old(self).wf(),
            doc.wf(),
        ensures
            final(self).wf(),
            stored(*old(self), *final(self), doc),
    {
        let ghost pre = *self;
        let id = doc.id.clone();
        let mut i: usize = 0;
        while i < doc.tags.len()
            invariant
                pre.wf(),
                doc.wf(),
                id@ == doc.key(),
                i <= doc.tags@.len(),
                self.ids == pre.ids,
                self.documents == pre.documents,
                self.link_index == pre.link_index,
                self.tag_index.wf(),
                forall|t: Seq<char>|
                    #![auto]
                    self.tag_index.ids(t) == pre.tag_index.ids(t) + repeat_for(
                        doc.tag_list().take(i as int),
                        t,
                        doc.key(),
                    ),
            decreases doc.tags@.len() - i,
        {
            self.tag_index.append(&doc.tags[i], &id);
            proof {
                let s = doc.tag_list();
                assert(s.take(i + 1).drop_last() =~= s.take(i as int));
                assert(s.take(i + 1).last() == doc.tags@[i as int]@);
            }
            i = i + 1;
        }
        proof {
            assert(doc.tag_list().take(doc.tags@.len() as int) =~= doc.tag_list());
        }
        let mut i: usize = 0;
        while i < doc.targets.len()
            invariant
                pre.wf(),
                doc.wf(),
                id@ == doc.key(),
                i <= doc.targets@.len(),
                self.ids == pre.ids,
                self.documents == pre.documents,
                self.tag_index.wf(),
                forall|t: Seq<char>|
                    #![auto]
                    self.tag_index.ids(t) == pre.tag_index.ids(t) + repeat_for(
                        doc.tag_list(),
                        t,
                        doc.key(),
                    ),
                self.link_index.wf(),
                forall|t: Seq<char>|
                    #![auto]
                    self.link_index.ids(t) == pre.link_index.ids(t) + repeat_for(
                        doc.target_list().take(i as int),
                        t,
                        doc.key(),
                    ),
            decreases doc.targets@.len() - i,
        {
            self.link_index.append(&doc.targets[i], &id);
            proof {
                let s = doc.target_list();
                assert(s.take(i + 1).drop_last() =~= s.take(i as int));
                assert(s.take(i + 1).last() == doc.targets@[i as int]@);
            }
            i = i + 1;
        }
        proof {
            assert(doc.tag_list().take(doc.tags@.len() as int) =~= doc.tag_list());
            assert(doc.target_list().take(doc.targets@.len() as int) =~= doc.target_list());
        }
        let ghost mid = *self;
        match position(&self.ids, &id) {
            Some(j) => {
                proof {
                    pre.lemma_doc_at(j as int);
                }
                self.documents.set(j, doc);
                assert(self.ids == pre.ids);
                assert forall|k: Seq<char>| #![auto] self.has_doc(k) == pre.has_doc(k) by {
                    if pre.has_doc(k) {
                        let c = choose|c: int| 0 <= c < pre.ids@.len() && #[trigger] pre.ids@[c]@ == k;
                        assert(self.ids@[c]@ == k);
                    }
                }
                proof {
                    self.lemma_doc_at(j as int);
                }
                assert forall|k: Seq<char>|
                    #![auto]
                    k != doc.key() && pre.has_doc(k) implies self.doc(k) == pre.doc(k) by {
                    let c = choose|c: int| 0 <= c < pre.ids@.len() && #[trigger] pre.ids@[c]@ == k;
                    pre.lemma_doc_at(c);
                    self.lemma_doc_at(c);
                }
            },
            None => {
                let ghost n = pre.ids@.len() as int;
                self.ids.push(id);
                self.documents.push(doc);
                assert forall|k: Seq<char>|
                    #![auto]
                    self.has_doc(k) == (pre.has_doc(k) || k == doc.key()) by {
                    if pre.has_doc(k) {
                        let c = choose|c: int| 0 <= c < pre.ids@.len() && #[trigger] pre.ids@[c]@ == k;
                        assert(self.ids@[c]@ == k);
                    }
                    if k == doc.key() {
                        assert(self.ids@[n]@ == k);
                    }
                    if self.has_doc(k) {
                        let c = choose|c: int| 0 <= c < self.ids@.len() && #[trigger] self.ids@[c]@ == k;
                        if c < n {
                            assert(pre.ids@[c]@ == k);
                        }
                    }
                }
                proof {
                    self.lemma_doc_at(n);
                }
                assert forall|k: Seq<char>|
                    #![auto]
                    k != doc.key() && pre.has_doc(k) implies self.doc(k) == pre.doc(k) by {
                    let c = choose|c: int| 0 <= c < pre.ids@.len() && #[trigger] pre.ids@[c]@ == k;
                    pre.lemma_doc_at(c);
                    self.lemma_doc_at(c);
                }
            },
        }
        assert forall|k: Seq<char>, i: int|
            0 <= i < self.tag_index.ids(k).len() implies self.has_doc(
            #[trigger] self.tag_index.ids(k)[i],
        ) by {
            lemma_repeat_for_only(doc.tag_list(), k, doc.key());
            if i >= pre.tag_index.ids(k).len() {
                assert(self.tag_index.ids(k)[i] == repeat_for(doc.tag_list(), k, doc.key())[i - pre.tag_index.ids(k).len()]);
            } else {
                assert(self.tag_index.ids(k)[i] == pre.tag_index.ids(k)[i]);
            }
        }
        assert forall|k: Seq<char>, i: int|
            0 <= i < self.link_index.ids(k).len() implies self.has_doc(
            #[trigger] self.link_index.ids(k)[i],
        ) by {
            lemma_repeat_for_only(doc.target_list(), k, doc.key());
            if i >= pre.link_index.ids(k).len() {
                assert(self.link_index.ids(k)[i] == repeat_for(doc.target_list(), k, doc.key())[i - pre.link_index.ids(k).len()]);
            } else {
                assert(self.link_index.ids(k)[i] == pre.link_index.ids(k)[i]);
            }
        }
    }

    fn get_key(&self, id: &String) -> (r: Option<&Document>)
        requires
            self.wf(),
        ensures
            r is Some == self.has_doc(id@),
            r is Some ==> *r->Some_0 == self.doc(id@),
    {
        match position(&self.ids, id) {
            Some(j) => {
                proof {
                    self.lemma_doc_at(j as int);
                }
                Some(&self.documents[j])
            },
            None => None,
        }
    }

    /// The document stored under `id`, if any.
    pub fn get(&self, id: &str) -> (r: Option<&Document>)
        requires
            self.wf(),
        ensures
            r is Some == self.has_doc(id@),
            r is Some ==> *r->Some_0 == self.doc(id@),
    {
        self.get_key(&id.to_owned())
    }

    /// The stored documents whose ids are listed in `ids`, in list order.
    fn resolve(&self, ids: &[String]) -> (r: Vec<&Document>)
        requires
            self.wf(),
            forall|i: int| 0 <= i < ids@.len() ==> self.has_doc(#[trigger] ids@[i]@),
        ensures
            r@.len() == ids@.len(),
            forall|i: int| 0 <= i < ids@.len() ==> *#[trigger] r@[i] == self.doc(ids@[i]@),
    {
        let mut r: Vec<&Document> = Vec::new();
        let mut i: usize = 0;
        while i < ids.len()
            invariant
                self.wf(),
                forall|i: int| 0 <= i < ids@.len() ==> self.has_doc(#[trigger] ids@[i]@),
                i <= ids@.len(),
                r@.len() == i,
                forall|j: int| 0 <= j < i ==> *#[trigger] r@[j] == self.doc(ids@[j]@),
            decreases ids@.len() - i,
        {
            match self.get_key(&ids[i]) {
                Some(d) => r.push(d),
                None => {},
            }
            i = i + 1;
        }
        r
    }

    /// The documents appended under tag `tag`, oldest entry first; one entry
    /// for each store that carried the tag.
    pub fn find_by_tag(&self, tag: &str) -> (r: Vec<&Document>)
        requires
            self.wf(),
        ensures
            r@.len() == self.tag_ids(tag@).len(),
            forall|i: int|
                0 <= i < r@.len() ==> *#[trigger] r@[i] == self.doc(self.tag_ids(tag@)[i]),
            forall|i: int|
                0 <= i < r@.len() ==> self.has_doc(self.tag_ids(tag@)[i]) && (#[trigger] r@[i]).key()
                    == self.tag_ids(tag@)[i],
    {
        let ids = self.tag_index.lookup(&tag.to_owned());
        assert forall|i: int| 0 <= i < ids@.len() implies self.has_doc(#[trigger] ids@[i]@) by {
            assert(texts(ids@)[i] == ids@[i]@);
        }
        let r = self.resolve(ids);
        assert forall|i: int|
            0 <= i < r@.len() implies self.has_doc(self.tag_ids(tag@)[i]) && (#[trigger] r@[i]).key()
                == self.tag_ids(tag@)[i] by {
            assert(texts(ids@)[i] == ids@[i]@);
            self.lemma_stored_key(self.tag_ids(tag@)[i]);
        }
        r
    }

    /// The documents appended under link target `target`, oldest entry first;
    /// one entry for each stored link to it.
    pub fn find_linked_to(&self, target: &str) -> (r: Vec<&Document>)
        requires
            self.wf(),
        ensures
            r@.len() == self.link_ids(target@).len(),
            forall|i: int|
                0 <= i < r@.len() ==> *#[trigger] r@[i] == self.doc(self.link_ids(target@)[i]),
            forall|i: int|
                0 <= i < r@.len() ==> self.has_doc(self.link_ids(target@)[i]) && (#[trigger] r@[i]).key()
                    == self.link_ids(target@)[i],
    {
        let ids = self.link_index.lookup(&target.to_owned());
        assert forall|i: int| 0 <= i < ids@.len() implies self.has_doc(#[trigger] ids@[i]@) by {
            assert(texts(ids@)[i] == ids@[i]@);
        }
        let r = self.resolve(ids);
        assert forall|i: int|
            0 <= i < r@.len() implies self.has_doc(self.link_ids(target@)[i]) && (#[trigger] r@[i]).key()
                == self.link_ids(target@)[i] by {
            assert(texts(ids@)[i] == ids@[i]@);
            self.lemma_stored_key(self.link_ids(target@)[i]);
        }
        r
    }

    /// The number of stored documents.
    pub fn len(&self) -> (r: usize)
        requires
            self.wf(),
        ensures
            r == self.doc_count(),
    {
        self.ids.len()
    }

    /// The number of distinct tags indexed.
    pub fn indexed_tags(&self) -> (r: usize)
        ensures
            r == self.tag_count(),
    {
        self.tag_index.len()
    }

    /// The number of distinct link targets indexed.
    pub fn indexed_targets(&self) -> (r: usize)
        ensures
            r == self.target_count(),
    {
        self.link_index.len()
    }
}

/// Every entry of `repeat_for(s, t, id)` is `id`.
pub proof fn lemma_repeat_for_only(s: Seq<Seq<char>>, t: Seq<char>, id: Seq<char>)
    ensures
        forall|i: int| 0 <= i < repeat_for(s, t, id).len() ==> #[trigger] repeat_for(s, t, id)[i] == id,
    decreases s.len(),
{
    if s.len() > 0 {
        lemma_repeat_for_only(s.drop_last(), t, id);
        let a = repeat_for(s.drop_last(), t, id);
        assert forall|i: int| 0 <= i < repeat_for(s, t, id).len() implies #[trigger] repeat_for(
            s,
            t,
            id,
        )[i] == id by {
            if i >= a.len() {
                assert(s.last() == t);
            } else {
                assert(repeat_for(s, t, id)[i] == a[i]);
            }
        }
    }
}

} // verus!
