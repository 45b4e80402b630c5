//! An append-only inverted index from string keys to ordered lists of ids.

use vstd::prelude::*;

verus! {

/// The views of a list of strings.
pub open spec fn texts(v: Seq<String>) -> Seq<Seq<char>> {
    v.map_values(|s: String| s@)
}

/// Where `k` stands in `keys`, if it does.
pub(crate) fn position(keys: &Vec<String>, k: &String) -> (r: Option<usize>)
    ensures
        match r {
            Some(j) => j < keys@.len() && keys@[j as int]@ == k@,
            None => forall|j: int| 0 <= j < keys@.len() ==> keys@[j]@ != k@,
        },
{
    let mut i: usize = 0;
    while i < keys.len()
        invariant
            i <= keys@.len(),
            forall|j: int| 0 <= j < i ==> keys@[j]@ != k@,
        decreases keys@.len() - i,
    {
        if keys[i] == *k {
            return Some(i);
        }
        i = i + 1;
    }
    None
}

/// Keys in insertion order, each with the ids appended under it.
pub struct IdIndex {
    keys: Vec<String>,
    lists: Vec<Vec<String>>,
}

impl IdIndex {
    /// Keys and lists line up, and no key appears twice.
    pub closed spec fn wf(&self) -> bool {
        &&& self.keys@.len() == self.lists@.len()
        &&& forall|j: int| 0 <= j < self.lists@.len() ==> #[trigger] self.lists@[j]@.len() > 0
        &&& forall|i: int, j: int|
            0 <= i < self.keys@.len() && 0 <= j < self.keys@.len() && i != j
                ==> #[trigger] self.keys@[i]@ != #[trigger] self.keys@[j]@
    }

    /// Whether `k` has an entry.
    pub closed spec fn has(&self, k: Seq<char>) -> bool {
        exists|j: int| 0 <= j < self.keys@.len() && #[trigger] self.keys@[j]@ == k
    }

    /// The ids appended under `k`, oldest first; empty when `k` has no entry.
    pub closed spec fn ids(&self, k: Seq<char>) -> Seq<Seq<char>> {
        if self.has(k) {
            let j = choose|j: int| 0 <= j < self.keys@.len() && #[trigger] self.keys@[j]@ == k;
            texts(self.lists@[j]@)
        } else {
            Seq::empty()
        }
    }

    /// The number of keys with an entry.
    pub closed spec fn key_count(&self) -> nat {
        self.keys@.len()
    }

    proof fn lemma_ids_at(&self, j: int)
        requires
            self.wf(),
            0 <= j < self.keys@.len(),
        ensures
            self.has(self.keys@[j]@),
            self.ids(self.keys@[j]@) == texts(self.lists@[j]@),
    {
        let k = self.keys@[j]@;
        assert(self.has(k));
        let c = choose|c: int| 0 <= c < self.keys@.len() && #[trigger] self.keys@[c]@ == k;
        assert(c == j);
    }

    /// The keys with an entry are the keys with at least one id, and there
    /// are `key_count` of them.
    pub proof fn lemma_key_count(&self)
        requires
            self.wf(),
        ensures
            forall|k: Seq<char>| #![auto] self.has(k) == (self.ids(k).len() > 0),
            self.key_count() == Set::new(|k: Seq<char>| self.ids(k).len() > 0).len(),
    {
        let s = texts(self.keys@);
        assert forall|k: Seq<char>| #![auto] self.has(k) == (self.ids(k).len() > 0) by {
            if self.has(k) {
                let c = choose|c: int| 0 <= c < self.keys@.len() && #[trigger] self.keys@[c]@ == k;
                self.lemma_ids_at(c);
                assert(self.lists@[c]@.len() > 0);
            }
        }
        assert(s.no_duplicates()) by {
            assert forall|i: int, j: int| 0 <= i < s.len() && 0 <= j < s.len() && i != j implies s[i] != s[j] by {
                assert(s[i] == self.keys@[i]@ && s[j] == self.keys@[j]@);
            }
        }
        s.unique_seq_to_set();
        assert forall|k: Seq<char>| #![auto] s.to_set().contains(k) == (self.ids(k).len() > 0) by {
            if s.contains(k) {
                let j = choose|j: int| 0 <= j < s.len() && s[j] == k;
                assert(self.keys@[j]@ == k);
            }
            if self.has(k) {
                let c = choose|c: int| 0 <= c < self.keys@.len() && #[trigger] self.keys@[c]@ == k;
                assert(s[c] == k);
            }
        }
        assert(Set::new(|k: Seq<char>| self.ids(k).len() > 0) =~= s.to_set());
    }

    /// An empty index.
    pub fn new() -> (r: IdIndex)
        ensures
            r.wf(),
            r.key_count() == 0,
            forall|k: Seq<char>| #![auto] !r.has(k) && r.ids(k) == Seq::<Seq<char>>::empty(),
    {
        IdIndex { keys: Vec::new(), lists: Vec::new() }
    }

    /// The number of keys with an entry.
    pub fn len(&self) -> (r: usize)
        ensures
            r == self.key_count(),
    {
        self.keys.len()
    }

    /// Appends `id` to the list under `key`, making the entry if there is none.
    pub fn append(&mut self, key: &String, id: &String)
        requires
            old(self).wf(),
        ensures
            final(self).wf(),
            forall|k: Seq<char>| #![auto] final(self).has(k) == (old(self).has(k) || k == key@),
            forall|k: Seq<char>|
                #![auto]
                final(self).ids(k) == if k == key@ {
                    old(self).ids(k).push(id@)
                } else {
                    old(self).ids(k)
                },
            final(self).key_count() == old(self).key_count() + if old(self).has(key@) {
                0nat
            } else {
                1nat
            },
    {
        let ghost pre = *self;
        match position(&self.keys, key) {
            Some(j) => {
                proof {
                    pre.lemma_ids_at(j as int);
                }
                let mut list: Vec<String> = Vec::new();
                self.lists.set_and_swap(j, &mut list);
                list.push(id.clone());
                self.lists.set_and_swap(j, &mut list);
                assert(self.keys@ == pre.keys@);
                assert forall|k: Seq<char>| #![auto] self.has(k) == (pre.has(k) || k == key@) by {
                    if pre.has(k) {
                        let c = choose|c: int| 0 <= c < pre.keys@.len() && #[trigger] pre.keys@[c]@ == k;
                        assert(self.keys@[c]@ == k);
                    }
                    if self.has(k) {
                        let c = choose|c: int| 0 <= c < self.keys@.len() && #[trigger] self.keys@[c]@ == k;
                        assert(pre.keys@[c]@ == k);
                    }
                }
                assert forall|k: Seq<char>|
                    #![auto]
                    self.ids(k) == if k == key@ {
                        pre.ids(k).push(id@)
                    } else {
                        pre.ids(k)
                    } by {
                    if self.has(k) {
                        let c = choose|c: int| 0 <= c < self.keys@.len() && #[trigger] self.keys@[c]@ == k;
                        self.lemma_ids_at(c);
                        pre.lemma_ids_at(c);
                        if k == key@ {
                            assert(c == j);
                            assert(texts(self.lists@[c]@) =~= texts(pre.lists@[c]@).push(id@));
                        }
                    }
                }
            },
            None => {
                self.keys.push(key.clone());
                let mut list: Vec<String> = Vec::new();
                list.push(id.clone());
                self.lists.push(list);
                let ghost n = pre.keys@.len() as int;
                assert(!pre.has(key@));
                assert forall|k: Seq<char>| #![auto] self.has(k) == (pre.has(k) || k == key@) by {
                    if pre.has(k) {
                        let c = choose|c: int| 0 <= c < pre.keys@.len() && #[trigger] pre.keys@[c]@ == k;
                        assert(self.keys@[c]@ == k);
                    }
                    if k == key@ {
                        assert(self.keys@[n]@ == k);
                    }
                    if self.has(k) {
                        let c = choose|c: int| 0 <= c < self.keys@.len() && #[trigger] self.keys@[c]@ == k;
                        if c < n {
                            assert(pre.keys@[c]@ == k);
                        }
                    }
                }
                assert forall|k: Seq<char>|
                    #![auto]
                    self.ids(k) == if k == key@ {
                        pre.ids(k).push(id@)
                    } else {
                        pre.ids(k)
                    } by {
                    if self.has(k) {
                        let c = choose|c: int| 0 <= c < self.keys@.len() && #[trigger] self.keys@[c]@ == k;
                        self.lemma_ids_at(c);
                        if c < n {
                            pre.lemma_ids_at(c);
                        } else {
                            assert(texts(self.lists@[c]@) =~= seq![id@]);
                        }
                    }
                }
            },
        }
    }

    /// The ids appended under `key`, oldest first; empty when it has no entry.
    pub fn lookup(&self, key: &String) -> (r: &[String])
        requires
            self.wf(),
        ensures
            texts(r@) == self.ids(key@),
    {
        match position(&self.keys, key) {
            Some(j) => {
                proof {
                    self.lemma_ids_at(j as int);
                }
                self.lists[j].as_slice()
            },
            None => {
                assert(!self.has(key@));
                assert(texts(Seq::<String>::empty()) =~= Seq::<Seq<char>>::empty());
                &[]
            },
        }
    }
}

} // verus!
