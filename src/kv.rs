//! A minimal string key-value store.

use crate::index::position;
use vstd::prelude::*;

verus! {

/// Values by key; a put replaces the value of its key.
pub struct BurrowDB {
    keys: Vec<String>,
    values: Vec<String>,
}

impl View for BurrowDB {
    type V = Map<Seq<char>, Seq<char>>;

    closed spec fn view(&self) -> Map<Seq<char>, Seq<char>> {
        Map::new(
            |k: Seq<char>| exists|j: int| 0 <= j < self.keys@.len() && #[trigger] self.keys@[j]@ == k,
            |k: Seq<char>|
                self.values@[choose|j: int| 0 <= j < self.keys@.len() && #[trigger] self.keys@[j]@ == k]@,
        )
    }
}

impl BurrowDB {
    /// Keys and values line up, and no key appears twice.
    pub closed spec fn wf(&self) -> bool {
        &&& self.keys@.len() == self.values@.len()
        &&& forall|i: int, j: int|
            0 <= i < self.keys@.len() && 0 <= j < self.keys@.len() && i != j
                ==> #[trigger] self.keys@[i]@ != #[trigger] self.keys@[j]@
    }

    proof fn lemma_at(&self, j: int)
        requires
            self.wf(),
            0 <= j < self.keys@.len(),
        ensures
            self@.contains_key(self.keys@[j]@),
            self@[self.keys@[j]@] == self.values@[j]@,
    {
        let k = self.keys@[j]@;
        assert(self@.dom().contains(k));
        let c = choose|c: int| 0 <= c < self.keys@.len() && #[trigger] self.keys@[c]@ == k;
        assert(c == j);
    }

    /// An empty store.
    pub fn new() -> (r: BurrowDB)
        ensures
            r.wf(),
            r@ == Map::<Seq<char>, Seq<char>>::empty(),
    {
        let r = BurrowDB { keys: Vec::new(), values: Vec::new() };
        assert(r@ =~= Map::<Seq<char>, Seq<char>>::empty());
        r
    }

    /// Sets the value of `key` to `value`.
    pub fn put(&mut self, key: String, value: String)
        requires
            old(self).wf(),
        ensures
            final(self).wf(),
            final(self)@ == old(self)@.insert(key@, value@),
    {
        let ghost pre = *self;
        match position(&self.keys, &key) {
            Some(j) => {
                self.values.set(j, value);
                proof {
                    assert forall|k: Seq<char>| #[trigger] self@.contains_key(k) == pre@.contains_key(k) by {
                        if pre@.contains_key(k) {
                            let c = choose|c: int| 0 <= c < pre.keys@.len() && #[trigger] pre.keys@[c]@ == k;
                            assert(self.keys@[c]@ == k);
                        }
                        if self@.contains_key(k) {
                            let c = choose|c: int| 0 <= c < self.keys@.len() && #[trigger] self.keys@[c]@ == k;
                            assert(pre.keys@[c]@ == k);
                        }
                    }
                    assert forall|k: Seq<char>| #[trigger] self@.contains_key(k) implies self@[k] == pre@.insert(key@, value@)[k] by {
                        let c = choose|c: int| 0 <= c < self.keys@.len() && #[trigger] self.keys@[c]@ == k;
                        self.lemma_at(c);
                        pre.lemma_at(c);
                    }
                    assert(self@ =~= pre@.insert(key@, value@));
                }
            },
            None => {
                let ghost n = pre.keys@.len() as int;
                self.keys.push(key);
                self.values.push(value);
                proof {
                    assert forall|k: Seq<char>|
                        #[trigger] self@.contains_key(k) == (pre@.contains_key(k) || k == key@) by {
                        if pre@.contains_key(k) {
                            let c = choose|c: int| 0 <= c < pre.keys@.len() && #[trigger] pre.keys@[c]@ == k;
                            assert(self.keys@[c]@ == k);
                        }
                        if k == key@ {
                            assert(self.keys@[n]@ == k);
                        }
                        if self@.contains_key(k) {
                            let c = choose|c: int| 0 <= c < self.keys@.len() && #[trigger] self.keys@[c]@ == k;
                            if c < n {
                                assert(pre.keys@[c]@ == k);
                            }
                        }
                    }
                    assert forall|k: Seq<char>| #[trigger] self@.contains_key(k) implies self@[k] == pre@.insert(key@, value@)[k] by {
                        let c = choose|c: int| 0 <= c < self.keys@.len() && #[trigger] self.keys@[c]@ == k;
                        self.lemma_at(c);
                        if c < n {
                            pre.lemma_at(c);
                        }
                    }
                    assert(self@ =~= pre@.insert(key@, value@));
                }
            },
        }
    }

    /// The value of `key`, if it has one.
    pub fn get(&self, key: &str) -> (r: Option<&str>)
        requires
            self.wf(),
        ensures
            r is Some == self@.contains_key(key@),
            r is Some ==> r->Some_0@ == self@[key@],
    {
        match position(&self.keys, &key.to_owned()) {
            Some(j) => {
                proof {
                    self.lemma_at(j as int);
                }
                Some(self.values[j].as_str())
            },
            None => None,
        }
    }
}

} // verus!
