//! A table from text to text that remembers the order in which its keys came.
use vstd::hash_map::StringHashMap;
use vstd::prelude::*;
use crate::text::views;

verus! {

/// A table from text to text, in which no key occurs twice.
pub struct Table {
    keys: Vec<String>,
    values: Vec<String>,
    places: StringHashMap<usize>,
}

impl View for Table {
    type V = Map<Seq<char>, Seq<char>>;

    closed spec fn view(&self) -> Map<Seq<char>, Seq<char>> {
        Map::new(
            |k: Seq<char>| self.places@.contains_key(k),
            |k: Seq<char>| self.values@[self.places@[k] as int]@,
        )
    }
}

impl Table {
    /// The keys and the values stand in the same order, and every key's place is known.
    pub closed spec fn wf(&self) -> bool {
        &&& self.keys@.len() == self.values@.len()
        &&& forall|i: int|
            0 <= i < self.keys@.len() ==> self.places@.contains_key((#[trigger] self.keys@[i])@)
                && self.places@[self.keys@[i]@] == i
        &&& forall|k: Seq<char>| #[trigger]
            self.places@.contains_key(k) ==> self.places@[k] < self.keys@.len()
                && self.keys@[self.places@[k] as int]@ == k
    }

    /// The keys, in the order in which they came.
    pub closed spec fn order(&self) -> Seq<Seq<char>> {
        views(self.keys@)
    }

    /// No key stands twice in the order, and the order holds the keys and no others.
    pub proof fn lemma_order(&self)
        requires
            self.wf(),
        ensures
            self.order().no_duplicates(),
            self.order().to_set() == self@.dom(),
            self@.dom().finite(),
            self.order().len() == self@.dom().len(),
            forall|i: int|
                0 <= i < self.order().len() ==> self@.contains_key(#[trigger] self.order()[i]),
            forall|k: Seq<char>| #[trigger] self@.contains_key(k) ==> self.order().contains(k),
    {
        let o = self.order();
        assert forall|i: int, j: int| 0 <= i < o.len() && 0 <= j < o.len() && i != j implies o[i]
            != o[j] by {
            assert(o[i] == self.keys@[i]@);
            assert(o[j] == self.keys@[j]@);
        }
        assert forall|i: int| 0 <= i < o.len() implies self@.contains_key(#[trigger] o[i]) by {
            assert(o[i] == self.keys@[i]@);
        }
        assert forall|k: Seq<char>| #[trigger] self@.contains_key(k) implies o.contains(k) by {
            assert(o[self.places@[k] as int] == k);
        }
        assert(o.to_set() =~= self@.dom());
        o.unique_seq_to_set();
    }

    /// A table without keys.
    pub fn new() -> (r: Table)
        ensures
            r.wf(),
            r@ == Map::<Seq<char>, Seq<char>>::empty(),
    {
        let r: Table = Table { keys: Vec::new(), values: Vec::new(), places: StringHashMap::new() };
        assert(r@ =~= Map::<Seq<char>, Seq<char>>::empty());
        r
    }

    /// How many keys there are.
    pub fn len(&self) -> (r: usize)
        requires
            self.wf(),
        ensures
            r == self.order().len(),
            r == self@.dom().len(),
    {
        proof {
            self.lemma_order();
        }
        self.keys.len()
    }

    /// The key at a place of the order.
    pub fn key(&self, i: usize) -> (r: &String)
        requires
            self.wf(),
            i < self.order().len(),
        ensures
            r@ == self.order()[i as int],
            self@.contains_key(r@),
    {
        proof {
            self.lemma_order();
        }
        &self.keys[i]
    }

    /// The value of the key at a place of the order.
    pub fn value(&self, i: usize) -> (r: &String)
        requires
            self.wf(),
            i < self.order().len(),
        ensures
            self@.contains_key(self.order()[i as int]),
            r@ == self@[self.order()[i as int]],
    {
        proof {
            self.lemma_order();
            assert(self.order()[i as int] == self.keys@[i as int]@);
        }
        &self.values[i]
    }

    /// The value of a key.
    pub fn get(&self, key: &str) -> (r: Option<&String>)
        requires
            self.wf(),
        ensures
            match r {
                Some(v) => self@.contains_key(key@) && v@ == self@[key@],
                None => !self@.contains_key(key@),
            },
    {
        match self.places.get(key) {
            Some(place) => Some(&self.values[*place]),
            None => None,
        }
    }

    /// Gives a key its value, and says whether the key is new.
    pub fn insert(&mut self, key: String, value: String) -> (r: bool)
        requires
            old(self).wf(),
        ensures
            final(self).wf(),
            final(self)@ == old(self)@.insert(key@, value@),
            r == !old(self)@.contains_key(key@),
    {
        let ghost before = *self;
        match self.places.get(key.as_str()) {
            Some(place) => {
                let at: usize = *place;
                self.values.set(at, value);
                assert(self@ =~= before@.insert(key@, value@)) by {
                    assert forall|k: Seq<char>| #[trigger] self@.contains_key(k) implies self@[k]
                        == before@.insert(key@, value@)[k] by {
                        if self.places@[k] == at {
                            assert(k == key@);
                        }
                    }
                }
                false
            },
            None => {
                let at: usize = self.keys.len();
                self.keys.push(key.clone());
                self.values.push(value);
                self.places.insert(key, at);
                assert forall|i: int| 0 <= i < self.keys@.len() implies self.places@.contains_key(
                    (#[trigger] self.keys@[i])@,
                ) && self.places@[self.keys@[i]@] == i by {
                    if i < at {
                        assert(before.keys@[i] == self.keys@[i]);
                    }
                }
                assert forall|k: Seq<char>| #[trigger] self.places@.contains_key(k) implies self.places@[k]
                    < self.keys@.len() && self.keys@[self.places@[k] as int]@ == k by {
                    if k != key@ {
                        assert(before.places@.contains_key(k));
                    }
                }
                assert(self@ =~= before@.insert(key@, value@)) by {
                    assert forall|k: Seq<char>| #[trigger] self@.contains_key(k) implies self@[k]
                        == before@.insert(key@, value@)[k] by {
                        if k != key@ {
                            assert(before.places@.contains_key(k));
                        }
                    }
                }
                true
            },
        }
    }
}

} // verus!
