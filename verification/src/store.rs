//! A small map from names to texts, kept in insertion order. The object
//! store, the reference store and the path index of a tree all use it.

use vstd::prelude::*;

verus! {

/// A finite map whose keys and values are strings. No key occurs twice.
pub struct TextMap {
    slots: Vec<(String, String)>,
}

impl View for TextMap {
    type V = Map<Seq<char>, Seq<char>>;

    closed spec fn view(&self) -> Map<Seq<char>, Seq<char>> {
        Map::new(
            |k: Seq<char>| self.position(k) >= 0,
            |k: Seq<char>| self.slots@[self.position(k)].1@,
        )
    }
}

impl TextMap {
    #[verifier::type_invariant]
    spec fn inv(self) -> bool {
        forall|i: int, j: int|
            0 <= i < j < self.slots@.len() ==> self.slots@[i].0@ != self.slots@[j].0@
    }

    /// Where `k` stands among the keys, or -1.
    spec fn position(self, k: Seq<char>) -> int {
        if exists|i: int| 0 <= i < self.slots@.len() && self.slots@[i].0@ == k {
            choose|i: int| 0 <= i < self.slots@.len() && self.slots@[i].0@ == k
        } else {
            -1
        }
    }

    /// The keys in the order in which they were first inserted.
    pub closed spec fn key_seq(self) -> Seq<Seq<char>> {
        Seq::new(self.slots@.len(), |i: int| self.slots@[i].0@)
    }

    /// The number of entries.
    pub open spec fn spec_len(self) -> nat {
        self@.dom().len()
    }

    /// A map whose keys are all different has as many entries as keys.
    proof fn lemma_len(self)
        requires
            self.inv(),
        ensures
            self@.dom().finite(),
            self@.dom().len() == self.slots@.len(),
            self.key_seq().no_duplicates(),
    {
        let keys = self.key_seq();
        self.lemma_keys();
        keys.unique_seq_to_set();
        vstd::seq_lib::seq_to_set_is_finite(keys);
        assert(self@.dom() =~= keys.to_set());
    }

    /// The keys listed by `key_seq` are the keys of the map.
    pub proof fn lemma_keys(self)
        ensures
            forall|k: Seq<char>| self@.contains_key(k) <==> self.key_seq().contains(k),
    {
        assert forall|k: Seq<char>| self@.contains_key(k) <==> self.key_seq().contains(
            k,
        ) by {
            if self.key_seq().contains(k) {
                let i = choose|i: int| 0 <= i < self.key_seq().len() && self.key_seq()[i] == k;
                assert(self.slots@[i].0@ == k);
            }
            if self@.contains_key(k) {
                assert(self.key_seq()[self.position(k)] == k);
            }
        }
    }

    /// The empty map.
    pub fn new() -> (m: TextMap)
        ensures
            m@ == Map::<Seq<char>, Seq<char>>::empty(),
            m.key_seq() == Seq::<Seq<char>>::empty(),
    {
        let m = TextMap { slots: Vec::new() };
        assert(m@ =~= Map::<Seq<char>, Seq<char>>::empty());
        assert(m.key_seq() =~= Seq::<Seq<char>>::empty());
        m
    }

    /// The number of entries.
    pub fn len(&self) -> (n: usize)
        ensures
            n == self.spec_len(),
            n == self.key_seq().len(),
            self@.dom().finite(),
            self.key_seq().no_duplicates(),
    {
        proof {
            use_type_invariant(self);
            self.lemma_len();
        }
        self.slots.len()
    }

    /// The key at position `i`.
    pub fn key_at(&self, i: usize) -> (k: &String)
        requires
            i < self.key_seq().len(),
        ensures
            k@ == self.key_seq()[i as int],
    {
        &self.slots[i].0
    }

    /// The value stored with the key at position `i`.
    pub fn value_at(&self, i: usize) -> (v: &String)
        requires
            i < self.key_seq().len(),
        ensures
            self@.contains_key(self.key_seq()[i as int]),
            v@ == self@[self.key_seq()[i as int]],
    {
        proof {
            use_type_invariant(self);
            let k = self.slots@[i as int].0@;
            assert(self.position(k) == i);
        }
        &self.slots[i].1
    }

    fn find(&self, key: &String) -> (r: Option<usize>)
        ensures
            match r {
                Some(i) => i < self.slots@.len() && self.slots@[i as int].0@ == key@
                    && self.position(key@) == i,
                None => self.position(key@) == -1,
            },
    {
        proof {
            use_type_invariant(self);
        }
        let mut i: usize = 0;
        while i < self.slots.len()
            invariant
                i <= self.slots@.len(),
                forall|j: int| 0 <= j < i ==> self.slots@[j].0@ != key@,
                self.inv(),
            decreases self.slots@.len() - i,
        {
            if self.slots[i].0 == *key {
                assert(self.slots@[i as int].0@ == key@);
                return Some(i);
            }
            i += 1;
        }
        None
    }

    /// The value stored with `key`, if there is one.
    pub fn get(&self, key: &str) -> (r: Option<&String>)
        ensures
            match r {
                Some(v) => self@.contains_key(key@) && v@ == self@[key@],
                None => !self@.contains_key(key@),
            },
    {
        proof {
            use_type_invariant(self);
        }
        let k = key.to_owned();
        match self.find(&k) {
            Some(i) => Some(&self.slots[i].1),
            None => None,
        }
    }

    /// Whether `key` has a value.
    pub fn contains(&self, key: &str) -> (r: bool)
        ensures
            r == self@.contains_key(key@),
    {
        self.get(key).is_some()
    }

    /// Stores `value` with `key`, replacing what was stored with it. A new
    /// key goes to the end of the key order.
    pub fn insert(&mut self, key: &str, value: &str)
        ensures
            final(self)@ == old(self)@.insert(key@, value@),
            final(self).key_seq() == if old(self)@.contains_key(key@) {
                old(self).key_seq()
            } else {
                old(self).key_seq().push(key@)
            },
    {
        proof {
            use_type_invariant(&*self);
        }
        let k = key.to_owned();
        let v = value.to_owned();
        let found = self.find(&k);
        let ghost before = *self;
        match found {
            Some(i) => {
                let mut slots: Vec<(String, String)> = Vec::new();
                std::mem::swap(&mut self.slots, &mut slots);
                slots.set(i, (k, v));
                std::mem::swap(&mut self.slots, &mut slots);
                proof {
                    assert forall|j: int| 0 <= j < self.slots@.len() implies self.slots@[j].0@
                        == before.slots@[j].0@ by {}
                    assert forall|q: Seq<char>| self.position(q) == before.position(q) by {}
                    assert(self@ =~= before@.insert(key@, value@));
                    assert(self.key_seq() =~= before.key_seq());
                }
            },
            None => {
                let mut slots: Vec<(String, String)> = Vec::new();
                std::mem::swap(&mut self.slots, &mut slots);
                slots.push((k, v));
                std::mem::swap(&mut self.slots, &mut slots);
                proof {
                    let n = before.slots@.len() as int;
                    assert forall|q: Seq<char>| q != key@ implies self.position(q)
                        == before.position(q) by {
                        if before.position(q) >= 0 {
                            assert(self.slots@[before.position(q)].0@ == q);
                        }
                        if self.position(q) >= 0 {
                            assert(before.slots@[self.position(q)].0@ == q);
                        }
                    }
                    assert(self.slots@[n].0@ == key@);
                    assert(self.position(key@) == n);
                    assert(self@ =~= before@.insert(key@, value@));
                    assert(self.key_seq() =~= before.key_seq().push(key@));
                }
            },
        }
    }
}

} // verus!
