//! A map from strings to strings: the tiles' metadata and the transforms'
//! parameters.
use vstd::prelude::*;
use crate::text::str_eq;

verus! {

/// A finite map from string keys to string values. Keys are kept in the
/// order they were first inserted, each key once.
#[derive(Debug)]
pub struct StringMap {
    keys: Vec<String>,
    values: Vec<String>,
}

impl StringMap {
    #[verifier::type_invariant]
    spec fn well_formed(self) -> bool {
        &&& self.keys.len() == self.values.len()
        &&& forall|i: int, j: int|
            0 <= i < j < self.keys.len() ==> (#[trigger] self.keys@[i])@ != (#[trigger] self.keys@[j])@
    }

    /// Some position holds key `k`.
    spec fn has_key(self, k: Seq<char>) -> bool {
        exists|i: int| 0 <= i < self.keys.len() && (#[trigger] self.keys@[i])@ == k
    }

    /// The position of key `k`.
    spec fn position(self, k: Seq<char>) -> int {
        choose|i: int| 0 <= i < self.keys.len() && (#[trigger] self.keys@[i])@ == k
    }

    /// The key-value pairs as a mathematical map.
    pub closed spec fn as_map(self) -> Map<Seq<char>, Seq<char>> {
        Map::new(|k: Seq<char>| self.has_key(k), |k: Seq<char>| self.values@[self.position(k)]@)
    }

    proof fn lemma_position(self, i: int)
        requires
            self.well_formed(),
            0 <= i < self.keys.len(),
        ensures
            self.has_key(self.keys@[i]@),
            self.position(self.keys@[i]@) == i,
            self.as_map().contains_key(self.keys@[i]@),
            self.as_map()[self.keys@[i]@] == self.values@[i]@,
    {
        let k = self.keys@[i]@;
        assert(self.has_key(k));
        let p = self.position(k);
        if p != i {
            if p < i {
                assert(self.keys@[p]@ != self.keys@[i]@);
            } else {
                assert(self.keys@[i]@ != self.keys@[p]@);
            }
        }
    }

    /// A key at no position is absent from the map.
    proof fn lemma_absent(self, k: Seq<char>)
        requires
            forall|i: int| 0 <= i < self.keys.len() ==> (#[trigger] self.keys@[i])@ != k,
        ensures
            !self.as_map().contains_key(k),
    {
    }

    /// An empty map.
    pub fn new() -> (m: Self)
        ensures
            m@ == Map::<Seq<char>, Seq<char>>::empty(),
    {
        let m = StringMap { keys: Vec::new(), values: Vec::new() };
        assert(m@ =~= Map::<Seq<char>, Seq<char>>::empty());
        m
    }

    fn find(&self, key: &str) -> (r: Option<usize>)
        ensures
            match r {
                Some(i) => i < self.keys.len() && self.keys@[i as int]@ == key@,
                None => forall|i: int| 0 <= i < self.keys.len() ==> (#[trigger] self.keys@[i])@ != key@,
            },
    {
        let mut i: usize = 0;
        while i < self.keys.len()
            invariant
                i <= self.keys.len(),
                forall|j: int| 0 <= j < i ==> (#[trigger] self.keys@[j])@ != key@,
            decreases self.keys.len() - i,
        {
            if str_eq(self.keys[i].as_str(), key) {
                return Some(i);
            }
            i = i + 1;
        }
        None
    }

    /// The value stored under `key`, if any.
    pub fn get(&self, key: &str) -> (r: Option<&String>)
        ensures
            match r {
                Some(v) => self@.contains_key(key@) && v@ == self@[key@],
                None => !self@.contains_key(key@),
            },
    {
        proof {
            use_type_invariant(self);
        }
        match self.find(key) {
            Some(i) => {
                proof {
                    self.lemma_position(i as int);
                }
                Some(&self.values[i])
            },
            None => {
                proof {
                    self.lemma_absent(key@);
                }
                None
            },
        }
    }

    /// Stores `value` under `key`, and gives back the value it replaces.
    pub fn insert(&mut self, key: String, value: String) -> (r: Option<String>)
        ensures
            final(self)@ == old(self)@.insert(key@, value@),
            forall|i: int|
                0 <= i < old(self)@.dom().len() ==> #[trigger] final(self).key_at(i) == old(
                    self,
                ).key_at(i),
            !old(self)@.contains_key(key@) ==> final(self).key_at(old(self)@.dom().len() as int)
                == key@,
            match r {
                Some(v) => old(self)@.contains_key(key@) && v@ == old(self)@[key@],
                None => !old(self)@.contains_key(key@),
            },
    {
        proof {
            use_type_invariant(&*self);
        }
        let ghost before = *self;
        proof {
            before.lemma_len();
        }
        match self.find(key.as_str()) {
            Some(i) => {
                proof {
                    before.lemma_position(i as int);
                }
                let mut cur = StringMap { keys: Vec::new(), values: Vec::new() };
                std::mem::swap(&mut cur, self);
                let StringMap { keys, mut values } = cur;
                let old_value = values.remove(i);
                values.insert(i, value);
                let m = StringMap { keys, values };
                proof {
                    assert forall|k: Seq<char>| #[trigger] m.has_key(k) == before.has_key(k) by {
                        if m.has_key(k) {
                            let j = m.position(k);
                            assert(before.keys@[j]@ == k);
                        }
                        if before.has_key(k) {
                            let j = before.position(k);
                            assert(m.keys@[j]@ == k);
                        }
                    }
                    assert forall|k: Seq<char>| #[trigger] m.has_key(k) implies m.position(k) == before.position(k) by {
                        let j = before.position(k);
                        before.lemma_position(j);
                        m.lemma_position(j);
                    }
                    m.lemma_position(i as int);
                    assert(m@ =~= before@.insert(key@, value@));
                }
                *self = m;
                Some(old_value)
            },
            None => {
                proof {
                    before.lemma_absent(key@);
                }
                let mut cur = StringMap { keys: Vec::new(), values: Vec::new() };
                std::mem::swap(&mut cur, self);
                let StringMap { mut keys, mut values } = cur;
                let ghost n = keys.len() as int;
                keys.push(key);
                values.push(value);
                let m = StringMap { keys, values };
                proof {
                    assert forall|k: Seq<char>| #[trigger] before.has_key(k) implies m.has_key(k)
                        && m.position(k) == before.position(k) by {
                        let j = before.position(k);
                        before.lemma_position(j);
                        assert(m.keys@[j] == before.keys@[j]);
                        m.lemma_position(j);
                    }
                    assert forall|k: Seq<char>| #[trigger] m.has_key(k) && k != m.keys@[n]@ implies before.has_key(k) by {
                        let j = m.position(k);
                        assert(j != n);
                        assert(before.keys@[j]@ == k);
                    }
                    m.lemma_position(n);
                    assert(m@ =~= before@.insert(m.keys@[n]@, m.values@[n]@));
                }
                *self = m;
                None
            },
        }
    }

    proof fn lemma_len(self)
        requires
            self.well_formed(),
        ensures
            self.as_map().dom().finite(),
            self.as_map().dom().len() == self.keys.len(),
    {
        let ks = self.keys@.map_values(|s: String| s@);
        assert forall|i: int, j: int| 0 <= i < j < ks.len() implies ks[i] != ks[j] by {
            assert(self.keys@[i]@ != self.keys@[j]@);
        }
        ks.unique_seq_to_set();
        assert forall|k: Seq<char>| #[trigger] self.as_map().dom().contains(k) == ks.to_set().contains(k) by {
            if self.has_key(k) {
                let j = self.position(k);
                assert(ks[j] == k);
            }
            if ks.to_set().contains(k) {
                let j = choose|j: int| 0 <= j < ks.len() && ks[j] == k;
                assert(self.keys@[j]@ == k);
            }
        }
        assert(self.as_map().dom() =~= ks.to_set());
    }

    /// The key at position `i`, in order of first insertion.
    pub closed spec fn key_at(self, i: int) -> Seq<char> {
        self.keys@[i]@
    }

    /// The number of keys; positions below it hold each key once.
    pub fn len(&self) -> (r: usize)
        ensures
            r == self@.dom().len(),
            forall|i: int, j: int|
                0 <= i < j < r ==> #[trigger] self.key_at(i) != #[trigger] self.key_at(j),
            forall|k: Seq<char>|
                #[trigger] self@.contains_key(k) ==> exists|i: int| 0 <= i < r && self.key_at(i) == k,
    {
        proof {
            use_type_invariant(self);
            self.lemma_len();
            assert forall|k: Seq<char>| #[trigger] self@.contains_key(k) implies exists|i: int|
                0 <= i < self.keys.len() && self.key_at(i) == k by {
                let i = self.position(k);
                assert(self.key_at(i) == k);
            }
        }
        self.keys.len()
    }

    /// The key and value at position `i`, in order of first insertion.
    pub fn entry(&self, i: usize) -> (r: (&String, &String))
        requires
            i < self@.dom().len(),
        ensures
            r.0@ == self.key_at(i as int),
            self@.contains_key(r.0@),
            self@[r.0@] == r.1@,
    {
        proof {
            use_type_invariant(self);
        }
        proof {
            self.lemma_len();
            self.lemma_position(i as int);
        }
        (&self.keys[i], &self.values[i])
    }
}

impl View for StringMap {
    type V = Map<Seq<char>, Seq<char>>;

    closed spec fn view(&self) -> Map<Seq<char>, Seq<char>> {
        self.as_map()
    }
}

impl Clone for StringMap {
    fn clone(&self) -> (r: Self)
        ensures
            r@ == self@,
    {
        proof {
            use_type_invariant(self);
        }
        let mut keys: Vec<String> = Vec::new();
        let mut values: Vec<String> = Vec::new();
        let mut i: usize = 0;
        while i < self.keys.len()
            invariant
                i <= self.keys.len(),
                self.keys.len() == self.values.len(),
                keys.len() == i,
                values.len() == i,
                forall|j: int| 0 <= j < i ==> (#[trigger] keys@[j])@ == self.keys@[j]@,
                forall|j: int| 0 <= j < i ==> (#[trigger] values@[j])@ == self.values@[j]@,
            decreases self.keys.len() - i,
        {
            keys.push(self.keys[i].clone());
            values.push(self.values[i].clone());
            i = i + 1;
        }
        let r = StringMap { keys, values };
        proof {
            assert forall|k: Seq<char>| #[trigger] r.has_key(k) == self.has_key(k) by {
                if r.has_key(k) {
                    let j = r.position(k);
                    assert(self.keys@[j]@ == k);
                }
                if self.has_key(k) {
                    let j = self.position(k);
                    assert(r.keys@[j]@ == k);
                }
            }
            assert forall|k: Seq<char>| #[trigger] r.has_key(k) implies r@[k] == self@[k] by {
                let j = self.position(k);
                self.lemma_position(j);
                r.lemma_position(j);
            }
            assert(r@ =~= self@);
        }
        r
    }
}

} // verus!
