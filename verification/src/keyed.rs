//! A finite map keyed by strings that keeps its keys in the order in which
//! they were first inserted.

use vstd::prelude::*;

verus! {

/// The texts of a sequence of strings.
pub open spec fn texts(strings: Seq<String>) -> Seq<Seq<char>> {
    Seq::new(strings.len(), |i: int| strings[i]@)
}

/// The map that pairs `keys[i]` with `values[i]`.
pub open spec fn pair_up<V>(keys: Seq<Seq<char>>, values: Seq<V>) -> Map<Seq<char>, V> {
    Map::new(|k: Seq<char>| keys.contains(k), |k: Seq<char>| values[keys.index_of(k)])
}

/// In a sequence without duplicates a value has one index.
pub proof fn lemma_index_of_unique<A>(s: Seq<A>, i: int)
    requires
        s.no_duplicates(),
        0 <= i < s.len(),
    ensures
        s.contains(s[i]),
        s.index_of(s[i]) == i,
{
    let j = s.index_of(s[i]);
    assert(0 <= j < s.len() && s[j] == s[i]);
}

/// A map from strings to `V`. A key occurs once; keys keep the order of
/// their first insertion.
#[derive(Debug)]
pub struct StringMap<V> {
    keys: Vec<String>,
    values: Vec<V>,
}

impl<V> View for StringMap<V> {
    type V = Map<Seq<char>, V>;

    open spec fn view(&self) -> Map<Seq<char>, V> {
        pair_up(self.key_seq(), self.value_seq())
    }
}

impl<V> StringMap<V> {
    /// The keys, in order of first insertion.
    pub closed spec fn key_seq(&self) -> Seq<Seq<char>> {
        texts(self.keys@)
    }

    /// The values, each at the index of its key.
    pub closed spec fn value_seq(&self) -> Seq<V> {
        self.values@
    }

    /// Every key has one value and occurs once.
    pub open spec fn wf(&self) -> bool {
        &&& self.key_seq().len() == self.value_seq().len()
        &&& self.key_seq().no_duplicates()
    }

    /// The empty map.
    pub fn new() -> (m: StringMap<V>)
        ensures
            m.wf(),
            m.key_seq() == Seq::<Seq<char>>::empty(),
            m.value_seq() == Seq::<V>::empty(),
            m@ == Map::<Seq<char>, V>::empty(),
    {
        let m = StringMap { keys: Vec::new(), values: Vec::new() };
        assert(m.key_seq() =~= Seq::<Seq<char>>::empty());
        assert(m@ =~= Map::<Seq<char>, V>::empty());
        m
    }

    /// The number of keys.
    pub fn len(&self) -> (n: usize)
        requires
            self.wf(),
        ensures
            n == self.key_seq().len(),
            n == self@.dom().len(),
            self@.dom().finite(),
    {
        proof {
            self.lemma_domain();
        }
        self.keys.len()
    }

    /// The domain of the map is the set of its keys.
    pub proof fn lemma_domain(&self)
        requires
            self.wf(),
        ensures
            self@.dom() == self.key_seq().to_set(),
            self@.dom().finite(),
            self@.dom().len() == self.key_seq().len(),
            forall|i: int|
                0 <= i < self.key_seq().len() ==> self@.contains_key(#[trigger] self.key_seq()[i])
                    && self@[self.key_seq()[i]] == self.value_seq()[i],
    {
        let keys = self.key_seq();
        assert(self@.dom() =~= keys.to_set());
        keys.unique_seq_to_set();
        assert forall|i: int| 0 <= i < keys.len() implies self@.contains_key(#[trigger] keys[i])
            && self@[keys[i]] == self.value_seq()[i] by {
            lemma_index_of_unique(keys, i);
        }
    }

    /// The index of `key` among the keys, if it is one.
    pub fn position(&self, key: &String) -> (at: Option<usize>)
        requires
            self.wf(),
        ensures
            match at {
                Some(i) => i < self.key_seq().len() && self.key_seq()[i as int] == key@,
                None => !self.key_seq().contains(key@),
            },
            at is Some <==> self@.contains_key(key@),
    {
        let mut i: usize = 0;
        while i < self.keys.len()
            invariant
                i <= self.keys.len(),
                forall|j: int| 0 <= j < i ==> self.key_seq()[j] != key@,
            decreases self.keys.len() - i,
        {
            if self.keys[i] == *key {
                assert(self.key_seq()[i as int] == key@);
                return Some(i);
            }
            i = i + 1;
        }
        None
    }

    /// Whether `key` is a key of the map.
    pub fn contains_key(&self, key: &String) -> (b: bool)
        requires
            self.wf(),
        ensures
            b == self@.contains_key(key@),
    {
        self.position(key).is_some()
    }

    /// The value of `key`, if it is a key of the map.
    pub fn get(&self, key: &String) -> (value: Option<&V>)
        requires
            self.wf(),
        ensures
            match value {
                Some(v) => self@.contains_key(key@) && *v == self@[key@],
                None => !self@.contains_key(key@),
            },
    {
        match self.position(key) {
            Some(i) => {
                proof {
                    lemma_index_of_unique(self.key_seq(), i as int);
                }
                Some(&self.values[i])
            },
            None => None,
        }
    }

    /// The key at index `i`.
    pub fn key_at(&self, i: usize) -> (key: &String)
        requires
            self.wf(),
            i < self.key_seq().len(),
        ensures
            key@ == self.key_seq()[i as int],
    {
        &self.keys[i]
    }

    /// The value at index `i`: the value of the key at that index.
    pub fn value_at(&self, i: usize) -> (value: &V)
        requires
            self.wf(),
            i < self.key_seq().len(),
        ensures
            *value == self.value_seq()[i as int],
            *value == self@[self.key_seq()[i as int]],
    {
        proof {
            lemma_index_of_unique(self.key_seq(), i as int);
        }
        &self.values[i]
    }

    /// Gives `key` the value `value`. A key that the map already holds keeps
    /// its place; a new key goes last.
    pub fn insert(&mut self, key: String, value: V)
        requires
            old(self).wf(),
        ensures
            final(self).wf(),
            final(self)@ == old(self)@.insert(key@, value),
            old(self)@.contains_key(key@) ==> final(self).key_seq() == old(self).key_seq(),
            !old(self)@.contains_key(key@) ==> final(self).key_seq() == old(self).key_seq().push(
                key@,
            ),
    {
        let ghost old_keys = self.key_seq();
        let ghost old_values = self.value_seq();
        let ghost old_map = self@;
        match self.position(&key) {
            Some(i) => {
                self.values.set(i, value);
                proof {
                    assert(self.key_seq() == old_keys);
                    assert forall|k: Seq<char>| old_keys.contains(k) implies #[trigger] self@[k]
                        == old_map.insert(key@, value)[k] by {
                        let j = old_keys.index_of(k);
                        if k == key@ {
                            lemma_index_of_unique(old_keys, i as int);
                        } else {
                            assert(j != i);
                        }
                    }
                    assert(self@ =~= old_map.insert(key@, value));
                }
            },
            None => {
                self.keys.push(key);
                self.values.push(value);
                proof {
                    let new_keys = self.key_seq();
                    assert(new_keys =~= old_keys.push(key@));
                    assert(new_keys.no_duplicates());
                    assert forall|k: Seq<char>| new_keys.contains(k) implies #[trigger] self@[k]
                        == old_map.insert(key@, value)[k] by {
                        let j = new_keys.index_of(k);
                        if k == key@ {
                            lemma_index_of_unique(new_keys, old_keys.len() as int);
                        } else {
                            assert(j < old_keys.len());
                            assert(old_keys[j] == k);
                            lemma_index_of_unique(old_keys, j);
                        }
                    }
                    assert forall|k: Seq<char>| self@.contains_key(k) <==> old_map.insert(
                        key@,
                        value,
                    ).contains_key(k) by {
                        if new_keys.contains(k) {
                            let j = new_keys.index_of(k);
                            if j < old_keys.len() {
                                assert(old_keys[j] == k);
                            }
                        }
                        if old_keys.contains(k) {
                            let j = old_keys.index_of(k);
                            assert(new_keys[j] == k);
                        }
                        if k == key@ {
                            assert(new_keys[old_keys.len() as int] == k);
                        }
                    }
                    assert(self@ =~= old_map.insert(key@, value));
                }
            },
        }
    }
}

} // verus!
