//! A map keyed by strings that remembers the order in which its keys came.

use crate::tokenizer::term_views;
use vstd::hash_map::StringHashMap;
use vstd::prelude::*;

verus! {

/// A string-keyed map together with the list of its keys, each once, in the
/// order of their first insertion. The list makes the map's entries walkable
/// in an order that does not depend on hashing.
#[verifier::reject_recursive_types(V)]
pub struct Table<V> {
    entries: StringHashMap<V>,
    keys: Vec<String>,
}

impl<V> View for Table<V> {
    type V = Map<Seq<char>, V>;

    closed spec fn view(&self) -> Map<Seq<char>, V> {
        self.entries@
    }
}

/// The elements of the first `i + 1` places of a sequence are those of the
/// first `i` places and the element at place `i`.
pub proof fn lemma_take_next_set(keys: Seq<Seq<char>>, i: int)
    requires
        0 <= i < keys.len(),
    ensures
        keys.take(i + 1).to_set() == keys.take(i).to_set().insert(keys[i]),
{
    let shorter = keys.take(i);
    let longer = keys.take(i + 1);
    assert forall|k: Seq<char>| longer.contains(k) <==> (shorter.contains(k) || k == keys[i]) by {
        if shorter.contains(k) {
            let j = choose|j: int| 0 <= j < shorter.len() && shorter[j] == k;
            assert(longer[j] == k);
        }
        if k == keys[i] {
            assert(longer[i] == k);
        }
        if longer.contains(k) {
            let j = choose|j: int| 0 <= j < longer.len() && longer[j] == k;
            if j < i {
                assert(shorter[j] == k);
            }
        }
    }
    assert(longer.to_set() =~= shorter.to_set().insert(keys[i]));
}

impl<V> Table<V> {
    /// The keys in the order of their first insertion.
    pub closed spec fn keys(&self) -> Seq<Seq<char>> {
        term_views(self.keys@)
    }

    /// The key list holds each key of the map once, and nothing else.
    pub closed spec fn wf(&self) -> bool {
        &&& self.keys().no_duplicates()
        &&& forall|k: Seq<char>| self@.contains_key(k) <==> self.keys().contains(k)
    }

    /// What validity means for the key list and the map's domain.
    pub proof fn lemma_wf(&self)
        requires
            self.wf(),
        ensures
            self.keys().no_duplicates(),
            forall|k: Seq<char>| self@.contains_key(k) <==> self.keys().contains(k),
            self@.dom() == self.keys().to_set(),
            self@.dom().finite(),
            self@.dom().len() == self.keys().len(),
    {
        assert(self@.dom() =~= self.keys().to_set());
        self.keys().unique_seq_to_set();
    }

    /// An empty table.
    pub fn new() -> (table: Self)
        ensures
            table.wf(),
            table@ == Map::<Seq<char>, V>::empty(),
            table.keys() == Seq::<Seq<char>>::empty(),
    {
        let table = Table { entries: StringHashMap::new(), keys: Vec::new() };
        assert(table.keys() =~= Seq::<Seq<char>>::empty());
        table
    }

    /// Binds `key` to `value`. A key that is new goes to the end of the key
    /// list; one that is bound already keeps its place and gets the new value.
    pub fn insert(&mut self, key: String, value: V)
        requires
            old(self).wf(),
        ensures
            final(self).wf(),
            final(self)@ == old(self)@.insert(key@, value),
            final(self).keys() == if old(self)@.contains_key(key@) {
                old(self).keys()
            } else {
                old(self).keys().push(key@)
            },
    {
        if !self.entries.contains_key(key.as_str()) {
            let copy = key.clone();
            proof {
                assert(term_views(self.keys@.push(copy)) =~= term_views(self.keys@).push(key@));
            }
            self.keys.push(copy);
        }
        self.entries.insert(key, value);
        proof {
            if !old(self)@.contains_key(key@) {
                let ks = old(self).keys();
                assert(self.keys() == ks.push(key@));
                assert forall|i: int, j: int|
                    0 <= i < ks.len() + 1 && 0 <= j < ks.len() + 1 && i != j implies ks.push(
                    key@,
                )[i] != ks.push(key@)[j] by {
                    if i < ks.len() {
                        assert(ks.contains(ks[i]));
                    }
                    if j < ks.len() {
                        assert(ks.contains(ks[j]));
                    }
                }
            }
            assert(self.keys().no_duplicates());
            assert forall|k: Seq<char>| self@.contains_key(k) <==> self.keys().contains(k) by {
                if old(self)@.contains_key(key@) {
                } else {
                    let ks = old(self).keys();
                    assert(ks.push(key@)[ks.len() as int] == key@);
                    if ks.contains(k) {
                        let i = choose|i: int| 0 <= i < ks.len() && ks[i] == k;
                        assert(ks.push(key@)[i] == k);
                    }
                }
            }
        }
    }

    /// The value bound to `key`, if there is one.
    pub fn get(&self, key: &str) -> (value: Option<&V>)
        ensures
            match value {
                Some(v) => self@.contains_key(key@) && *v == self@[key@],
                None => !self@.contains_key(key@),
            },
    {
        self.entries.get(key)
    }

    /// The number of keys.
    pub fn len(&self) -> (n: usize)
        ensures
            n == self.keys().len(),
    {
        self.keys.len()
    }

    /// The key at place `i` of the key list.
    pub fn key(&self, i: usize) -> (key: &String)
        requires
            i < self.keys().len(),
        ensures
            key@ == self.keys()[i as int],
    {
        &self.keys[i]
    }
}

} // verus!
