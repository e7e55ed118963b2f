//! Values by name.

use vstd::prelude::*;

use crate::order::{find_slot, Slot};
use crate::{order, text};

verus! {

/// A value for each of a set of names. Its view is the map from the names to
/// the values.
#[derive(Debug)]
pub struct NameMap<V> {
    keys: Vec<String>,
    values: Vec<V>,
}

impl<V> View for NameMap<V> {
    type V = Map<Seq<char>, V>;

    closed spec fn view(&self) -> Map<Seq<char>, V> {
        map_of(text::texts(self.keys@), self.values@)
    }
}

spec fn map_of<V>(keys: Seq<Seq<char>>, values: Seq<V>) -> Map<Seq<char>, V> {
    Map::new(|k: Seq<char>| keys.contains(k), |k: Seq<char>| values[keys.index_of(k)])
}

proof fn lemma_map_at<V>(keys: Seq<Seq<char>>, values: Seq<V>, i: int)
    requires
        order::ascending(keys),
        keys.len() == values.len(),
        0 <= i < keys.len(),
    ensures
        map_of(keys, values).contains_key(keys[i]),
        map_of(keys, values)[keys[i]] == values[i],
{
    order::lemma_ascending_distinct(keys);
    assert(keys.contains(keys[i]));
    assert(keys.index_of(keys[i]) == i);
}

impl<V> NameMap<V> {
    #[verifier::type_invariant]
    spec fn wf(self) -> bool {
        &&& order::ascending(text::texts(self.keys@))
        &&& self.keys@.len() == self.values@.len()
    }

    /// The names in alphabetical order.
    pub closed spec fn keys(&self) -> Seq<Seq<char>> {
        text::texts(self.keys@)
    }

    /// The map without names.
    pub fn new() -> (r: NameMap<V>)
        ensures
            r@ == Map::<Seq<char>, V>::empty(),
            r.keys() == Seq::<Seq<char>>::empty(),
    {
        let keys: Vec<String> = Vec::new();
        let values: Vec<V> = Vec::new();
        proof {
            assert(text::texts(keys@) =~= Seq::empty());
            assert(map_of(text::texts(keys@), values@) =~= Map::empty());
        }
        NameMap { keys, values }
    }

    /// The number of names.
    pub fn len(&self) -> (r: usize)
        ensures
            r == self.keys().len(),
            order::ascending(self.keys()),
            self.keys().to_set() == self@.dom(),
    {
        proof {
            use_type_invariant(self);
            assert(self.keys().to_set() =~= self@.dom());
        }
        self.keys.len()
    }

    /// The name at position `i`.
    pub fn key(&self, i: usize) -> (r: &String)
        requires
            i < self.keys().len(),
        ensures
            r@ == self.keys()[i as int],
            self@.contains_key(r@),
    {
        proof {
            assert(self.keys().contains(self.keys()[i as int]));
        }
        &self.keys[i]
    }

    /// The value of the name at position `i`.
    pub fn value(&self, i: usize) -> (r: &V)
        requires
            i < self.keys().len(),
        ensures
            self@.contains_key(self.keys()[i as int]),
            *r == self@[self.keys()[i as int]],
    {
        proof {
            use_type_invariant(self);
            lemma_map_at(text::texts(self.keys@), self.values@, i as int);
        }
        &self.values[i]
    }

    /// The value of `key`.
    pub fn get(&self, key: &str) -> (r: Option<&V>)
        ensures
            match r {
                Some(v) => self@.contains_key(key@) && *v == self@[key@],
                None => !self@.contains_key(key@),
            },
    {
        proof {
            use_type_invariant(self);
        }
        match find_slot(&self.keys, key) {
            Slot::Found(i) => {
                proof {
                    lemma_map_at(text::texts(self.keys@), self.values@, i as int);
                }
                Some(&self.values[i])
            },
            Slot::Vacant(_) => None,
        }
    }

    /// Gives `key` the value `value` and returns the one that it had.
    pub fn insert(&mut self, key: String, value: V) -> (r: Option<V>)
        ensures
            final(self)@ == old(self)@.insert(key@, value),
            final(self).keys() == order::put(old(self).keys(), key@),
            match r {
                Some(v) => old(self)@.contains_key(key@) && v == old(self)@[key@],
                None => !old(self)@.contains_key(key@),
            },
    {
        proof {
            use_type_invariant(&*self);
        }
        let ghost k0 = text::texts(self.keys@);
        let ghost v0 = self.values@;
        let mut all: NameMap<V> = NameMap::new();
        std::mem::swap(&mut all, self);
        let NameMap { keys: mut keys, values: mut values } = all;
        let ghost k = key@;
        let ghost v = value;
        let mut had: Option<V> = None;
        match find_slot(&keys, key.as_str()) {
            Slot::Found(i) => {
                let mut slot = value;
                std::mem::swap(&mut slot, &mut values[i]);
                proof {
                    lemma_map_at(k0, v0, i as int);
                    order::lemma_put_found(k0, i as int, k);
                    assert(values@ =~= v0.update(i as int, v));
                    lemma_map_update(k0, v0, i as int, v);
                }
                had = Some(slot);
            },
            Slot::Vacant(i) => {
                keys.insert(i, key);
                values.insert(i, value);
                proof {
                    assert(text::texts(keys@) =~= k0.insert(i as int, k));
                    lemma_map_insert(k0, v0, i as int, k, v);
                }
            },
        }
        let mut made = NameMap { keys, values };
        std::mem::swap(&mut made, self);
        had
    }
}

proof fn lemma_map_update<V>(keys: Seq<Seq<char>>, values: Seq<V>, i: int, v: V)
    requires
        order::ascending(keys),
        keys.len() == values.len(),
        0 <= i < keys.len(),
    ensures
        map_of(keys, values.update(i, v)) == map_of(keys, values).insert(keys[i], v),
{
    let a = map_of(keys, values.update(i, v));
    let b = map_of(keys, values).insert(keys[i], v);
    lemma_map_at(keys, values, i);
    order::lemma_ascending_distinct(keys);
    assert forall|x: Seq<char>| a.contains_key(x) implies a[x] == b[x] by {
        let p = choose|p: int| 0 <= p < keys.len() && keys[p] == x;
        lemma_map_at(keys, values.update(i, v), p);
        lemma_map_at(keys, values, p);
    }
    assert(a =~= b);
}

proof fn lemma_map_insert<V>(keys: Seq<Seq<char>>, values: Seq<V>, i: int, k: Seq<char>, v: V)
    requires
        order::ascending(keys),
        keys.len() == values.len(),
        0 <= i <= keys.len(),
        !keys.contains(k),
        forall|j: int| 0 <= j < i ==> order::before(#[trigger] keys[j], k),
        forall|j: int| i <= j < keys.len() ==> order::before(k, #[trigger] keys[j]),
    ensures
        order::ascending(keys.insert(i, k)),
        keys.insert(i, k) == order::put(keys, k),
        map_of(keys.insert(i, k), values.insert(i, v)) == map_of(keys, values).insert(k, v),
{
    order::lemma_insert_ascending(keys, i, k);
    order::lemma_put_vacant(keys, i, k);
    let k1 = keys.insert(i, k);
    let v1 = values.insert(i, v);
    let a = map_of(k1, v1);
    let b = map_of(keys, values).insert(k, v);
    assert forall|x: Seq<char>| a.contains_key(x) <==> b.contains_key(x) by {
        assert(k1.to_set().contains(x) <==> keys.to_set().insert(k).contains(x));
    }
    assert forall|x: Seq<char>| a.contains_key(x) implies a[x] == b[x] by {
        let p = choose|p: int| 0 <= p < k1.len() && k1[p] == x;
        lemma_map_at(k1, v1, p);
        if p < i {
            lemma_map_at(keys, values, p);
        } else if p > i {
            lemma_map_at(keys, values, p - 1);
        }
    }
    assert(a =~= b);
}

/// A text for each of a set of names, such as the contents of files by their
/// paths. Its view is the map from the names to the texts.
#[derive(Debug)]
pub struct TextMap {
    map: NameMap<String>,
}

impl View for TextMap {
    type V = Map<Seq<char>, Seq<char>>;

    closed spec fn view(&self) -> Map<Seq<char>, Seq<char>> {
        self.map@.map_values(|s: String| s@)
    }
}

impl TextMap {
    /// The map without names.
    pub fn new() -> (r: TextMap)
        ensures
            r@ == Map::<Seq<char>, Seq<char>>::empty(),
    {
        let r = TextMap { map: NameMap::new() };
        proof {
            assert(r@ =~= Map::empty());
        }
        r
    }

    /// The text of `key`.
    pub fn get(&self, key: &str) -> (r: Option<&String>)
        ensures
            match r {
                Some(t) => self@.contains_key(key@) && t@ == self@[key@],
                None => !self@.contains_key(key@),
            },
    {
        self.map.get(key)
    }

    /// Gives `key` the text `value`, in place of any that it had.
    pub fn insert(&mut self, key: String, value: String)
        ensures
            final(self)@ == old(self)@.insert(key@, value@),
    {
        let ghost before = self@;
        let ghost (k, v) = (key@, value@);
        let _had = self.map.insert(key, value);
        proof {
            assert(self@ =~= before.insert(k, v));
        }
    }
}

} // verus!
