//! Sorted collections of names.
//!
//! A [`NameSet`] keeps its names in alphabetical order, each once. An
//! [`EdgeMap`] keeps one such set per key, its keys in the same order. Both
//! are read back in that order, so what is printed from them is stable.

use vstd::prelude::*;

use crate::order::{find_slot, Slot};
use crate::store::NameMap;
use crate::{order, text};

verus! {

broadcast use vstd::seq_lib::group_to_multiset_ensures;

// --- sets ------------------------------------------------------------------

/// A set of names. Its view is the names in alphabetical order.
#[derive(Debug)]
pub struct NameSet {
    names: Vec<String>,
}

impl View for NameSet {
    type V = Seq<Seq<char>>;

    closed spec fn view(&self) -> Seq<Seq<char>> {
        text::texts(self.names@)
    }
}

impl NameSet {
    #[verifier::type_invariant]
    spec fn wf(self) -> bool {
        order::ascending(text::texts(self.names@))
    }

    /// The empty set.
    pub fn new() -> (r: NameSet)
        ensures
            r@ == Seq::<Seq<char>>::empty(),
    {
        let names: Vec<String> = Vec::new();
        proof {
            assert(text::texts(names@) =~= Seq::empty());
        }
        NameSet { names }
    }

    /// The number of names, which are in ascending order.
    pub fn len(&self) -> (r: usize)
        ensures
            r == self@.len(),
            order::ascending(self@),
    {
        proof {
            use_type_invariant(self);
        }
        self.names.len()
    }

    /// Whether the set holds no name.
    pub fn is_empty(&self) -> (r: bool)
        ensures
            r == (self@.len() == 0),
    {
        self.names.len() == 0
    }

    /// The name at position `i`.
    pub fn at(&self, i: usize) -> (r: &String)
        requires
            i < self@.len(),
        ensures
            r@ == self@[i as int],
    {
        &self.names[i]
    }

    /// Whether `name` is in the set.
    pub fn contains(&self, name: &str) -> (r: bool)
        ensures
            r == self@.contains(name@),
    {
        proof {
            use_type_invariant(self);
        }
        match find_slot(&self.names, name) {
            Slot::Found(i) => {
                proof {
                    assert(self@[i as int] == name@);
                }
                true
            },
            Slot::Vacant(_) => false,
        }
    }

    /// Puts `name` into the set. Returns whether it was new.
    pub fn insert(&mut self, name: String) -> (r: bool)
        ensures
            r == !old(self)@.contains(name@),
            final(self)@ == order::put(old(self)@, name@),
            order::ascending(old(self)@),
    {
        proof {
            use_type_invariant(&*self);
        }
        let mut names: Vec<String> = Vec::new();
        std::mem::swap(&mut names, &mut self.names);
        let ghost t = text::texts(names@);
        match find_slot(&names, name.as_str()) {
            Slot::Found(i) => {
                proof {
                    assert(t[i as int] == name@);
                    order::lemma_put_found(t, i as int, name@);
                }
                self.names = names;
                false
            },
            Slot::Vacant(i) => {
                proof {
                    order::lemma_insert_ascending(t, i as int, name@);
                    order::lemma_put_vacant(t, i as int, name@);
                    assert(text::texts(names@.insert(i as int, name)) =~= t.insert(i as int, name@));
                }
                names.insert(i, name);
                self.names = names;
                true
            },
        }
    }
}

impl Default for NameSet {
    fn default() -> (r: NameSet)
        ensures
            r@ == Seq::<Seq<char>>::empty(),
    {
        NameSet::new()
    }
}

// --- edges -----------------------------------------------------------------

/// The set stored under `key`, or the empty set.
pub open spec fn under(m: Map<Seq<char>, Seq<Seq<char>>>, key: Seq<char>) -> Seq<Seq<char>> {
    if m.contains_key(key) {
        m[key]
    } else {
        Seq::empty()
    }
}

/// A set of names for each of a set of keys. Its view is the map from each
/// key to its names in alphabetical order.
#[derive(Debug)]
pub struct EdgeMap {
    map: NameMap<NameSet>,
}

impl View for EdgeMap {
    type V = Map<Seq<char>, Seq<Seq<char>>>;

    closed spec fn view(&self) -> Map<Seq<char>, Seq<Seq<char>>> {
        self.map@.map_values(|s: NameSet| s@)
    }
}

impl EdgeMap {
    #[verifier::type_invariant]
    spec fn wf(self) -> bool {
        forall|k: Seq<char>|
            self.map@.contains_key(k) ==> order::ascending((#[trigger] self.map@[k])@)
    }

    /// The keys in alphabetical order.
    pub closed spec fn keys(&self) -> Seq<Seq<char>> {
        self.map.keys()
    }

    /// The map without keys.
    pub fn new() -> (r: EdgeMap)
        ensures
            r@ == Map::<Seq<char>, Seq<Seq<char>>>::empty(),
            r.keys() == Seq::<Seq<char>>::empty(),
    {
        let r = EdgeMap { map: NameMap::new() };
        proof {
            assert(r@ =~= Map::empty());
        }
        r
    }

    /// The number of keys.
    pub fn len(&self) -> (r: usize)
        ensures
            r == self.keys().len(),
            edges_wf(edges_view(*self)),
    {
        let r = self.map.len();
        proof {
            use_type_invariant(self);
            assert(self.map@.dom() =~= self@.dom());
            assert forall|k: Seq<char>| order::ascending(#[trigger] under(self@, k)) by {
                if self@.contains_key(k) {
                    assert(order::ascending(self.map@[k]@));
                }
            }
        }
        r
    }

    /// The key at position `i`.
    pub fn key(&self, i: usize) -> (r: &String)
        requires
            i < self.keys().len(),
        ensures
            r@ == self.keys()[i as int],
            self@.contains_key(r@),
    {
        self.map.key(i)
    }

    /// The set of the key at position `i`.
    pub fn set(&self, i: usize) -> (r: &NameSet)
        requires
            i < self.keys().len(),
        ensures
            self@.contains_key(self.keys()[i as int]),
            r@ == self@[self.keys()[i as int]],
            order::ascending(r@),
    {
        let r = self.map.value(i);
        let _n = r.len();
        r
    }

    /// The set stored under `key`.
    pub fn get(&self, key: &str) -> (r: Option<&NameSet>)
        ensures
            match r {
                Some(s) => {
                    &&& self@.contains_key(key@)
                    &&& s@ == self@[key@]
                    &&& order::ascending(s@)
                },
                None => !self@.contains_key(key@),
            },
    {
        match self.map.get(key) {
            Some(s) => {
                let _n = s.len();
                Some(s)
            },
            None => None,
        }
    }

    /// Makes `key` a key, with the empty set if it was none.
    pub fn touch(&mut self, key: String)
        ensures
            final(self)@ == old(self)@.insert(key@, under(old(self)@, key@)),
            final(self).keys() == order::put(old(self).keys(), key@),
    {
        let ghost before = self@;
        let ghost k = key@;
        let ghost keys = self.map.keys();
        let mut all = EdgeMap::new();
        std::mem::swap(&mut all, self);
        proof {
            use_type_invariant(&all);
        }
        let EdgeMap { map: mut map } = all;
        let again = key.clone();
        let had = map.insert(key, NameSet::new());
        if let Some(set) = had {
            let _none = map.insert(again, set);
            proof {
                lemma_put_twice(keys, k);
            }
        }
        let mut made = EdgeMap { map };
        std::mem::swap(&mut made, self);
        proof {
            assert(self@ =~= before.insert(k, under(before, k)));
        }
    }

    /// Puts `name` into the set of `key`.
    pub fn add(&mut self, key: String, name: String)
        ensures
            final(self)@ == old(self)@.insert(key@, order::put(under(old(self)@, key@), name@)),
            final(self).keys() == order::put(old(self).keys(), key@),
    {
        let ghost before = self@;
        let ghost k = key@;
        let ghost n = name@;
        let ghost keys = self.map.keys();
        let mut all = EdgeMap::new();
        std::mem::swap(&mut all, self);
        proof {
            use_type_invariant(&all);
        }
        let EdgeMap { map: mut map } = all;
        let again = key.clone();
        let mut set = match map.insert(key, NameSet::new()) {
            Some(set) => set,
            None => NameSet::new(),
        };
        let ghost had = set@;
        set.insert(name);
        proof {
            order::lemma_put(had, n);
            lemma_put_twice(keys, k);
        }
        let _none = map.insert(again, set);
        let mut made = EdgeMap { map };
        std::mem::swap(&mut made, self);
        proof {
            assert(self@ =~= before.insert(k, order::put(under(before, k), n)));
        }
    }
}

/// The edges of a map, and its keys in order.
pub struct EdgesView {
    pub edges: Map<Seq<char>, Seq<Seq<char>>>,
    pub keys: Seq<Seq<char>>,
}

pub open spec fn edges_view(m: EdgeMap) -> EdgesView {
    EdgesView { edges: m@, keys: m.keys() }
}

pub open spec fn no_edges() -> EdgesView {
    EdgesView { edges: Map::empty(), keys: Seq::empty() }
}

/// `e` with `name` in the set of `key`.
pub open spec fn with_edge(e: EdgesView, key: Seq<char>, name: Seq<char>) -> EdgesView {
    EdgesView {
        edges: e.edges.insert(key, order::put(under(e.edges, key), name)),
        keys: order::put(e.keys, key),
    }
}

/// `e` with each of `list` added.
pub open spec fn with_edges(e: EdgesView, list: Seq<(Seq<char>, Seq<char>)>) -> EdgesView
    decreases list.len(),
{
    if list.len() == 0 {
        e
    } else {
        with_edge(with_edges(e, list.drop_last()), list.last().0, list.last().1)
    }
}

/// Adding all of `a` and then all of `b` is adding all of `a + b`.
pub proof fn lemma_with_edges_add(
    e: EdgesView,
    a: Seq<(Seq<char>, Seq<char>)>,
    b: Seq<(Seq<char>, Seq<char>)>,
)
    ensures
        with_edges(with_edges(e, a), b) == with_edges(e, a + b),
    decreases b.len(),
{
    if b.len() == 0 {
        assert(a + b =~= a);
    } else {
        lemma_with_edges_add(e, a, b.drop_last());
        assert((a + b).drop_last() =~= a + b.drop_last());
    }
}

/// An edge is there after adding exactly if it was there or was added.
pub proof fn lemma_with_edges(
    e: EdgesView,
    list: Seq<(Seq<char>, Seq<char>)>,
    key: Seq<char>,
    name: Seq<char>,
)
    requires
        forall|k: Seq<char>| order::ascending(#[trigger] under(e.edges, k)),
    ensures
        order::ascending(under(with_edges(e, list).edges, key)),
        under(with_edges(e, list).edges, key).contains(name) <==> under(e.edges, key).contains(
            name,
        ) || list.contains((key, name)),
        with_edges(e, list).edges.contains_key(key) <==> e.edges.contains_key(key) || exists|
            i: int,
        |
            0 <= i < list.len() && (#[trigger] list[i]).0 == key,
    decreases list.len(),
{
    assert(order::ascending(under(e.edges, key)));
    if list.len() > 0 {
        let rest = list.drop_last();
        let (k, n) = list.last();
        let before = with_edges(e, rest);
        lemma_with_edges(e, rest, key, name);
        lemma_with_edges(e, rest, k, name);
        order::lemma_put(under(before.edges, k), n);
        let s = order::put(under(before.edges, k), n);
        assert(s.contains(name) <==> s.to_set().contains(name));
        assert(under(before.edges, k).contains(name) <==> under(
            before.edges,
            k,
        ).to_set().contains(name));
        assert(list =~= rest.push((k, n)));
        assert(list.contains((key, name)) <==> rest.contains((key, name)) || (key, name) == (
            k,
            n,
        )) by {
            text::lemma_push_set(rest, (k, n));
            assert(list.to_set().contains((key, name)) <==> rest.to_set().insert(
                (k, n),
            ).contains((key, name)));
        }
        if exists|i: int| 0 <= i < rest.len() && (#[trigger] rest[i]).0 == key {
            let i = choose|i: int| 0 <= i < rest.len() && (#[trigger] rest[i]).0 == key;
            assert(list[i].0 == key);
        }
        if exists|i: int| 0 <= i < list.len() && (#[trigger] list[i]).0 == key {
            let i = choose|i: int| 0 <= i < list.len() && (#[trigger] list[i]).0 == key;
            if i < rest.len() {
                assert(rest[i].0 == key);
            }
        }
        assert(list[list.len() - 1].0 == k);
    }
}

/// `e` with `key` as a key.
pub open spec fn with_key(e: EdgesView, key: Seq<char>) -> EdgesView {
    EdgesView {
        edges: e.edges.insert(key, under(e.edges, key)),
        keys: order::put(e.keys, key),
    }
}

/// `e` with each of `list` as a key.
pub open spec fn with_keys(e: EdgesView, list: Seq<Seq<char>>) -> EdgesView
    decreases list.len(),
{
    if list.len() == 0 {
        e
    } else {
        with_key(with_keys(e, list.drop_last()), list.last())
    }
}

/// The edges of a map as pairs, in order.
pub open spec fn pairs_of(e: EdgesView) -> Seq<(Seq<char>, Seq<char>)> {
    key_pairs(e.edges, e.keys)
}

/// The edges from each of `keys`, in order.
pub open spec fn key_pairs(edges: Map<Seq<char>, Seq<Seq<char>>>, keys: Seq<Seq<char>>) -> Seq<
    (Seq<char>, Seq<char>),
>
    decreases keys.len(),
{
    if keys.len() == 0 {
        Seq::empty()
    } else {
        key_pairs(edges, keys.drop_last()) + edges[keys.last()].map_values(
            |n: Seq<char>| (keys.last(), n),
        )
    }
}

/// The keys of a map are in order, and they are the ones that have sets.
pub open spec fn edges_wf(e: EdgesView) -> bool {
    &&& order::ascending(e.keys)
    &&& e.keys.to_set() == e.edges.dom()
    &&& forall|k: Seq<char>| order::ascending(#[trigger] under(e.edges, k))
}

/// The pairs from `keys` are the edges of these keys.
pub proof fn lemma_key_pairs(
    edges: Map<Seq<char>, Seq<Seq<char>>>,
    keys: Seq<Seq<char>>,
    key: Seq<char>,
    name: Seq<char>,
)
    ensures
        key_pairs(edges, keys).contains((key, name)) <==> keys.contains(key) && edges[key].contains(
            name,
        ),
    decreases keys.len(),
{
    if keys.len() > 0 {
        let rest = keys.drop_last();
        let last = keys.last();
        lemma_key_pairs(edges, rest, key, name);
        let a = key_pairs(edges, rest);
        let b = edges[last].map_values(|n: Seq<char>| (last, n));
        let all = key_pairs(edges, keys);
        assert(all == a + b);
        assert(keys =~= rest.push(last));
        assert(keys.contains(key) <==> rest.contains(key) || key == last) by {
            text::lemma_push_set(rest, last);
            assert(keys.to_set().contains(key) <==> rest.to_set().insert(last).contains(key));
        }
        assert(b.contains((key, name)) <==> key == last && edges[last].contains(name)) by {
            if b.contains((key, name)) {
                let i = choose|i: int| 0 <= i < b.len() && b[i] == (key, name);
                assert(edges[last][i] == name);
            }
            if key == last && edges[last].contains(name) {
                let i = choose|i: int| 0 <= i < edges[last].len() && edges[last][i] == name;
                assert(b[i] == (key, name));
            }
        }
        assert(all.contains((key, name)) <==> a.contains((key, name)) || b.contains(
            (key, name),
        )) by {
            if a.contains((key, name)) {
                let i = choose|i: int| 0 <= i < a.len() && a[i] == (key, name);
                assert(all[i] == (key, name));
            }
            if b.contains((key, name)) {
                let i = choose|i: int| 0 <= i < b.len() && b[i] == (key, name);
                assert(all[a.len() + i] == (key, name));
            }
            if all.contains((key, name)) {
                let i = choose|i: int| 0 <= i < all.len() && all[i] == (key, name);
                if i < a.len() {
                    assert(a[i] == (key, name));
                } else {
                    assert(b[i - a.len()] == (key, name));
                }
            }
        }
    }
}

/// Making names keys adds no edge.
pub proof fn lemma_with_keys(e: EdgesView, list: Seq<Seq<char>>, key: Seq<char>)
    ensures
        under(with_keys(e, list).edges, key) == under(e.edges, key),
        with_keys(e, list).edges.contains_key(key) <==> e.edges.contains_key(key)
            || list.contains(key),
    decreases list.len(),
{
    if list.len() > 0 {
        let rest = list.drop_last();
        lemma_with_keys(e, rest, key);
        lemma_with_keys(e, rest, list.last());
        assert(list =~= rest.push(list.last()));
        text::lemma_push_set(rest, list.last());
        assert(list.to_set().contains(key) <==> rest.to_set().insert(list.last()).contains(key));
    }
}

/// Putting a name in twice is putting it in once.
proof fn lemma_put_twice(s: Seq<Seq<char>>, name: Seq<char>)
    ensures
        order::put(order::put(s, name), name) == order::put(s, name),
    decreases s.len(),
{
    order::lemma_before_irreflexive(name);
    if s.len() > 0 && s[0] != name && !order::before(name, s[0]) {
        lemma_put_twice(s.drop_first(), name);
        let r = order::put(s.drop_first(), name);
        assert((seq![s[0]] + r).drop_first() =~= r);
    }
}

impl Default for EdgeMap {
    fn default() -> (r: EdgeMap)
        ensures
            r@ == Map::<Seq<char>, Seq<Seq<char>>>::empty(),
            r.keys() == Seq::<Seq<char>>::empty(),
    {
        EdgeMap::new()
    }
}

} // verus!
