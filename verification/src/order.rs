//! The alphabetical order on names, and sorted collections of names.
//!
//! Names are ordered character by character, by code point, which is also
//! the order of their UTF-8 bytes.

use vstd::prelude::*;
use vstd::relations::*;

use crate::text;

verus! {

/// `a` stands before `b`.
pub open spec fn before(a: Seq<char>, b: Seq<char>) -> bool
    decreases a.len(),
{
    if b.len() == 0 {
        false
    } else if a.len() == 0 {
        true
    } else if a[0] == b[0] {
        before(a.drop_first(), b.drop_first())
    } else {
        (a[0] as int) < (b[0] as int)
    }
}

/// `a` does not stand after `b`.
pub open spec fn not_after(a: Seq<char>, b: Seq<char>) -> bool {
    !before(b, a)
}

/// Each name stands before the ones that follow it.
pub open spec fn ascending(s: Seq<Seq<char>>) -> bool {
    forall|i: int, j: int| 0 <= i < j < s.len() ==> before(#[trigger] s[i], #[trigger] s[j])
}

/// `s` in alphabetical order.
pub open spec fn sorted(s: Seq<Seq<char>>) -> Seq<Seq<char>> {
    s.sort_by(|a: Seq<char>, b: Seq<char>| not_after(a, b))
}

/// `s` with `name` put into its alphabetical place, unless it is there.
pub open spec fn put(s: Seq<Seq<char>>, name: Seq<char>) -> Seq<Seq<char>>
    decreases s.len(),
{
    if s.len() == 0 {
        seq![name]
    } else if s[0] == name {
        s
    } else if before(name, s[0]) {
        seq![name] + s
    } else {
        seq![s[0]] + put(s.drop_first(), name)
    }
}

/// `s` with each of `names` put in.
pub open spec fn put_all(s: Seq<Seq<char>>, names: Seq<Seq<char>>) -> Seq<Seq<char>>
    decreases names.len(),
{
    if names.len() == 0 {
        s
    } else {
        put(put_all(s, names.drop_last()), names.last())
    }
}

/// The names of `s` in alphabetical order, each once.
pub open spec fn collected(s: Seq<Seq<char>>) -> Seq<Seq<char>> {
    put_all(Seq::empty(), s)
}

pub proof fn lemma_before_irreflexive(a: Seq<char>)
    ensures
        !before(a, a),
    decreases a.len(),
{
    if a.len() > 0 {
        lemma_before_irreflexive(a.drop_first());
    }
}

pub proof fn lemma_before_transitive(a: Seq<char>, b: Seq<char>, c: Seq<char>)
    requires
        before(a, b),
        before(b, c),
    ensures
        before(a, c),
    decreases a.len(),
{
    if a.len() > 0 {
        if a[0] == b[0] && b[0] == c[0] {
            lemma_before_transitive(a.drop_first(), b.drop_first(), c.drop_first());
        }
    }
}

pub proof fn lemma_before_total(a: Seq<char>, b: Seq<char>)
    ensures
        a == b || before(a, b) || before(b, a),
    decreases a.len(),
{
    if a.len() > 0 && b.len() > 0 {
        if a[0] == b[0] {
            lemma_before_total(a.drop_first(), b.drop_first());
            if a.drop_first() == b.drop_first() {
                assert(a =~= seq![a[0]] + a.drop_first());
                assert(b =~= seq![b[0]] + b.drop_first());
            }
        } else {
            assert(a[0] as int != b[0] as int);
        }
    } else if a.len() == 0 && b.len() == 0 {
        assert(a =~= b);
    }
}

pub proof fn lemma_not_both_before(a: Seq<char>, b: Seq<char>)
    ensures
        !(before(a, b) && before(b, a)),
{
    if before(a, b) && before(b, a) {
        lemma_before_transitive(a, b, a);
        lemma_before_irreflexive(a);
    }
}

/// The order is a total order.
pub proof fn lemma_total_order()
    ensures
        total_ordering(|a: Seq<char>, b: Seq<char>| not_after(a, b)),
{
    let r = |a: Seq<char>, b: Seq<char>| not_after(a, b);
    assert forall|x: Seq<char>| #[trigger] r(x, x) by {
        lemma_before_irreflexive(x);
    }
    assert forall|x: Seq<char>, y: Seq<char>| #[trigger] r(x, y) && #[trigger] r(y, x) implies x
        == y by {
        lemma_before_total(x, y);
    }
    assert forall|x: Seq<char>, y: Seq<char>| #[trigger] r(x, y) || #[trigger] r(y, x) by {
        lemma_not_both_before(x, y);
    }
    assert forall|x: Seq<char>, y: Seq<char>, z: Seq<char>|
        #[trigger] r(x, y) && #[trigger] r(y, z) implies r(x, z) by {
        lemma_before_total(x, y);
        lemma_before_total(y, z);
        if before(z, x) {
            if before(x, y) {
                lemma_before_transitive(z, x, y);
                lemma_not_both_before(z, y);
            }
            lemma_not_both_before(z, x);
        }
    }
}

/// Names in ascending order are pairwise different.
pub proof fn lemma_ascending_distinct(s: Seq<Seq<char>>)
    requires
        ascending(s),
    ensures
        s.no_duplicates(),
{
    assert forall|i: int, j: int| 0 <= i < s.len() && 0 <= j < s.len() && i != j implies s[i]
        != s[j] by {
        lemma_before_irreflexive(s[i]);
        if i < j {
            assert(before(s[i], s[j]));
        } else {
            assert(before(s[j], s[i]));
        }
    }
}

/// Two ascending sequences of the same names are equal.
pub proof fn lemma_ascending_unique(a: Seq<Seq<char>>, b: Seq<Seq<char>>)
    requires
        ascending(a),
        ascending(b),
        a.to_set() == b.to_set(),
    ensures
        a == b,
{
    let r = |x: Seq<char>, y: Seq<char>| not_after(x, y);
    lemma_total_order();
    lemma_ascending_distinct(a);
    lemma_ascending_distinct(b);
    assert(sorted_by(a, r)) by {
        assert forall|i: int, j: int| 0 <= i < j < a.len() implies #[trigger] r(a[i], a[j]) by {
            assert(before(a[i], a[j]));
            lemma_not_both_before(a[i], a[j]);
        }
    }
    assert(sorted_by(b, r)) by {
        assert forall|i: int, j: int| 0 <= i < j < b.len() implies #[trigger] r(b[i], b[j]) by {
            assert(before(b[i], b[j]));
            lemma_not_both_before(b[i], b[j]);
        }
    }
    assert(a.to_multiset() =~= b.to_multiset()) by {
        broadcast use vstd::seq_lib::group_to_multiset_ensures;

        a.lemma_multiset_has_no_duplicates();
        b.lemma_multiset_has_no_duplicates();
        assert forall|x: Seq<char>| a.to_multiset().count(x) == b.to_multiset().count(x) by {
            assert(a.contains(x) <==> a.to_set().contains(x));
            assert(b.contains(x) <==> b.to_set().contains(x));
        }
    }
    vstd::seq_lib::lemma_sorted_unique(a, b, r);
}

/// How two names stand to each other.
#[derive(Clone, Copy, Debug, PartialEq, Eq, Structural)]
pub enum Place {
    Before,
    Same,
    After,
}

/// How `a` stands to `b`.
pub fn place(a: &str, b: &str) -> (r: Place)
    ensures
        match r {
            Place::Before => before(a@, b@),
            Place::Same => a@ == b@,
            Place::After => before(b@, a@),
        },
{
    let mut x = a.chars();
    let mut y = b.chars();
    let ghost mut k: int = 0;
    proof {
        assert(a@.skip(0) =~= a@);
        assert(b@.skip(0) =~= b@);
    }
    loop
        invariant
            0 <= k <= a@.len(),
            k <= b@.len(),
            vstd::std_specs::iter::IteratorSpec::obeys_prophetic_iter_laws(&x),
            vstd::std_specs::iter::IteratorSpec::obeys_prophetic_iter_laws(&y),
            vstd::std_specs::iter::IteratorSpec::remaining(&x) == a@.skip(k),
            vstd::std_specs::iter::IteratorSpec::remaining(&y) == b@.skip(k),
            a@.skip(k) == b@.skip(k) ==> a@ == b@,
            before(a@, b@) == before(a@.skip(k), b@.skip(k)),
            before(b@, a@) == before(b@.skip(k), a@.skip(k)),
        decreases a@.len() - k,
    {
        let p = x.next();
        let q = y.next();
        match (p, q) {
            (Some(c), Some(d)) => {
                if c < d {
                    return Place::Before;
                }
                if d < c {
                    return Place::After;
                }
                proof {
                    assert(c == d);
                    assert(a@.skip(k).drop_first() =~= a@.skip(k + 1));
                    assert(b@.skip(k).drop_first() =~= b@.skip(k + 1));
                    if a@.skip(k + 1) == b@.skip(k + 1) {
                        assert(a@.skip(k) =~= seq![c] + a@.skip(k + 1));
                        assert(b@.skip(k) =~= seq![c] + b@.skip(k + 1));
                    }
                    k = k + 1;
                }
            },
            (None, None) => {
                proof {
                    assert(a@.skip(k) =~= b@.skip(k));
                }
                return Place::Same;
            },
            (None, Some(_)) => {
                return Place::Before;
            },
            (Some(_), None) => {
                return Place::After;
            },
        }
    }
}

/// Where a name stands in an ascending sequence, or where it belongs.
#[derive(Clone, Copy, Debug, PartialEq, Eq, Structural)]
pub enum Slot {
    Found(usize),
    Vacant(usize),
}

/// The place of `name` in the ascending sequence `names`.
pub fn find_slot(names: &Vec<String>, name: &str) -> (r: Slot)
    requires
        ascending(text::texts(names@)),
    ensures
        match r {
            Slot::Found(i) => i < names.len() && names@[i as int]@ == name@,
            Slot::Vacant(i) => {
                &&& i <= names.len()
                &&& !text::texts(names@).contains(name@)
                &&& forall|k: int| 0 <= k < i ==> before(#[trigger] text::texts(names@)[k], name@)
                &&& forall|k: int|
                    i <= k < names.len() ==> before(name@, #[trigger] text::texts(names@)[k])
            },
        },
{
    let ghost t = text::texts(names@);
    let mut lo: usize = 0;
    let mut hi: usize = names.len();
    while lo < hi
        invariant
            t == text::texts(names@),
            ascending(t),
            lo <= hi <= names.len(),
            forall|k: int| 0 <= k < lo ==> before(#[trigger] t[k], name@),
            forall|k: int| hi <= k < names.len() ==> before(name@, #[trigger] t[k]),
        decreases hi - lo,
    {
        let mid: usize = lo + (hi - lo) / 2;
        proof {
            assert(t[mid as int] == names@[mid as int]@);
        }
        match place(names[mid].as_str(), name) {
            Place::Same => {
                return Slot::Found(mid);
            },
            Place::Before => {
                proof {
                    assert forall|k: int| 0 <= k < mid + 1 implies before(#[trigger] t[k], name@) by {
                        if k < mid {
                            assert(before(t[k], t[mid as int]));
                            lemma_before_transitive(t[k], t[mid as int], name@);
                        }
                    }
                }
                lo = mid + 1;
            },
            Place::After => {
                proof {
                    assert forall|k: int| mid <= k < names.len() implies before(
                        name@,
                        #[trigger] t[k],
                    ) by {
                        if k > mid {
                            assert(before(t[mid as int], t[k]));
                            lemma_before_transitive(name@, t[mid as int], t[k]);
                        }
                    }
                }
                hi = mid;
            },
        }
    }
    proof {
        assert forall|k: int| 0 <= k < t.len() implies t[k] != name@ by {
            lemma_before_irreflexive(name@);
            if k < lo {
                assert(before(t[k], name@));
            } else {
                assert(before(name@, t[k]));
            }
        }
    }
    Slot::Vacant(lo)
}

/// Putting a new name into its place keeps the names ascending.
pub proof fn lemma_insert_ascending(s: Seq<Seq<char>>, i: int, name: Seq<char>)
    requires
        ascending(s),
        0 <= i <= s.len(),
        forall|k: int| 0 <= k < i ==> before(#[trigger] s[k], name),
        forall|k: int| i <= k < s.len() ==> before(name, #[trigger] s[k]),
    ensures
        ascending(s.insert(i, name)),
        s.insert(i, name).to_set() == s.to_set().insert(name),
{
    let t = s.insert(i, name);
    assert forall|a: int, b: int| 0 <= a < b < t.len() implies before(
        #[trigger] t[a],
        #[trigger] t[b],
    ) by {
        let a0 = if a < i { a } else { a - 1 };
        let b0 = if b < i { b } else { b - 1 };
        if a != i && b != i {
            assert(before(s[a0], s[b0]));
        } else if a == i {
            assert(before(name, s[b0]));
        } else {
            assert(before(s[a0], name));
        }
    }
    assert(t.to_set() =~= s.to_set().insert(name)) by {
        assert forall|x: Seq<char>| t.to_set().contains(x) <==> s.to_set().insert(name).contains(
            x,
        ) by {
            if t.contains(x) {
                let k = choose|k: int| 0 <= k < t.len() && t[k] == x;
                if k < i {
                    assert(s[k] == x);
                } else if k > i {
                    assert(s[k - 1] == x);
                }
            }
            if s.contains(x) {
                let k = choose|k: int| 0 <= k < s.len() && s[k] == x;
                if k < i {
                    assert(t[k] == x);
                } else {
                    assert(t[k + 1] == x);
                }
            }
            assert(t[i] == name);
        }
    }
}

/// What [`put`] gives when the name is there.
pub proof fn lemma_put_found(s: Seq<Seq<char>>, i: int, name: Seq<char>)
    requires
        ascending(s),
        0 <= i < s.len(),
        s[i] == name,
    ensures
        put(s, name) == s,
    decreases s.len(),
{
    if i > 0 {
        let t = s.drop_first();
        assert(before(s[0], s[i]));
        lemma_before_irreflexive(name);
        lemma_not_both_before(s[0], name);
        assert forall|a: int, b: int| 0 <= a < b < t.len() implies before(
            #[trigger] t[a],
            #[trigger] t[b],
        ) by {
            assert(before(s[a + 1], s[b + 1]));
        }
        lemma_put_found(t, i - 1, name);
        assert(seq![s[0]] + t =~= s);
    }
}

/// What [`put`] gives when the name is new and belongs at position `i`.
pub proof fn lemma_put_vacant(s: Seq<Seq<char>>, i: int, name: Seq<char>)
    requires
        0 <= i <= s.len(),
        forall|k: int| 0 <= k < i ==> before(#[trigger] s[k], name),
        forall|k: int| i <= k < s.len() ==> before(name, #[trigger] s[k]),
    ensures
        put(s, name) == s.insert(i, name),
    decreases s.len(),
{
    lemma_before_irreflexive(name);
    if s.len() == 0 {
        assert(s.insert(0, name) =~= seq![name]);
    } else if i == 0 {
        assert(before(name, s[0]));
        assert(s.insert(0, name) =~= seq![name] + s);
    } else {
        assert(before(s[0], name));
        lemma_not_both_before(s[0], name);
        let t = s.drop_first();
        assert forall|k: int| 0 <= k < i - 1 implies before(#[trigger] t[k], name) by {
            assert(before(s[k + 1], name));
        }
        assert forall|k: int| i - 1 <= k < t.len() implies before(name, #[trigger] t[k]) by {
            assert(before(name, s[k + 1]));
        }
        lemma_put_vacant(t, i - 1, name);
        assert(seq![s[0]] + t.insert(i - 1, name) =~= s.insert(i, name));
    }
}

/// Putting a name in keeps the order and adds that name alone.
pub proof fn lemma_put(s: Seq<Seq<char>>, name: Seq<char>)
    requires
        ascending(s),
    ensures
        ascending(put(s, name)),
        put(s, name).to_set() == s.to_set().insert(name),
    decreases s.len(),
{
    if s.contains(name) {
        let i = choose|i: int| 0 <= i < s.len() && s[i] == name;
        lemma_put_found(s, i, name);
        assert(s.to_set().insert(name) =~= s.to_set());
    } else {
        let i = lemma_vacancy(s, name);
        lemma_put_vacant(s, i, name);
        lemma_insert_ascending(s, i, name);
    }
}

/// A new name has a place in an ascending sequence.
pub proof fn lemma_vacancy(s: Seq<Seq<char>>, name: Seq<char>) -> (i: int)
    requires
        ascending(s),
        !s.contains(name),
    ensures
        0 <= i <= s.len(),
        forall|k: int| 0 <= k < i ==> before(#[trigger] s[k], name),
        forall|k: int| i <= k < s.len() ==> before(name, #[trigger] s[k]),
    decreases s.len(),
{
    if s.len() == 0 {
        0
    } else {
        let t = s.drop_last();
        assert forall|x: Seq<char>| t.contains(x) implies s.contains(x) by {
            let k = choose|k: int| 0 <= k < t.len() && t[k] == x;
            assert(s[k] == x);
        }
        let i = lemma_vacancy(t, name);
        let last = s.len() - 1;
        assert(s.contains(s[last]));
        lemma_before_total(s[last], name);
        if before(s[last], name) {
            assert forall|k: int| 0 <= k < s.len() implies before(#[trigger] s[k], name) by {
                if k < last {
                    assert(before(s[k], s[last]));
                    lemma_before_transitive(s[k], s[last], name);
                }
            }
            s.len() as int
        } else {
            assert forall|k: int| 0 <= k < i implies before(#[trigger] s[k], name) by {
                assert(before(t[k], name));
            }
            assert forall|k: int| i <= k < s.len() implies before(name, #[trigger] s[k]) by {
                if k < last {
                    assert(before(name, t[k]));
                }
            }
            i
        }
    }
}

/// Putting in all of `a` and then all of `b` is putting in all of `a + b`.
pub proof fn lemma_put_all_add(s: Seq<Seq<char>>, a: Seq<Seq<char>>, b: Seq<Seq<char>>)
    ensures
        put_all(put_all(s, a), b) == put_all(s, a + b),
    decreases b.len(),
{
    if b.len() == 0 {
        assert(a + b =~= a);
    } else {
        lemma_put_all_add(s, a, b.drop_last());
        assert((a + b).drop_last() =~= a + b.drop_last());
    }
}

/// What is there after putting a name in, whatever the order.
pub proof fn lemma_put_contains(s: Seq<Seq<char>>, name: Seq<char>, x: Seq<char>)
    ensures
        put(s, name).contains(x) <==> (s.contains(x) || x == name),
    decreases s.len(),
{
    if s.len() == 0 {
        assert(seq![name][0] == name);
    } else {
        let t = s.drop_first();
        assert(s =~= seq![s[0]] + t);
        assert(s.contains(x) <==> t.contains(x) || x == s[0]) by {
            text::lemma_front_contains(s[0], t, x);
        }
        if s[0] != name {
            if before(name, s[0]) {
                text::lemma_front_contains(name, s, x);
            } else {
                lemma_put_contains(t, name, x);
                text::lemma_front_contains(s[0], put(t, name), x);
            }
        }
    }
}

/// Putting names in keeps the order and adds those names alone.
pub proof fn lemma_put_all(s: Seq<Seq<char>>, names: Seq<Seq<char>>)
    requires
        ascending(s),
    ensures
        ascending(put_all(s, names)),
        put_all(s, names).to_set() == s.to_set() + names.to_set(),
    decreases names.len(),
{
    if names.len() == 0 {
        assert(s.to_set() + names.to_set() =~= s.to_set());
    } else {
        let rest = names.drop_last();
        lemma_put_all(s, rest);
        lemma_put(put_all(s, rest), names.last());
        assert forall|x: Seq<char>| names.contains(x) <==> (rest.contains(x) || x
            == names.last()) by {
            if names.contains(x) {
                let k = choose|k: int| 0 <= k < names.len() && names[k] == x;
                if k < names.len() - 1 {
                    assert(rest[k] == x);
                }
            }
            if rest.contains(x) {
                let k = choose|k: int| 0 <= k < rest.len() && rest[k] == x;
                assert(names[k] == x);
            }
            assert(names[names.len() - 1] == names.last());
        }
        assert((s.to_set() + rest.to_set()).insert(names.last()) =~= s.to_set()
            + names.to_set());
    }
}

/// [`collected`] holds the same names, in ascending order.
pub proof fn lemma_collected(s: Seq<Seq<char>>)
    ensures
        ascending(collected(s)),
        collected(s).to_set() == s.to_set(),
{
    lemma_put_all(Seq::empty(), s);
    assert(Seq::<Seq<char>>::empty().to_set() + s.to_set() =~= s.to_set());
}

/// A name is among the collected names exactly if it is among the names.
pub proof fn lemma_collected_contains(s: Seq<Seq<char>>)
    ensures
        forall|x: Seq<char>| #[trigger] collected(s).contains(x) <==> s.contains(x),
{
    lemma_collected(s);
    assert forall|x: Seq<char>| #[trigger] collected(s).contains(x) <==> s.contains(x) by {
        assert(collected(s).to_set().contains(x) <==> s.to_set().contains(x));
    }
}

/// Inserting an element in its place keeps a sequence sorted.
pub proof fn lemma_insert_sorted<A>(s: Seq<A>, p: int, a: A, leq: spec_fn(A, A) -> bool)
    requires
        sorted_by(s, leq),
        0 <= p <= s.len(),
        forall|k: int| 0 <= k < p ==> #[trigger] leq(s[k], a),
        forall|k: int| p <= k < s.len() ==> #[trigger] leq(a, s[k]),
    ensures
        sorted_by(s.insert(p, a), leq),
        s.insert(p, a).to_multiset() == s.to_multiset().insert(a),
{
    let t = s.insert(p, a);
    assert forall|i: int, j: int| 0 <= i < j < t.len() implies #[trigger] leq(t[i], t[j]) by {
        let x = if i < p {
            i
        } else {
            i - 1
        };
        let y = if j < p {
            j
        } else {
            j - 1
        };
        if i == p {
            assert(leq(a, s[y]));
        } else if j == p {
            assert(leq(s[x], a));
        } else {
            assert(leq(s[x], s[y]));
        }
    }
    vstd::seq_lib::to_multiset_insert(s, p, a);
}

/// A sorted sequence with the elements of `s` is `s` sorted.
pub proof fn lemma_is_sort<A>(s: Seq<A>, t: Seq<A>, leq: spec_fn(A, A) -> bool)
    requires
        total_ordering(leq),
        sorted_by(t, leq),
        t.to_multiset() == s.to_multiset(),
    ensures
        t == s.sort_by(leq),
{
    s.lemma_sort_by_ensures(leq);
    vstd::seq_lib::lemma_sorted_unique(t, s.sort_by(leq), leq);
}

/// Sorting keeps the names, and puts none before one that it stands after.
pub proof fn lemma_sorted(s: Seq<Seq<char>>)
    ensures
        sorted(s).to_multiset() == s.to_multiset(),
        forall|x: Seq<char>| #[trigger] sorted(s).contains(x) <==> s.contains(x),
        forall|i: int, j: int|
            0 <= i < j < sorted(s).len() ==> not_after(
                #[trigger] sorted(s)[i],
                #[trigger] sorted(s)[j],
            ),
{
    let leq = |a: Seq<char>, b: Seq<char>| not_after(a, b);
    lemma_total_order();
    s.lemma_sort_by_ensures(leq);
    assert forall|x: Seq<char>| #[trigger] sorted(s).contains(x) <==> s.contains(x) by {
        vstd::seq_lib::to_multiset_contains(s, x);
        vstd::seq_lib::to_multiset_contains(sorted(s), x);
    }
    assert forall|i: int, j: int| 0 <= i < j < sorted(s).len() implies not_after(
        #[trigger] sorted(s)[i],
        #[trigger] sorted(s)[j],
    ) by {
        assert(leq(sorted(s)[i], sorted(s)[j]));
    }
}

/// Names in alphabetical order.
pub fn sort_names(names: &Vec<String>) -> (r: Vec<String>)
    ensures
        text::texts(r@) == sorted(text::texts(names@)),
{
    let ghost leq = |a: Seq<char>, b: Seq<char>| not_after(a, b);
    let ghost ns = text::texts(names@);
    let mut r: Vec<String> = Vec::new();
    proof {
        assert(text::texts(r@) =~= ns.take(0));
    }
    for k in 0..names.len()
        invariant
            leq == (|a: Seq<char>, b: Seq<char>| not_after(a, b)),
            ns == text::texts(names@),
            sorted_by(text::texts(r@), leq),
            text::texts(r@).to_multiset() == ns.take(k as int).to_multiset(),
    {
        let ghost t = text::texts(r@);
        let name = names[k].clone();
        let slot = sort_slot(&r, name.as_str());
        proof {
            lemma_insert_sorted(t, slot as int, name@, leq);
            assert(ns.take(k + 1) =~= ns.take(k as int).push(name@));
            vstd::seq_lib::to_multiset_build(ns.take(k as int), name@);
        }
        r.insert(slot, name);
        proof {
            assert(text::texts(r@) =~= t.insert(slot as int, ns[k as int]));
        }
    }
    proof {
        assert(ns.take(ns.len() as int) =~= ns);
        lemma_total_order();
        lemma_is_sort(ns, text::texts(r@), leq);
    }
    r
}

/// The place behind all names of a sorted sequence that do not stand after
/// `name`.
fn sort_slot(names: &Vec<String>, name: &str) -> (r: usize)
    requires
        sorted_by(text::texts(names@), |a: Seq<char>, b: Seq<char>| not_after(a, b)),
    ensures
        r <= names.len(),
        forall|k: int| 0 <= k < r ==> not_after(#[trigger] text::texts(names@)[k], name@),
        forall|k: int|
            r <= k < names.len() ==> not_after(name@, #[trigger] text::texts(names@)[k]),
{
    let ghost leq = |a: Seq<char>, b: Seq<char>| not_after(a, b);
    let ghost t = text::texts(names@);
    let mut lo: usize = 0;
    let mut hi: usize = names.len();
    proof {
        lemma_total_order();
    }
    while lo < hi
        invariant
            leq == (|a: Seq<char>, b: Seq<char>| not_after(a, b)),
            total_ordering(leq),
            t == text::texts(names@),
            sorted_by(t, leq),
            lo <= hi <= names.len(),
            forall|k: int| 0 <= k < lo ==> not_after(#[trigger] t[k], name@),
            forall|k: int| hi <= k < names.len() ==> not_after(name@, #[trigger] t[k]),
        decreases hi - lo,
    {
        let mid: usize = lo + (hi - lo) / 2;
        let ghost m = t[mid as int];
        proof {
            assert(m == names@[mid as int]@);
            lemma_not_both_before(m, name@);
        }
        match place(names[mid].as_str(), name) {
            Place::After => {
                proof {
                    assert forall|k: int| mid <= k < names.len() implies not_after(
                        name@,
                        #[trigger] t[k],
                    ) by {
                        if k > mid {
                            assert(leq(t[mid as int], t[k]));
                            assert(leq(name@, m) && leq(m, t[k]));
                            assert(leq(name@, t[k]));
                        }
                    }
                }
                hi = mid;
            },
            _ => {
                proof {
                    lemma_before_irreflexive(name@);
                    assert forall|k: int| 0 <= k <= mid implies not_after(
                        #[trigger] t[k],
                        name@,
                    ) by {
                        if k < mid {
                            assert(leq(t[k], t[mid as int]));
                            assert(leq(t[k], m) && leq(m, name@));
                            assert(leq(t[k], name@));
                        }
                    }
                }
                lo = mid + 1;
            },
        }
    }
    lo
}

/// The names that satisfy `pred`, in alphabetical order.
pub open spec fn listing(pred: spec_fn(Seq<char>) -> bool) -> Seq<Seq<char>> {
    choose|s: Seq<Seq<char>>| #![trigger ascending(s)]
        ascending(s) && forall|x: Seq<char>| #[trigger] s.contains(x) <==> pred(x)
}

/// An ascending sequence of the names that satisfy `pred` is their listing.
pub proof fn lemma_listing(s: Seq<Seq<char>>, pred: spec_fn(Seq<char>) -> bool)
    requires
        ascending(s),
        forall|x: Seq<char>| #[trigger] s.contains(x) <==> pred(x),
    ensures
        listing(pred) == s,
{
    let t = listing(pred);
    assert(ascending(t) && forall|x: Seq<char>| #[trigger] t.contains(x) <==> pred(x));
    assert forall|x: Seq<char>| t.to_set().contains(x) <==> s.to_set().contains(x) by {
        assert(t.contains(x) <==> pred(x));
        assert(s.contains(x) <==> pred(x));
    }
    assert(t.to_set() =~= s.to_set());
    lemma_ascending_unique(t, s);
}

/// Names are ordered by the first character in which they differ, by its code
/// point; a name stands before those that it begins.
pub proof fn law_alphabetical(common: Seq<char>, x: Seq<char>, y: Seq<char>)
    ensures
        !before(common, common),
        y.len() > 0 ==> before(common, common + y) && !before(common + y, common),
        x.len() > 0 && y.len() > 0 && x[0] != y[0] ==> (before(common + x, common + y) <==> (
        x[0] as int) < (y[0] as int)),
    decreases common.len(),
{
    if common.len() == 0 {
        assert(common + x =~= x);
        assert(common + y =~= y);
        assert(common =~= Seq::empty());
    } else {
        let rest = common.drop_first();
        law_alphabetical(rest, x, y);
        assert((common + x).drop_first() =~= rest + x);
        assert((common + y).drop_first() =~= rest + y);
    }
}

/// Sorting keeps all names and puts them into alphabetical order; collecting keeps
/// one of each.
pub proof fn law_sorted(s: Seq<Seq<char>>, i: int, j: int)
    ensures
        sorted(s).to_multiset() == s.to_multiset(),
        0 <= i < j < s.len() ==> !before(sorted(s)[j], sorted(s)[i]),
        forall|x: Seq<char>| #[trigger] collected(s).contains(x) <==> s.contains(x),
        0 <= i < j < collected(s).len() ==> before(collected(s)[i], collected(s)[j]),
{
    let leq = |a: Seq<char>, b: Seq<char>| not_after(a, b);
    lemma_total_order();
    s.lemma_sort_by_ensures(leq);
    vstd::seq_lib::to_multiset_len(s);
    vstd::seq_lib::to_multiset_len(sorted(s));
    if 0 <= i < j < s.len() {
        assert(leq(sorted(s)[i], sorted(s)[j]));
    }
    lemma_collected(s);
    lemma_collected_contains(s);
}

} // verus!
