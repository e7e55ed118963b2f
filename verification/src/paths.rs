//! Paths as texts, with `/` between the components.
//!
//! A component is what stands between two separators. Empty components and
//! `.` do not count, except for a `.` at the very start.

use vstd::prelude::*;
use vstd::slice::slice_subrange;

use crate::text;

verus! {

/// The stretches between the separators of a text: where each starts and ends.
pub open spec fn stretches(s: Seq<char>) -> Seq<(int, int)>
    decreases s.len(),
{
    if s.len() == 0 {
        seq![(0, 0)]
    } else {
        let rest = stretches(s.drop_last());
        let n = s.len() as int;
        if s.last() == '/' {
            rest.push((n, n))
        } else {
            rest.drop_last().push((rest.last().0, n))
        }
    }
}

/// Whether the stretch of a path counts as a component.
pub open spec fn counts(s: Seq<char>, at: (int, int)) -> bool {
    at.0 < at.1 && !(at.0 > 0 && s.subrange(at.0, at.1) == "."@)
}

/// Those of `all` that count.
pub open spec fn counting(s: Seq<char>, all: Seq<(int, int)>) -> Seq<(int, int)>
    decreases all.len(),
{
    if all.len() == 0 {
        Seq::empty()
    } else {
        let rest = counting(s, all.drop_last());
        if counts(s, all.last()) {
            rest.push(all.last())
        } else {
            rest
        }
    }
}

/// Where the components of a path start and end.
pub open spec fn spans(path: Seq<char>) -> Seq<(int, int)> {
    counting(path, stretches(path))
}

/// The text of a component.
pub open spec fn component(path: Seq<char>, i: int) -> Seq<char> {
    path.subrange(spans(path)[i].0, spans(path)[i].1)
}

/// Whether a path starts at the root.
pub open spec fn rooted(path: Seq<char>) -> bool {
    path.len() > 0 && path[0] == '/'
}

/// The last component, where it is a name and neither `.` nor `..`.
pub open spec fn file_name_of(path: Seq<char>) -> Option<Seq<char>> {
    let n = spans(path).len() as int;
    if n == 0 || component(path, n - 1) == "."@ || component(path, n - 1) == ".."@ {
        None
    } else {
        Some(component(path, n - 1))
    }
}

/// A file name without its extension.
pub open spec fn stem_of(name: Seq<char>) -> Seq<char> {
    let dot = text::last_position(name, '.');
    if dot <= 0 {
        name
    } else {
        name.take(dot)
    }
}

/// What follows the last dot of a file name, unless the dot comes first.
pub open spec fn extension_of(name: Seq<char>) -> Option<Seq<char>> {
    let dot = text::last_position(name, '.');
    if dot <= 0 {
        None
    } else {
        Some(name.skip(dot + 1))
    }
}

pub open spec fn file_stem_of(path: Seq<char>) -> Option<Seq<char>> {
    match file_name_of(path) {
        Some(name) => Some(stem_of(name)),
        None => None,
    }
}

/// The path without its last component.
pub open spec fn parent_of(path: Seq<char>) -> Option<Seq<char>> {
    let n = spans(path).len() as int;
    if n == 0 {
        None
    } else if n == 1 {
        Some(
            if rooted(path) {
                "/"@
            } else {
                Seq::empty()
            },
        )
    } else {
        Some(path.take(spans(path)[n - 2].1))
    }
}

/// `rel` seen from `base`.
pub open spec fn joined(base: Seq<char>, rel: Seq<char>) -> Seq<char> {
    if rooted(rel) {
        rel
    } else if base.len() == 0 || base.last() == '/' {
        base + rel
    } else {
        base + "/"@ + rel
    }
}

/// Whether the components of `base` come first in `path`.
pub open spec fn lies_under(path: Seq<char>, base: Seq<char>) -> bool {
    if spans(base).len() == 0 && !rooted(base) {
        true
    } else {
        &&& rooted(path) == rooted(base)
        &&& spans(base).len() <= spans(path).len()
        &&& forall|i: int|
            0 <= i < spans(base).len() ==> #[trigger] component(base, i) == component(path, i)
    }
}

/// The text from the component at `i` to the last one.
pub open spec fn components_from(path: Seq<char>, i: int) -> Seq<char> {
    let all = spans(path);
    if i < all.len() {
        path.subrange(all[i].0, all[all.len() - 1].1)
    } else {
        Seq::empty()
    }
}

/// `path` seen from `base`, where it lies under it.
pub open spec fn stripped(path: Seq<char>, base: Seq<char>) -> Option<Seq<char>> {
    if !lies_under(path, base) {
        None
    } else if spans(base).len() == 0 && !rooted(base) && rooted(path) {
        Some(
            if spans(path).len() == 0 {
                "/"@
            } else {
                path.take(spans(path)[spans(path).len() - 1].1)
            },
        )
    } else {
        Some(components_from(path, spans(base).len() as int))
    }
}

/// `abs` seen from `base` where it lies under it, and as it is where it does
/// not, with `/` for each backslash.
pub open spec fn relative(abs: Seq<char>, base: Seq<char>) -> Seq<char> {
    text::replaced(
        match stripped(abs, base) {
            Some(rel) => rel,
            None => abs,
        },
        '\\',
        '/',
    )
}

/// The stretches are never empty and lie in the text.
proof fn lemma_stretches(s: Seq<char>)
    ensures
        stretches(s).len() > 0,
        stretches(s).last().1 == s.len(),
        forall|i: int|
            0 <= i < stretches(s).len() ==> 0 <= (#[trigger] stretches(s)[i]).0
                <= stretches(s)[i].1 <= s.len(),
    decreases s.len(),
{
    if s.len() > 0 {
        lemma_stretches(s.drop_last());
    }
}

proof fn lemma_counting(s: Seq<char>, all: Seq<(int, int)>)
    ensures
        counting(s, all).len() <= all.len(),
        forall|i: int|
            0 <= i < counting(s, all).len() ==> all.contains(#[trigger] counting(s, all)[i])
                && counts(s, counting(s, all)[i]),
    decreases all.len(),
{
    if all.len() > 0 {
        let rest = all.drop_last();
        lemma_counting(s, rest);
        assert forall|i: int| 0 <= i < counting(s, all).len() implies all.contains(
            #[trigger] counting(s, all)[i],
        ) && counts(s, counting(s, all)[i]) by {
            if i < counting(s, rest).len() {
                let k = choose|k: int| 0 <= k < rest.len() && rest[k] == counting(s, rest)[i];
                assert(all[k] == counting(s, all)[i]);
            } else {
                assert(all[all.len() - 1] == counting(s, all)[i]);
            }
        }
    }
}

/// No stretch holds a separator.
proof fn lemma_stretches_plain(s: Seq<char>)
    ensures
        forall|i: int, j: int|
            #![trigger stretches(s)[i], s[j]]
            0 <= i < stretches(s).len() && stretches(s)[i].0 <= j < stretches(s)[i].1 ==> s[j]
                != '/',
    decreases s.len(),
{
    if s.len() > 0 {
        let front = s.drop_last();
        lemma_stretches(front);
        lemma_stretches_plain(front);
        let rest = stretches(front);
        assert forall|i: int, j: int|
            #![trigger stretches(s)[i], s[j]]
            0 <= i < stretches(s).len() && stretches(s)[i].0 <= j < stretches(s)[i].1 implies s[j]
            != '/' by {
            if i < rest.len() {
                assert(0 <= rest[i].0 && rest[i].1 <= front.len());
                if j < front.len() {
                    assert(front[j] == s[j]);
                }
            }
        }
    }
}

/// A component is not empty and holds no separator.
pub proof fn lemma_component_plain(path: Seq<char>, i: int)
    requires
        0 <= i < spans(path).len(),
    ensures
        component(path, i).len() > 0,
        !component(path, i).contains('/'),
{
    lemma_spans(path);
    lemma_stretches_plain(path);
    lemma_counting(path, stretches(path));
    let at = spans(path)[i];
    assert(stretches(path).contains(at));
    let k = choose|k: int| 0 <= k < stretches(path).len() && stretches(path)[k] == at;
    let c = component(path, i);
    assert forall|j: int| 0 <= j < c.len() implies c[j] != '/' by {
        assert(stretches(path)[k].0 <= at.0 + j < stretches(path)[k].1);
        assert(path[at.0 + j] != '/');
    }
}

/// The components lie in the text and are not empty.
proof fn lemma_spans(path: Seq<char>)
    ensures
        forall|i: int|
            0 <= i < spans(path).len() ==> 0 <= (#[trigger] spans(path)[i]).0 < spans(path)[i].1
                <= path.len(),
{
    lemma_stretches(path);
    lemma_counting(path, stretches(path));
}

/// What a path that is not rooted lies in is not rooted.
pub proof fn lemma_parent_unrooted(path: Seq<char>)
    requires
        !rooted(path),
    ensures
        parent_of(path) matches Some(parent) ==> !rooted(parent),
{
    lemma_spans(path);
    let n = spans(path).len() as int;
    if n > 1 {
        let end = spans(path)[n - 2].1;
        assert(path.take(end)[0] == path[0]);
    }
}

spec fn spans_view(v: Seq<(usize, usize)>) -> Seq<(int, int)> {
    v.map_values(|p: (usize, usize)| (p.0 as int, p.1 as int))
}

/// Where the components of a path start and end.
fn components(s: &[char]) -> (r: Vec<(usize, usize)>)
    ensures
        spans_view(r@) == spans(s@),
{
    let mut r: Vec<(usize, usize)> = Vec::new();
    let mut start: usize = 0;
    let mut i: usize = 0;
    proof {
        assert(s@.take(0) =~= Seq::empty());
        assert(stretches(s@.take(0)).drop_last() =~= Seq::empty());
        assert(spans_view(r@) =~= Seq::empty());
    }
    while i < s.len()
        invariant
            i <= s.len(),
            start <= i,
            stretches(s@.take(i as int)).len() > 0,
            stretches(s@.take(i as int)).last() == (start as int, i as int),
            spans_view(r@) == counting(s@, stretches(s@.take(i as int)).drop_last()),
        decreases s.len() - i,
    {
        let ghost all = stretches(s@.take(i as int));
        proof {
            assert(s@.take(i + 1).drop_last() =~= s@.take(i as int));
        }
        if s[i] == '/' {
            push_component(s, start, i, &mut r);
            proof {
                assert(stretches(s@.take(i + 1)).drop_last() =~= all);
                assert(all =~= all.drop_last().push((start as int, i as int)));
            }
            start = i + 1;
        } else {
            proof {
                assert(stretches(s@.take(i + 1)).drop_last() =~= all.drop_last());
            }
        }
        i = i + 1;
    }
    push_component(s, start, i, &mut r);
    proof {
        assert(s@.take(i as int) =~= s@);
        let all = stretches(s@);
        assert(all =~= all.drop_last().push((start as int, i as int)));
    }
    r
}

/// Appends the stretch from `start` to `end`, if it counts as a component.
fn push_component(s: &[char], start: usize, end: usize, r: &mut Vec<(usize, usize)>)
    requires
        start <= end <= s.len(),
    ensures
        spans_view(final(r)@) == if counts(s@, (start as int, end as int)) {
            spans_view(old(r)@).push((start as int, end as int))
        } else {
            spans_view(old(r)@)
        },
{
    proof {
        reveal_strlit(".");
        if end - start == 1 {
            assert(s@[start as int] == '.' ==> s@.subrange(start as int, end as int) =~= "."@);
            assert(s@.subrange(start as int, end as int)[0] == s@[start as int]);
        } else {
            assert(s@.subrange(start as int, end as int).len() == end - start);
        }
    }
    if start < end && !(start > 0 && end - start == 1 && s[start] == '.') {
        let ghost before = r@;
        r.push((start, end));
        proof {
            assert(spans_view(r@) =~= spans_view(before).push((start as int, end as int)));
        }
    }
}

/// The last component of a path, where it is a name.
pub fn file_name(path: &str) -> (r: Option<String>)
    ensures
        text::opt_text(r) == file_name_of(path@),
{
    let s = text::to_chars(path);
    let all = components(s.as_slice());
    proof {
        lemma_spans(path@);
        reveal_strlit(".");
        reveal_strlit("..");
    }
    if all.len() == 0 {
        return None;
    }
    let (start, end) = all[all.len() - 1];
    proof {
        let n = spans(path@).len() as int;
        assert(spans(path@)[n - 1] == spans_view(all@)[n - 1]);
    }
    let name = text::from_chars(slice_subrange(s.as_slice(), start, end));
    if text::same_text(name.as_str(), ".") || text::same_text(name.as_str(), "..") {
        None
    } else {
        Some(name)
    }
}

/// A file name without its extension.
pub fn stem(name: &str) -> (r: String)
    ensures
        r@ == stem_of(name@),
{
    let s = text::to_chars(name);
    match text::rposition(s.as_slice(), '.') {
        Some(dot) => if dot == 0 {
            name.to_owned()
        } else {
            proof {
                text::lemma_last_position(name@, '.');
            }
            let r = text::from_chars(slice_subrange(s.as_slice(), 0, dot));
            proof {
                assert(r@ =~= name@.take(dot as int));
            }
            r
        },
        None => name.to_owned(),
    }
}

/// What follows the last dot of a file name, unless the dot comes first.
pub fn extension(name: &str) -> (r: Option<String>)
    ensures
        text::opt_text(r) == extension_of(name@),
{
    let s = text::to_chars(name);
    match text::rposition(s.as_slice(), '.') {
        Some(dot) => if dot == 0 {
            None
        } else {
            proof {
                text::lemma_last_position(name@, '.');
            }
            let end: usize = s.len();
            let r = text::from_chars(slice_subrange(s.as_slice(), dot + 1, end));
            proof {
                assert(r@ =~= name@.skip(dot + 1));
            }
            Some(r)
        },
        None => None,
    }
}

/// The last component of a path without its extension.
pub fn file_stem(path: &str) -> (r: Option<String>)
    ensures
        text::opt_text(r) == file_stem_of(path@),
{
    match file_name(path) {
        Some(name) => Some(stem(name.as_str())),
        None => None,
    }
}

/// The path without its last component.
pub fn parent(path: &str) -> (r: Option<String>)
    ensures
        text::opt_text(r) == parent_of(path@),
{
    let s = text::to_chars(path);
    let all = components(s.as_slice());
    proof {
        lemma_spans(path@);
    }
    if all.len() == 0 {
        return None;
    }
    if all.len() == 1 {
        if s.len() > 0 && s[0] == '/' {
            return Some("/".to_owned());
        }
        let r = String::new();
        proof {
            assert(r@ =~= Seq::empty());
        }
        return Some(r);
    }
    let (_, end) = all[all.len() - 2];
    proof {
        let n = spans(path@).len() as int;
        assert(spans(path@)[n - 2] == spans_view(all@)[n - 2]);
    }
    let r = text::from_chars(slice_subrange(s.as_slice(), 0, end));
    proof {
        assert(r@ =~= path@.take(end as int));
    }
    Some(r)
}

/// `rel` seen from `base`.
pub fn join(base: &str, rel: &str) -> (r: String)
    ensures
        r@ == joined(base@, rel@),
{
    let b = text::to_chars(base);
    let t = text::to_chars(rel);
    if t.len() > 0 && t[0] == '/' {
        return rel.to_owned();
    }
    let mut r = base.to_owned();
    if b.len() > 0 && b[b.len() - 1] != '/' {
        r.append("/");
    }
    r.append(rel);
    r
}

/// Whether two components are equal.
fn same_component(
    a: &[char],
    x: (usize, usize),
    b: &[char],
    y: (usize, usize),
) -> (r: bool)
    requires
        x.0 <= x.1 <= a.len(),
        y.0 <= y.1 <= b.len(),
    ensures
        r == (a@.subrange(x.0 as int, x.1 as int) == b@.subrange(y.0 as int, y.1 as int)),
{
    text::same_chars(slice_subrange(a, x.0, x.1), slice_subrange(b, y.0, y.1))
}

/// `path` seen from `base`, where it lies under it.
pub fn strip_prefix(path: &str, base: &str) -> (r: Option<String>)
    ensures
        text::opt_text(r) == stripped(path@, base@),
{
    let p = text::to_chars(path);
    let b = text::to_chars(base);
    let ps = components(p.as_slice());
    let bs = components(b.as_slice());
    let path_rooted = p.len() > 0 && p[0] == '/';
    let base_rooted = b.len() > 0 && b[0] == '/';
    proof {
        lemma_spans(path@);
        lemma_spans(base@);
        assert(forall|i: int|
            0 <= i < ps.len() ==> #[trigger] spans(path@)[i] == spans_view(ps@)[i]);
        assert(forall|i: int|
            0 <= i < bs.len() ==> #[trigger] spans(base@)[i] == spans_view(bs@)[i]);
    }
    if bs.len() == 0 && !base_rooted {
        if path_rooted {
            if ps.len() == 0 {
                return Some("/".to_owned());
            }
            let (_, end) = ps[ps.len() - 1];
            let r = text::from_chars(slice_subrange(p.as_slice(), 0, end));
            proof {
                assert(spans(path@)[ps.len() - 1].1 == end);
                assert(r@ =~= path@.take(end as int));
            }
            return Some(r);
        }
    } else {
        if path_rooted != base_rooted || bs.len() > ps.len() {
            return None;
        }
        for i in 0..bs.len()
            invariant
                bs.len() <= ps.len(),
                p@ == path@,
                b@ == base@,
                ps.len() == spans(path@).len(),
                bs.len() == spans(base@).len(),
                spans_view(ps@) == spans(path@),
                spans_view(bs@) == spans(base@),
                forall|k: int|
                    0 <= k < ps.len() ==> 0 <= (#[trigger] spans(path@)[k]).0 < spans(path@)[k].1
                        <= path@.len(),
                forall|k: int|
                    0 <= k < bs.len() ==> 0 <= (#[trigger] spans(base@)[k]).0 < spans(base@)[k].1
                        <= base@.len(),
                forall|k: int| 0 <= k < i ==> #[trigger] component(base@, k) == component(path@, k),
        {
            proof {
                assert(spans(path@)[i as int] == spans_view(ps@)[i as int]);
                assert(spans(base@)[i as int] == spans_view(bs@)[i as int]);
            }
            if !same_component(p.as_slice(), ps[i], b.as_slice(), bs[i]) {
                proof {
                    assert(component(base@, i as int) != component(path@, i as int));
                }
                return None;
            }
        }
    }
    if bs.len() < ps.len() {
        let (start, _) = ps[bs.len()];
        let (_, end) = ps[ps.len() - 1];
        proof {
            assert(spans(path@)[bs.len() as int] == (start as int, ps@[bs.len() as int].1 as int));
            assert(spans(path@)[ps.len() - 1].1 == end);
            lemma_spans_ordered(path@, bs.len() as int, ps.len() - 1);
        }
        Some(text::from_chars(slice_subrange(p.as_slice(), start, end)))
    } else {
        let r = String::new();
        proof {
            assert(r@ =~= Seq::empty());
        }
        Some(r)
    }
}

/// Later stretches start after earlier ones.
proof fn lemma_stretches_ordered(s: Seq<char>)
    ensures
        forall|i: int, j: int|
            0 <= i < j < stretches(s).len() ==> (#[trigger] stretches(s)[i]).1 < (
            #[trigger] stretches(s)[j]).0,
    decreases s.len(),
{
    if s.len() > 0 {
        lemma_stretches_ordered(s.drop_last());
        lemma_stretches(s.drop_last());
        let rest = stretches(s.drop_last());
        assert forall|i: int, j: int| 0 <= i < j < stretches(s).len() implies (
        #[trigger] stretches(s)[i]).1 < (#[trigger] stretches(s)[j]).0 by {
            if s.last() == '/' && j == rest.len() {
                assert(rest[i].1 <= s.len() - 1);
            } else {
                assert(rest[i].1 < rest[j].0);
            }
        }
    }
}

proof fn lemma_counting_ordered(s: Seq<char>, all: Seq<(int, int)>)
    requires
        forall|i: int, j: int|
            0 <= i < j < all.len() ==> (#[trigger] all[i]).1 < (#[trigger] all[j]).0,
    ensures
        forall|i: int, j: int|
            0 <= i < j < counting(s, all).len() ==> (#[trigger] counting(s, all)[i]).1 < (
            #[trigger] counting(s, all)[j]).0,
    decreases all.len(),
{
    if all.len() > 0 {
        let rest = all.drop_last();
        assert forall|i: int, j: int| 0 <= i < j < rest.len() implies (#[trigger] rest[i]).1 < (
        #[trigger] rest[j]).0 by {
            assert(all[i].1 < all[j].0);
        }
        lemma_counting_ordered(s, rest);
        lemma_counting(s, rest);
        let kept = counting(s, all);
        assert forall|i: int, j: int| 0 <= i < j < kept.len() implies (#[trigger] kept[i]).1 < (
        #[trigger] kept[j]).0 by {
            if j == counting(s, rest).len() {
                assert(rest.contains(counting(s, rest)[i]));
                let k = choose|k: int| 0 <= k < rest.len() && rest[k] == counting(s, rest)[i];
                assert(all[k].1 < all[all.len() - 1].0);
            } else {
                assert(counting(s, rest)[i].1 < counting(s, rest)[j].0);
            }
        }
    }
}

/// Later components start after earlier ones.
proof fn lemma_spans_ordered(path: Seq<char>, i: int, j: int)
    requires
        0 <= i <= j < spans(path).len(),
    ensures
        spans(path)[i].0 < spans(path)[j].1,
{
    lemma_stretches_ordered(path);
    lemma_counting_ordered(path, stretches(path));
    lemma_spans(path);
    if i < j {
        assert(spans(path)[i].1 < spans(path)[j].0);
    }
}

/// `abs` seen from `base` where it lies under it, and as it is where it does
/// not, with `/` for each backslash.
pub fn rel_to(abs: &str, base: &str) -> (r: String)
    ensures
        r@ == relative(abs@, base@),
{
    match strip_prefix(abs, base) {
        Some(rel) => text::replace_char(rel.as_str(), '\\', '/'),
        None => text::replace_char(abs, '\\', '/'),
    }
}

/// The components of a path, with the root as `/`.
pub open spec fn names_of(path: Seq<char>) -> Seq<Seq<char>> {
    (if rooted(path) {
        seq!["/"@]
    } else {
        Seq::empty()
    }) + Seq::new(spans(path).len(), |i: int| component(path, i))
}

/// The components of a path, with the root as `/`.
pub fn component_names(path: &str) -> (r: Vec<String>)
    ensures
        text::texts(r@) == names_of(path@),
{
    let s = text::to_chars(path);
    let all = components(s.as_slice());
    let mut r: Vec<String> = Vec::new();
    if s.len() > 0 && s[0] == '/' {
        r.push("/".to_owned());
    }
    let ghost want = names_of(path@);
    let ghost n = r@.len() as int;
    proof {
        lemma_spans(path@);
        assert(text::texts(r@) =~= want.take(n));
    }
    for k in 0..all.len()
        invariant
            s@ == path@,
            spans_view(all@) == spans(path@),
            want == names_of(path@),
            n == if rooted(path@) {
                1int
            } else {
                0
            },
            forall|i: int|
                0 <= i < spans(path@).len() ==> 0 <= (#[trigger] spans(path@)[i]).0
                    < spans(path@)[i].1 <= path@.len(),
            text::texts(r@) == want.take(n + k),
    {
        let ghost before = r@;
        proof {
            assert(spans(path@)[k as int] == spans_view(all@)[k as int]);
        }
        let (start, end) = all[k];
        r.push(text::from_chars(slice_subrange(s.as_slice(), start, end)));
        proof {
            assert(want[n + k] == component(path@, k as int));
            assert(text::texts(r@) =~= text::texts(before).push(want[n + k]));
            assert(want.take(n + k + 1) =~= want.take(n + k).push(want[n + k]));
        }
    }
    proof {
        assert(want.take(want.len() as int) =~= want);
    }
    r
}

/// A parent is shorter.
pub proof fn lemma_parent_shorter(path: Seq<char>)
    ensures
        parent_of(path) matches Some(parent) ==> parent.len() < path.len(),
{
    lemma_spans(path);
    reveal_strlit("/");
    let n = spans(path).len() as int;
    if n == 1 {
        let (start, end) = spans(path)[0];
        if rooted(path) && path.len() == 1 {
            assert(path =~= Seq::empty().push('/'));
            assert(path.drop_last() =~= Seq::empty());
            assert(stretches(path.drop_last()) =~= seq![(0int, 0int)]);
            let all = stretches(path);
            assert(all =~= seq![(0int, 0int), (1int, 1int)]);
            assert(all.drop_last() =~= seq![(0int, 0int)]);
            assert(all.drop_last().drop_last() =~= Seq::empty());
            assert(counting(path, all.drop_last().drop_last()) =~= Seq::empty());
            assert(counting(path, all.drop_last()) =~= Seq::empty());
            assert(counting(path, all) =~= Seq::empty());
        }
    } else if n > 1 {
        lemma_stretches_ordered(path);
        lemma_counting_ordered(path, stretches(path));
        assert(spans(path)[n - 2].1 < spans(path)[n - 1].0);
    }
}

/// A path and all that it lies in, innermost first.
pub open spec fn upward(path: Seq<char>) -> Seq<Seq<char>>
    decreases path.len(),
{
    match parent_of(path) {
        Some(parent) => {
            proof {
                lemma_parent_shorter(path);
            }
            seq![path] + upward(parent)
        },
        None => seq![path],
    }
}

/// A path and all that it lies in, innermost first.
pub fn list_upward(path: &str) -> (r: Vec<String>)
    ensures
        text::texts(r@) == upward(path@),
{
    let mut r: Vec<String> = Vec::new();
    let mut cur = path.to_owned();
    proof {
        assert(text::texts(r@) + upward(path@) =~= upward(path@));
    }
    loop
        invariant
            text::texts(r@) + upward(cur@) == upward(path@),
        decreases cur@.len(),
    {
        let next = parent(cur.as_str());
        let ghost before = r@;
        let ghost here = cur@;
        proof {
            lemma_parent_shorter(here);
        }
        r.push(cur);
        proof {
            assert(text::texts(r@) =~= text::texts(before).push(here));
        }
        match next {
            Some(p) => {
                cur = p;
                proof {
                    assert(text::texts(before) + (seq![here] + upward(cur@)) =~= text::texts(r@)
                        + upward(cur@));
                }
            },
            None => {
                proof {
                    assert(text::texts(r@) =~= text::texts(before) + seq![here]);
                }
                return r;
            },
        }
    }
}

// --- paths made of names -----------------------------------------------------------------

/// A path made of names, from the root or not.
pub open spec fn path_of(root: bool, parts: Seq<Seq<char>>) -> Seq<char> {
    (if root {
        seq!['/']
    } else {
        Seq::empty()
    }) + text::join(parts, seq!['/'])
}

/// Whether each of `parts` is a name that stands for itself in a path.
pub open spec fn plain_names(parts: Seq<Seq<char>>) -> bool {
    forall|i: int|
        0 <= i < parts.len() ==> (#[trigger] parts[i]).len() > 0 && !parts[i].contains('/')
            && parts[i] != seq!['.']
}

proof fn lemma_stretch_add(a: Seq<char>, name: Seq<char>)
    requires
        !name.contains('/'),
    ensures
        stretches(a + seq!['/'] + name) == stretches(a).push(
            (a.len() as int + 1, a.len() as int + 1 + name.len() as int),
        ),
    decreases name.len(),
{
    let s = a + seq!['/'] + name;
    if name.len() == 0 {
        assert(s.drop_last() =~= a);
    } else {
        let front = name.drop_last();
        assert(!front.contains('/')) by {
            if front.contains('/') {
                let k = choose|k: int| 0 <= k < front.len() && front[k] == '/';
                assert(name[k] == '/');
            }
        }
        assert(name.contains(name[name.len() - 1]));
        lemma_stretch_add(a, front);
        assert(s.drop_last() =~= a + seq!['/'] + front);
        let before = stretches(s.drop_last());
        assert(before.drop_last() =~= stretches(a));
    }
}

proof fn lemma_stretch_one(name: Seq<char>)
    requires
        !name.contains('/'),
    ensures
        stretches(name) == seq![(0int, name.len() as int)],
    decreases name.len(),
{
    if name.len() > 0 {
        let front = name.drop_last();
        assert(!front.contains('/')) by {
            if front.contains('/') {
                let k = choose|k: int| 0 <= k < front.len() && front[k] == '/';
                assert(name[k] == '/');
            }
        }
        assert(name.contains(name[name.len() - 1]));
        lemma_stretch_one(front);
        assert(stretches(name) =~= seq![(0int, name.len() as int)]);
    }
}

proof fn lemma_counting_prefix(a: Seq<char>, s: Seq<char>, all: Seq<(int, int)>)
    requires
        a.len() <= s.len(),
        s.take(a.len() as int) == a,
        forall|i: int| 0 <= i < all.len() ==> 0 <= (#[trigger] all[i]).0 <= all[i].1 <= a.len(),
    ensures
        counting(s, all) == counting(a, all),
    decreases all.len(),
{
    if all.len() > 0 {
        let rest = all.drop_last();
        assert forall|i: int| 0 <= i < rest.len() implies 0 <= (#[trigger] rest[i]).0 <= rest[i].1
            <= a.len() by {
            assert(rest[i] == all[i]);
        }
        lemma_counting_prefix(a, s, rest);
        let at = all[all.len() - 1];
        assert(s.subrange(at.0, at.1) =~= a.subrange(at.0, at.1)) by {
            assert forall|k: int| 0 <= k < a.len() implies #[trigger] s[k] == a[k] by {
                assert(s.take(a.len() as int)[k] == s[k]);
            }
        }
    }
}

/// One more name is one more component.
proof fn lemma_span_add(a: Seq<char>, name: Seq<char>)
    requires
        name.len() > 0,
        !name.contains('/'),
        name != seq!['.'],
    ensures
        ({
            let s = a + seq!['/'] + name;
            &&& spans(s) == spans(a).push((a.len() as int + 1, s.len() as int))
            &&& component(s, spans(a).len() as int) == name
            &&& forall|i: int|
                0 <= i < spans(a).len() ==> #[trigger] component(s, i) == component(a, i)
        }),
{
    let s = a + seq!['/'] + name;
    let n = a.len() as int;
    lemma_stretch_add(a, name);
    lemma_stretches(a);
    assert(s.take(n) =~= a);
    lemma_counting_prefix(a, s, stretches(a));
    let all = stretches(s);
    assert(all.drop_last() =~= stretches(a));
    assert(s.subrange(n + 1, s.len() as int) =~= name);
    reveal_strlit(".");
    assert("."@ =~= seq!['.']);
    assert(counts(s, all.last()));
    lemma_spans(a);
    assert forall|i: int| 0 <= i < spans(a).len() implies #[trigger] component(s, i) == component(
        a,
        i,
    ) by {
        let at = spans(a)[i];
        assert(spans(s)[i] == at);
        assert(s.subrange(at.0, at.1) =~= a.subrange(at.0, at.1));
    }
}

proof fn lemma_path_of(root: bool, parts: Seq<Seq<char>>)
    requires
        parts.len() > 0,
        plain_names(parts),
    ensures
        ({
            let a = path_of(root, parts);
            &&& a.len() > 0
            &&& rooted(a) == root
            &&& spans(a).len() == parts.len()
            &&& spans(a).last().1 == a.len()
            &&& forall|i: int| 0 <= i < parts.len() ==> #[trigger] component(a, i) == parts[i]
            &&& parts.len() > 1 ==> a == path_of(root, parts.drop_last()) + seq!['/'] + parts.last()
                && spans(a)[parts.len() - 2].1 == path_of(root, parts.drop_last()).len()
        }),
    decreases parts.len(),
{
    let a = path_of(root, parts);
    let last = parts[parts.len() - 1];
    assert(last.len() > 0 && !last.contains('/') && last != seq!['.']);
    assert(last.contains(last[0]));
    if parts.len() == 1 {
        reveal_with_fuel(counting, 2);
        if root {
            let none: Seq<char> = Seq::empty();
            lemma_span_add(none, last);
            assert(none + seq!['/'] + last =~= a);
            assert(stretches(none).drop_last() =~= Seq::empty());
            assert(spans(none) =~= Seq::empty());
        } else {
            assert(a =~= last);
            lemma_stretch_one(last);
            let all = stretches(last);
            assert(all.drop_last() =~= Seq::empty());
            assert(spans(a) =~= seq![(0int, last.len() as int)]);
            assert(a.subrange(0, a.len() as int) =~= a);
        }
    } else {
        let front = parts.drop_last();
        assert(plain_names(front)) by {
            assert forall|i: int| 0 <= i < front.len() implies (#[trigger] front[i]).len() > 0
                && !front[i].contains('/') && front[i] != seq!['.'] by {
                assert(front[i] == parts[i]);
            }
        }
        lemma_path_of(root, front);
        let b = path_of(root, front);
        assert(a =~= b + seq!['/'] + last);
        lemma_span_add(b, last);
        assert(a[0] == b[0]);
        assert forall|i: int| 0 <= i < parts.len() implies #[trigger] component(a, i)
            == parts[i] by {
            if i < front.len() {
                assert(component(b, i) == front[i]);
            }
        }
    }
}

/// The components of a path are the names that it is made of. The last one is the
/// file name, unless it is `..`; the others make up the parent.
pub proof fn law_path_has_its_names(root: bool, parts: Seq<Seq<char>>)
    requires
        parts.len() > 0,
        plain_names(parts),
    ensures
        names_of(path_of(root, parts)) == (if root {
            seq![seq!['/']]
        } else {
            Seq::empty()
        }) + parts,
        parts.last() != seq!['.', '.'] ==> file_name_of(path_of(root, parts)) == Some(parts.last()),
        parts.last() == seq!['.', '.'] ==> file_name_of(path_of(root, parts)) is None,
        parent_of(path_of(root, parts)) == Some(path_of(root, parts.drop_last())),
{
    let a = path_of(root, parts);
    lemma_path_of(root, parts);
    reveal_strlit("/");
    reveal_strlit(".");
    reveal_strlit("..");
    assert("/"@ =~= seq!['/']);
    assert("."@ =~= seq!['.']);
    assert(".."@ =~= seq!['.', '.']);
    assert(names_of(a) =~= (if root {
        seq![seq!['/']]
    } else {
        Seq::empty()
    }) + parts);
    let n = parts.len() as int;
    assert(component(a, n - 1) == parts[n - 1]);
    let up = path_of(root, parts.drop_last());
    if n == 1 {
        assert(parts.drop_last() =~= Seq::empty());
        assert(up =~= if root {
            seq!['/']
        } else {
            Seq::empty()
        });
    } else {
        assert(a.take(up.len() as int) =~= up);
    }
}

/// The empty path has no names.
pub proof fn lemma_no_names()
    ensures
        names_of(Seq::empty()) == Seq::<Seq<char>>::empty(),
{
    let none: Seq<char> = Seq::empty();
    reveal_with_fuel(counting, 2);
    assert(stretches(none).drop_last() =~= Seq::empty());
    assert(spans(none) =~= Seq::empty());
    assert(names_of(none) =~= Seq::<Seq<char>>::empty());
}

proof fn lemma_path_more(root: bool, parts: Seq<Seq<char>>, more: Seq<Seq<char>>)
    requires
        parts.len() > 0,
        more.len() > 0,
        plain_names(parts),
        plain_names(more),
    ensures
        path_of(root, parts + more) == path_of(root, parts) + seq!['/'] + path_of(false, more),
        plain_names(parts + more),
        spans(path_of(root, parts + more))[parts.len() as int].0 == path_of(root, parts).len() + 1,
    decreases more.len(),
{
    let all = parts + more;
    let a = path_of(root, parts);
    assert forall|i: int| 0 <= i < all.len() implies (#[trigger] all[i]).len() > 0
        && !all[i].contains('/') && all[i] != seq!['.'] by {
        if i < parts.len() {
            assert(all[i] == parts[i]);
        } else {
            assert(all[i] == more[i - parts.len()]);
        }
    }
    let front = more.drop_last();
    let last = more[more.len() - 1];
    assert(last.len() > 0 && !last.contains('/') && last != seq!['.']);
    assert(all.drop_last() =~= parts + front);
    lemma_path_of(root, parts);
    lemma_path_of(root, all);
    let b = path_of(root, all.drop_last());
    lemma_span_add(b, last);
    if more.len() == 1 {
        assert(all.drop_last() =~= parts);
        assert(path_of(false, more) =~= last);
    } else {
        assert(plain_names(front)) by {
            assert forall|i: int| 0 <= i < front.len() implies (#[trigger] front[i]).len() > 0
                && !front[i].contains('/') && front[i] != seq!['.'] by {
                assert(front[i] == more[i]);
            }
        }
        lemma_path_more(root, parts, front);
        lemma_path_of(false, more);
        lemma_path_of(root, parts + front);
        assert(path_of(root, all) =~= a + seq!['/'] + path_of(false, more));
    }
}

/// Joining two paths writes the names of the second one behind those of the first,
/// unless the second one starts at the root.
pub proof fn law_paths_join(root: bool, parts: Seq<Seq<char>>, more: Seq<Seq<char>>)
    requires
        parts.len() > 0,
        more.len() > 0,
        plain_names(parts),
        plain_names(more),
    ensures
        joined(path_of(root, parts), path_of(false, more)) == path_of(root, parts + more),
        joined(path_of(root, parts), path_of(true, more)) == path_of(true, more),
{
    let a = path_of(root, parts);
    lemma_path_of(root, parts);
    lemma_path_of(false, more);
    lemma_path_of(true, more);
    lemma_path_more(root, parts, more);
    reveal_strlit("/");
    assert("/"@ =~= seq!['/']);
    let n = parts.len() as int;
    let last = parts[n - 1];
    assert(last.len() > 0 && !last.contains('/'));
    assert(last.contains(last[last.len() - 1]));
    assert(a.last() == last.last()) by {
        if n == 1 {
            assert(a =~= (if root {
                seq!['/']
            } else {
                Seq::empty()
            }) + last);
        }
    }
}

/// A path that starts with the names of another is stripped of them: what is left
/// is made of the names behind these.
pub proof fn law_paths_strip(root: bool, parts: Seq<Seq<char>>, more: Seq<Seq<char>>)
    requires
        parts.len() > 0,
        plain_names(parts),
        plain_names(more),
    ensures
        stripped(path_of(root, parts + more), path_of(root, parts)) == Some(path_of(false, more)),
{
    let a = path_of(root, parts);
    let s = path_of(root, parts + more);
    lemma_path_of(root, parts);
    if more.len() > 0 {
        lemma_path_more(root, parts, more);
        lemma_path_of(root, parts + more);
        assert forall|i: int| 0 <= i < spans(a).len() implies #[trigger] component(a, i)
            == component(s, i) by {
            assert(component(a, i) == parts[i]);
            assert(component(s, i) == (parts + more)[i]);
        }
        assert(s.subrange(a.len() as int + 1, s.len() as int) =~= path_of(false, more));
    } else {
        assert(parts + more =~= parts);
        assert(path_of(false, more) =~= Seq::empty());
    }
}

/// A path that does not start with the names of another is not stripped of it.
pub proof fn law_paths_apart(
    root: bool,
    parts: Seq<Seq<char>>,
    other: bool,
    base: Seq<Seq<char>>,
)
    requires
        parts.len() > 0,
        base.len() > 0,
        plain_names(parts),
        plain_names(base),
        !(root == other && base.len() <= parts.len() && parts.take(base.len() as int) == base),
    ensures
        stripped(path_of(root, parts), path_of(other, base)) is None,
{
    let a = path_of(root, parts);
    let b = path_of(other, base);
    lemma_path_of(root, parts);
    lemma_path_of(other, base);
    if lies_under(a, b) {
        assert forall|i: int| 0 <= i < base.len() implies #[trigger] parts[i] == base[i] by {
            assert(component(b, i) == component(a, i));
        }
        assert(parts.take(base.len() as int) =~= base);
    }
}

} // verus!
