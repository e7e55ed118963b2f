//! What the graph of a crate shows: the labels of a brace tree and the rows of a
//! Mermaid block, and what they have to do with the files of the crate.

use vstd::prelude::*;

use crate::drawing::Row;
use crate::graph::{BraceView, Direction, GraphOptions, LabelView, Mark};
use crate::{deps, drawing, graph, modtree, names, order, paths, text};

verus! {

// --- the text --------------------------------------------------------------------------------

/// `n` closing braces.
pub open spec fn closes(n: nat) -> Seq<char>
    decreases n,
{
    if n == 0 {
        Seq::empty()
    } else {
        closes((n - 1) as nat) + " }"@
    }
}

/// What stands between a label at depth `d` and the next one at depth `e`.
pub open spec fn between(d: nat, e: nat) -> Seq<char> {
    if e > d {
        " { "@
    } else {
        closes((d - e) as nat) + ", "@
    }
}

/// The text of a label with its mark.
pub open spec fn label_text(l: LabelView, dups: Seq<Seq<char>>) -> Seq<char> {
    graph::clear_label(l.node, dups) + match l.mark {
        Mark::Plain => Seq::empty(),
        Mark::Cut => " {…}"@,
        Mark::Again => "*"@,
        Mark::Back => "~"@,
    }
}

/// Labels one after the other, each at the depth of its way.
pub open spec fn outline(labels: Seq<LabelView>, dups: Seq<Seq<char>>) -> Seq<char>
    decreases labels.len(),
{
    if labels.len() == 0 {
        Seq::empty()
    } else if labels.len() == 1 {
        label_text(labels[0], dups)
    } else {
        outline(labels.drop_last(), dups) + between(
            labels[labels.len() - 2].way.len(),
            labels.last().way.len(),
        ) + label_text(labels.last(), dups)
    }
}

proof fn lemma_outline_add(a: Seq<LabelView>, b: Seq<LabelView>, dups: Seq<Seq<char>>)
    requires
        a.len() > 0,
        b.len() > 0,
    ensures
        outline(a + b, dups) == outline(a, dups) + between(
            a.last().way.len(),
            b[0].way.len(),
        ) + outline(b, dups),
    decreases b.len(),
{
    let all = a + b;
    if b.len() == 1 {
        assert(all.drop_last() =~= a);
        assert(all[all.len() - 2] == a.last());
    } else {
        lemma_outline_add(a, b.drop_last(), dups);
        assert(all.drop_last() =~= a + b.drop_last());
        assert(all[all.len() - 2] == b[b.len() - 2]);
        assert(outline(all, dups) =~= outline(a, dups) + between(
            a.last().way.len(),
            b[0].way.len(),
        ) + outline(b, dups));
    }
}

/// Whether a brace tree at depth `d` is the outline of its labels.
spec fn outlined(b: BraceView, d: nat, dups: Seq<Seq<char>>) -> bool {
    &&& b.labels.len() > 0
    &&& b.labels[0].way.len() == d
    &&& b.labels.last().way.len() >= d
    &&& b.text == outline(b.labels, dups) + closes((b.labels.last().way.len() - d) as nat)
}

proof fn lemma_node_outlined(
    adj: Map<Seq<char>, Seq<Seq<char>>>,
    entry: Seq<char>,
    limit: Option<usize>,
    node: Seq<char>,
    dups: Seq<Seq<char>>,
    shown: Seq<Seq<char>>,
    way: Seq<Seq<char>>,
)
    ensures
        outlined(graph::brace_node(adj, entry, limit, node, dups, shown, way), way.len(), dups),
    decreases graph::nodes_left(adj, way), 0nat,
{
    let b = graph::brace_node(adj, entry, limit, node, dups, shown, way);
    let kids = names::under(adj, node);
    let now = order::put(shown, node);
    let head = seq![LabelView { node, mark: Mark::Plain, way }];
    if !way.contains(node) && !shown.contains(node) && kids.len() > 0 && adj.dom().finite()
        && graph::opens(adj, entry, node, limit) {
        graph::lemma_nodes_left(adj, way, node);
        let down = way.push(node);
        let inner = graph::brace_children(adj, entry, limit, kids, dups, now, down);
        lemma_children_outlined(adj, entry, limit, kids, dups, now, down);
        lemma_outline_add(head, inner.labels, dups);
        let n = (inner.labels.last().way.len() - down.len()) as nat;
        assert(closes((n + 1) as nat) == closes(n) + " }"@);
        assert(b.labels == head + inner.labels);
        let label = graph::clear_label(node, dups);
        assert(outline(head, dups) =~= label);
        assert(b.text =~= outline(b.labels, dups) + closes((n + 1) as nat)) by {
            assert(label + " { "@ + (outline(inner.labels, dups) + closes(n)) + " }"@ =~= label
                + " { "@ + outline(inner.labels, dups) + (closes(n) + " }"@));
        }
    } else {
        let l = b.labels[0];
        assert(b.labels =~= seq![l]);
        assert(b.text =~= label_text(l, dups));
        assert(b.text + closes(0) =~= b.text);
    }
}

proof fn lemma_children_outlined(
    adj: Map<Seq<char>, Seq<Seq<char>>>,
    entry: Seq<char>,
    limit: Option<usize>,
    kids: Seq<Seq<char>>,
    dups: Seq<Seq<char>>,
    shown: Seq<Seq<char>>,
    way: Seq<Seq<char>>,
)
    requires
        kids.len() > 0,
    ensures
        outlined(
            graph::brace_children(adj, entry, limit, kids, dups, shown, way),
            way.len(),
            dups,
        ),
    decreases graph::nodes_left(adj, way), kids.len(),
{
    let rest = kids.drop_last();
    let before = graph::brace_children(adj, entry, limit, rest, dups, shown, way);
    let last = graph::brace_node(adj, entry, limit, kids.last(), dups, before.shown, way);
    let all = graph::brace_children(adj, entry, limit, kids, dups, shown, way);
    lemma_node_outlined(adj, entry, limit, kids.last(), dups, before.shown, way);
    if rest.len() == 0 {
        assert(all.labels =~= last.labels);
        assert(all.text =~= last.text);
    } else {
        lemma_children_outlined(adj, entry, limit, rest, dups, shown, way);
        lemma_outline_add(before.labels, last.labels, dups);
        let n = (before.labels.last().way.len() - way.len()) as nat;
        let m = (last.labels.last().way.len() - way.len()) as nat;
        assert(all.labels == before.labels + last.labels);
        assert(between(before.labels.last().way.len(), way.len()) == closes(n) + ", "@);
        assert(all.text =~= outline(all.labels, dups) + closes(m)) by {
            assert(outline(before.labels, dups) + closes(n) + ", "@ + (outline(last.labels, dups)
                + closes(m)) =~= outline(before.labels, dups) + (closes(n) + ", "@) + outline(
                last.labels,
                dups,
            ) + closes(m));
        }
    }
}

// --- the shape ---------------------------------------------------------------------------------

/// The nodes of the labels that are reached over the nodes `way`, in order.
pub open spec fn kids_at(labels: Seq<LabelView>, way: Seq<Seq<char>>) -> Seq<Seq<char>> {
    labels.filter(|l: LabelView| l.way == way).map_values(|l: LabelView| l.node)
}

proof fn lemma_kids_add(a: Seq<LabelView>, b: Seq<LabelView>, way: Seq<Seq<char>>)
    ensures
        kids_at(a + b, way) == kids_at(a, way) + kids_at(b, way),
    decreases b.len(),
{
    let on = |l: LabelView| l.way == way;
    let node = |l: LabelView| l.node;
    reveal(Seq::filter);
    if b.len() == 0 {
        assert(a + b =~= a);
        assert(kids_at(a, way) + kids_at(b, way) =~= kids_at(a, way));
    } else {
        lemma_kids_add(a, b.drop_last(), way);
        assert((a + b).drop_last() =~= a + b.drop_last());
        let x = (a + b.drop_last()).filter(on);
        let y = b.drop_last().filter(on);
        let l = b.last();
        if on(l) {
            assert(x.push(l).map_values(node) =~= x.map_values(node).push(l.node));
            assert(y.push(l).map_values(node) =~= y.map_values(node).push(l.node));
            assert((kids_at(a, way) + y.map_values(node)).push(l.node) =~= kids_at(a, way)
                + y.map_values(node).push(l.node));
        }
    }
}

proof fn lemma_kids_one(l: LabelView, way: Seq<Seq<char>>)
    ensures
        kids_at(seq![l], way) == if l.way == way {
            seq![l.node]
        } else {
            Seq::empty()
        },
{
    let on = |l: LabelView| l.way == way;
    reveal(Seq::filter);
    assert(seq![l].drop_last() =~= Seq::empty());
    assert(seq![l].drop_last().filter(on) =~= Seq::empty());
    assert(seq![l].last() == l);
    if l.way == way {
        assert(seq![l].filter(on) =~= seq![l]);
    } else {
        assert(seq![l].filter(on) =~= Seq::empty());
    }
    assert(kids_at(seq![l], way) =~= if l.way == way {
        seq![l.node]
    } else {
        Seq::empty()
    });
}

proof fn lemma_kids_none(labels: Seq<LabelView>, way: Seq<Seq<char>>)
    requires
        forall|i: int| 0 <= i < labels.len() ==> (#[trigger] labels[i]).way != way,
    ensures
        kids_at(labels, way) == Seq::<Seq<char>>::empty(),
    decreases labels.len(),
{
    reveal(Seq::filter);
    if labels.len() > 0 {
        let rest = labels.drop_last();
        assert forall|i: int| 0 <= i < rest.len() implies (#[trigger] rest[i]).way != way by {
            assert(rest[i] == labels[i]);
        }
        lemma_kids_none(rest, way);
        assert(labels[labels.len() - 1].way != way);
        let on = |l: LabelView| l.way == way;
        assert(labels.filter(on) =~= rest.filter(on));
    }
    assert(kids_at(labels, way) =~= Seq::empty());
}

/// Whether `way` starts with `front`.
spec fn starts(way: Seq<Seq<char>>, front: Seq<Seq<char>>) -> bool {
    front.len() <= way.len() && way.take(front.len() as int) == front
}

/// Whether the labels of one node are: the node at `way`, and below it only
/// labels that are reached over it.
spec fn below_one(labels: Seq<LabelView>, node: Seq<char>, way: Seq<Seq<char>>) -> bool {
    &&& labels.len() > 0
    &&& labels[0].node == node
    &&& labels[0].way == way
    &&& forall|i: int| 0 < i < labels.len() ==> starts((#[trigger] labels[i]).way, way.push(node))
}

/// Whether what stands below each label is what it leads to, or nothing where it
/// is marked.
spec fn kids_right(
    adj: Map<Seq<char>, Seq<Seq<char>>>,
    some: Seq<LabelView>,
    labels: Seq<LabelView>,
) -> bool {
    forall|i: int|
        0 <= i < some.len() ==> kids_at(
            labels,
            (#[trigger] some[i]).way.push(some[i].node),
        ) == if some[i].mark is Plain {
            names::under(adj, some[i].node)
        } else {
            Seq::empty()
        }
}

/// Whether the labels of some siblings are: each of the nodes at `way`, and
/// labels that are reached over one of them.
spec fn below_some(labels: Seq<LabelView>, kids: Seq<Seq<char>>, way: Seq<Seq<char>>) -> bool {
    forall|i: int|
        0 <= i < labels.len() ==> {
            ||| (#[trigger] labels[i]).way == way && kids.contains(labels[i].node)
            ||| labels[i].way.len() > way.len() && starts(labels[i].way, way) && kids.contains(
                labels[i].way[way.len() as int],
            )
        }
}

proof fn lemma_node_shape(
    adj: Map<Seq<char>, Seq<Seq<char>>>,
    entry: Seq<char>,
    limit: Option<usize>,
    node: Seq<char>,
    dups: Seq<Seq<char>>,
    shown: Seq<Seq<char>>,
    way: Seq<Seq<char>>,
)
    requires
        adj.dom().finite(),
        forall|a: Seq<char>| (#[trigger] names::under(adj, a)).no_duplicates(),
    ensures
        ({
            let b = graph::brace_node(adj, entry, limit, node, dups, shown, way).labels;
            &&& below_one(b, node, way)
            &&& kids_right(adj, b, b)
        }),
    decreases graph::nodes_left(adj, way), 0nat,
{
    let b = graph::brace_node(adj, entry, limit, node, dups, shown, way).labels;
    let kids = names::under(adj, node);
    let now = order::put(shown, node);
    let head = seq![b[0]];
    let down = way.push(node);
    if !way.contains(node) && !shown.contains(node) && kids.len() > 0 && graph::opens(
        adj,
        entry,
        node,
        limit,
    ) {
        graph::lemma_nodes_left(adj, way, node);
        let inner = graph::brace_children(adj, entry, limit, kids, dups, now, down).labels;
        assert(kids.no_duplicates());
        lemma_children_shape(adj, entry, limit, kids, dups, now, down);
        assert(b =~= head + inner);
        assert forall|i: int| 0 < i < b.len() implies starts((#[trigger] b[i]).way, down) by {
            assert(b[i] == inner[i - 1]);
            assert(down.take(down.len() as int) =~= down);
        }
        assert forall|i: int| 0 <= i < b.len() implies kids_at(
            b,
            (#[trigger] b[i]).way.push(b[i].node),
        ) == if b[i].mark is Plain {
            names::under(adj, b[i].node)
        } else {
            Seq::empty()
        } by {
            let w = b[i].way.push(b[i].node);
            lemma_kids_add(head, inner, w);
            lemma_kids_one(b[0], w);
            if i == 0 {
                assert(b[0].way.len() < w.len());
                assert(Seq::<Seq<char>>::empty() + kids =~= kids);
            } else {
                assert(b[i] == inner[i - 1]);
                assert(b[i].way.len() >= down.len());
                assert(w.len() > b[0].way.len());
                assert(Seq::<Seq<char>>::empty() + kids_at(inner, w) =~= kids_at(inner, w));
            }
        }
    } else {
        assert(b =~= head);
        assert forall|i: int| 0 <= i < b.len() implies kids_at(
            b,
            (#[trigger] b[i]).way.push(b[i].node),
        ) == if b[i].mark is Plain {
            names::under(adj, b[i].node)
        } else {
            Seq::empty()
        } by {
            let w = b[i].way.push(b[i].node);
            lemma_kids_one(b[0], w);
            assert(b[0].way.len() < w.len());
            if b[i].mark is Plain {
                assert(names::under(adj, b[i].node) =~= Seq::empty());
            }
        }
    }
}

proof fn lemma_children_shape(
    adj: Map<Seq<char>, Seq<Seq<char>>>,
    entry: Seq<char>,
    limit: Option<usize>,
    kids: Seq<Seq<char>>,
    dups: Seq<Seq<char>>,
    shown: Seq<Seq<char>>,
    way: Seq<Seq<char>>,
)
    requires
        adj.dom().finite(),
        kids.no_duplicates(),
        forall|a: Seq<char>| (#[trigger] names::under(adj, a)).no_duplicates(),
    ensures
        ({
            let b = graph::brace_children(adj, entry, limit, kids, dups, shown, way).labels;
            &&& below_some(b, kids, way)
            &&& kids_at(b, way) == kids
            &&& kids_right(adj, b, b)
        }),
    decreases graph::nodes_left(adj, way), kids.len(),
{
    let b = graph::brace_children(adj, entry, limit, kids, dups, shown, way).labels;
    if kids.len() == 0 {
        assert(b =~= Seq::empty());
        lemma_kids_none(b, way);
        assert(kids =~= Seq::empty());
    } else {
        let rest = kids.drop_last();
        let last = kids[kids.len() - 1];
        assert(kids =~= rest.push(last));
        let before = graph::brace_children(adj, entry, limit, rest, dups, shown, way);
        let x = before.labels;
        let y = graph::brace_node(adj, entry, limit, last, dups, before.shown, way).labels;
        assert forall|i: int, j: int|
            0 <= i < rest.len() && 0 <= j < rest.len() && i != j implies rest[i] != rest[j] by {
            assert(kids[i] != kids[j]);
        }
        lemma_children_shape(adj, entry, limit, rest, dups, shown, way);
        lemma_node_shape(adj, entry, limit, last, dups, before.shown, way);
        assert(b =~= x + y);
        let down = way.push(last);
        assert(!rest.contains(last)) by {
            if rest.contains(last) {
                let i = choose|i: int| 0 <= i < rest.len() && rest[i] == last;
                assert(kids[i] == kids[kids.len() - 1]);
            }
        }
        assert forall|k: Seq<char>| #[trigger] rest.contains(k) implies kids.contains(k) by {
            text::lemma_push_contains(rest, last, k);
        }
        text::lemma_push_contains(rest, last, last);
        // Labels below the last one.
        assert forall|i: int| 0 < i < y.len() implies {
            &&& (#[trigger] y[i]).way.len() > way.len()
            &&& starts(y[i].way, way)
            &&& y[i].way[way.len() as int] == last
        } by {
            let w = y[i].way;
            assert(starts(w, down));
            assert(w.take(down.len() as int)[way.len() as int] == last);
            assert(w.take(way.len() as int) =~= way) by {
                assert forall|k: int| 0 <= k < way.len() implies w[k] == way[k] by {
                    assert(w.take(down.len() as int)[k] == down[k]);
                }
            }
        }
        assert(way.take(way.len() as int) =~= way);
        assert forall|i: int| 0 <= i < b.len() implies {
            ||| (#[trigger] b[i]).way == way && kids.contains(b[i].node)
            ||| b[i].way.len() > way.len() && starts(b[i].way, way) && kids.contains(
                b[i].way[way.len() as int],
            )
        } by {
            if i < x.len() {
                assert(b[i] == x[i]);
            } else {
                assert(b[i] == y[i - x.len()]);
            }
        }
        // What stands at the way itself.
        lemma_kids_add(x, y, way);
        let tail = y.skip(1);
        assert(y =~= seq![y[0]] + tail);
        lemma_kids_add(seq![y[0]], tail, way);
        lemma_kids_one(y[0], way);
        assert forall|i: int| 0 <= i < tail.len() implies (#[trigger] tail[i]).way != way by {
            assert(tail[i] == y[i + 1]);
        }
        lemma_kids_none(tail, way);
        assert(kids_at(b, way) =~= kids);
        // What stands below each label.
        assert forall|i: int| 0 <= i < b.len() implies kids_at(
            b,
            (#[trigger] b[i]).way.push(b[i].node),
        ) == if b[i].mark is Plain {
            names::under(adj, b[i].node)
        } else {
            Seq::empty()
        } by {
            let w = b[i].way.push(b[i].node);
            lemma_kids_add(x, y, w);
            if i < x.len() {
                assert(b[i] == x[i]);
                assert(w[way.len() as int] != last) by {
                    if b[i].way == way {
                        assert(w[way.len() as int] == b[i].node);
                    } else {
                        assert(w[way.len() as int] == b[i].way[way.len() as int]);
                    }
                }
                assert forall|j: int| 0 <= j < y.len() implies (#[trigger] y[j]).way != w by {
                    if j == 0 {
                        assert(y[0].way.len() < w.len());
                    }
                }
                lemma_kids_none(y, w);
                assert(kids_at(x, w) + Seq::<Seq<char>>::empty() =~= kids_at(x, w));
            } else {
                assert(b[i] == y[i - x.len()]);
                assert(w[way.len() as int] == last) by {
                    if i == x.len() {
                        assert(w[way.len() as int] == y[0].node);
                    } else {
                        assert(w[way.len() as int] == b[i].way[way.len() as int]);
                    }
                }
                assert forall|j: int| 0 <= j < x.len() implies (#[trigger] x[j]).way != w by {
                    if x[j].way != way {
                        assert(rest.contains(x[j].way[way.len() as int]));
                    }
                }
                lemma_kids_none(x, w);
                assert(Seq::<Seq<char>>::empty() + kids_at(y, w) =~= kids_at(y, w));
            }
        }
    }
}

// --- what was shown before -------------------------------------------------------------------------

/// Whether `node` stands unmarked among the first `n` labels.
spec fn stands_before(labels: Seq<LabelView>, n: int, node: Seq<char>) -> bool {
    exists|j: int|
        0 <= j < n && (#[trigger] labels[j]).node == node && (labels[j].mark is Plain
            || labels[j].mark is Cut)
}

/// Whether each label that is marked as shown before was shown before: among
/// `shown`, or among the labels.
spec fn again_right(labels: Seq<LabelView>, shown: Seq<Seq<char>>) -> bool {
    forall|i: int|
        0 <= i < labels.len() && (#[trigger] labels[i]).mark is Again ==> shown.contains(
            labels[i].node,
        ) || stands_before(labels, i, labels[i].node)
}

/// Whether all that is newly shown stands unmarked among the labels.
spec fn new_stand(
    labels: Seq<LabelView>,
    shown: Seq<Seq<char>>,
    after: Seq<Seq<char>>,
) -> bool {
    forall|x: Seq<char>| #[trigger]
        after.contains(x) ==> shown.contains(x) || stands_before(labels, labels.len() as int, x)
}

proof fn lemma_stands_add(
    a: Seq<LabelView>,
    b: Seq<LabelView>,
    n: int,
    node: Seq<char>,
)
    requires
        0 <= n <= b.len(),
        stands_before(a, a.len() as int, node) || stands_before(b, n, node),
    ensures
        stands_before(a + b, a.len() + n, node),
{
    let t = a + b;
    if stands_before(a, a.len() as int, node) {
        let j = choose|j: int|
            0 <= j < a.len() && (#[trigger] a[j]).node == node && (a[j].mark is Plain
                || a[j].mark is Cut);
        assert(t[j] == a[j]);
    } else {
        let j = choose|j: int|
            0 <= j < n && (#[trigger] b[j]).node == node && (b[j].mark is Plain
                || b[j].mark is Cut);
        assert(t[a.len() + j] == b[j]);
    }
}

proof fn lemma_again_add(
    a: Seq<LabelView>,
    b: Seq<LabelView>,
    shown: Seq<Seq<char>>,
    mid: Seq<Seq<char>>,
    after: Seq<Seq<char>>,
)
    requires
        again_right(a, shown),
        new_stand(a, shown, mid),
        again_right(b, mid),
        new_stand(b, mid, after),
    ensures
        again_right(a + b, shown),
        new_stand(a + b, shown, after),
{
    let t = a + b;
    assert forall|i: int|
        0 <= i < t.len() && (#[trigger] t[i]).mark is Again implies shown.contains(t[i].node)
        || stands_before(t, i, t[i].node) by {
        if i < a.len() {
            assert(t[i] == a[i]);
            if !shown.contains(t[i].node) {
                let j = choose|j: int|
                    0 <= j < i && (#[trigger] a[j]).node == a[i].node && (a[j].mark is Plain
                        || a[j].mark is Cut);
                assert(t[j] == a[j]);
            }
        } else {
            let k = i - a.len();
            assert(t[i] == b[k]);
            if !shown.contains(t[i].node) {
                lemma_stands_add(a, b, k, t[i].node);
            }
        }
    }
    assert forall|x: Seq<char>| #[trigger] after.contains(x) implies shown.contains(x)
        || stands_before(t, t.len() as int, x) by {
        if !shown.contains(x) {
            lemma_stands_add(a, b, b.len() as int, x);
        }
    }
}

proof fn lemma_node_again(
    adj: Map<Seq<char>, Seq<Seq<char>>>,
    entry: Seq<char>,
    limit: Option<usize>,
    node: Seq<char>,
    dups: Seq<Seq<char>>,
    shown: Seq<Seq<char>>,
    way: Seq<Seq<char>>,
)
    requires
        adj.dom().finite(),
    ensures
        ({
            let b = graph::brace_node(adj, entry, limit, node, dups, shown, way);
            again_right(b.labels, shown) && new_stand(b.labels, shown, b.shown)
        }),
    decreases graph::nodes_left(adj, way), 0nat,
{
    let b = graph::brace_node(adj, entry, limit, node, dups, shown, way);
    let kids = names::under(adj, node);
    let now = order::put(shown, node);
    if !way.contains(node) && !shown.contains(node) {
        let head = seq![b.labels[0]];
        assert forall|x: Seq<char>| #[trigger] now.contains(x) implies shown.contains(x)
            || stands_before(head, 1, x) by {
            order::lemma_put_contains(shown, node, x);
            assert(head[0].node == node);
        }
        if kids.len() > 0 && graph::opens(adj, entry, node, limit) {
            graph::lemma_nodes_left(adj, way, node);
            let down = way.push(node);
            let inner = graph::brace_children(adj, entry, limit, kids, dups, now, down);
            lemma_children_again(adj, entry, limit, kids, dups, now, down);
            lemma_again_add(head, inner.labels, shown, now, inner.shown);
            assert(b.labels =~= head + inner.labels);
        } else {
            assert(b.labels =~= head);
        }
    }
}

proof fn lemma_children_again(
    adj: Map<Seq<char>, Seq<Seq<char>>>,
    entry: Seq<char>,
    limit: Option<usize>,
    kids: Seq<Seq<char>>,
    dups: Seq<Seq<char>>,
    shown: Seq<Seq<char>>,
    way: Seq<Seq<char>>,
)
    requires
        adj.dom().finite(),
    ensures
        ({
            let b = graph::brace_children(adj, entry, limit, kids, dups, shown, way);
            again_right(b.labels, shown) && new_stand(b.labels, shown, b.shown)
        }),
    decreases graph::nodes_left(adj, way), kids.len(),
{
    if kids.len() > 0 {
        let rest = kids.drop_last();
        let before = graph::brace_children(adj, entry, limit, rest, dups, shown, way);
        let last = graph::brace_node(adj, entry, limit, kids.last(), dups, before.shown, way);
        lemma_children_again(adj, entry, limit, rest, dups, shown, way);
        lemma_node_again(adj, entry, limit, kids.last(), dups, before.shown, way);
        lemma_again_add(before.labels, last.labels, shown, before.shown, last.shown);
    }
}

// --- what a run shows ----------------------------------------------------------------------

/// Whether there is a step from the node at position `i` of `path` to the next.
pub open spec fn stride(
    step: spec_fn(Seq<char>, Seq<char>) -> bool,
    path: Seq<Seq<char>>,
    i: int,
) -> bool {
    step(path[i], path[i + 1])
}

/// Whether `path` goes from one node to the next by steps.
pub open spec fn strides(
    step: spec_fn(Seq<char>, Seq<char>) -> bool,
    path: Seq<Seq<char>>,
) -> bool {
    forall|i: int| 0 <= i < path.len() - 1 ==> #[trigger] stride(step, path, i)
}

/// Paths of steps are the paths of a graph that has the steps as edges.
pub proof fn lemma_strides(
    adj: Map<Seq<char>, Seq<Seq<char>>>,
    step: spec_fn(Seq<char>, Seq<char>) -> bool,
    path: Seq<Seq<char>>,
)
    requires
        path.len() > 0,
        forall|a: Seq<char>, b: Seq<char>| #[trigger]
            step(a, b) <==> names::under(adj, a).contains(b),
    ensures
        strides(step, path) <==> graph::is_path(adj, path, path[0], path.last()),
{
    if strides(step, path) {
        assert forall|i: int| 0 <= i < path.len() - 1 implies #[trigger] graph::linked(
            adj,
            path,
            i,
        ) by {
            assert(stride(step, path, i));
            assert(step(path[i], path[i + 1]));
        }
    } else {
        let i = choose|i: int| 0 <= i < path.len() - 1 && !#[trigger] stride(step, path, i);
        assert(!step(path[i], path[i + 1]));
        assert(!graph::linked(adj, path, i));
    }
}

/// The steps of a direction, written out, are the edges of its graph.
pub proof fn lemma_steps(
    g: deps::GraphView,
    opts: GraphOptions,
    step: spec_fn(Seq<char>, Seq<char>) -> bool,
)
    requires
        graph::graph_wf(g),
        forall|a: Seq<char>, b: Seq<char>| #[trigger]
            step(a, b) <==> match opts.direction {
                Direction::Forward => {
                    ||| names::under(g.out_internal.edges, a).contains(b)
                    ||| names::under(g.mod_edges.edges, a).contains(b)
                    ||| opts.include_external && exists|c: Seq<char>|
                        b == "ext:"@ + c && #[trigger] names::under(
                            g.out_external.edges,
                            a,
                        ).contains(c)
                },
                Direction::Reverse => {
                    ||| names::under(g.out_internal.edges, b).contains(a)
                    ||| names::under(g.mod_edges.edges, b).contains(a)
                },
            },
    ensures
        ({
            let adj = graph::adjacency(g, opts.direction, opts.include_external);
            &&& adj.dom().finite()
            &&& forall|a: Seq<char>, b: Seq<char>| #[trigger]
                step(a, b) <==> names::under(adj, a).contains(b)
            &&& forall|a: Seq<char>| order::ascending(#[trigger] names::under(adj, a))
            &&& forall|a: Seq<char>| (#[trigger] names::under(adj, a)).no_duplicates()
        }),
{
    let adj = graph::adjacency(g, opts.direction, opts.include_external);
    graph::lemma_finite(g, opts.direction, opts.include_external);
    assert forall|a: Seq<char>, b: Seq<char>| #[trigger] step(a, b) <==> names::under(
        adj,
        a,
    ).contains(b) by {
        graph::lemma_adjacent(g, opts.direction, opts.include_external, a, b);
        reveal_strlit("ext:");
        if graph::is_external(b) {
            assert(b =~= "ext:"@ + b.skip(4));
        }
        assert forall|c: Seq<char>| b == "ext:"@ + c implies graph::is_external(b) && c
            == #[trigger] b.skip(4) by {
            assert(b.subrange(0, 4) =~= "ext:"@);
            assert(b.skip(4) =~= c);
        }
        if opts.include_external && opts.direction is Forward {
            if exists|c: Seq<char>|
                b == "ext:"@ + c && #[trigger] names::under(g.out_external.edges, a).contains(c) {
                let c = choose|c: Seq<char>|
                    b == "ext:"@ + c && #[trigger] names::under(g.out_external.edges, a).contains(
                        c,
                    );
                assert(b.subrange(0, 4) =~= "ext:"@);
                assert(b.skip(4) =~= c);
                assert(graph::has_edge(g.out_external, a, b.skip(4)));
            }
            if graph::is_external(b) && graph::has_edge(g.out_external, a, b.skip(4)) {
                assert(b == "ext:"@ + b.skip(4));
                assert(names::under(g.out_external.edges, a).contains(b.skip(4)));
            }
        }
    }
    assert forall|a: Seq<char>| order::ascending(#[trigger] names::under(adj, a)) by {
        graph::lemma_adjacent(g, opts.direction, opts.include_external, a, a);
    }
    assert forall|a: Seq<char>| (#[trigger] names::under(adj, a)).no_duplicates() by {
        let kids = names::under(adj, a);
        assert(order::ascending(kids));
        order::lemma_ascending_distinct(kids);
    }
}

/// A node is counted among labels exactly if it stands there unmarked.
proof fn lemma_times(labels: Seq<LabelView>, x: Seq<char>)
    ensures
        graph::times_shown(labels, x) > 0 <==> exists|i: int|
            0 <= i < labels.len() && (#[trigger] labels[i]).node == x && (labels[i].mark is Plain
                || labels[i].mark is Cut),
        graph::times_shown(labels, x) <= 1 ==> forall|i: int, j: int|
            0 <= i < j < labels.len() && (#[trigger] labels[i]).node == x && (#[trigger] labels[j]).node == x && (labels[i].mark is Plain
                || labels[i].mark is Cut) ==> !(labels[j].mark is Plain || labels[j].mark is Cut),
    decreases labels.len(),
{
    if labels.len() > 0 {
        let rest = labels.drop_last();
        let n = rest.len();
        lemma_times(rest, x);
        assert forall|j: int| 0 <= j < n implies #[trigger] rest[j] == labels[j] by {}
        assert(forall|j: int|
            0 <= j < labels.len() ==> j == n || #[trigger] labels[j] == rest[j]);
        if graph::times_shown(labels, x) > 0 && graph::times_shown(rest, x) == 0 {
            assert(labels[n as int].node == x);
        }
    }
}

/// The entry of a run.
pub open spec fn run_entry(
    d: modtree::DiskView,
    repo: Seq<char>,
    canon: Option<Seq<char>>,
    opts: GraphOptions,
) -> Option<Seq<char>> {
    match opts.entry {
        Some(e) => match deps::repo_graph(d, repo) {
            Some(g) => graph::first_known(graph::candidates(e@, canon, repo), g.files),
            None => None,
        },
        None => deps::root_shown(d, repo),
    }
}

/// The labels of the brace tree of a run.
pub open spec fn run_labels(
    d: modtree::DiskView,
    repo: Seq<char>,
    canon: Option<Seq<char>>,
    opts: GraphOptions,
) -> Seq<LabelView> {
    let g = deps::repo_graph(d, repo)->Some_0;
    graph::brace_of(
        graph::adjacency(g, opts.direction, opts.include_external),
        run_entry(d, repo, canon, opts)->Some_0,
        opts.depth,
    ).labels
}

/// A run writes its labels one after the other, from the entry on. Two nodes that
/// would have the same label have the names of their directories in front.
pub proof fn law_brace_run_writes_labels(
    d: modtree::DiskView,
    repo: Seq<char>,
    shown: Seq<char>,
    canon: Option<Seq<char>>,
    opts: GraphOptions,
)
    requires
        graph::report(d, repo, shown, canon, opts) is Ok,
        !opts.mermaid,
        !opts.mermaid_cluster,
    ensures
        ({
            let labels = run_labels(d, repo, canon, opts);
            exists|dups: Seq<Seq<char>>|
                {
                    &&& graph::report(d, repo, shown, canon, opts) == Ok::<Seq<char>, Seq<char>>(
                        #[trigger] outline(labels, dups) + closes(labels.last().way.len()) + "\n"@,
                    )
                    &&& forall|t: Seq<char>| #[trigger]
                        dups.contains(t) <==> exists|i: int, j: int|
                            0 <= i < labels.len() && 0 <= j < labels.len() && (
                            #[trigger] labels[i]).node != (#[trigger] labels[j]).node && (
                            labels[i].mark is Plain || labels[i].mark is Cut) && (
                            labels[j].mark is Plain || labels[j].mark is Cut) && graph::label_of(
                                labels[i].node,
                            ) == t && graph::label_of(labels[j].node) == t
                }
        }),
        deps::repo_graph(d, repo) is Some,
        run_entry(d, repo, canon, opts) is Some,
        run_labels(d, repo, canon, opts).len() > 0,
        run_labels(d, repo, canon, opts)[0].node == run_entry(d, repo, canon, opts)->Some_0,
        run_labels(d, repo, canon, opts)[0].way.len() == 0,
{
    let g = deps::repo_graph(d, repo)->Some_0;
    deps::law_graph_in_order(d, repo);
    let entry = run_entry(d, repo, canon, opts)->Some_0;
    let adj = graph::adjacency(g, opts.direction, opts.include_external);
    graph::lemma_finite(g, opts.direction, opts.include_external);
    let labels = run_labels(d, repo, canon, opts);
    let dups = graph::colliding(graph::reached(adj, entry, opts.depth));
    let none: Seq<Seq<char>> = Seq::empty();
    lemma_node_outlined(adj, entry, opts.depth, entry, dups, none, none);
    assert(graph::brace_text(adj, entry, opts.depth) =~= outline(labels, dups) + closes(
        labels.last().way.len(),
    ) + "\n"@);
    assert forall|t: Seq<char>| #[trigger] dups.contains(t) <==> exists|i: int, j: int|
        0 <= i < labels.len() && 0 <= j < labels.len() && (#[trigger] labels[i]).node != (
        #[trigger] labels[j]).node && (labels[i].mark is Plain || labels[i].mark is Cut) && (
        labels[j].mark is Plain || labels[j].mark is Cut) && graph::label_of(labels[i].node) == t
            && graph::label_of(labels[j].node) == t by {
        lemma_collisions(adj, entry, opts.depth, t);
    }
}

proof fn lemma_shows_reached(
    adj: Map<Seq<char>, Seq<Seq<char>>>,
    step: spec_fn(Seq<char>, Seq<char>) -> bool,
    entry: Seq<char>,
    depth: Option<usize>,
)
    requires
        adj.dom().finite(),
        forall|a: Seq<char>, b: Seq<char>| #[trigger]
            step(a, b) <==> names::under(adj, a).contains(b),
        forall|a: Seq<char>| order::ascending(#[trigger] names::under(adj, a)),
        forall|a: Seq<char>| (#[trigger] names::under(adj, a)).no_duplicates(),
    ensures
        ({
            let labels = graph::brace_of(adj, entry, depth).labels;
            &&& forall|p: Seq<Seq<char>>| #[trigger]
                strides(step, p) && p.len() > 0 && p[0] == entry && (depth matches Some(m)
                    ==> p.len() <= m + 1) ==> exists|i: int|
                    0 <= i < labels.len() && (#[trigger] labels[i]).node == p.last() && (
                    labels[i].mark is Plain || labels[i].mark is Cut)
            &&& forall|i: int|
                0 <= i < labels.len() && ((#[trigger] labels[i]).mark is Plain
                    || labels[i].mark is Cut) ==> exists|p: Seq<Seq<char>>| #[trigger]
                    strides(step, p) && p.len() > 0 && p[0] == entry && p.last()
                        == labels[i].node && (depth matches Some(m) ==> p.len() <= m + 1)
            &&& forall|i: int, j: int|
                0 <= i < j < labels.len() && (#[trigger] labels[i]).node == (
                #[trigger] labels[j]).node && (labels[i].mark is Plain || labels[i].mark is Cut)
                    ==> !(labels[j].mark is Plain || labels[j].mark is Cut)
        }),
{
    let labels = graph::brace_of(adj, entry, depth).labels;
    let dups = graph::colliding(graph::reached(adj, entry, depth));
    let none: Seq<Seq<char>> = Seq::empty();
    lemma_node_outlined(adj, entry, depth, entry, dups, none, none);
    assert forall|p: Seq<Seq<char>>| #[trigger]
        strides(step, p) && p.len() > 0 && p[0] == entry && (depth matches Some(m) ==> p.len() <= m
            + 1) implies exists|i: int|
        0 <= i < labels.len() && (#[trigger] labels[i]).node == p.last() && (labels[i].mark is Plain
            || labels[i].mark is Cut) by {
        lemma_strides(adj, step, p);
        assert(graph::reaches(adj, entry, p.last(), depth));
        graph::law_brace_labels(adj, entry, depth, p.last(), 0);
        lemma_times(labels, p.last());
    }
    assert forall|i: int|
        0 <= i < labels.len() && ((#[trigger] labels[i]).mark is Plain
            || labels[i].mark is Cut) implies exists|p: Seq<Seq<char>>| #[trigger]
        strides(step, p) && p.len() > 0 && p[0] == entry && p.last() == labels[i].node && (
        depth matches Some(m) ==> p.len() <= m + 1) by {
        let x = labels[i].node;
        lemma_times(labels, x);
        graph::law_brace_labels(adj, entry, depth, x, i);
        assert(graph::reaches(adj, entry, x, depth));
        let most = |p: Seq<Seq<char>>| depth matches Some(m) ==> p.len() <= m + 1;
        let p = choose|p: Seq<Seq<char>>| #[trigger] graph::is_path(adj, p, entry, x) && most(p);
        lemma_strides(adj, step, p);
    }
    assert forall|i: int, j: int|
        0 <= i < j < labels.len() && (#[trigger] labels[i]).node == (#[trigger] labels[j]).node && (
        labels[i].mark is Plain || labels[i].mark is Cut) implies !(labels[j].mark is Plain
        || labels[j].mark is Cut) by {
        graph::law_brace_labels(adj, entry, depth, labels[i].node, i);
        lemma_times(labels, labels[i].node);
    }
}

/// A brace tree shows what its entry reaches. Each file that the entry reaches by
/// `use` and `mod x;` (in reverse: each file that reaches the entry by them), over
/// no more edges than the depth, stands in it exactly once without `*` and `~`,
/// and nothing else does.
pub proof fn law_brace_run_shows_the_reached(
    d: modtree::DiskView,
    repo: Seq<char>,
    shown: Seq<char>,
    canon: Option<Seq<char>>,
    opts: GraphOptions,
)
    requires
        graph::report(d, repo, shown, canon, opts) is Ok,
        !opts.mermaid,
        !opts.mermaid_cluster,
    ensures
        ({
            let g = deps::repo_graph(d, repo)->Some_0;
            let labels = run_labels(d, repo, canon, opts);
            let entry = run_entry(d, repo, canon, opts)->Some_0;
            let step = |a: Seq<char>, b: Seq<char>|
                match opts.direction {
                    Direction::Forward => {
                        ||| names::under(g.out_internal.edges, a).contains(b)
                        ||| names::under(g.mod_edges.edges, a).contains(b)
                        ||| opts.include_external && exists|c: Seq<char>|
                            b == "ext:"@ + c && #[trigger] names::under(
                                g.out_external.edges,
                                a,
                            ).contains(c)
                    },
                    Direction::Reverse => {
                        ||| names::under(g.out_internal.edges, b).contains(a)
                        ||| names::under(g.mod_edges.edges, b).contains(a)
                    },
                };
            &&& forall|p: Seq<Seq<char>>| #[trigger]
                strides(step, p) && p.len() > 0 && p[0] == entry && (opts.depth matches Some(m)
                    ==> p.len() <= m + 1) ==> exists|i: int|
                    0 <= i < labels.len() && (#[trigger] labels[i]).node == p.last() && (
                    labels[i].mark is Plain || labels[i].mark is Cut)
            &&& forall|i: int|
                0 <= i < labels.len() && ((#[trigger] labels[i]).mark is Plain
                    || labels[i].mark is Cut) ==> exists|p: Seq<Seq<char>>| #[trigger]
                    strides(step, p) && p.len() > 0 && p[0] == entry && p.last()
                        == labels[i].node && (opts.depth matches Some(m) ==> p.len() <= m + 1)
            &&& forall|i: int, j: int|
                0 <= i < j < labels.len() && (#[trigger] labels[i]).node == (
                #[trigger] labels[j]).node && (labels[i].mark is Plain || labels[i].mark is Cut)
                    ==> !(labels[j].mark is Plain || labels[j].mark is Cut)
        }),
{
    let g = deps::repo_graph(d, repo)->Some_0;
    deps::law_graph_in_order(d, repo);
    let step = |a: Seq<char>, b: Seq<char>|
        match opts.direction {
            Direction::Forward => {
                ||| names::under(g.out_internal.edges, a).contains(b)
                ||| names::under(g.mod_edges.edges, a).contains(b)
                ||| opts.include_external && exists|c: Seq<char>|
                    b == "ext:"@ + c && #[trigger] names::under(
                        g.out_external.edges,
                        a,
                    ).contains(c)
            },
            Direction::Reverse => {
                ||| names::under(g.out_internal.edges, b).contains(a)
                ||| names::under(g.mod_edges.edges, b).contains(a)
            },
        };
    lemma_steps(g, opts, step);
    let entry = run_entry(d, repo, canon, opts)->Some_0;
    let adj = graph::adjacency(g, opts.direction, opts.include_external);
    lemma_shows_reached(adj, step, entry, opts.depth);
}

proof fn lemma_marks(
    adj: Map<Seq<char>, Seq<Seq<char>>>,
    step: spec_fn(Seq<char>, Seq<char>) -> bool,
    entry: Seq<char>,
    depth: Option<usize>,
)
    requires
        adj.dom().finite(),
        forall|a: Seq<char>, b: Seq<char>| #[trigger]
            step(a, b) <==> names::under(adj, a).contains(b),
        forall|a: Seq<char>| order::ascending(#[trigger] names::under(adj, a)),
        forall|a: Seq<char>| (#[trigger] names::under(adj, a)).no_duplicates(),
    ensures
        ({
            let labels = graph::brace_of(adj, entry, depth).labels;
            &&& forall|i: int|
                0 <= i < labels.len() ==> strides(
                    step,
                    (#[trigger] labels[i]).way.push(labels[i].node),
                ) && labels[i].way.push(labels[i].node)[0] == entry
            &&& forall|i: int|
                0 <= i < labels.len() ==> ((#[trigger] labels[i]).mark is Back
                    <==> labels[i].way.contains(labels[i].node))
            &&& forall|i: int|
                0 <= i < labels.len() && (#[trigger] labels[i]).mark is Again ==> exists|j: int|
                    0 <= j < i && (#[trigger] labels[j]).node == labels[i].node && (
                    labels[j].mark is Plain || labels[j].mark is Cut)
            &&& forall|i: int, p: Seq<Seq<char>>|
                0 <= i < labels.len() && (#[trigger] labels[i]).mark is Cut && #[trigger] strides(
                    step,
                    p,
                ) && p.len() > 0 && p[0] == entry && p.last() == labels[i].node ==> (
                depth matches Some(m) && p.len() > m)
            &&& forall|i: int|
                0 <= i < labels.len() && (#[trigger] labels[i]).mark is Cut ==> exists|
                    x: Seq<char>,
                | #[trigger]
                    step(labels[i].node, x)
        }),
{
    let labels = graph::brace_of(adj, entry, depth).labels;
    let dups = graph::colliding(graph::reached(adj, entry, depth));
    let none: Seq<Seq<char>> = Seq::empty();
    lemma_node_outlined(adj, entry, depth, entry, dups, none, none);
    lemma_node_again(adj, entry, depth, entry, dups, none, none);
    assert forall|i: int| 0 <= i < labels.len() implies graph::label_holds(
        adj,
        entry,
        depth,
        #[trigger] labels[i],
    ) by {
        graph::law_brace_labels(adj, entry, depth, entry, i);
    }
    assert forall|i: int| 0 <= i < labels.len() implies strides(
        step,
        (#[trigger] labels[i]).way.push(labels[i].node),
    ) && labels[i].way.push(labels[i].node)[0] == entry by {
        assert(graph::label_holds(adj, entry, depth, labels[i]));
        lemma_strides(adj, step, labels[i].way.push(labels[i].node));
    }
    assert forall|i: int, p: Seq<Seq<char>>|
        0 <= i < labels.len() && (#[trigger] labels[i]).mark is Cut && #[trigger] strides(step, p)
            && p.len() > 0 && p[0] == entry && p.last() == labels[i].node implies (
    depth matches Some(m) && p.len() > m) by {
        assert(graph::label_holds(adj, entry, depth, labels[i]));
        lemma_strides(adj, step, p);
        assert(graph::is_path(adj, p, entry, labels[i].node));
    }
    assert forall|i: int| 0 <= i < labels.len() && (#[trigger] labels[i]).mark is Cut implies exists|
        x: Seq<char>,
    | #[trigger] step(labels[i].node, x) by {
        assert(graph::label_holds(adj, entry, depth, labels[i]));
        let kids = names::under(adj, labels[i].node);
        assert(kids.contains(kids[0]));
        assert(step(labels[i].node, kids[0]));
    }
}

/// The marks of a brace tree: a label stands at the end of a way from the entry.
/// It is marked `~` exactly if its node is on the way, and `*` only where its node
/// stands before without `*` and `~`. It is marked `{…}` only where the depth ends
/// and the node leads on.
pub proof fn law_brace_run_marks_labels(
    d: modtree::DiskView,
    repo: Seq<char>,
    shown: Seq<char>,
    canon: Option<Seq<char>>,
    opts: GraphOptions,
)
    requires
        graph::report(d, repo, shown, canon, opts) is Ok,
        !opts.mermaid,
        !opts.mermaid_cluster,
    ensures
        ({
            let g = deps::repo_graph(d, repo)->Some_0;
            let labels = run_labels(d, repo, canon, opts);
            let entry = run_entry(d, repo, canon, opts)->Some_0;
            let step = |a: Seq<char>, b: Seq<char>|
                match opts.direction {
                    Direction::Forward => {
                        ||| names::under(g.out_internal.edges, a).contains(b)
                        ||| names::under(g.mod_edges.edges, a).contains(b)
                        ||| opts.include_external && exists|c: Seq<char>|
                            b == "ext:"@ + c && #[trigger] names::under(
                                g.out_external.edges,
                                a,
                            ).contains(c)
                    },
                    Direction::Reverse => {
                        ||| names::under(g.out_internal.edges, b).contains(a)
                        ||| names::under(g.mod_edges.edges, b).contains(a)
                    },
                };
            &&& forall|i: int|
                0 <= i < labels.len() ==> strides(
                    step,
                    (#[trigger] labels[i]).way.push(labels[i].node),
                ) && labels[i].way.push(labels[i].node)[0] == entry
            &&& forall|i: int|
                0 <= i < labels.len() ==> ((#[trigger] labels[i]).mark is Back
                    <==> labels[i].way.contains(labels[i].node))
            &&& forall|i: int|
                0 <= i < labels.len() && (#[trigger] labels[i]).mark is Again ==> exists|j: int|
                    0 <= j < i && (#[trigger] labels[j]).node == labels[i].node && (
                    labels[j].mark is Plain || labels[j].mark is Cut)
            &&& forall|i: int, p: Seq<Seq<char>>|
                0 <= i < labels.len() && (#[trigger] labels[i]).mark is Cut && #[trigger] strides(
                    step,
                    p,
                ) && p.len() > 0 && p[0] == entry && p.last() == labels[i].node ==> (
                opts.depth matches Some(m) && p.len() > m)
            &&& forall|i: int|
                0 <= i < labels.len() && (#[trigger] labels[i]).mark is Cut ==> exists|
                    x: Seq<char>,
                | #[trigger]
                    step(labels[i].node, x)
        }),
{
    let g = deps::repo_graph(d, repo)->Some_0;
    deps::law_graph_in_order(d, repo);
    let step = |a: Seq<char>, b: Seq<char>|
        match opts.direction {
            Direction::Forward => {
                ||| names::under(g.out_internal.edges, a).contains(b)
                ||| names::under(g.mod_edges.edges, a).contains(b)
                ||| opts.include_external && exists|c: Seq<char>|
                    b == "ext:"@ + c && #[trigger] names::under(
                        g.out_external.edges,
                        a,
                    ).contains(c)
            },
            Direction::Reverse => {
                ||| names::under(g.out_internal.edges, b).contains(a)
                ||| names::under(g.mod_edges.edges, b).contains(a)
            },
        };
    lemma_steps(g, opts, step);
    let entry = run_entry(d, repo, canon, opts)->Some_0;
    let adj = graph::adjacency(g, opts.direction, opts.include_external);
    lemma_marks(adj, step, entry, opts.depth);
}

proof fn lemma_nests(
    adj: Map<Seq<char>, Seq<Seq<char>>>,
    step: spec_fn(Seq<char>, Seq<char>) -> bool,
    entry: Seq<char>,
    depth: Option<usize>,
)
    requires
        adj.dom().finite(),
        forall|a: Seq<char>, b: Seq<char>| #[trigger]
            step(a, b) <==> names::under(adj, a).contains(b),
        forall|a: Seq<char>| order::ascending(#[trigger] names::under(adj, a)),
        forall|a: Seq<char>| (#[trigger] names::under(adj, a)).no_duplicates(),
    ensures
        ({
            let labels = graph::brace_of(adj, entry, depth).labels;
            &&& forall|i: int|
                0 <= i < labels.len() ==> order::ascending(
                    kids_at(labels, (#[trigger] labels[i]).way.push(labels[i].node)),
                )
            &&& forall|i: int, x: Seq<char>|
                0 <= i < labels.len() ==> (#[trigger] kids_at(
                    labels,
                    labels[i].way.push(labels[i].node),
                ).contains(x) <==> labels[i].mark is Plain && step(labels[i].node, x))
        }),
{
    let labels = graph::brace_of(adj, entry, depth).labels;
    let dups = graph::colliding(graph::reached(adj, entry, depth));
    let none: Seq<Seq<char>> = Seq::empty();
    lemma_node_outlined(adj, entry, depth, entry, dups, none, none);
    lemma_node_shape(adj, entry, depth, entry, dups, none, none);
    assert forall|i: int, x: Seq<char>|
        0 <= i < labels.len() implies (#[trigger] kids_at(
        labels,
        labels[i].way.push(labels[i].node),
    ).contains(x) <==> labels[i].mark is Plain && step(labels[i].node, x)) by {
        assert(kids_at(labels, labels[i].way.push(labels[i].node)) == if labels[i].mark is Plain {
            names::under(adj, labels[i].node)
        } else {
            Seq::empty()
        });
        assert(step(labels[i].node, x) <==> names::under(adj, labels[i].node).contains(x));
    }
    assert forall|i: int| 0 <= i < labels.len() implies order::ascending(
        kids_at(labels, (#[trigger] labels[i]).way.push(labels[i].node)),
    ) by {
        assert(kids_at(labels, labels[i].way.push(labels[i].node)) == if labels[i].mark is Plain {
            names::under(adj, labels[i].node)
        } else {
            Seq::empty()
        });
        assert(order::ascending(names::under(adj, labels[i].node)));
    }
}

/// Below a label without a mark stands, in alphabetical order, all that its node
/// leads to. Below one with a mark stands nothing.
pub proof fn law_brace_run_nests_labels(
    d: modtree::DiskView,
    repo: Seq<char>,
    shown: Seq<char>,
    canon: Option<Seq<char>>,
    opts: GraphOptions,
)
    requires
        graph::report(d, repo, shown, canon, opts) is Ok,
        !opts.mermaid,
        !opts.mermaid_cluster,
    ensures
        ({
            let g = deps::repo_graph(d, repo)->Some_0;
            let labels = run_labels(d, repo, canon, opts);
            let entry = run_entry(d, repo, canon, opts)->Some_0;
            let step = |a: Seq<char>, b: Seq<char>|
                match opts.direction {
                    Direction::Forward => {
                        ||| names::under(g.out_internal.edges, a).contains(b)
                        ||| names::under(g.mod_edges.edges, a).contains(b)
                        ||| opts.include_external && exists|c: Seq<char>|
                            b == "ext:"@ + c && #[trigger] names::under(
                                g.out_external.edges,
                                a,
                            ).contains(c)
                    },
                    Direction::Reverse => {
                        ||| names::under(g.out_internal.edges, b).contains(a)
                        ||| names::under(g.mod_edges.edges, b).contains(a)
                    },
                };
            &&& forall|i: int|
                0 <= i < labels.len() ==> order::ascending(
                    kids_at(labels, (#[trigger] labels[i]).way.push(labels[i].node)),
                )
            &&& forall|i: int, x: Seq<char>|
                0 <= i < labels.len() ==> (#[trigger] kids_at(
                    labels,
                    labels[i].way.push(labels[i].node),
                ).contains(x) <==> labels[i].mark is Plain && step(labels[i].node, x))
        }),
{
    let g = deps::repo_graph(d, repo)->Some_0;
    deps::law_graph_in_order(d, repo);
    let step = |a: Seq<char>, b: Seq<char>|
        match opts.direction {
            Direction::Forward => {
                ||| names::under(g.out_internal.edges, a).contains(b)
                ||| names::under(g.mod_edges.edges, a).contains(b)
                ||| opts.include_external && exists|c: Seq<char>|
                    b == "ext:"@ + c && #[trigger] names::under(
                        g.out_external.edges,
                        a,
                    ).contains(c)
            },
            Direction::Reverse => {
                ||| names::under(g.out_internal.edges, b).contains(a)
                ||| names::under(g.mod_edges.edges, b).contains(a)
            },
        };
    lemma_steps(g, opts, step);
    let entry = run_entry(d, repo, canon, opts)->Some_0;
    let adj = graph::adjacency(g, opts.direction, opts.include_external);
    lemma_nests(adj, step, entry, opts.depth);
}

/// The labels that collide are those that two of the nodes in a brace tree have.
proof fn lemma_collisions(
    adj: Map<Seq<char>, Seq<Seq<char>>>,
    entry: Seq<char>,
    depth: Option<usize>,
    t: Seq<char>,
)
    requires
        adj.dom().finite(),
    ensures
        graph::colliding(graph::reached(adj, entry, depth)).contains(t) <==> ({
            let labels = graph::brace_of(adj, entry, depth).labels;
            exists|i: int, j: int|
                0 <= i < labels.len() && 0 <= j < labels.len() && (#[trigger] labels[i]).node != (
                #[trigger] labels[j]).node && (labels[i].mark is Plain || labels[i].mark is Cut) && (labels[j].mark is Plain || labels[j].mark is Cut) && graph::label_of(labels[i].node) == t
                    && graph::label_of(labels[j].node) == t
        }),
{
    let nodes = graph::reached(adj, entry, depth);
    let labels = graph::brace_of(adj, entry, depth).labels;
    graph::lemma_reached(adj, entry, depth);
    order::lemma_ascending_distinct(nodes);
    graph::lemma_colliding(nodes, t);
    let none: Seq<Seq<char>> = Seq::empty();
    let dups = graph::colliding(nodes);
    lemma_node_outlined(adj, entry, depth, entry, dups, none, none);
    assert forall|x: Seq<char>| #[trigger] nodes.contains(x) implies exists|i: int|
        0 <= i < labels.len() && (#[trigger] labels[i]).node == x && (labels[i].mark is Plain
            || labels[i].mark is Cut) by {
        graph::law_brace_labels(adj, entry, depth, x, 0);
        lemma_times(labels, x);
    }
    assert forall|i: int|
        0 <= i < labels.len() && ((#[trigger] labels[i]).mark is Plain
            || labels[i].mark is Cut) implies nodes.contains(labels[i].node) by {
        graph::law_brace_labels(adj, entry, depth, labels[i].node, i);
        lemma_times(labels, labels[i].node);
    }
    if graph::collides(nodes, t) {
        let (k, l) = choose|k: int, l: int|
            0 <= k < l < nodes.len() && graph::label_of(#[trigger] nodes[k]) == t
                && graph::label_of(#[trigger] nodes[l]) == t;
        assert(nodes.contains(nodes[k]) && nodes.contains(nodes[l]));
        let i = choose|i: int|
            0 <= i < labels.len() && (#[trigger] labels[i]).node == nodes[k] && (
            labels[i].mark is Plain || labels[i].mark is Cut);
        let j = choose|j: int|
            0 <= j < labels.len() && (#[trigger] labels[j]).node == nodes[l] && (
            labels[j].mark is Plain || labels[j].mark is Cut);
        assert(labels[i].node != labels[j].node);
    }
    if exists|i: int, j: int|
        0 <= i < labels.len() && 0 <= j < labels.len() && (#[trigger] labels[i]).node != (
        #[trigger] labels[j]).node && (labels[i].mark is Plain || labels[i].mark is Cut) && (labels[j].mark is Plain || labels[j].mark is Cut) && graph::label_of(labels[i].node) == t && graph::label_of(
            labels[j].node,
        ) == t {
        let (i, j) = choose|i: int, j: int|
            0 <= i < labels.len() && 0 <= j < labels.len() && (#[trigger] labels[i]).node != (
            #[trigger] labels[j]).node && (labels[i].mark is Plain || labels[i].mark is Cut) && (labels[j].mark is Plain || labels[j].mark is Cut) && graph::label_of(labels[i].node) == t && graph::label_of(
                labels[j].node,
            ) == t;
        assert(nodes.contains(labels[i].node) && nodes.contains(labels[j].node));
        let k = choose|k: int| 0 <= k < nodes.len() && nodes[k] == labels[i].node;
        let l = choose|l: int| 0 <= l < nodes.len() && nodes[l] == labels[j].node;
        if k < l {
            assert(graph::label_of(nodes[k]) == t && graph::label_of(nodes[l]) == t);
        } else {
            assert(graph::label_of(nodes[l]) == t && graph::label_of(nodes[k]) == t);
        }
    }
}

/// The entry of a run is the one that was given, looked for as it stands (with
/// `/` for each backslash and without leading `./`) and then by its canonical
/// path, seen from the repository. Where none is given it is the crate root.
/// Where it is not one of the files, and where there is no crate root, the run
/// ends with a message.
pub proof fn law_run_finds_its_entry(
    d: modtree::DiskView,
    repo: Seq<char>,
    shown: Seq<char>,
    canon: Option<Seq<char>>,
    opts: GraphOptions,
)
    ensures
        ({
            let r = graph::report(d, repo, shown, canon, opts);
            let found = run_entry(d, repo, canon, opts);
            let missing = "no crate root found (looked for "@ + shown + "/src/main.rs and "@
                + shown + "/src/lib.rs)\n"@;
            match deps::repo_graph(d, repo) {
                None => r == Err::<Seq<char>, Seq<char>>(missing),
                Some(g) => match opts.entry {
                    None => match modtree::crate_root(d, repo) {
                        modtree::FoundView::File(root) => r is Ok && found == Some(
                            paths::relative(root, repo),
                        ),
                        _ => r == Err::<Seq<char>, Seq<char>>(missing),
                    },
                    Some(e) => {
                        let given = graph::without_dot(text::replaced(e@, '\\', '/'));
                        let rel = match canon {
                            Some(c) => paths::stripped(c, repo),
                            None => None,
                        };
                        if g.files.contains(given) {
                            r is Ok && found == Some(given)
                        } else {
                            match rel {
                                Some(rel) => {
                                    let seen = text::replaced(rel, '\\', '/');
                                    if g.files.contains(seen) {
                                        r is Ok && found == Some(seen)
                                    } else {
                                        r == Err::<Seq<char>, Seq<char>>(
                                            "entry `"@ + e@ + "` not found in graph. Tried: "@
                                                + given + ", "@ + seen + "\n"@,
                                        )
                                    }
                                },
                                None => r == Err::<Seq<char>, Seq<char>>(
                                    "entry `"@ + e@ + "` not found in graph. Tried: "@ + given
                                        + "\n"@,
                                ),
                            }
                        }
                    },
                },
            }
        }),
{
    if let Some(g) = deps::repo_graph(d, repo) {
        if let Some(e) = opts.entry {
            let names = graph::candidates(e@, canon, repo);
            let none: Seq<Seq<char>> = Seq::empty();
            reveal_with_fuel(graph::first_known, 3);
            reveal_with_fuel(text::join, 3);
            if names.len() == 1 {
                assert(names.drop_first() =~= none);
                assert(names.drop_last() =~= none);
            } else {
                assert(names.drop_first() =~= seq![names[1]]);
                assert(names.drop_last() =~= seq![names[0]]);
                assert(seq![names[1]].drop_first() =~= none);
                assert(seq![names[0]].drop_last() =~= none);
            }
            let head = "entry `"@ + e@ + "` not found in graph. Tried: "@;
            if names.len() == 2 {
                assert(head + (names[0] + ", "@ + names[1]) + "\n"@ =~= head + names[0] + ", "@
                    + names[1] + "\n"@);
            }
        }
    }
}

/// Leading `./` are dropped from a path, each of them, and nothing else.
pub proof fn law_dots_are_dropped(path: Seq<char>)
    ensures
        graph::without_dot("./"@ + path) == graph::without_dot(path),
        !(path.len() >= 2 && path[0] == '.' && path[1] == '/') ==> graph::without_dot(path) == path,
{
    reveal_strlit("./");
    let t = "./"@ + path;
    assert(t.subrange(0, 2) =~= "./"@);
    assert(t.skip(2) =~= path);
    if text::starts_with(path, "./"@) && path.len() >= 2 {
        assert(path.subrange(0, 2)[0] == '.' && path.subrange(0, 2)[1] == '/');
    }
}

/// The label of a file is its name without the extension. `mod`, `lib` and `main`
/// have the name of the directory and `/` in front, and so has a label that
/// another node has too. An external crate stays as it is.
pub proof fn law_labels_name_files(rel: Seq<char>, dups: Seq<Seq<char>>)
    ensures
        text::starts_with(rel, "ext:"@) ==> graph::label_of(rel) == rel && graph::clear_label(
            rel,
            dups,
        ) == rel,
        !text::starts_with(rel, "ext:"@) && paths::spans(rel).len() > 0 && paths::file_name_of(
            rel,
        ) is Some ==> {
            let n = paths::spans(rel).len();
            let name = paths::component(rel, n - 1);
            let dot = text::last_position(name, '.');
            let stem = if dot <= 0 {
                name
            } else {
                name.take(dot)
            };
            let dir = match paths::parent_of(rel) {
                Some(parent) => paths::file_name_of(parent),
                None => None,
            };
            let inside = if dir is Some {
                dir->Some_0 + "/"@
            } else {
                Seq::empty()
            };
            let own = if stem == "mod"@ || stem == "lib"@ || stem == "main"@ {
                inside + stem
            } else {
                stem
            };
            &&& graph::label_of(rel) == own
            &&& graph::clear_label(rel, dups) == if dups.contains(own) {
                inside + own
            } else {
                own
            }
        },
{
    let n = paths::spans(rel).len();
    let name = paths::component(rel, n - 1);
    let stem = paths::stem_of(name);
    assert(Seq::<char>::empty() + stem =~= stem);
    let own = graph::label_of(rel);
    assert(Seq::<char>::empty() + own =~= own);
}

/// The rows of the Mermaid block of a run.
pub open spec fn run_rows(
    d: modtree::DiskView,
    repo: Seq<char>,
    canon: Option<Seq<char>>,
    opts: GraphOptions,
) -> Seq<Row> {
    let g = deps::repo_graph(d, repo)->Some_0;
    drawing::mermaid_rows(
        graph::adjacency(g, opts.direction, opts.include_external),
        run_entry(d, repo, canon, opts)->Some_0,
        opts.depth,
        opts.mermaid_cluster,
        opts.cluster_depth as nat,
    )
}

/// The arrows of a block are the edges of the nodes that are opened.
proof fn lemma_arrows(
    adj: Map<Seq<char>, Seq<Seq<char>>>,
    froms: Seq<Seq<char>>,
    a: Seq<char>,
    b: Seq<char>,
)
    ensures
        drawing::arrows_in(drawing::arrow_rows(adj, froms)).contains((a, b)) <==> froms.contains(a)
            && names::under(adj, a).contains(b),
    decreases froms.len(),
{
    if froms.len() > 0 {
        let rest = froms.drop_last();
        let from = froms.last();
        let kids = names::under(adj, from);
        lemma_arrows(adj, rest, a, b);
        assert(froms =~= rest.push(from));
        text::lemma_push_contains(rest, from, a);
        drawing::lemma_arrows_add(drawing::arrow_rows(adj, rest), from, kids);
        let x = drawing::arrows_in(drawing::arrow_rows(adj, rest));
        let y = drawing::arrows_in(drawing::arrow_rows_from(from, kids));
        lemma_arrows_from(from, kids, a, b);
        assert((x + y).contains((a, b)) <==> x.contains((a, b)) || y.contains((a, b))) by {
            if x.contains((a, b)) {
                let i = choose|i: int| 0 <= i < x.len() && x[i] == (a, b);
                assert((x + y)[i] == (a, b));
            }
            if y.contains((a, b)) {
                let i = choose|i: int| 0 <= i < y.len() && y[i] == (a, b);
                assert((x + y)[x.len() + i] == (a, b));
            }
        }
    }
}

proof fn lemma_arrows_from(
    from: Seq<char>,
    kids: Seq<Seq<char>>,
    a: Seq<char>,
    b: Seq<char>,
)
    ensures
        drawing::arrows_in(drawing::arrow_rows_from(from, kids)).contains((a, b)) <==> a == from
            && kids.contains(b),
    decreases kids.len(),
{
    if kids.len() > 0 {
        let rest = kids.drop_last();
        let rows = drawing::arrow_rows_from(from, rest);
        lemma_arrows_from(from, rest, a, b);
        assert(kids =~= rest.push(kids.last()));
        text::lemma_push_contains(rest, kids.last(), b);
        let row = Row::Arrow { from, to: kids.last() };
        assert(rows.push(row).drop_last() =~= rows);
        text::lemma_push_contains(drawing::arrows_in(rows), (from, kids.last()), (a, b));
    }
}

/// The lines of a Mermaid block: a node with its label, a subgraph with its key,
/// its end, and an arrow. Nodes in a subgraph are indented further.
pub proof fn law_rows_are_lines(
    node: Seq<char>,
    to: Seq<char>,
    key: Seq<char>,
    dups: Seq<Seq<char>>,
)
    ensures
        drawing::row_text(Row::Node { node }, key, dups) == (if key.len() == 0 {
            "  "@
        } else {
            "    "@
        }) + graph::id_of(node) + "[\""@ + graph::clear_label(node, dups) + "\"]\n"@,
        drawing::row_text(Row::Start { key }, Seq::empty(), dups) == "  subgraph "@ + graph::id_of(
            key,
        ) + " ["@ + key + "]\n"@,
        drawing::row_text(Row::End, key, dups) == "  end\n"@,
        drawing::row_text(Row::Arrow { from: node, to }, Seq::empty(), dups) == "  "@
            + graph::id_of(node) + " --> "@ + graph::id_of(to) + "\n"@,
{
}

/// A Mermaid block shows what its entry reaches. Each file that the entry reaches
/// by `use` and `mod x;` (in reverse: each file that reaches the entry by them),
/// over no more edges than the depth, is declared exactly once, and nothing else
/// is: in the subgraph of its cluster where clusters are asked for. An arrow goes
/// from each node that is reached over fewer edges than the depth to all that it
/// leads to.
pub proof fn law_mermaid_run_shows_the_reached(
    d: modtree::DiskView,
    repo: Seq<char>,
    shown: Seq<char>,
    canon: Option<Seq<char>>,
    opts: GraphOptions,
    x: Seq<char>,
    y: Seq<char>,
    key: Seq<char>,
)
    requires
        graph::report(d, repo, shown, canon, opts) is Ok,
        opts.mermaid || opts.mermaid_cluster,
    ensures
        ({
            let g = deps::repo_graph(d, repo)->Some_0;
            let rows = run_rows(d, repo, canon, opts);
            let entry = run_entry(d, repo, canon, opts)->Some_0;
            let step = |a: Seq<char>, b: Seq<char>|
                match opts.direction {
                    Direction::Forward => {
                        ||| names::under(g.out_internal.edges, a).contains(b)
                        ||| names::under(g.mod_edges.edges, a).contains(b)
                        ||| opts.include_external && exists|c: Seq<char>|
                            b == "ext:"@ + c && #[trigger] names::under(
                                g.out_external.edges,
                                a,
                            ).contains(c)
                    },
                    Direction::Reverse => {
                        ||| names::under(g.out_internal.edges, b).contains(a)
                        ||| names::under(g.mod_edges.edges, b).contains(a)
                    },
                };
            let reached = exists|p: Seq<Seq<char>>| #[trigger]
                strides(step, p) && p.len() > 0 && p[0] == entry && p.last() == x && (
                opts.depth matches Some(m) ==> p.len() <= m + 1);
            let opened = exists|p: Seq<Seq<char>>| #[trigger]
                strides(step, p) && p.len() > 0 && p[0] == entry && p.last() == x && (
                opts.depth matches Some(m) ==> p.len() <= m);
            let group = if opts.mermaid_cluster {
                graph::cluster_of(x, opts.cluster_depth as nat)
            } else {
                Seq::empty()
            };
            &&& exists|dups: Seq<Seq<char>>|
                graph::report(d, repo, shown, canon, opts) == Ok::<Seq<char>, Seq<char>>(
                    "graph TD\n"@ + #[trigger] drawing::rows_text(rows, dups),
                )
            &&& drawing::times_declared(rows, x, key) == if reached && key == group {
                1nat
            } else {
                0
            }
            &&& drawing::arrows_in(rows).contains((x, y)) <==> opened && step(x, y)
        }),
{
    let g = deps::repo_graph(d, repo)->Some_0;
    deps::law_graph_in_order(d, repo);
    let step = |a: Seq<char>, b: Seq<char>|
        match opts.direction {
            Direction::Forward => {
                ||| names::under(g.out_internal.edges, a).contains(b)
                ||| names::under(g.mod_edges.edges, a).contains(b)
                ||| opts.include_external && exists|c: Seq<char>|
                    b == "ext:"@ + c && #[trigger] names::under(
                        g.out_external.edges,
                        a,
                    ).contains(c)
            },
            Direction::Reverse => {
                ||| names::under(g.out_internal.edges, b).contains(a)
                ||| names::under(g.mod_edges.edges, b).contains(a)
            },
        };
    lemma_steps(g, opts, step);
    let entry = run_entry(d, repo, canon, opts)->Some_0;
    let adj = graph::adjacency(g, opts.direction, opts.include_external);
    let depth = opts.cluster_depth as nat;
    drawing::law_clusters_only_regroup(adj, entry, opts.depth, depth, x, key);
    assert(key.len() == 0 ==> key =~= Seq::empty());
    let rows = run_rows(d, repo, canon, opts);
    let dups = graph::colliding(graph::reached(adj, entry, opts.depth));
    assert(graph::report(d, repo, shown, canon, opts) == Ok::<Seq<char>, Seq<char>>(
        "graph TD\n"@ + drawing::rows_text(rows, dups),
    ));
    lemma_reach(adj, step, entry, x, opts.depth);
    let froms = graph::opened(adj, entry, opts.depth);
    graph::lemma_opened(adj, entry, opts.depth);
    assert(froms.contains(x) <==> graph::opens(adj, entry, x, opts.depth));
    lemma_arrows(adj, froms, x, y);
    drawing::lemma_arrows_of_rows(adj, entry, opts.depth, opts.mermaid_cluster, depth);
    assert(step(x, y) <==> names::under(adj, x).contains(y));
}

/// What is reached, and what is opened, over the steps of a graph.
proof fn lemma_reach(
    adj: Map<Seq<char>, Seq<Seq<char>>>,
    step: spec_fn(Seq<char>, Seq<char>) -> bool,
    entry: Seq<char>,
    x: Seq<char>,
    depth: Option<usize>,
)
    requires
        forall|a: Seq<char>, b: Seq<char>| #[trigger]
            step(a, b) <==> names::under(adj, a).contains(b),
    ensures
        graph::reaches(adj, entry, x, depth) <==> exists|p: Seq<Seq<char>>| #[trigger]
            strides(step, p) && p.len() > 0 && p[0] == entry && p.last() == x && (
            depth matches Some(m) ==> p.len() <= m + 1),
        graph::opens(adj, entry, x, depth) <==> exists|p: Seq<Seq<char>>| #[trigger]
            strides(step, p) && p.len() > 0 && p[0] == entry && p.last() == x && (
            depth matches Some(m) ==> p.len() <= m),
{
    assert forall|p: Seq<Seq<char>>| p.len() > 0 implies (#[trigger] strides(step, p)
        <==> graph::is_path(adj, p, p[0], p.last())) by {
        lemma_strides(adj, step, p);
    }
    let most = |p: Seq<Seq<char>>| depth matches Some(m) ==> p.len() <= m + 1;
    let less = |p: Seq<Seq<char>>| depth matches Some(m) ==> p.len() <= m;
    if graph::reaches(adj, entry, x, depth) {
        let p = choose|p: Seq<Seq<char>>| #[trigger] graph::is_path(adj, p, entry, x) && most(p);
        assert(strides(step, p));
    }
    if graph::opens(adj, entry, x, depth) {
        let p = choose|p: Seq<Seq<char>>| #[trigger] graph::is_path(adj, p, entry, x) && less(p);
        assert(strides(step, p));
    }
    if exists|p: Seq<Seq<char>>| #[trigger]
        strides(step, p) && p.len() > 0 && p[0] == entry && p.last() == x && most(p) {
        let p = choose|p: Seq<Seq<char>>| #[trigger]
            strides(step, p) && p.len() > 0 && p[0] == entry && p.last() == x && most(p);
        assert(graph::is_path(adj, p, entry, x));
    }
    if exists|p: Seq<Seq<char>>| #[trigger]
        strides(step, p) && p.len() > 0 && p[0] == entry && p.last() == x && less(p) {
        let p = choose|p: Seq<Seq<char>>| #[trigger]
            strides(step, p) && p.len() > 0 && p[0] == entry && p.last() == x && less(p);
        assert(graph::is_path(adj, p, entry, x));
    }
}

/// The id of a node is its name with `_` for each character that is no ASCII letter
/// or digit; an `n` stands in front where it would start with a digit.
pub proof fn law_ids_are_safe(name: Seq<char>)
    ensures
        ({
            let id = graph::id_of(name);
            let digit = name.len() > 0 && '0' <= name[0] && name[0] <= '9';
            let from: int = if digit {
                1
            } else {
                0
            };
            &&& id.len() == name.len() + from
            &&& digit ==> id[0] == 'n'
            &&& forall|k: int|
                0 <= k < name.len() ==> #[trigger] id[k + from] == {
                    let c = name[k];
                    if ('a' <= c && c <= 'z') || ('A' <= c && c <= 'Z') || ('0' <= c && c <= '9') {
                        c
                    } else {
                        '_'
                    }
                }
        }),
{
    reveal_strlit("n");
}

/// The cluster of a file is made of the first of its directories, at most as many
/// as the depth says, where a leading `src` does not count. External crates and
/// files without directories are in the root group.
pub proof fn law_cluster_names_directories(parts: Seq<Seq<char>>, name: Seq<char>, depth: nat)
    requires
        paths::plain_names(parts.push(name)),
        !text::starts_with(paths::path_of(false, parts.push(name)), "ext:"@),
    ensures
        ({
            let dirs = if parts.len() > 0 && parts[0] == "src"@ {
                parts.drop_first()
            } else {
                parts
            };
            graph::cluster_of(paths::path_of(false, parts.push(name)), depth) == text::join(
                dirs.take(
                    if depth < dirs.len() {
                        depth as int
                    } else {
                        dirs.len() as int
                    },
                ),
                "/"@,
            )
        }),
{
    let all = parts.push(name);
    let rel = paths::path_of(false, all);
    paths::law_path_has_its_names(false, all);
    assert(all.drop_last() =~= parts);
    let up = paths::path_of(false, parts);
    let none: Seq<Seq<char>> = Seq::empty();
    if parts.len() > 0 {
        assert(paths::plain_names(parts)) by {
            assert forall|i: int| 0 <= i < parts.len() implies (#[trigger] parts[i]).len() > 0
                && !parts[i].contains('/') && parts[i] != seq!['.'] by {
                assert(all[i] == parts[i]);
            }
        }
        paths::law_path_has_its_names(false, parts);
        assert(paths::names_of(up) =~= parts);
    } else {
        assert(parts =~= none);
        assert(up =~= Seq::empty());
        paths::lemma_no_names();
    }
    let dirs = graph::dirs_of(rel);
    assert(parts.len() > 0 ==> parts.skip(1) =~= parts.drop_first());
    if depth == 0 {
        assert(dirs.take(0) =~= none);
    }
    if dirs.len() == 0 {
        assert(dirs.take(0) =~= none);
    }
}

} // verus!
