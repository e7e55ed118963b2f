//! What a Mermaid block is made of, line by line, and what clustering does to it.
use vstd::prelude::*;

use crate::{graph, names, order, paths, text};

verus! {

/// A line of a Mermaid block: the declaration of a node, the start or the end of
/// a subgraph, or an arrow.
pub enum Row {
    Node { node: Seq<char> },
    Start { key: Seq<char> },
    End,
    Arrow { from: Seq<char>, to: Seq<char> },
}

/// The key of the subgraph that is open after `rows`; empty where none is.
pub open spec fn enclosing(rows: Seq<Row>) -> Seq<char>
    decreases rows.len(),
{
    if rows.len() == 0 {
        Seq::empty()
    } else {
        match rows.last() {
            Row::Start { key } => key,
            Row::End => Seq::empty(),
            _ => enclosing(rows.drop_last()),
        }
    }
}

/// The indentation of a declaration in the subgraph `key`.
pub open spec fn indent(key: Seq<char>) -> Seq<char> {
    if key.len() == 0 {
        "  "@
    } else {
        "    "@
    }
}

/// The text of a row that stands in the subgraph `key`.
pub open spec fn row_text(row: Row, key: Seq<char>, dups: Seq<Seq<char>>) -> Seq<char> {
    match row {
        Row::Node { node } => graph::node_line(node, dups, indent(key)),
        Row::Start { key } => "  subgraph "@ + graph::id_of(key) + " ["@ + key + "]\n"@,
        Row::End => "  end\n"@,
        Row::Arrow { from, to } => "  "@ + graph::id_of(from) + " --> "@ + graph::id_of(to)
            + "\n"@,
    }
}

pub open spec fn rows_text(rows: Seq<Row>, dups: Seq<Seq<char>>) -> Seq<char>
    decreases rows.len(),
{
    if rows.len() == 0 {
        Seq::empty()
    } else {
        let before = rows.drop_last();
        rows_text(before, dups) + row_text(rows.last(), enclosing(before), dups)
    }
}

/// How often `node` is declared in the subgraph `key`.
pub open spec fn times_declared(rows: Seq<Row>, node: Seq<char>, key: Seq<char>) -> nat
    decreases rows.len(),
{
    if rows.len() == 0 {
        0
    } else {
        let before = rows.drop_last();
        times_declared(before, node, key) + if rows.last() == (Row::Node { node }) && enclosing(
            before,
        ) == key {
            1nat
        } else {
            0
        }
    }
}

/// The arrows among rows, in order.
pub open spec fn arrows_in(rows: Seq<Row>) -> Seq<(Seq<char>, Seq<char>)>
    decreases rows.len(),
{
    if rows.len() == 0 {
        Seq::empty()
    } else {
        match rows.last() {
            Row::Arrow { from, to } => arrows_in(rows.drop_last()).push((from, to)),
            _ => arrows_in(rows.drop_last()),
        }
    }
}

/// The declarations of the nodes whose cluster is `key`; of all nodes where no
/// key is given.
pub open spec fn node_rows(
    nodes: Seq<Seq<char>>,
    key: Option<Seq<char>>,
    depth: nat,
) -> Seq<Row>
    decreases nodes.len(),
{
    if nodes.len() == 0 {
        Seq::empty()
    } else {
        let rest = node_rows(nodes.drop_last(), key, depth);
        if key is None || key == Some(graph::cluster_of(nodes.last(), depth)) {
            rest.push(Row::Node { node: nodes.last() })
        } else {
            rest
        }
    }
}

/// A subgraph for each of `keys`, but for the root group.
pub open spec fn group_rows(
    keys: Seq<Seq<char>>,
    nodes: Seq<Seq<char>>,
    depth: nat,
) -> Seq<Row>
    decreases keys.len(),
{
    if keys.len() == 0 {
        Seq::empty()
    } else {
        let rest = group_rows(keys.drop_last(), nodes, depth);
        let key = keys.last();
        if key.len() == 0 {
            rest
        } else {
            rest.push(Row::Start { key }) + node_rows(nodes, Some(key), depth) + seq![Row::End]
        }
    }
}

/// The arrows from `from` to each of `kids`.
pub open spec fn arrow_rows_from(from: Seq<char>, kids: Seq<Seq<char>>) -> Seq<Row>
    decreases kids.len(),
{
    if kids.len() == 0 {
        Seq::empty()
    } else {
        arrow_rows_from(from, kids.drop_last()).push(Row::Arrow { from, to: kids.last() })
    }
}

/// The arrows from each of `froms`.
pub open spec fn arrow_rows(
    adj: Map<Seq<char>, Seq<Seq<char>>>,
    froms: Seq<Seq<char>>,
) -> Seq<Row>
    decreases froms.len(),
{
    if froms.len() == 0 {
        Seq::empty()
    } else {
        arrow_rows(adj, froms.drop_last()) + arrow_rows_from(
            froms.last(),
            names::under(adj, froms.last()),
        )
    }
}

/// The rows of the `graph TD` block of what is reached from `entry`.
pub open spec fn mermaid_rows(
    adj: Map<Seq<char>, Seq<Seq<char>>>,
    entry: Seq<char>,
    limit: Option<usize>,
    cluster: bool,
    depth: nat,
) -> Seq<Row> {
    let nodes = graph::reached(adj, entry, limit);
    (if cluster {
        node_rows(nodes, Some(Seq::empty()), depth) + group_rows(
            graph::clusters(nodes, depth),
            nodes,
            depth,
        )
    } else {
        node_rows(nodes, None, depth)
    }) + arrow_rows(adj, graph::opened(adj, entry, limit))
}

/// One if `name` is among `names`, and zero if not.
spec fn one_if(names: Seq<Seq<char>>, name: Seq<char>) -> nat {
    if names.contains(name) {
        1
    } else {
        0
    }
}

/// What one more row does.
proof fn lemma_push_row(
    rows: Seq<Row>,
    row: Row,
    dups: Seq<Seq<char>>,
    node: Seq<char>,
    key: Seq<char>,
)
    ensures
        rows_text(rows.push(row), dups) == rows_text(rows, dups) + row_text(
            row,
            enclosing(rows),
            dups,
        ),
        enclosing(rows.push(row)) == match row {
            Row::Start { key } => key,
            Row::End => Seq::empty(),
            _ => enclosing(rows),
        },
        times_declared(rows.push(row), node, key) == times_declared(rows, node, key) + if row
            == (Row::Node { node }) && enclosing(rows) == key {
            1nat
        } else {
            0
        },
        arrows_in(rows.push(row)) == match row {
            Row::Arrow { from, to } => arrows_in(rows).push((from, to)),
            _ => arrows_in(rows),
        },
{
    let all = rows.push(row);
    assert(all.drop_last() =~= rows);
    assert(all.last() == row);
}

proof fn lemma_node_rows(
    before: Seq<Row>,
    nodes: Seq<Seq<char>>,
    only: Option<Seq<char>>,
    depth: nat,
    dups: Seq<Seq<char>>,
    node: Seq<char>,
    key: Seq<char>,
)
    requires
        nodes.no_duplicates(),
    ensures
        ({
            let all = before + node_rows(nodes, only, depth);
            let here = enclosing(before);
            &&& rows_text(all, dups) == rows_text(before, dups) + graph::node_lines(
                nodes,
                only,
                depth,
                dups,
                indent(here),
            )
            &&& enclosing(all) == here
            &&& times_declared(all, node, key) == times_declared(before, node, key) + if here
                == key && (only is None || only == Some(graph::cluster_of(node, depth))) {
                one_if(nodes, node)
            } else {
                0
            }
            &&& arrows_in(all) == arrows_in(before)
        }),
    decreases nodes.len(),
{
    let all = before + node_rows(nodes, only, depth);
    if nodes.len() == 0 {
        assert(all =~= before);
        assert(rows_text(before, dups) + Seq::<char>::empty() =~= rows_text(before, dups));
    } else {
        let front = nodes.drop_last();
        let last = nodes.last();
        let so_far = before + node_rows(front, only, depth);
        lemma_node_rows(before, front, only, depth, dups, node, key);
        assert(nodes =~= front.push(last));
        text::lemma_push_contains(front, last, node);
        if front.contains(last) {
            let i = choose|i: int| 0 <= i < front.len() && front[i] == last;
            assert(nodes[i] == nodes[nodes.len() - 1]);
        }
        if only is None || only == Some(graph::cluster_of(last, depth)) {
            let row = Row::Node { node: last };
            lemma_push_row(so_far, row, dups, node, key);
            assert(all =~= so_far.push(row));
            let here = indent(enclosing(before));
            let lines = graph::node_lines(front, only, depth, dups, here);
            let line = graph::node_line(last, dups, here);
            assert(rows_text(before, dups) + lines + line =~= rows_text(before, dups) + (lines
                + line));
        }
    }
}

proof fn lemma_group_rows(
    before: Seq<Row>,
    keys: Seq<Seq<char>>,
    nodes: Seq<Seq<char>>,
    depth: nat,
    dups: Seq<Seq<char>>,
    node: Seq<char>,
    key: Seq<char>,
)
    requires
        enclosing(before).len() == 0,
        keys.no_duplicates(),
        nodes.no_duplicates(),
    ensures
        ({
            let all = before + group_rows(keys, nodes, depth);
            &&& rows_text(all, dups) == rows_text(before, dups) + graph::group_lines(
                keys,
                nodes,
                depth,
                dups,
            )
            &&& enclosing(all).len() == 0
            &&& times_declared(all, node, key) == times_declared(before, node, key) + if key.len()
                > 0 && key == graph::cluster_of(node, depth) && keys.contains(key) {
                one_if(nodes, node)
            } else {
                0
            }
            &&& arrows_in(all) == arrows_in(before)
        }),
    decreases keys.len(),
{
    let all = before + group_rows(keys, nodes, depth);
    if keys.len() == 0 {
        assert(all =~= before);
        assert(rows_text(before, dups) + Seq::<char>::empty() =~= rows_text(before, dups));
    } else {
        let front = keys.drop_last();
        let last = keys.last();
        let so_far = before + group_rows(front, nodes, depth);
        lemma_group_rows(before, front, nodes, depth, dups, node, key);
        assert(keys =~= front.push(last));
        text::lemma_push_contains(front, last, key);
        if front.contains(last) {
            let i = choose|i: int| 0 <= i < front.len() && front[i] == last;
            assert(keys[i] == keys[keys.len() - 1]);
        }
        if last.len() > 0 {
            let start = Row::Start { key: last };
            let opened = so_far.push(start);
            let filled = opened + node_rows(nodes, Some(last), depth);
            lemma_push_row(so_far, start, dups, node, key);
            lemma_node_rows(opened, nodes, Some(last), depth, dups, node, key);
            lemma_push_row(filled, Row::End, dups, node, key);
            assert(all =~= filled.push(Row::End));
            let t = rows_text(before, dups);
            let lines = graph::group_lines(front, nodes, depth, dups);
            let head = row_text(start, Seq::empty(), dups);
            let inner = graph::node_lines(nodes, Some(last), depth, dups, "    "@);
            assert(rows_text(all, dups) == t + lines + head + inner + "  end\n"@);
            assert(graph::group_text(last, nodes, depth, dups) == head + inner + "  end\n"@);
            assert(t + lines + head + inner + "  end\n"@ =~= t + (lines + (head + inner
                + "  end\n"@)));
        }
    }
}

proof fn lemma_arrow_rows_from(
    before: Seq<Row>,
    from: Seq<char>,
    kids: Seq<Seq<char>>,
    dups: Seq<Seq<char>>,
    node: Seq<char>,
    key: Seq<char>,
)
    ensures
        ({
            let rows = arrow_rows_from(from, kids);
            let all = before + rows;
            &&& rows_text(all, dups) == rows_text(before, dups) + graph::arrows_from(from, kids)
            &&& enclosing(all) == enclosing(before)
            &&& times_declared(all, node, key) == times_declared(before, node, key)
            &&& arrows_in(all) == arrows_in(before) + arrows_in(rows)
        }),
    decreases kids.len(),
{
    let rows = arrow_rows_from(from, kids);
    let all = before + rows;
    if kids.len() == 0 {
        assert(all =~= before);
        assert(rows_text(before, dups) + Seq::<char>::empty() =~= rows_text(before, dups));
        assert(arrows_in(before) + arrows_in(rows) =~= arrows_in(before));
    } else {
        let front = arrow_rows_from(from, kids.drop_last());
        let row = Row::Arrow { from, to: kids.last() };
        lemma_arrow_rows_from(before, from, kids.drop_last(), dups, node, key);
        lemma_push_row(before + front, row, dups, node, key);
        lemma_push_row(front, row, dups, node, key);
        assert(all =~= (before + front).push(row));
        let t = rows_text(before, dups);
        let lines = graph::arrows_from(from, kids.drop_last());
        let line = row_text(row, Seq::empty(), dups);
        assert(t + lines + line =~= t + (lines + line));
        assert((arrows_in(before) + arrows_in(front)).push((from, kids.last()))
            =~= arrows_in(before) + arrows_in(front).push((from, kids.last())));
    }
}

proof fn lemma_arrow_rows(
    before: Seq<Row>,
    adj: Map<Seq<char>, Seq<Seq<char>>>,
    froms: Seq<Seq<char>>,
    dups: Seq<Seq<char>>,
    node: Seq<char>,
    key: Seq<char>,
)
    ensures
        ({
            let rows = arrow_rows(adj, froms);
            let all = before + rows;
            &&& rows_text(all, dups) == rows_text(before, dups) + graph::arrows(adj, froms)
            &&& times_declared(all, node, key) == times_declared(before, node, key)
            &&& arrows_in(all) == arrows_in(before) + arrows_in(rows)
        }),
    decreases froms.len(),
{
    let rows = arrow_rows(adj, froms);
    let all = before + rows;
    if froms.len() == 0 {
        assert(all =~= before);
        assert(rows_text(before, dups) + Seq::<char>::empty() =~= rows_text(before, dups));
        assert(arrows_in(before) + arrows_in(rows) =~= arrows_in(before));
    } else {
        let front = arrow_rows(adj, froms.drop_last());
        let from = froms.last();
        let kids = names::under(adj, from);
        let more = arrow_rows_from(from, kids);
        lemma_arrow_rows(before, adj, froms.drop_last(), dups, node, key);
        lemma_arrow_rows_from(before + front, from, kids, dups, node, key);
        lemma_arrow_rows_from(front, from, kids, dups, node, key);
        assert(all =~= before + front + more);
        let t = rows_text(before, dups);
        let lines = graph::arrows(adj, froms.drop_last());
        let line = graph::arrows_from(from, kids);
        assert(t + lines + line =~= t + (lines + line));
        assert(arrows_in(before) + arrows_in(front) + arrows_in(more) =~= arrows_in(before) + (
        arrows_in(front) + arrows_in(more)));
    }
}

/// Clustering only regroups the declarations of the nodes. A Mermaid block is
/// made of rows, with and without clusters. Without them each reached node is
/// declared exactly once, outside of subgraphs; with them it is declared exactly
/// once too, in the subgraph of its cluster, or outside of subgraphs if it is of
/// the root group. Nothing else is declared, and the arrows are the same, in the
/// same order.
pub proof fn law_clusters_only_regroup(
    adj: Map<Seq<char>, Seq<Seq<char>>>,
    entry: Seq<char>,
    limit: Option<usize>,
    depth: nat,
    node: Seq<char>,
    key: Seq<char>,
)
    requires
        adj.dom().finite(),
    ensures
        ({
            let plain = mermaid_rows(adj, entry, limit, false, depth);
            let grouped = mermaid_rows(adj, entry, limit, true, depth);
            let dups = graph::colliding(graph::reached(adj, entry, limit));
            &&& graph::mermaid_text(adj, entry, limit, false, depth) == "graph TD\n"@ + rows_text(
                plain,
                dups,
            )
            &&& graph::mermaid_text(adj, entry, limit, true, depth) == "graph TD\n"@ + rows_text(
                grouped,
                dups,
            )
            &&& times_declared(plain, node, key) == if graph::reaches(adj, entry, node, limit)
                && key.len() == 0 {
                1nat
            } else {
                0
            }
            &&& times_declared(grouped, node, key) == if graph::reaches(adj, entry, node, limit)
                && key == graph::cluster_of(node, depth) {
                1nat
            } else {
                0
            }
            &&& arrows_in(grouped) == arrows_in(plain)
        }),
{
    let nodes = graph::reached(adj, entry, limit);
    let dups = graph::colliding(nodes);
    let froms = graph::opened(adj, entry, limit);
    let keys = graph::clusters(nodes, depth);
    let values = nodes.map_values(|n: Seq<char>| graph::cluster_of(n, depth));
    let none: Seq<Row> = Seq::empty();
    let root: Seq<char> = Seq::empty();
    graph::lemma_reached(adj, entry, limit);
    order::lemma_ascending_distinct(nodes);
    order::lemma_collected(values);
    order::lemma_collected_contains(values);
    order::lemma_ascending_distinct(keys);
    if nodes.contains(node) {
        let i = choose|i: int| 0 <= i < nodes.len() && nodes[i] == node;
        assert(values[i] == graph::cluster_of(node, depth));
        assert(keys.contains(graph::cluster_of(node, depth)));
    }
    assert(key.len() == 0 ==> key =~= root);
    let a = node_rows(nodes, None, depth);
    lemma_node_rows(none, nodes, None, depth, dups, node, key);
    assert(none + a =~= a);
    lemma_arrow_rows(a, adj, froms, dups, node, key);
    let plain = mermaid_rows(adj, entry, limit, false, depth);
    assert(plain =~= a + arrow_rows(adj, froms));
    let b = node_rows(nodes, Some(root), depth);
    lemma_node_rows(none, nodes, Some(root), depth, dups, node, key);
    assert(none + b =~= b);
    let c = b + group_rows(keys, nodes, depth);
    lemma_group_rows(b, keys, nodes, depth, dups, node, key);
    lemma_arrow_rows(c, adj, froms, dups, node, key);
    let grouped = mermaid_rows(adj, entry, limit, true, depth);
    assert(grouped =~= c + arrow_rows(adj, froms));
    assert(arrows_in(a) =~= arrows_in(c));
    let head = "graph TD\n"@;
    let lines = graph::arrows(adj, froms);
    let flat = graph::node_lines(nodes, None, depth, dups, "  "@);
    assert(rows_text(plain, dups) =~= flat + lines);
    assert(head + flat + lines =~= head + (flat + lines));
    let roots = graph::node_lines(nodes, Some(root), depth, dups, "  "@);
    let groups = graph::group_lines(keys, nodes, depth, dups);
    assert(rows_text(grouped, dups) =~= roots + groups + lines);
    assert(head + (roots + groups) + lines =~= head + (roots + groups + lines));
}

/// The arrows of a block with the edges of one more node.
pub proof fn lemma_arrows_add(rows: Seq<Row>, from: Seq<char>, kids: Seq<Seq<char>>)
    ensures
        arrows_in(rows + arrow_rows_from(from, kids)) == arrows_in(rows) + arrows_in(
            arrow_rows_from(from, kids),
        ),
{
    let none: Seq<Seq<char>> = Seq::empty();
    lemma_arrow_rows_from(rows, from, kids, none, Seq::empty(), Seq::empty());
}

/// The arrows of a Mermaid block are those of the nodes that are opened.
pub proof fn lemma_arrows_of_rows(
    adj: Map<Seq<char>, Seq<Seq<char>>>,
    entry: Seq<char>,
    limit: Option<usize>,
    cluster: bool,
    depth: nat,
)
    requires
        adj.dom().finite(),
    ensures
        arrows_in(mermaid_rows(adj, entry, limit, cluster, depth)) == arrows_in(
            arrow_rows(adj, graph::opened(adj, entry, limit)),
        ),
{
    let nodes = graph::reached(adj, entry, limit);
    let froms = graph::opened(adj, entry, limit);
    let dups: Seq<Seq<char>> = Seq::empty();
    let root: Seq<char> = Seq::empty();
    let none: Seq<Row> = Seq::empty();
    graph::lemma_reached(adj, entry, limit);
    order::lemma_ascending_distinct(nodes);
    let values = nodes.map_values(|n: Seq<char>| graph::cluster_of(n, depth));
    order::lemma_collected(values);
    order::lemma_ascending_distinct(graph::clusters(nodes, depth));
    let rows = if cluster {
        let b = node_rows(nodes, Some(root), depth);
        lemma_node_rows(none, nodes, Some(root), depth, dups, root, root);
        assert(none + b =~= b);
        lemma_group_rows(b, graph::clusters(nodes, depth), nodes, depth, dups, root, root);
        b + group_rows(graph::clusters(nodes, depth), nodes, depth)
    } else {
        let a = node_rows(nodes, None, depth);
        lemma_node_rows(none, nodes, None, depth, dups, root, root);
        assert(none + a =~= a);
        a
    };
    lemma_arrow_rows(rows, adj, froms, dups, root, root);
    assert(arrows_in(rows) =~= Seq::empty());
    assert(arrows_in(rows) + arrows_in(arrow_rows(adj, froms)) =~= arrows_in(
        arrow_rows(adj, froms),
    ));
}

/// The parts of a cluster key.
pub open spec fn segments(key: Seq<char>) -> Seq<Seq<char>> {
    if key.len() == 0 {
        Seq::empty()
    } else {
        text::split(key, '/')
    }
}

/// The directories of a path are not empty, and hold no `/` but for the root.
proof fn lemma_dirs(rel: Seq<char>)
    ensures
        forall|i: int|
            0 <= i < graph::dirs_of(rel).len() ==> (#[trigger] graph::dirs_of(rel)[i]).len() > 0,
        !paths::rooted(rel) ==> forall|i: int|
            0 <= i < graph::dirs_of(rel).len() ==> !(#[trigger] graph::dirs_of(rel)[i]).contains(
                '/',
            ),
{
    if let Some(parent) = paths::parent_of(rel) {
        let all = paths::names_of(parent);
        let dirs = graph::dirs_of(rel);
        let root: int = if paths::rooted(parent) {
            1
        } else {
            0
        };
        if !paths::rooted(rel) {
            paths::lemma_parent_unrooted(rel);
        }
        reveal_strlit("/");
        assert forall|i: int| 0 <= i < dirs.len() implies (#[trigger] dirs[i]).len() > 0 && (
        !paths::rooted(rel) ==> !dirs[i].contains('/')) by {
            let k = i + all.len() - dirs.len();
            assert(dirs[i] == all[k]);
            if k >= root {
                assert(all[k] == paths::component(parent, k - root));
                paths::lemma_component_plain(parent, k - root);
            }
        }
    }
}

/// The segments of a cluster key are the first directories of the node.
proof fn lemma_segments(rel: Seq<char>, depth: nat)
    requires
        !paths::rooted(rel),
    ensures
        segments(graph::cluster_of(rel, depth)) == if graph::is_external(rel) {
            Seq::empty()
        } else if depth < graph::dirs_of(rel).len() {
            graph::dirs_of(rel).take(depth as int)
        } else {
            graph::dirs_of(rel)
        },
{
    let dirs = graph::dirs_of(rel);
    let n = if depth < dirs.len() {
        depth as int
    } else {
        dirs.len() as int
    };
    let parts = dirs.take(n);
    lemma_dirs(rel);
    if graph::is_external(rel) || n == 0 {
        assert(dirs.take(0) =~= Seq::empty());
        assert(dirs.len() == 0 ==> dirs =~= Seq::empty());
    } else {
        assert forall|i: int| 0 <= i < parts.len() implies !(#[trigger] parts[i]).contains(
            '/',
        ) by {
            assert(parts[i] == dirs[i]);
        }
        assert("/"@ =~= seq!['/']) by {
            reveal_strlit("/");
        }
        text::lemma_join_split(parts, '/');
        let key = text::join(parts, "/"@);
        if parts.len() == 1 {
            assert(parts[0] == dirs[0]);
        } else {
            assert(key.len() >= "/"@.len());
        }
        assert(key.len() > 0);
        assert(n == dirs.len() ==> parts =~= dirs);
    }
}

/// A cluster key has at most as many segments as the depth says, and a greater
/// depth only adds segments at its end.
pub proof fn law_cluster_key_nests(rel: Seq<char>, less: nat, more: nat)
    requires
        !paths::rooted(rel),
        less <= more,
    ensures
        segments(graph::cluster_of(rel, less)).len() <= less,
        segments(graph::cluster_of(rel, less)).is_prefix_of(
            segments(graph::cluster_of(rel, more)),
        ),
{
    let a = segments(graph::cluster_of(rel, less));
    let b = segments(graph::cluster_of(rel, more));
    lemma_segments(rel, less);
    lemma_segments(rel, more);
    assert(a =~= b.take(a.len() as int));
}

/// The cluster key at a depth begins the one at a greater depth. It is empty at
/// every depth exactly if the node is external or has no directory below `src`.
pub proof fn law_cluster_key_grows(rel: Seq<char>, less: nat, more: nat)
    requires
        less <= more,
    ensures
        graph::cluster_of(rel, less).is_prefix_of(graph::cluster_of(rel, more)),
        (forall|d: nat| (#[trigger] graph::cluster_of(rel, d)).len() == 0) <==> graph::is_external(
            rel,
        ) || graph::dirs_of(rel).len() == 0,
{
    let dirs = graph::dirs_of(rel);
    let a = graph::cluster_of(rel, less);
    let b = graph::cluster_of(rel, more);
    lemma_dirs(rel);
    if graph::is_external(rel) || less == 0 || dirs.len() == 0 {
        assert(a =~= b.take(0));
    } else {
        let n = if more < dirs.len() {
            more as int
        } else {
            dirs.len() as int
        };
        let m = if less < dirs.len() {
            less as int
        } else {
            dirs.len() as int
        };
        lemma_join_prefix(dirs.take(n), "/"@, m);
        assert(dirs.take(n).take(m) =~= dirs.take(m));
    }
    if !graph::is_external(rel) && dirs.len() > 0 {
        assert(dirs.take(1)[0] == dirs[0]);
        assert(graph::cluster_of(rel, 1).len() > 0);
    }
}

/// The first of some parts are written first.
proof fn lemma_join_prefix(parts: Seq<Seq<char>>, sep: Seq<char>, n: int)
    requires
        0 <= n <= parts.len(),
    ensures
        text::join(parts.take(n), sep).is_prefix_of(text::join(parts, sep)),
    decreases parts.len(),
{
    let whole = text::join(parts, sep);
    if n == parts.len() {
        assert(parts.take(n) =~= parts);
        assert(whole =~= whole.take(whole.len() as int));
    } else if n == 0 {
        assert(Seq::<char>::empty() =~= whole.take(0));
    } else {
        let front = parts.drop_last();
        lemma_join_prefix(front, sep, n);
        assert(front.take(n) =~= parts.take(n));
        let head = text::join(parts.take(n), sep);
        let most = text::join(front, sep);
        assert(whole == most + sep + parts.last());
        assert(head =~= whole.take(head.len() as int)) by {
            assert(head =~= most.take(head.len() as int));
        }
    }
}

/// Files of one directory have the same cluster key.
pub proof fn law_one_directory_one_cluster(a: Seq<char>, b: Seq<char>, depth: nat)
    requires
        paths::parent_of(a) == paths::parent_of(b),
        !graph::is_external(a),
        !graph::is_external(b),
    ensures
        graph::cluster_of(a, depth) == graph::cluster_of(b, depth),
{
}

} // verus!
