//! Reachability subgraph from an entry file.
//!
//! Walks the dependency graph forward (what does `entry` reach?) or reverse
//! (what reaches `entry`?) up to an optional depth limit.
//!
//! Default output is a single-line brace tree. File names are shortened to file
//! stems (so `src/walk.rs` is `walk`); `mod.rs` / `lib.rs` / `main.rs` are
//! prefixed with their parent dir to disambiguate.
//!
//! Markers: `*` after a name = already shown elsewhere (revisit, children are
//! elided); `~` = back-edge (cycle in the current path); `{…}` = depth limit
//! reached but children exist.
//!
//! Mermaid output is a `graph TD` block of deduped `a --> b` edges.

use vstd::prelude::*;

use crate::deps::{build_from_repo, detect_crate_root, no_root, Graph};
use crate::modtree::Disk;
use crate::names::{EdgeMap, NameSet};
use crate::{deps, modtree, names, order, paths, text};

verus! {

#[derive(Debug, Clone, Copy)]
pub enum Direction {
    Forward,
    Reverse,
}

#[derive(Debug)]
pub struct GraphOptions {
    pub entry: Option<String>,
    pub direction: Direction,
    pub mermaid: bool,
    /// Group by directory. Implies `mermaid`.
    pub mermaid_cluster: bool,
    pub cluster_depth: usize,
    pub depth: Option<usize>,
    pub include_external: bool,
}

// --- labels --------------------------------------------------------------------------------

pub open spec fn is_external(rel: Seq<char>) -> bool {
    text::starts_with(rel, "ext:"@)
}

/// The name of the directory that a path lies in.
pub open spec fn dir_name(rel: Seq<char>) -> Option<Seq<char>> {
    match paths::parent_of(rel) {
        Some(parent) => paths::file_name_of(parent),
        None => None,
    }
}

/// The file stem. `mod`, `lib` and `main` are prefixed with the name of the
/// directory; `ext:foo` stays as it is.
pub open spec fn label_of(rel: Seq<char>) -> Seq<char> {
    let stem = match paths::file_stem_of(rel) {
        Some(stem) => stem,
        None => rel,
    };
    if is_external(rel) {
        rel
    } else if stem == "mod"@ || stem == "lib"@ || stem == "main"@ {
        match dir_name(rel) {
            Some(dir) => dir + "/"@ + stem,
            None => stem,
        }
    } else {
        stem
    }
}

/// Whether two of the nodes have the label `label`.
pub open spec fn collides(nodes: Seq<Seq<char>>, label: Seq<char>) -> bool {
    exists|i: int, j: int|
        0 <= i < j < nodes.len() && label_of(#[trigger] nodes[i]) == label && label_of(
            #[trigger] nodes[j],
        ) == label
}

/// The labels that more than one node has.
pub open spec fn colliding(nodes: Seq<Seq<char>>) -> Seq<Seq<char>> {
    order::listing(|label: Seq<char>| collides(nodes, label))
}

/// The label, prefixed with the name of the directory where it is among `dups`.
pub open spec fn clear_label(rel: Seq<char>, dups: Seq<Seq<char>>) -> Seq<char> {
    let base = label_of(rel);
    if !dups.contains(base) || is_external(rel) {
        base
    } else {
        match dir_name(rel) {
            Some(dir) => dir + "/"@ + base,
            None => base,
        }
    }
}

/// The directories of a path, without a leading `src`.
pub open spec fn dirs_of(rel: Seq<char>) -> Seq<Seq<char>> {
    let all = match paths::parent_of(rel) {
        Some(parent) => paths::names_of(parent),
        None => Seq::empty(),
    };
    if all.len() > 0 && all[0] == "src"@ {
        all.skip(1)
    } else {
        all
    }
}

/// The cluster of a node: the first `depth` of its directories.
pub open spec fn cluster_of(rel: Seq<char>, depth: nat) -> Seq<char> {
    let dirs = dirs_of(rel);
    if is_external(rel) || depth == 0 || dirs.len() == 0 {
        Seq::empty()
    } else {
        text::join(
            dirs.take(
                if depth < dirs.len() {
                    depth as int
                } else {
                    dirs.len() as int
                },
            ),
            "/"@,
        )
    }
}

pub open spec fn is_alphanumeric(c: char) -> bool {
    ('a' <= c && c <= 'z') || ('A' <= c && c <= 'Z') || text::is_digit(c)
}

/// `name` with `_` for each character that is no ASCII letter or digit, and
/// with an `n` in front of a leading digit.
pub open spec fn id_of(name: Seq<char>) -> Seq<char> {
    let safe = name.map_values(
        |c: char|
            if is_alphanumeric(c) {
                c
            } else {
                '_'
            },
    );
    if safe.len() > 0 && text::is_digit(safe[0]) {
        "n"@ + safe
    } else {
        safe
    }
}

/// The name of the directory that a path lies in.
fn parent_name(rel: &str) -> (r: Option<String>)
    ensures
        text::opt_text(r) == dir_name(rel@),
{
    match paths::parent(rel) {
        Some(parent) => paths::file_name(parent.as_str()),
        None => None,
    }
}

fn prefixed(dir: &str, base: &str) -> (r: String)
    ensures
        r@ == dir@ + "/"@ + base@,
{
    let mut r = dir.to_owned();
    r.append("/");
    r.append(base);
    r
}

/// Compact label: file stem only. Disambiguates `mod.rs` / `lib.rs` /
/// `main.rs` by prefixing with the parent dir name. `ext:foo` passes through.
pub fn short_label(rel: &str) -> (r: String)
    ensures
        r@ == label_of(rel@),
{
    if text::text_begins(rel, "ext:") {
        return rel.to_owned();
    }
    let stem = match paths::file_stem(rel) {
        Some(stem) => stem,
        None => rel.to_owned(),
    };
    if text::same_text(stem.as_str(), "mod") || text::same_text(stem.as_str(), "lib")
        || text::same_text(stem.as_str(), "main") {
        match parent_name(rel) {
            Some(dir) => prefixed(dir.as_str(), stem.as_str()),
            None => stem,
        }
    } else {
        stem
    }
}

/// Like `short_label`, but if the label collides with that of another node,
/// prefixed with the parent dir name.
pub fn short_label_disambig(rel: &str, dups: &NameSet) -> (r: String)
    ensures
        r@ == clear_label(rel@, dups@),
{
    let base = short_label(rel);
    if !dups.contains(base.as_str()) || text::text_begins(rel, "ext:") {
        return base;
    }
    match parent_name(rel) {
        Some(dir) => prefixed(dir.as_str(), base.as_str()),
        None => base,
    }
}

/// The labels that occur on more than one node. Used to trigger parent-prefix
/// disambiguation only where it's needed.
pub fn dup_stems(nodes: &NameSet) -> (r: NameSet)
    ensures
        r@ == colliding(nodes@),
{
    let ghost ns = nodes@;
    let ghost ls = ns.map_values(|n: Seq<char>| label_of(n));
    let len: usize = nodes.len();
    let mut seen = NameSet::new();
    let mut dups = NameSet::new();
    proof {
        assert(ls.take(0) =~= Seq::empty());
    }
    for k in 0..len
        invariant
            ns == nodes@,
            len == ns.len(),
            ls == ns.map_values(|n: Seq<char>| label_of(n)),
            seen@ == order::collected(ls.take(k as int)),
            order::ascending(dups@),
            forall|x: Seq<char>| #[trigger] dups@.contains(x) <==> collides(ns.take(k as int), x),
    {
        let label = short_label(nodes.at(k).as_str());
        let ghost lv = label@;
        let ghost had = dups@;
        proof {
            assert(ls.take(k + 1).drop_last() =~= ls.take(k as int));
            order::lemma_collected_contains(ls.take(k as int));
            order::lemma_put(had, lv);
        }
        if !seen.insert(label.clone()) {
            dups.insert(label);
        }
        proof {
            assert forall|x: Seq<char>| #[trigger] dups@.contains(x) <==> collides(
                ns.take(k + 1),
                x,
            ) by {
                lemma_collides_step(ns, k as int, x);
                assert(dups@.to_set().contains(x) <==> dups@.contains(x));
                assert(had.to_set().contains(x) <==> had.contains(x));
                assert(had.contains(x) <==> collides(ns.take(k as int), x));
                assert(ls.take(k as int).contains(lv) <==> order::collected(
                    ls.take(k as int),
                ).contains(lv));
            }
        }
    }
    proof {
        assert(ns.take(ns.len() as int) =~= ns);
        order::lemma_listing(dups@, |label: Seq<char>| collides(ns, label));
    }
    dups
}

/// A label collides after one more node exactly if it did before, or if it is
/// the label of that node and of one before.
proof fn lemma_collides_step(nodes: Seq<Seq<char>>, k: int, label: Seq<char>)
    requires
        0 <= k < nodes.len(),
    ensures
        collides(nodes.take(k + 1), label) <==> collides(nodes.take(k), label) || (label_of(
            nodes[k],
        ) == label && nodes.map_values(|n: Seq<char>| label_of(n)).take(k).contains(label)),
{
    let a = nodes.take(k);
    let b = nodes.take(k + 1);
    let ls = nodes.map_values(|n: Seq<char>| label_of(n)).take(k);
    if collides(a, label) {
        let (i, j) = choose|i: int, j: int|
            0 <= i < j < a.len() && label_of(#[trigger] a[i]) == label && label_of(
                #[trigger] a[j],
            ) == label;
        assert(b[i] == a[i] && b[j] == a[j]);
    }
    if label_of(nodes[k]) == label && ls.contains(label) {
        let i = choose|i: int| 0 <= i < ls.len() && ls[i] == label;
        assert(label_of(b[i]) == label && label_of(b[k]) == label);
    }
    if collides(b, label) {
        let (i, j) = choose|i: int, j: int|
            0 <= i < j < b.len() && label_of(#[trigger] b[i]) == label && label_of(
                #[trigger] b[j],
            ) == label;
        if j < k {
            assert(a[i] == b[i] && a[j] == b[j]);
        } else {
            assert(ls[i] == label);
        }
    }
}

/// Cluster key of a node. `depth` controls nesting: 1 groups by top-level dir
/// under `src/` (e.g. `domain`), 2 groups by two levels (e.g. `domain/econ`),
/// and so on. Files directly under `src/` and `ext:*` nodes go to the implicit
/// root group (empty string). For repos without a leading `src/`, the first path
/// components are used as-is.
pub fn cluster_key(rel: &str, depth: usize) -> (r: String)
    ensures
        r@ == cluster_of(rel@, depth as nat),
{
    let none = String::new();
    proof {
        assert(none@ =~= Seq::empty());
    }
    if text::text_begins(rel, "ext:") || depth == 0 {
        return none;
    }
    let all = match paths::parent(rel) {
        Some(parent) => paths::component_names(parent.as_str()),
        None => Vec::new(),
    };
    let ghost names = text::texts(all@);
    let ghost dirs = dirs_of(rel@);
    proof {
        assert(paths::parent_of(rel@) is None ==> names =~= Seq::empty());
    }
    let from: usize = if all.len() > 0 && text::same_text(all[0].as_str(), "src") {
        1
    } else {
        0
    };
    proof {
        if names.len() > 0 {
            assert(names[0] == all@[0]@);
        }
        assert(dirs =~= names.skip(from as int));
    }
    if all.len() == from {
        return none;
    }
    let take: usize = if depth < all.len() - from {
        depth
    } else {
        all.len() - from
    };
    let mut parts: Vec<String> = Vec::new();
    for k in 0..take
        invariant
            from + take <= all.len(),
            names == text::texts(all@),
            dirs == names.skip(from as int),
            text::texts(parts@) == dirs.take(k as int),
    {
        let ghost before = parts@;
        parts.push(all[from + k].clone());
        proof {
            assert(dirs[k as int] == all@[from + k]@);
            assert(text::texts(parts@) =~= text::texts(before).push(dirs[k as int]));
            assert(dirs.take(k + 1) =~= dirs.take(k as int).push(dirs[k as int]));
        }
    }
    text::join_strings(&parts, "/")
}

/// Safe node ID: alphanumeric only, prefixed with `n` if it would otherwise
/// start with a digit (Mermaid IDs must not start with one).
pub fn mermaid_id(name: &str) -> (r: String)
    ensures
        r@ == id_of(name@),
{
    let s = text::to_chars(name);
    let ghost f = |c: char|
        if is_alphanumeric(c) {
            c
        } else {
            '_'
        };
    let ghost safe = name@.map_values(f);
    let mut r = String::new();
    if s.len() > 0 && '0' <= s[0] && s[0] <= '9' {
        r.append("n");
    }
    let ghost head = r@;
    proof {
        assert(r@ =~= head + safe.take(0));
    }
    for k in 0..s.len()
        invariant
            s@ == name@,
            f == (|c: char|
                if is_alphanumeric(c) {
                    c
                } else {
                    '_'
                }),
            safe == name@.map_values(f),
            r@ == head + safe.take(k as int),
    {
        let c = s[k];
        let keep = ('a' <= c && c <= 'z') || ('A' <= c && c <= 'Z') || ('0' <= c && c <= '9');
        r.push(
            if keep {
                c
            } else {
                '_'
            },
        );
        proof {
            assert(safe[k as int] == f(c));
            assert(r@ =~= head + safe.take(k + 1));
        }
    }
    proof {
        assert(safe.take(safe.len() as int) =~= safe);
        if s.len() > 0 {
            assert(safe[0] == f(s@[0]));
        }
        assert(r@ =~= id_of(name@));
    }
    r
}

// --- adjacency -----------------------------------------------------------------------------

/// Whether there is an edge from `a` to `b` in a map.
pub open spec fn has_edge(e: names::EdgesView, a: Seq<char>, b: Seq<char>) -> bool {
    names::under(e.edges, a).contains(b)
}

/// Whether `a` leads to `b`: forward by a `use` or a `mod x;` and, where asked
/// for, to an external crate; in reverse, where `b` leads to `a` by a `use` or a
/// `mod x;`.
pub open spec fn leads_to(
    g: deps::GraphView,
    dir: Direction,
    include_ext: bool,
    a: Seq<char>,
    b: Seq<char>,
) -> bool {
    match dir {
        Direction::Forward => {
            ||| has_edge(g.out_internal, a, b)
            ||| has_edge(g.mod_edges, a, b)
            ||| include_ext && is_external(b) && has_edge(g.out_external, a, b.skip(4))
        },
        Direction::Reverse => has_edge(g.out_internal, b, a) || has_edge(g.mod_edges, b, a),
    }
}

/// Whether `a` is a node: a file, or one that has an entry of its own in one of
/// the maps, or, in reverse, is led to.
pub open spec fn is_node(
    g: deps::GraphView,
    dir: Direction,
    include_ext: bool,
    a: Seq<char>,
) -> bool {
    ||| g.files.contains(a)
    ||| match dir {
        Direction::Forward => {
            ||| g.out_internal.edges.contains_key(a)
            ||| g.mod_edges.edges.contains_key(a)
            ||| include_ext && g.out_external.edges.contains_key(a)
        },
        Direction::Reverse => exists|b: Seq<char>| leads_to(g, dir, include_ext, a, b),
    }
}

/// The nodes of a graph, each with the nodes that it leads to in alphabetical
/// order.
pub open spec fn adjacency(g: deps::GraphView, dir: Direction, include_ext: bool) -> Map<
    Seq<char>,
    Seq<Seq<char>>,
> {
    Map::new(
        |a: Seq<char>| is_node(g, dir, include_ext, a),
        |a: Seq<char>| order::listing(led_to(g, dir, include_ext, a)),
    )
}

/// What `a` leads to.
pub open spec fn led_to(
    g: deps::GraphView,
    dir: Direction,
    include_ext: bool,
    a: Seq<char>,
) -> spec_fn(Seq<char>) -> bool {
    |b: Seq<char>| leads_to(g, dir, include_ext, a, b)
}

/// `ext:name`.
pub open spec fn external_node(name: Seq<char>) -> Seq<char> {
    "ext:"@ + name
}

/// What one of the passes over a map of edges does to each edge.
#[derive(Clone, Copy, PartialEq, Eq, Structural)]
enum Pass {
    Keep,
    Turn,
    External,
}

spec fn passed(p: Pass, e: (Seq<char>, Seq<char>)) -> (Seq<char>, Seq<char>) {
    match p {
        Pass::Keep => e,
        Pass::Turn => (e.1, e.0),
        Pass::External => (e.0, external_node(e.1)),
    }
}

spec fn passed_all(p: Pass, list: Seq<(Seq<char>, Seq<char>)>) -> Seq<(Seq<char>, Seq<char>)> {
    list.map_values(|e: (Seq<char>, Seq<char>)| passed(p, e))
}

/// Adds the edges of `from` to `adj`, and its keys as keys unless edges are
/// turned around.
fn add_pass(adj: &mut EdgeMap, from: &EdgeMap, p: Pass)
    requires
        names::edges_wf(names::edges_view(*old(adj))),
    ensures
        names::edges_wf(names::edges_view(*final(adj))),
        forall|a: Seq<char>, b: Seq<char>| #[trigger]
            has_edge(names::edges_view(*final(adj)), a, b) <==> has_edge(
                names::edges_view(*old(adj)),
                a,
                b,
            ) || passed_all(p, names::pairs_of(names::edges_view(*from))).contains((a, b)),
        forall|a: Seq<char>| #[trigger]
            final(adj)@.contains_key(a) <==> {
                ||| old(adj)@.contains_key(a)
                ||| p != Pass::Turn && from@.contains_key(a)
                ||| p == Pass::Turn && exists|b: Seq<char>|
                    passed_all(p, names::pairs_of(names::edges_view(*from))).contains((a, b))
            },
{
    let ghost e0 = names::edges_view(*adj);
    let ghost fe = names::edges_view(*from);
    let ghost ks = fe.keys;
    let len: usize = from.len();
    let ghost mut touched: Seq<Seq<char>> = Seq::empty();
    let ghost mut list: Seq<(Seq<char>, Seq<char>)> = Seq::empty();
    let ghost f = |e: (Seq<char>, Seq<char>)| passed(p, e);
    proof {
        assert(ks.take(0) =~= Seq::empty());
        assert(passed_all(p, names::key_pairs(fe.edges, ks.take(0))) =~= Seq::empty());
        assert(names::with_edges(names::with_keys(e0, touched), list) == e0);
    }
    // Keys first, so that the edges can be told apart from them.
    if p != Pass::Turn {
        for k in 0..len
            invariant
                fe == names::edges_view(*from),
                ks == fe.keys,
                len == ks.len(),
                touched == ks.take(k as int),
                names::edges_view(*adj) == names::with_keys(e0, touched),
        {
            adj.touch(from.key(k).clone());
            proof {
                assert(ks.take(k + 1).drop_last() =~= ks.take(k as int));
                touched = ks.take(k + 1);
            }
        }
        proof {
            assert(ks.take(ks.len() as int) =~= ks);
        }
    }
    let ghost e1 = names::with_keys(e0, touched);
    for k in 0..len
        invariant
            fe == names::edges_view(*from),
            names::edges_wf(fe),
            ks == fe.keys,
            len == ks.len(),
            f == (|e: (Seq<char>, Seq<char>)| passed(p, e)),
            list == passed_all(p, names::key_pairs(fe.edges, ks.take(k as int))),
            names::edges_view(*adj) == names::with_edges(e1, list),
    {
        let key = from.key(k);
        let set = from.set(k);
        let n: usize = set.len();
        let ghost own = set@.map_values(|n: Seq<char>| (key@, n));
        let ghost mine = passed_all(p, own);
        proof {
            assert(ks.take(k + 1).drop_last() =~= ks.take(k as int));
            assert(mine.take(0) =~= Seq::empty());
            assert(list + mine.take(0) =~= list);
        }
        for j in 0..n
            invariant
                n == set@.len(),
                own == set@.map_values(|n: Seq<char>| (key@, n)),
                mine == passed_all(p, own),
                names::edges_view(*adj) == names::with_edges(e1, list + mine.take(j as int)),
        {
            let name = set.at(j);
            proof {
                let done = list + mine.take(j as int);
                assert(mine[j as int] == passed(p, (key@, name@)));
                assert(list + mine.take(j + 1) =~= done.push(mine[j as int]));
                assert(done.push(mine[j as int]).drop_last() =~= done);
            }
            match p {
                Pass::Keep => adj.add(key.clone(), name.clone()),
                Pass::Turn => adj.add(name.clone(), key.clone()),
                Pass::External => {
                    let mut node = "ext:".to_owned();
                    node.append(name.as_str());
                    adj.add(key.clone(), node);
                },
            }
        }
        proof {
            assert(mine.take(mine.len() as int) =~= mine);
            let before = names::key_pairs(fe.edges, ks.take(k as int));
            assert(names::key_pairs(fe.edges, ks.take(k + 1)) =~= before + own);
            assert(passed_all(p, before + own) =~= list + mine);
            list = passed_all(p, names::key_pairs(fe.edges, ks.take(k + 1)));
        }
    }
    let _n = adj.len();
    proof {
        assert(ks.take(ks.len() as int) =~= ks);
        assert forall|k: Seq<char>| order::ascending(#[trigger] names::under(e1.edges, k)) by {
            names::lemma_with_keys(e0, touched, k);
            assert(order::ascending(names::under(e0.edges, k)));
        }
        let e2 = names::edges_view(*adj);
        assert forall|a: Seq<char>, b: Seq<char>| #[trigger] has_edge(e2, a, b) <==> has_edge(
            e0,
            a,
            b,
        ) || list.contains((a, b)) by {
            names::lemma_with_edges(e1, list, a, b);
            names::lemma_with_keys(e0, touched, a);
        }
        assert forall|a: Seq<char>| #[trigger] adj@.contains_key(a) <==> {
            ||| e0.edges.contains_key(a)
            ||| p != Pass::Turn && from@.contains_key(a)
            ||| p == Pass::Turn && exists|b: Seq<char>| list.contains((a, b))
        } by {
            lemma_keys_after(e0, touched, list, fe, p, a);
        }
    }
}

/// The keys after a pass.
proof fn lemma_keys_after(
    e0: names::EdgesView,
    touched: Seq<Seq<char>>,
    list: Seq<(Seq<char>, Seq<char>)>,
    fe: names::EdgesView,
    p: Pass,
    a: Seq<char>,
)
    requires
        names::edges_wf(e0),
        names::edges_wf(fe),
        touched == if p != Pass::Turn {
            fe.keys
        } else {
            Seq::empty()
        },
        list == passed_all(p, names::pairs_of(fe)),
    ensures
        names::with_edges(names::with_keys(e0, touched), list).edges.contains_key(a) <==> {
            ||| e0.edges.contains_key(a)
            ||| p != Pass::Turn && fe.edges.contains_key(a)
            ||| p == Pass::Turn && exists|b: Seq<char>| list.contains((a, b))
        },
{
    let e1 = names::with_keys(e0, touched);
    assert forall|k: Seq<char>| order::ascending(#[trigger] names::under(e1.edges, k)) by {
        names::lemma_with_keys(e0, touched, k);
        assert(order::ascending(names::under(e0.edges, k)));
    }
    names::lemma_with_edges(e1, list, a, a);
    names::lemma_with_keys(e0, touched, a);
    let ps = names::pairs_of(fe);
    assert(fe.keys.contains(a) <==> fe.edges.contains_key(a)) by {
        assert(fe.keys.to_set().contains(a) <==> fe.edges.dom().contains(a));
    }
    if exists|i: int| 0 <= i < list.len() && (#[trigger] list[i]).0 == a {
        let i = choose|i: int| 0 <= i < list.len() && (#[trigger] list[i]).0 == a;
        assert(list.contains((a, list[i].1)));
        if p != Pass::Turn {
            assert(ps[i].0 == a);
            assert(ps.contains((ps[i].0, ps[i].1)));
            names::lemma_key_pairs(fe.edges, fe.keys, ps[i].0, ps[i].1);
        }
    }
    if exists|b: Seq<char>| list.contains((a, b)) {
        let b = choose|b: Seq<char>| list.contains((a, b));
        let i = choose|i: int| 0 <= i < list.len() && list[i] == (a, b);
        assert(list[i].0 == a);
    }
}

/// What a pass adds.
proof fn lemma_passed(p: Pass, e: names::EdgesView, a: Seq<char>, b: Seq<char>)
    requires
        names::edges_wf(e),
    ensures
        passed_all(p, names::pairs_of(e)).contains((a, b)) <==> match p {
            Pass::Keep => has_edge(e, a, b),
            Pass::Turn => has_edge(e, b, a),
            Pass::External => is_external(b) && has_edge(e, a, b.skip(4)),
        },
{
    let ps = names::pairs_of(e);
    let list = passed_all(p, ps);
    reveal_strlit("ext:");
    let source = match p {
        Pass::Keep => (a, b),
        Pass::Turn => (b, a),
        Pass::External => (a, b.skip(4)),
    };
    names::lemma_key_pairs(e.edges, e.keys, source.0, source.1);
    assert(e.keys.contains(source.0) <==> e.edges.contains_key(source.0)) by {
        assert(e.keys.to_set().contains(source.0) <==> e.edges.dom().contains(source.0));
    }
    if list.contains((a, b)) {
        let i = choose|i: int| 0 <= i < list.len() && list[i] == (a, b);
        assert(passed(p, ps[i]) == (a, b));
        if p == Pass::External {
            assert(b == external_node(ps[i].1));
            assert(b.skip(4) =~= ps[i].1);
            assert(b.subrange(0, 4) =~= "ext:"@);
        }
        assert(ps[i] == source);
        assert(ps.contains(source));
    }
    if ps.contains(source) && (p == Pass::External ==> is_external(b)) {
        let i = choose|i: int| 0 <= i < ps.len() && ps[i] == source;
        if p == Pass::External {
            assert(b =~= external_node(b.skip(4)));
        }
        assert(list[i] == (a, b));
    }
}

/// The nodes of a graph, each with the nodes that it leads to, sorted and each
/// once.
pub fn build_adjacency(g: &Graph, dir: Direction, include_ext: bool) -> (r: EdgeMap)
    ensures
        r@ == adjacency(deps::graph_view(*g), dir, include_ext),
{
    let ghost gv = deps::graph_view(*g);
    let ghost fs = g.files@;
    let mut adj = EdgeMap::new();
    let len: usize = g.files.len();
    proof {
        assert(fs.take(0) =~= Seq::empty());
    }
    for k in 0..len
        invariant
            fs == g.files@,
            len == fs.len(),
            names::edges_view(adj) == names::with_keys(names::no_edges(), fs.take(k as int)),
    {
        proof {
            assert(fs.take(k + 1).drop_last() =~= fs.take(k as int));
        }
        adj.touch(g.files.at(k).clone());
    }
    let _n = adj.len();
    let ghost start = names::edges_view(adj);
    proof {
        assert(fs.take(fs.len() as int) =~= fs);
        assert forall|a: Seq<char>, b: Seq<char>| !#[trigger] has_edge(start, a, b) by {
            names::lemma_with_keys(names::no_edges(), fs, a);
        }
        assert forall|a: Seq<char>| #[trigger] start.edges.contains_key(a) <==> fs.contains(a) by {
            names::lemma_with_keys(names::no_edges(), fs, a);
        }
    }
    let _i = g.out_internal.len();
    let _m = g.mod_edges.len();
    let _x = g.out_external.len();
    let ghost mut middle = adj@;
    match dir {
        Direction::Forward => {
            add_pass(&mut adj, &g.out_internal, Pass::Keep);
            // `mod x;` reaches the child file even without `use`.
            add_pass(&mut adj, &g.mod_edges, Pass::Keep);
            if include_ext {
                add_pass(&mut adj, &g.out_external, Pass::External);
            }
        },
        Direction::Reverse => {
            // External nodes lead nowhere, so they are left out in reverse.
            add_pass(&mut adj, &g.out_internal, Pass::Turn);
            proof {
                middle = adj@;
            }
            add_pass(&mut adj, &g.mod_edges, Pass::Turn);
        },
    }
    let _k = adj.len();
    let ghost e = names::edges_view(adj);
    proof {
        assert forall|a: Seq<char>, b: Seq<char>| #[trigger] has_edge(e, a, b) <==> leads_to(
            gv,
            dir,
            include_ext,
            a,
            b,
        ) by {
            match dir {
                Direction::Forward => {
                    lemma_passed(Pass::Keep, gv.out_internal, a, b);
                    lemma_passed(Pass::Keep, gv.mod_edges, a, b);
                    lemma_passed(Pass::External, gv.out_external, a, b);
                },
                Direction::Reverse => {
                    lemma_passed(Pass::Turn, gv.out_internal, a, b);
                    lemma_passed(Pass::Turn, gv.mod_edges, a, b);
                },
            }
        }
        let want = adjacency(gv, dir, include_ext);
        assert forall|a: Seq<char>| adj@.contains_key(a) <==> want.contains_key(a) by {
            assert(start.edges.contains_key(a) <==> fs.contains(a));
            match dir {
                Direction::Forward => {
                    assert(adj@.contains_key(a) <==> is_node(gv, dir, include_ext, a));
                },
                Direction::Reverse => {
                    lemma_turned_keys(gv, include_ext, a);
                    let i = passed_all(Pass::Turn, names::pairs_of(gv.out_internal));
                    let m = passed_all(Pass::Turn, names::pairs_of(gv.mod_edges));
                    assert(middle.contains_key(a) <==> start.edges.contains_key(a) || exists|
                        b: Seq<char>,
                    | i.contains((a, b)));
                    assert(adj@.contains_key(a) <==> middle.contains_key(a) || exists|
                        b: Seq<char>,
                    | m.contains((a, b)));
                    assert(adj@.contains_key(a) <==> is_node(gv, dir, include_ext, a));
                },
            }
        }
        assert forall|a: Seq<char>| adj@.contains_key(a) implies adj@[a] == want[a] by {
            let pred = led_to(gv, dir, include_ext, a);
            assert(names::under(e.edges, a) == adj@[a]);
            assert(order::ascending(adj@[a]));
            assert forall|b: Seq<char>| #[trigger] adj@[a].contains(b) <==> pred(b) by {
                assert(has_edge(e, a, b) <==> leads_to(gv, dir, include_ext, a, b));
            }
            order::lemma_listing(adj@[a], pred);
            assert(want.contains_key(a));
            assert(want[a] == order::listing(pred));
        }
        assert(adj@ =~= want);
    }
    adj
}

/// In reverse, a name is led to exactly if one of the turned maps has an edge
/// from it.
proof fn lemma_turned_keys(gv: deps::GraphView, include_ext: bool, a: Seq<char>)
    requires
        names::edges_wf(gv.out_internal),
        names::edges_wf(gv.mod_edges),
    ensures
        (exists|b: Seq<char>| leads_to(gv, Direction::Reverse, include_ext, a, b)) <==> {
            ||| exists|b: Seq<char>|
                passed_all(Pass::Turn, names::pairs_of(gv.out_internal)).contains((a, b))
            ||| exists|b: Seq<char>|
                passed_all(Pass::Turn, names::pairs_of(gv.mod_edges)).contains((a, b))
        },
{
    let i = passed_all(Pass::Turn, names::pairs_of(gv.out_internal));
    let m = passed_all(Pass::Turn, names::pairs_of(gv.mod_edges));
    if exists|b: Seq<char>| leads_to(gv, Direction::Reverse, include_ext, a, b) {
        let b = choose|b: Seq<char>| leads_to(gv, Direction::Reverse, include_ext, a, b);
        lemma_passed(Pass::Turn, gv.out_internal, a, b);
        lemma_passed(Pass::Turn, gv.mod_edges, a, b);
        assert(i.contains((a, b)) || m.contains((a, b)));
    }
    if exists|b: Seq<char>| i.contains((a, b)) {
        let b = choose|b: Seq<char>| i.contains((a, b));
        lemma_passed(Pass::Turn, gv.out_internal, a, b);
        assert(leads_to(gv, Direction::Reverse, include_ext, a, b));
    }
    if exists|b: Seq<char>| m.contains((a, b)) {
        let b = choose|b: Seq<char>| m.contains((a, b));
        lemma_passed(Pass::Turn, gv.mod_edges, a, b);
        assert(leads_to(gv, Direction::Reverse, include_ext, a, b));
    }
}

// --- reachability --------------------------------------------------------------------------

/// Whether there is an edge from the node at position `i` of `path` to the next.
pub open spec fn linked(
    adj: Map<Seq<char>, Seq<Seq<char>>>,
    path: Seq<Seq<char>>,
    i: int,
) -> bool {
    names::under(adj, path[i]).contains(path[i + 1])
}

/// Whether `path` goes from `a` to `b` along edges.
pub open spec fn is_path(
    adj: Map<Seq<char>, Seq<Seq<char>>>,
    path: Seq<Seq<char>>,
    a: Seq<char>,
    b: Seq<char>,
) -> bool {
    &&& path.len() > 0
    &&& path[0] == a
    &&& path.last() == b
    &&& forall|i: int| 0 <= i < path.len() - 1 ==> #[trigger] linked(adj, path, i)
}

/// Whether `b` is reached from `a` over at most `n` edges.
pub open spec fn within(
    adj: Map<Seq<char>, Seq<Seq<char>>>,
    a: Seq<char>,
    b: Seq<char>,
    n: nat,
) -> bool {
    exists|path: Seq<Seq<char>>| #[trigger] is_path(adj, path, a, b) && path.len() <= n + 1
}

/// Whether `b` is reached from `a` at all or, with a limit, over at most that
/// many edges.
pub open spec fn reaches(
    adj: Map<Seq<char>, Seq<Seq<char>>>,
    a: Seq<char>,
    b: Seq<char>,
    limit: Option<usize>,
) -> bool {
    match limit {
        Some(m) => within(adj, a, b, m as nat),
        None => exists|path: Seq<Seq<char>>| #[trigger] is_path(adj, path, a, b),
    }
}

/// Whether the edges from `b` are followed: it is reached over fewer edges than
/// the limit.
pub open spec fn opens(
    adj: Map<Seq<char>, Seq<Seq<char>>>,
    a: Seq<char>,
    b: Seq<char>,
    limit: Option<usize>,
) -> bool {
    match limit {
        Some(m) => m > 0 && within(adj, a, b, (m - 1) as nat),
        None => exists|path: Seq<Seq<char>>| #[trigger] is_path(adj, path, a, b),
    }
}

/// The nodes reached from `entry`, in alphabetical order.
pub open spec fn reached(
    adj: Map<Seq<char>, Seq<Seq<char>>>,
    entry: Seq<char>,
    limit: Option<usize>,
) -> Seq<Seq<char>> {
    order::listing(|b: Seq<char>| reaches(adj, entry, b, limit))
}

/// The nodes whose edges are followed, in alphabetical order.
pub open spec fn opened(
    adj: Map<Seq<char>, Seq<Seq<char>>>,
    entry: Seq<char>,
    limit: Option<usize>,
) -> Seq<Seq<char>> {
    order::listing(|b: Seq<char>| opens(adj, entry, b, limit))
}

proof fn lemma_within_zero(adj: Map<Seq<char>, Seq<Seq<char>>>, a: Seq<char>, b: Seq<char>)
    ensures
        within(adj, a, b, 0) <==> a == b,
{
    assert(is_path(adj, seq![a], a, a));
}

/// One more edge reaches what was reached before, and what that leads to.
proof fn lemma_within_step(
    adj: Map<Seq<char>, Seq<Seq<char>>>,
    a: Seq<char>,
    b: Seq<char>,
    n: nat,
)
    ensures
        within(adj, a, b, n + 1) <==> within(adj, a, b, n) || exists|c: Seq<char>| #[trigger]
            within(adj, a, c, n) && names::under(adj, c).contains(b),
{
    if within(adj, a, b, n + 1) && !within(adj, a, b, n) {
        let p = choose|p: Seq<Seq<char>>| #[trigger]
            is_path(adj, p, a, b) && p.len() <= n + 2;
        let q = p.drop_last();
        let c = q.last();
        assert(q.len() > 0);
        assert forall|i: int| 0 <= i < q.len() - 1 implies #[trigger] linked(adj, q, i) by {
            assert(linked(adj, p, i));
        }
        assert(is_path(adj, q, a, c));
        assert(within(adj, a, c, n));
        assert(linked(adj, p, p.len() - 2));
    }
    if exists|c: Seq<char>| #[trigger]
        within(adj, a, c, n) && names::under(adj, c).contains(b) {
        let c = choose|c: Seq<char>| #[trigger]
            within(adj, a, c, n) && names::under(adj, c).contains(b);
        let q = choose|q: Seq<Seq<char>>| #[trigger] is_path(adj, q, a, c) && q.len() <= n + 1;
        let p = q.push(b);
        assert forall|i: int| 0 <= i < p.len() - 1 implies #[trigger] linked(adj, p, i) by {
            if i < q.len() - 1 {
                assert(linked(adj, q, i));
            }
        }
        assert(is_path(adj, p, a, b));
    }
}

/// Where no new node is reached over one more edge, none is over any more.
proof fn lemma_within_closed(
    adj: Map<Seq<char>, Seq<Seq<char>>>,
    a: Seq<char>,
    n: nat,
    m: nat,
)
    requires
        n <= m,
        forall|b: Seq<char>| #[trigger] within(adj, a, b, n + 1) ==> within(adj, a, b, n),
    ensures
        forall|b: Seq<char>| #[trigger] within(adj, a, b, m) <==> within(adj, a, b, n),
    decreases m - n,
{
    if n < m {
        lemma_within_closed(adj, a, n, (m - 1) as nat);
        assert forall|b: Seq<char>| #[trigger] within(adj, a, b, m) <==> within(
            adj,
            a,
            b,
            n,
        ) by {
            lemma_within_step(adj, a, b, (m - 1) as nat);
            lemma_within_step(adj, a, b, n);
            if within(adj, a, b, m) && !within(adj, a, b, (m - 1) as nat) {
                let c = choose|c: Seq<char>| #[trigger]
                    within(adj, a, c, (m - 1) as nat) && names::under(adj, c).contains(b);
                assert(within(adj, a, c, n));
                assert(within(adj, a, b, n + 1));
            }
            assert(within(adj, a, b, (m - 1) as nat) <==> within(adj, a, b, n));
        }
    }
}

/// All names that can be reached: the entry, and what the nodes lead to.
spec fn universe(adj: names::EdgesView, entry: Seq<char>) -> Set<Seq<char>> {
    targets_of(adj.edges, adj.keys).to_set().insert(entry)
}

spec fn targets_of(edges: Map<Seq<char>, Seq<Seq<char>>>, keys: Seq<Seq<char>>) -> Seq<Seq<char>>
    decreases keys.len(),
{
    if keys.len() == 0 {
        Seq::empty()
    } else {
        targets_of(edges, keys.drop_last()) + edges[keys.last()]
    }
}

proof fn lemma_targets(
    edges: Map<Seq<char>, Seq<Seq<char>>>,
    keys: Seq<Seq<char>>,
    a: Seq<char>,
    b: Seq<char>,
)
    requires
        keys.contains(a),
        edges[a].contains(b),
    ensures
        targets_of(edges, keys).contains(b),
    decreases keys.len(),
{
    if keys.len() > 0 {
        let rest = targets_of(edges, keys.drop_last());
        let all = targets_of(edges, keys);
        if keys.last() == a {
            let i = choose|i: int| 0 <= i < edges[a].len() && edges[a][i] == b;
            assert(all[rest.len() + i] == b);
        } else {
            let i = choose|i: int| 0 <= i < keys.len() && keys[i] == a;
            assert(keys.drop_last()[i] == a);
            lemma_targets(edges, keys.drop_last(), a, b);
            let j = choose|j: int| 0 <= j < rest.len() && rest[j] == b;
            assert(all[j] == b);
        }
    }
}

/// What is reached from an entry: the nodes, and those of them whose edges are
/// followed.
#[derive(Debug)]
pub struct Reachable {
    pub nodes: NameSet,
    pub opened: NameSet,
}

/// Adds the nodes that those of `frontier` lead to, and returns the new ones.
fn expand(adj: &EdgeMap, frontier: &Vec<String>, nodes: &mut NameSet) -> (r: Vec<String>)
    ensures
        order::ascending(final(nodes)@),
        forall|x: Seq<char>| #[trigger]
            final(nodes)@.contains(x) <==> old(nodes)@.contains(x) || exists|c: Seq<char>|
                text::texts(frontier@).contains(c) && #[trigger] names::under(adj@, c).contains(x),
        forall|x: Seq<char>| #[trigger]
            text::texts(r@).contains(x) <==> final(nodes)@.contains(x) && !old(nodes)@.contains(x),
{
    let ghost had = nodes@;
    let ghost fs = text::texts(frontier@);
    let mut next: Vec<String> = Vec::new();
    let _n = nodes.len();
    for k in 0..frontier.len()
        invariant
            fs == text::texts(frontier@),
            order::ascending(nodes@),
            forall|x: Seq<char>| #[trigger]
                nodes@.contains(x) <==> had.contains(x) || exists|c: Seq<char>|
                    fs.take(k as int).contains(c) && #[trigger] names::under(adj@, c).contains(x),
            forall|x: Seq<char>| #[trigger]
                text::texts(next@).contains(x) <==> nodes@.contains(x) && !had.contains(x),
    {
        let ghost from = fs[k as int];
        let ghost kids = names::under(adj@, from);
        let ghost before = nodes@;
        proof {
            assert(from == frontier@[k as int]@);
        }
        match adj.get(frontier[k].as_str()) {
            Some(set) => {
                let n: usize = set.len();
                proof {
                    assert(kids.take(0) =~= Seq::empty());
                }
                for j in 0..n
                    invariant
                        set@ == kids,
                        n == kids.len(),
                        order::ascending(nodes@),
                        forall|x: Seq<char>| #[trigger]
                            nodes@.contains(x) <==> before.contains(x) || kids.take(
                                j as int,
                            ).contains(x),
                        forall|x: Seq<char>| #[trigger]
                            text::texts(next@).contains(x) <==> nodes@.contains(x)
                                && !had.contains(x),
                        forall|x: Seq<char>| had.contains(x) ==> #[trigger] before.contains(x),
                {
                    let name = set.at(j);
                    let ghost now = nodes@;
                    let ghost old_next = next@;
                    let fresh = nodes.insert(name.clone());
                    if fresh {
                        next.push(name.clone());
                    }
                    proof {
                        order::lemma_put(now, name@);
                        assert(kids.take(j + 1) =~= kids.take(j as int).push(name@));
                        text::lemma_push_set(kids.take(j as int), name@);
                        assert forall|x: Seq<char>| #[trigger] nodes@.contains(x) <==> now.contains(
                            x,
                        ) || x == name@ by {
                            assert(nodes@.to_set().contains(x) <==> now.to_set().insert(
                                name@,
                            ).contains(x));
                        }
                        assert forall|x: Seq<char>| #[trigger] nodes@.contains(x) <==> before.contains(
                            x,
                        ) || kids.take(j + 1).contains(x) by {
                            assert(kids.take(j + 1).to_set().contains(x) <==> kids.take(
                                j as int,
                            ).to_set().insert(name@).contains(x));
                            assert(now.contains(x) <==> before.contains(x) || kids.take(
                                j as int,
                            ).contains(x));
                        }
                        if fresh {
                            assert(text::texts(next@) =~= text::texts(old_next).push(name@));
                            text::lemma_push_set(text::texts(old_next), name@);
                        }
                        assert forall|x: Seq<char>| #[trigger] text::texts(next@).contains(x)
                            <==> nodes@.contains(x) && !had.contains(x) by {
                            assert(text::texts(old_next).contains(x) <==> now.contains(x)
                                && !had.contains(x));
                            if fresh {
                                assert(text::texts(next@).to_set().contains(x) <==> text::texts(
                                    old_next,
                                ).to_set().insert(name@).contains(x));
                                if had.contains(name@) {
                                    assert(before.contains(name@));
                                    assert(now.contains(name@));
                                }
                            } else {
                                assert(now.contains(name@));
                            }
                        }
                    }
                }
                proof {
                    assert(kids.take(kids.len() as int) =~= kids);
                }
            },
            None => {
                proof {
                    assert(kids =~= Seq::empty());
                }
            },
        }
        proof {
            assert(fs.take(k + 1) =~= fs.take(k as int).push(from));
            text::lemma_push_set(fs.take(k as int), from);
            assert forall|x: Seq<char>| #[trigger] nodes@.contains(x) <==> had.contains(x)
                || exists|c: Seq<char>|
                fs.take(k + 1).contains(c) && #[trigger] names::under(adj@, c).contains(x) by {
                assert(nodes@.contains(x) <==> before.contains(x) || kids.contains(x));
                if before.contains(x) && !had.contains(x) {
                    let c = choose|c: Seq<char>|
                        fs.take(k as int).contains(c) && #[trigger] names::under(
                            adj@,
                            c,
                        ).contains(x);
                    assert(fs.take(k + 1).to_set().contains(c));
                    assert(fs.take(k + 1).contains(c));
                }
                if kids.contains(x) {
                    assert(fs.take(k + 1).to_set().contains(from));
                    assert(fs.take(k + 1).contains(from));
                }
                if exists|c: Seq<char>|
                    fs.take(k + 1).contains(c) && #[trigger] names::under(adj@, c).contains(x) {
                    let c = choose|c: Seq<char>|
                        fs.take(k + 1).contains(c) && #[trigger] names::under(adj@, c).contains(x);
                    assert(fs.take(k + 1).to_set().contains(c));
                    if c != from {
                        assert(fs.take(k as int).contains(c));
                    }
                }
            }
        }
    }
    proof {
        assert(fs.take(fs.len() as int) =~= fs);
    }
    next
}

/// Whether `b` was reached before the `n`th round: over fewer than `n` edges.
spec fn sooner(
    adj: Map<Seq<char>, Seq<Seq<char>>>,
    a: Seq<char>,
    b: Seq<char>,
    n: nat,
) -> bool {
    n > 0 && within(adj, a, b, (n - 1) as nat)
}

proof fn lemma_within_more(
    adj: Map<Seq<char>, Seq<Seq<char>>>,
    a: Seq<char>,
    b: Seq<char>,
    n: nat,
    m: nat,
)
    requires
        within(adj, a, b, n),
        n <= m,
    ensures
        within(adj, a, b, m),
{
    let p = choose|p: Seq<Seq<char>>| #[trigger] is_path(adj, p, a, b) && p.len() <= n + 1;
    assert(is_path(adj, p, a, b) && p.len() <= m + 1);
}

/// One round: what the new nodes of the `n`th round lead to is what is reached
/// over one more edge.
proof fn lemma_round(
    adj: Map<Seq<char>, Seq<Seq<char>>>,
    a: Seq<char>,
    frontier: Seq<Seq<char>>,
    n: nat,
    b: Seq<char>,
)
    requires
        forall|x: Seq<char>| #[trigger]
            frontier.contains(x) <==> within(adj, a, x, n) && !sooner(adj, a, x, n),
    ensures
        within(adj, a, b, n + 1) <==> within(adj, a, b, n) || exists|c: Seq<char>|
            frontier.contains(c) && #[trigger] names::under(adj, c).contains(b),
{
    lemma_within_step(adj, a, b, n);
    if within(adj, a, b, n + 1) && !within(adj, a, b, n) {
        let c = choose|c: Seq<char>| #[trigger]
            within(adj, a, c, n) && names::under(adj, c).contains(b);
        if sooner(adj, a, c, n) {
            lemma_within_step(adj, a, b, (n - 1) as nat);
        }
        assert(frontier.contains(c));
    }
    if exists|c: Seq<char>|
        frontier.contains(c) && #[trigger] names::under(adj, c).contains(b) {
        let c = choose|c: Seq<char>|
            frontier.contains(c) && #[trigger] names::under(adj, c).contains(b);
        assert(within(adj, a, c, n));
    }
}

/// Once a round brings nothing new, everything has been reached.
proof fn lemma_all_reached(
    adj: Map<Seq<char>, Seq<Seq<char>>>,
    a: Seq<char>,
    n: nat,
    limit: Option<usize>,
    b: Seq<char>,
)
    requires
        n > 0,
        forall|x: Seq<char>| #[trigger] within(adj, a, x, n) ==> within(adj, a, x, (n - 1) as nat),
        limit matches Some(m) ==> n <= m,
    ensures
        reaches(adj, a, b, limit) <==> within(adj, a, b, n),
        opens(adj, a, b, limit) <==> sooner(adj, a, b, n),
{
    let k = (n - 1) as nat;
    assert forall|x: Seq<char>| #[trigger] within(adj, a, x, k + 1) implies within(adj, a, x, k) by {
        assert(within(adj, a, x, n));
    }
    lemma_within_closed(adj, a, k, n);
    match limit {
        Some(m) => {
            lemma_within_closed(adj, a, k, m as nat);
            lemma_within_closed(adj, a, k, (m - 1) as nat);
            assert(within(adj, a, b, m as nat) <==> within(adj, a, b, k));
            assert(within(adj, a, b, (m - 1) as nat) <==> within(adj, a, b, k));
            assert(within(adj, a, b, n) <==> within(adj, a, b, k));
        },
        None => {
            if reaches(adj, a, b, limit) {
                let p = choose|p: Seq<Seq<char>>| #[trigger] is_path(adj, p, a, b);
                let m: nat = if p.len() >= n {
                    p.len()
                } else {
                    n
                };
                assert(is_path(adj, p, a, b) && p.len() <= m + 1);
                assert(within(adj, a, b, m));
                lemma_within_closed(adj, a, k, m);
            }
            if within(adj, a, b, n) {
                let p = choose|p: Seq<Seq<char>>| #[trigger]
                    is_path(adj, p, a, b) && p.len() <= n + 1;
                assert(is_path(adj, p, a, b));
            }
            assert(within(adj, a, b, n) <==> within(adj, a, b, k));
        },
    }
}

/// What can be reached is the entry or what a node leads to.
proof fn lemma_in_universe(adj: names::EdgesView, entry: Seq<char>, b: Seq<char>, n: nat)
    requires
        names::edges_wf(adj),
        within(adj.edges, entry, b, n),
    ensures
        universe(adj, entry).contains(b),
{
    let p = choose|p: Seq<Seq<char>>| #[trigger]
        is_path(adj.edges, p, entry, b) && p.len() <= n + 1;
    if p.len() > 1 {
        let c = p[p.len() - 2];
        assert(linked(adj.edges, p, p.len() - 2));
        assert(adj.edges.contains_key(c));
        assert(adj.keys.to_set().contains(c));
        lemma_targets(adj.edges, adj.keys, c, b);
    }
}

/// Everything that is reached from `entry` over at most `limit` edges.
pub fn collect_reachable(entry: &str, adj: &EdgeMap, limit: Option<usize>) -> (r: Reachable)
    ensures
        r.nodes@ == reached(adj@, entry@, limit),
        r.opened@ == opened(adj@, entry@, limit),
        forall|x: Seq<char>| #[trigger]
            r.nodes@.contains(x) <==> reaches(adj@, entry@, x, limit),
        forall|x: Seq<char>| #[trigger]
            r.opened@.contains(x) <==> opens(adj@, entry@, x, limit),
{
    let ghost m = adj@;
    let ghost e = entry@;
    let ghost all = universe(names::edges_view(*adj), e);
    let _k = adj.len();
    let mut nodes = NameSet::new();
    nodes.insert(entry.to_owned());
    let mut opened_nodes = NameSet::new();
    let mut frontier: Vec<String> = Vec::new();
    frontier.push(entry.to_owned());
    let mut left: Option<usize> = limit;
    let ghost mut n: nat = 0;
    proof {
        assert(nodes@ =~= seq![e]);
        assert(text::texts(frontier@) =~= seq![e]);
        assert forall|x: Seq<char>| #[trigger] nodes@.contains(x) <==> within(m, e, x, 0) by {
            lemma_within_zero(m, e, x);
            if x == e {
                assert(nodes@[0] == x);
            }
        }
        assert forall|x: Seq<char>| #[trigger] text::texts(frontier@).contains(x) <==> within(
            m,
            e,
            x,
            0,
        ) && !sooner(m, e, x, 0) by {
            lemma_within_zero(m, e, x);
            if x == e {
                assert(text::texts(frontier@)[0] == x);
            }
        }
    }
    while frontier.len() > 0 && left != Some(0usize)
        invariant
            m == adj@,
            e == entry@,
            all == universe(names::edges_view(*adj), e),
            names::edges_wf(names::edges_view(*adj)),
            order::ascending(nodes@),
            order::ascending(opened_nodes@),
            forall|x: Seq<char>| #[trigger] nodes@.contains(x) <==> within(m, e, x, n),
            forall|x: Seq<char>| #[trigger] opened_nodes@.contains(x) <==> sooner(m, e, x, n),
            forall|x: Seq<char>| #[trigger]
                text::texts(frontier@).contains(x) <==> within(m, e, x, n) && !sooner(m, e, x, n),
            n == 0 ==> frontier.len() > 0,
            match (limit, left) {
                (None, None) => true,
                (Some(b), Some(l)) => l == b - n,
                _ => false,
            },
        decreases all.len() - nodes@.len(), frontier.len(),
    {
        let ghost fs = text::texts(frontier@);
        let ghost seen = opened_nodes@;
        for k in 0..frontier.len()
            invariant
                fs == text::texts(frontier@),
                order::ascending(opened_nodes@),
                forall|x: Seq<char>| #[trigger]
                    opened_nodes@.contains(x) <==> seen.contains(x) || fs.take(k as int).contains(
                        x,
                    ),
        {
            let ghost before = opened_nodes@;
            let ghost f = fs[k as int];
            opened_nodes.insert(frontier[k].clone());
            proof {
                assert(f == frontier@[k as int]@);
                order::lemma_put(before, f);
                assert(fs.take(k + 1) =~= fs.take(k as int).push(f));
                text::lemma_push_set(fs.take(k as int), f);
                assert forall|x: Seq<char>| #[trigger] opened_nodes@.contains(x) <==> seen.contains(
                    x,
                ) || fs.take(k + 1).contains(x) by {
                    assert(opened_nodes@.to_set().contains(x) <==> before.to_set().insert(
                        f,
                    ).contains(x));
                    assert(fs.take(k + 1).to_set().contains(x) <==> fs.take(
                        k as int,
                    ).to_set().insert(f).contains(x));
                    assert(before.contains(x) <==> seen.contains(x) || fs.take(
                        k as int,
                    ).contains(x));
                }
            }
        }
        let ghost before = nodes@;
        let ghost old_len = frontier@.len();
        let next = expand(adj, &frontier, &mut nodes);
        proof {
            assert(fs.take(fs.len() as int) =~= fs);
            assert forall|x: Seq<char>| #[trigger] nodes@.contains(x) <==> within(
                m,
                e,
                x,
                n + 1,
            ) by {
                lemma_round(m, e, fs, n, x);
                assert(before.contains(x) <==> within(m, e, x, n));
            }
            assert forall|x: Seq<char>| #[trigger] opened_nodes@.contains(x) <==> sooner(
                m,
                e,
                x,
                n + 1,
            ) by {
                assert(seen.contains(x) <==> sooner(m, e, x, n));
                assert(fs.contains(x) <==> within(m, e, x, n) && !sooner(m, e, x, n));
                if sooner(m, e, x, n) {
                    lemma_within_more(m, e, x, (n - 1) as nat, n);
                }
            }
            assert forall|x: Seq<char>| #[trigger] text::texts(next@).contains(x) <==> within(
                m,
                e,
                x,
                n + 1,
            ) && !sooner(m, e, x, n + 1) by {
                assert(before.contains(x) <==> within(m, e, x, n));
                assert(nodes@.contains(x) <==> within(m, e, x, n + 1));
            }
            assert forall|x: Seq<char>| #[trigger] nodes@.contains(x) implies all.contains(x) by {
                lemma_in_universe(names::edges_view(*adj), e, x, n + 1);
            }
            lemma_progress(before, nodes@, text::texts(next@), all);
        }
        frontier = next;
        left = match left {
            Some(l) => Some(l - 1),
            None => None,
        };
        proof {
            n = n + 1;
        }
    }
    proof {
        assert forall|x: Seq<char>| reaches(m, e, x, limit) <==> within(m, e, x, n) by {
            if left != Some(0usize) {
                lemma_no_frontier(m, e, text::texts(frontier@), n);
                lemma_all_reached(m, e, n, limit, x);
            }
        }
        assert forall|x: Seq<char>| opens(m, e, x, limit) <==> sooner(m, e, x, n) by {
            if left != Some(0usize) {
                lemma_no_frontier(m, e, text::texts(frontier@), n);
                lemma_all_reached(m, e, n, limit, x);
            }
        }
        let p = |b: Seq<char>| reaches(m, e, b, limit);
        let q = |b: Seq<char>| opens(m, e, b, limit);
        assert forall|x: Seq<char>| #[trigger] nodes@.contains(x) <==> p(x) by {}
        assert forall|x: Seq<char>| #[trigger] opened_nodes@.contains(x) <==> q(x) by {}
        order::lemma_listing(nodes@, p);
        order::lemma_listing(opened_nodes@, q);
    }
    Reachable { nodes, opened: opened_nodes }
}

/// An empty frontier means that nothing new was reached.
proof fn lemma_no_frontier(
    adj: Map<Seq<char>, Seq<Seq<char>>>,
    a: Seq<char>,
    frontier: Seq<Seq<char>>,
    n: nat,
)
    requires
        frontier.len() == 0,
        n > 0,
        forall|x: Seq<char>| #[trigger]
            frontier.contains(x) <==> within(adj, a, x, n) && !sooner(adj, a, x, n),
    ensures
        forall|x: Seq<char>| #[trigger]
            within(adj, a, x, n) ==> within(adj, a, x, (n - 1) as nat),
{
    assert forall|x: Seq<char>| #[trigger] within(adj, a, x, n) implies within(
        adj,
        a,
        x,
        (n - 1) as nat,
    ) by {
        assert(!frontier.contains(x));
    }
}

/// A round that brings something new leaves less to reach.
proof fn lemma_progress(
    before: Seq<Seq<char>>,
    after: Seq<Seq<char>>,
    new: Seq<Seq<char>>,
    all: Set<Seq<char>>,
)
    requires
        order::ascending(before),
        order::ascending(after),
        all.finite(),
        forall|x: Seq<char>| #[trigger] after.contains(x) ==> all.contains(x),
        forall|x: Seq<char>| before.contains(x) ==> #[trigger] after.contains(x),
        forall|x: Seq<char>| #[trigger] new.contains(x) ==> after.contains(x) && !before.contains(
            x,
        ),
    ensures
        before.len() <= after.len() <= all.len(),
        new.len() > 0 ==> before.len() < after.len(),
{
    order::lemma_ascending_distinct(before);
    order::lemma_ascending_distinct(after);
    before.unique_seq_to_set();
    after.unique_seq_to_set();
    assert(before.to_set().subset_of(after.to_set())) by {
        assert forall|x: Seq<char>| before.to_set().contains(x) implies after.to_set().contains(
            x,
        ) by {
            assert(after.contains(x));
        }
    }
    assert(after.to_set().subset_of(all)) by {
        assert forall|x: Seq<char>| after.to_set().contains(x) implies all.contains(x) by {
            assert(after.contains(x));
        }
    }
    vstd::set_lib::lemma_len_subset(before.to_set(), after.to_set());
    vstd::set_lib::lemma_len_subset(after.to_set(), all);
    if new.len() > 0 {
        assert(new.contains(new[0]));
        let x = new[0];
        assert(before.to_set().insert(x).subset_of(after.to_set()));
        vstd::set_lib::lemma_len_subset(before.to_set().insert(x), after.to_set());
    }
}

// --- brace render --------------------------------------------------------------------------

/// How a label of a brace tree is marked: not at all; `{…}`, where the depth
/// limit hides what the node leads to; `*`, where the node was shown before; or
/// `~`, where it is on the way from the entry.
pub enum Mark {
    Plain,
    Cut,
    Again,
    Back,
}

/// A label of a brace tree: its node, its mark, and the nodes on the way to it
/// from the entry.
pub struct LabelView {
    pub node: Seq<char>,
    pub mark: Mark,
    pub way: Seq<Seq<char>>,
}

/// What has been written of a brace tree, the labels in it, and the nodes that
/// have been shown.
pub struct BraceView {
    pub text: Seq<char>,
    pub labels: Seq<LabelView>,
    pub shown: Seq<Seq<char>>,
}

/// The number of nodes that are not on the way from the entry.
pub open spec fn nodes_left(
    adj: Map<Seq<char>, Seq<Seq<char>>>,
    way: Seq<Seq<char>>,
) -> nat {
    adj.dom().difference(way.to_set()).len()
}

/// Going down into a node leaves fewer nodes.
pub proof fn lemma_nodes_left(
    adj: Map<Seq<char>, Seq<Seq<char>>>,
    way: Seq<Seq<char>>,
    node: Seq<char>,
)
    requires
        adj.dom().finite(),
        adj.contains_key(node),
        !way.contains(node),
    ensures
        nodes_left(adj, way.push(node)) < nodes_left(adj, way),
{
    let a = adj.dom().difference(way.to_set());
    text::lemma_push_set(way, node);
    assert(adj.dom().difference(way.push(node).to_set()) =~= a.remove(node));
    assert(a.contains(node));
}

/// The brace tree of a single label.
pub open spec fn brace_label(
    node: Seq<char>,
    mark: Mark,
    dups: Seq<Seq<char>>,
    way: Seq<Seq<char>>,
    shown: Seq<Seq<char>>,
) -> BraceView {
    BraceView {
        text: clear_label(node, dups) + match mark {
            Mark::Plain => Seq::empty(),
            Mark::Cut => " {…}"@,
            Mark::Again => "*"@,
            Mark::Back => "~"@,
        },
        labels: seq![LabelView { node, mark, way }],
        shown,
    }
}

/// The brace tree of `node`, which is reached from `entry` over the nodes `way`.
/// A node on the way is marked `~`, one that was shown `*`, and one that is too
/// far from the entry for what it leads to `{…}`.
pub open spec fn brace_node(
    adj: Map<Seq<char>, Seq<Seq<char>>>,
    entry: Seq<char>,
    limit: Option<usize>,
    node: Seq<char>,
    dups: Seq<Seq<char>>,
    shown: Seq<Seq<char>>,
    way: Seq<Seq<char>>,
) -> BraceView
    decreases nodes_left(adj, way), 0nat,
{
    let kids = names::under(adj, node);
    let now = order::put(shown, node);
    if way.contains(node) {
        brace_label(node, Mark::Back, dups, way, shown)
    } else if shown.contains(node) {
        brace_label(node, Mark::Again, dups, way, shown)
    } else if kids.len() == 0 || !adj.dom().finite() {
        brace_label(node, Mark::Plain, dups, way, now)
    } else if !opens(adj, entry, node, limit) {
        brace_label(node, Mark::Cut, dups, way, now)
    } else {
        proof {
            lemma_nodes_left(adj, way, node);
        }
        let inner = brace_children(adj, entry, limit, kids, dups, now, way.push(node));
        BraceView {
            text: clear_label(node, dups) + " { "@ + inner.text + " }"@,
            labels: seq![LabelView { node, mark: Mark::Plain, way }] + inner.labels,
            shown: inner.shown,
        }
    }
}

/// The brace trees of `kids`, with commas between.
pub open spec fn brace_children(
    adj: Map<Seq<char>, Seq<Seq<char>>>,
    entry: Seq<char>,
    limit: Option<usize>,
    kids: Seq<Seq<char>>,
    dups: Seq<Seq<char>>,
    shown: Seq<Seq<char>>,
    way: Seq<Seq<char>>,
) -> BraceView
    decreases nodes_left(adj, way), kids.len(),
{
    if kids.len() == 0 {
        BraceView { text: Seq::empty(), labels: Seq::empty(), shown }
    } else {
        let before = brace_children(adj, entry, limit, kids.drop_last(), dups, shown, way);
        let last = brace_node(adj, entry, limit, kids.last(), dups, before.shown, way);
        BraceView {
            text: before.text + (if kids.len() > 1 {
                ", "@
            } else {
                Seq::empty()
            }) + last.text,
            labels: before.labels + last.labels,
            shown: last.shown,
        }
    }
}

/// The brace tree of what is reached from `entry`.
pub open spec fn brace_of(
    adj: Map<Seq<char>, Seq<Seq<char>>>,
    entry: Seq<char>,
    limit: Option<usize>,
) -> BraceView {
    let dups = colliding(reached(adj, entry, limit));
    brace_node(adj, entry, limit, entry, dups, Seq::empty(), Seq::empty())
}

/// The text of the brace tree of what is reached from `entry`.
pub open spec fn brace_text(
    adj: Map<Seq<char>, Seq<Seq<char>>>,
    entry: Seq<char>,
    limit: Option<usize>,
) -> Seq<char> {
    brace_of(adj, entry, limit).text + "\n"@
}

fn walk_brace(
    node: &str,
    adj: &EdgeMap,
    open: &NameSet,
    dups: &NameSet,
    shown: &mut NameSet,
    above: &Vec<String>,
    out: &mut String,
    Ghost(entry): Ghost<Seq<char>>,
    Ghost(limit): Ghost<Option<usize>>,
)
    requires
        adj@.dom().finite(),
        forall|x: Seq<char>| #[trigger] open@.contains(x) <==> opens(adj@, entry, x, limit),
    ensures
        ({
            let b = brace_node(
                adj@,
                entry,
                limit,
                node@,
                dups@,
                old(shown)@,
                text::texts(above@),
            );
            &&& final(out)@ == old(out)@ + b.text
            &&& final(shown)@ == b.shown
        }),
    decreases nodes_left(adj@, text::texts(above@)),
{
    let ghost m = adj@;
    let ghost way = text::texts(above@);
    let ghost shown0 = shown@;
    let ghost out0 = out@;
    let ghost whole = brace_node(m, entry, limit, node@, dups@, shown0, way);
    let label = short_label_disambig(node, dups);
    // A cycle takes precedence.
    if text::is_among(above, node) {
        out.append(label.as_str());
        out.append("~");
        proof {
            assert(out@ =~= out0 + whole.text);
        }
        return;
    }
    if shown.contains(node) {
        out.append(label.as_str());
        out.append("*");
        proof {
            assert(out@ =~= out0 + whole.text);
        }
        return;
    }
    shown.insert(node.to_owned());
    out.append(label.as_str());
    let kids = match adj.get(node) {
        Some(kids) => kids,
        None => {
            proof {
                assert(out@ =~= out0 + whole.text);
            }
            return;
        },
    };
    let n: usize = kids.len();
    if n == 0 {
        proof {
            assert(out@ =~= out0 + whole.text);
        }
        return;
    }
    if !open.contains(node) {
        out.append(" {…}");
        proof {
            assert(out@ =~= out0 + whole.text);
        }
        return;
    }
    let below = text::extended(above, node);
    out.append(" { ");
    let ghost head = out@;
    let ghost ks = kids@;
    let ghost down = way.push(node@);
    let ghost now = shown@;
    proof {
        lemma_nodes_left(m, way, node@);
        assert(text::texts(below@) =~= down);
        assert(ks.take(0) =~= Seq::empty());
        assert(head + Seq::<char>::empty() =~= head);
    }
    for k in 0..n
        invariant
            m == adj@,
            m.dom().finite(),
            forall|x: Seq<char>| #[trigger] open@.contains(x) <==> opens(m, entry, x, limit),
            ks == kids@,
            n == ks.len(),
            down == text::texts(below@),
            nodes_left(m, down) < nodes_left(m, way),
            way == text::texts(above@),
            ({
                let b = brace_children(m, entry, limit, ks.take(k as int), dups@, now, down);
                &&& out@ == head + b.text
                &&& shown@ == b.shown
            }),
    {
        proof {
            assert(ks.take(k + 1).drop_last() =~= ks.take(k as int));
        }
        if k > 0 {
            out.append(", ");
        }
        walk_brace(
            kids.at(k).as_str(),
            adj,
            open,
            dups,
            shown,
            &below,
            out,
            Ghost(entry),
            Ghost(limit),
        );
        proof {
            let c = brace_children(m, entry, limit, ks.take(k + 1), dups@, now, down);
            assert(out@ =~= head + c.text);
        }
    }
    out.append(" }");
    proof {
        assert(ks.take(ks.len() as int) =~= ks);
        assert(out@ =~= out0 + whole.text);
    }
}

/// Renders what is reached from `entry` as a single-line brace tree. A node is
/// opened where it is first met, unless the depth limit ends at it.
pub fn render_brace(entry: &str, adj: &EdgeMap, limit: Option<usize>) -> (r: String)
    ensures
        r@ == brace_text(adj@, entry@, limit),
{
    let found = collect_reachable(entry, adj, limit);
    let dups = dup_stems(&found.nodes);
    let mut out = String::new();
    let mut shown = NameSet::new();
    let above: Vec<String> = Vec::new();
    let _n = adj.len();
    proof {
        assert(text::texts(above@) =~= Seq::empty());
        assert(out@ =~= Seq::empty());
    }
    walk_brace(
        entry,
        adj,
        &found.opened,
        &dups,
        &mut shown,
        &above,
        &mut out,
        Ghost(entry@),
        Ghost(limit),
    );
    out.append("\n");
    proof {
        assert(out@ =~= brace_text(adj@, entry@, limit));
    }
    out
}

// --- mermaid render ------------------------------------------------------------------------

/// The declaration of a node.
pub open spec fn node_line(
    node: Seq<char>,
    dups: Seq<Seq<char>>,
    indent: Seq<char>,
) -> Seq<char> {
    indent + id_of(node) + "[\""@ + clear_label(node, dups) + "\"]\n"@
}

/// The declarations of the nodes whose cluster is `key`; of all nodes where no
/// key is given.
pub open spec fn node_lines(
    nodes: Seq<Seq<char>>,
    key: Option<Seq<char>>,
    depth: nat,
    dups: Seq<Seq<char>>,
    indent: Seq<char>,
) -> Seq<char>
    decreases nodes.len(),
{
    if nodes.len() == 0 {
        Seq::empty()
    } else {
        let rest = node_lines(nodes.drop_last(), key, depth, dups, indent);
        if key is None || key == Some(cluster_of(nodes.last(), depth)) {
            rest + node_line(nodes.last(), dups, indent)
        } else {
            rest
        }
    }
}

/// The clusters of nodes, in alphabetical order.
pub open spec fn clusters(nodes: Seq<Seq<char>>, depth: nat) -> Seq<Seq<char>> {
    order::collected(nodes.map_values(|n: Seq<char>| cluster_of(n, depth)))
}

/// A subgraph for each of `keys`, but for the root group.
pub open spec fn group_lines(
    keys: Seq<Seq<char>>,
    nodes: Seq<Seq<char>>,
    depth: nat,
    dups: Seq<Seq<char>>,
) -> Seq<char>
    decreases keys.len(),
{
    if keys.len() == 0 {
        Seq::empty()
    } else {
        let rest = group_lines(keys.drop_last(), nodes, depth, dups);
        let key = keys.last();
        if key.len() == 0 {
            rest
        } else {
            rest + group_text(key, nodes, depth, dups)
        }
    }
}

/// The subgraph of the nodes whose cluster is `key`.
pub open spec fn group_text(
    key: Seq<char>,
    nodes: Seq<Seq<char>>,
    depth: nat,
    dups: Seq<Seq<char>>,
) -> Seq<char> {
    "  subgraph "@ + id_of(key) + " ["@ + key + "]\n"@ + node_lines(
        nodes,
        Some(key),
        depth,
        dups,
        "    "@,
    ) + "  end\n"@
}

/// The edges from `from` to each of `kids`.
pub open spec fn arrows_from(from: Seq<char>, kids: Seq<Seq<char>>) -> Seq<char>
    decreases kids.len(),
{
    if kids.len() == 0 {
        Seq::empty()
    } else {
        arrows_from(from, kids.drop_last()) + ("  "@ + id_of(from) + " --> "@ + id_of(kids.last())
            + "\n"@)
    }
}

/// The edges from each of `froms`.
pub open spec fn arrows(
    adj: Map<Seq<char>, Seq<Seq<char>>>,
    froms: Seq<Seq<char>>,
) -> Seq<char>
    decreases froms.len(),
{
    if froms.len() == 0 {
        Seq::empty()
    } else {
        arrows(adj, froms.drop_last()) + arrows_from(
            froms.last(),
            names::under(adj, froms.last()),
        )
    }
}

/// The `graph TD` block of what is reached from `entry`.
pub open spec fn mermaid_text(
    adj: Map<Seq<char>, Seq<Seq<char>>>,
    entry: Seq<char>,
    limit: Option<usize>,
    cluster: bool,
    depth: nat,
) -> Seq<char> {
    let nodes = reached(adj, entry, limit);
    let dups = colliding(nodes);
    "graph TD\n"@ + (if cluster {
        node_lines(nodes, Some(Seq::empty()), depth, dups, "  "@) + group_lines(
            clusters(nodes, depth),
            nodes,
            depth,
            dups,
        )
    } else {
        node_lines(nodes, None, depth, dups, "  "@)
    }) + arrows(adj, opened(adj, entry, limit))
}

fn line_of_node(node: &str, dups: &NameSet, indent: &str) -> (r: String)
    ensures
        r@ == node_line(node@, dups@, indent@),
{
    let mut r = indent.to_owned();
    r.append(mermaid_id(node).as_str());
    r.append("[\"");
    r.append(short_label_disambig(node, dups).as_str());
    r.append("\"]\n");
    r
}

/// The declarations of the nodes whose cluster is `key`. `keys` holds the
/// cluster of each node.
fn declare_nodes(
    nodes: &NameSet,
    keys: &Vec<String>,
    key: Option<&str>,
    dups: &NameSet,
    indent: &str,
    Ghost(depth): Ghost<nat>,
) -> (r: String)
    requires
        text::texts(keys@) == nodes@.map_values(|n: Seq<char>| cluster_of(n, depth)),
    ensures
        r@ == node_lines(nodes@, text::opt_str(key), depth, dups@, indent@),
{
    let ghost ns = nodes@;
    let ghost kv = text::opt_str(key);
    let len: usize = nodes.len();
    let mut r = String::new();
    proof {
        assert(ns.take(0) =~= Seq::empty());
        assert(r@ =~= Seq::empty());
        assert(text::texts(keys@).len() == ns.len());
    }
    for k in 0..len
        invariant
            ns == nodes@,
            len == ns.len(),
            keys.len() == len,
            kv == text::opt_str(key),
            text::texts(keys@) == ns.map_values(|n: Seq<char>| cluster_of(n, depth)),
            r@ == node_lines(ns.take(k as int), kv, depth, dups@, indent@),
    {
        proof {
            assert(ns.take(k + 1).drop_last() =~= ns.take(k as int));
            assert(text::texts(keys@)[k as int] == cluster_of(ns[k as int], depth));
        }
        let wanted = match key {
            Some(key) => text::same_text(keys[k].as_str(), key),
            None => true,
        };
        if wanted {
            r.append(line_of_node(nodes.at(k).as_str(), dups, indent).as_str());
        }
    }
    proof {
        assert(ns.take(ns.len() as int) =~= ns);
    }
    r
}

/// The cluster of each node.
fn keys_of(nodes: &NameSet, depth: usize) -> (r: Vec<String>)
    ensures
        text::texts(r@) == nodes@.map_values(|n: Seq<char>| cluster_of(n, depth as nat)),
{
    let ghost want = nodes@.map_values(|n: Seq<char>| cluster_of(n, depth as nat));
    let len: usize = nodes.len();
    let mut r: Vec<String> = Vec::new();
    for k in 0..len
        invariant
            len == nodes@.len(),
            want == nodes@.map_values(|n: Seq<char>| cluster_of(n, depth as nat)),
            text::texts(r@) == want.take(k as int),
    {
        let ghost before = r@;
        r.push(cluster_key(nodes.at(k).as_str(), depth));
        proof {
            assert(text::texts(r@) =~= text::texts(before).push(want[k as int]));
            assert(want.take(k + 1) =~= want.take(k as int).push(want[k as int]));
        }
    }
    proof {
        assert(want.take(want.len() as int) =~= want);
    }
    r
}

/// The subgraphs of the clusters of nodes.
fn declare_groups(
    nodes: &NameSet,
    keys: &Vec<String>,
    dups: &NameSet,
    Ghost(depth): Ghost<nat>,
) -> (r: String)
    requires
        text::texts(keys@) == nodes@.map_values(|n: Seq<char>| cluster_of(n, depth)),
    ensures
        r@ == group_lines(clusters(nodes@, depth), nodes@, depth, dups@),
{
    let ghost kv = text::texts(keys@);
    let mut distinct = NameSet::new();
    proof {
        assert(kv.take(0) =~= Seq::empty());
    }
    for k in 0..keys.len()
        invariant
            kv == text::texts(keys@),
            distinct@ == order::collected(kv.take(k as int)),
    {
        proof {
            assert(kv.take(k + 1).drop_last() =~= kv.take(k as int));
        }
        distinct.insert(keys[k].clone());
    }
    proof {
        assert(kv.take(kv.len() as int) =~= kv);
    }
    let ghost ds = distinct@;
    let len: usize = distinct.len();
    let mut r = String::new();
    proof {
        assert(ds.take(0) =~= Seq::empty());
        assert(r@ =~= Seq::empty());
    }
    for k in 0..len
        invariant
            ds == distinct@,
            len == ds.len(),
            text::texts(keys@) == nodes@.map_values(|n: Seq<char>| cluster_of(n, depth)),
            r@ == group_lines(ds.take(k as int), nodes@, depth, dups@),
    {
        proof {
            assert(ds.take(k + 1).drop_last() =~= ds.take(k as int));
        }
        let key = distinct.at(k).as_str();
        if key.unicode_len() > 0 {
            let mut group = "  subgraph ".to_owned();
            group.append(mermaid_id(key).as_str());
            group.append(" [");
            group.append(key);
            group.append("]\n");
            group.append(
                declare_nodes(nodes, keys, Some(key), dups, "    ", Ghost(depth)).as_str(),
            );
            group.append("  end\n");
            proof {
                assert(group@ == group_text(key@, nodes@, depth, dups@));
            }
            r.append(group.as_str());
        }
    }
    proof {
        assert(ds.take(ds.len() as int) =~= ds);
    }
    r
}

/// The edges from each of `froms`.
fn draw_arrows(adj: &EdgeMap, froms: &NameSet) -> (r: String)
    ensures
        r@ == arrows(adj@, froms@),
{
    let ghost fs = froms@;
    let len: usize = froms.len();
    let mut r = String::new();
    proof {
        assert(fs.take(0) =~= Seq::empty());
        assert(r@ =~= Seq::empty());
    }
    for k in 0..len
        invariant
            fs == froms@,
            len == fs.len(),
            r@ == arrows(adj@, fs.take(k as int)),
    {
        let from = froms.at(k).as_str();
        let ghost before = r@;
        let ghost kv = names::under(adj@, from@);
        proof {
            assert(fs.take(k + 1).drop_last() =~= fs.take(k as int));
        }
        match adj.get(from) {
            Some(kids) => {
                let n: usize = kids.len();
                proof {
                    assert(kv.take(0) =~= Seq::empty());
                    assert(before + Seq::<char>::empty() =~= before);
                }
                for j in 0..n
                    invariant
                        kv == kids@,
                        n == kv.len(),
                        r@ == before + arrows_from(from@, kv.take(j as int)),
                {
                    proof {
                        assert(kv.take(j + 1).drop_last() =~= kv.take(j as int));
                    }
                    let mut line = "  ".to_owned();
                    line.append(mermaid_id(from).as_str());
                    line.append(" --> ");
                    line.append(mermaid_id(kids.at(j).as_str()).as_str());
                    line.append("\n");
                    r.append(line.as_str());
                    proof {
                        assert(r@ =~= before + arrows_from(from@, kv.take(j + 1)));
                    }
                }
                proof {
                    assert(kv.take(kv.len() as int) =~= kv);
                }
            },
            None => {
                proof {
                    assert(kv =~= Seq::empty());
                    assert(before + Seq::<char>::empty() =~= before);
                }
            },
        }
    }
    proof {
        assert(fs.take(fs.len() as int) =~= fs);
    }
    r
}

/// Renders what is reached from `entry` as a Mermaid graph, in clusters by
/// directory where asked for.
pub fn render_mermaid(
    entry: &str,
    adj: &EdgeMap,
    limit: Option<usize>,
    cluster: bool,
    cluster_depth: usize,
) -> (r: String)
    ensures
        r@ == mermaid_text(adj@, entry@, limit, cluster, cluster_depth as nat),
{
    let found = collect_reachable(entry, adj, limit);
    let dups = dup_stems(&found.nodes);
    let keys = keys_of(&found.nodes, cluster_depth);
    let ghost depth = cluster_depth as nat;
    let mut body = String::new();
    if cluster {
        let root = String::new();
        proof {
            assert(root@ =~= Seq::empty());
        }
        body =
        declare_nodes(&found.nodes, &keys, Some(root.as_str()), &dups, "  ", Ghost(depth));
        body.append(declare_groups(&found.nodes, &keys, &dups, Ghost(depth)).as_str());
    } else {
        body = declare_nodes(&found.nodes, &keys, None, &dups, "  ", Ghost(depth));
    }
    let mut out = "graph TD\n".to_owned();
    out.append(body.as_str());
    out.append(draw_arrows(adj, &found.opened).as_str());
    out
}

// --- entry ---------------------------------------------------------------------------------

/// A path without any leading `./`.
pub open spec fn without_dot(path: Seq<char>) -> Seq<char>
    decreases path.len(),
{
    if text::starts_with(path, "./"@) && path.len() >= 2 {
        without_dot(path.skip(2))
    } else {
        path
    }
}

/// The names under which an entry is looked for: as it was given, and seen from
/// the repository where it lies in it.
pub open spec fn candidates(
    given: Seq<char>,
    canon: Option<Seq<char>>,
    repo: Seq<char>,
) -> Seq<Seq<char>> {
    let raw = without_dot(text::replaced(given, '\\', '/'));
    match canon {
        Some(c) => match paths::stripped(c, repo) {
            Some(rel) => seq![raw, text::replaced(rel, '\\', '/')],
            None => seq![raw],
        },
        None => seq![raw],
    }
}

/// The first of `names` that is one of `files`.
pub open spec fn first_known(names: Seq<Seq<char>>, files: Seq<Seq<char>>) -> Option<Seq<char>>
    decreases names.len(),
{
    if names.len() == 0 {
        None
    } else if files.contains(names[0]) {
        Some(names[0])
    } else {
        first_known(names.drop_first(), files)
    }
}

/// The message for an entry that is not in the graph.
pub open spec fn no_entry_text(given: Seq<char>, tried: Seq<Seq<char>>) -> Seq<char> {
    "entry `"@ + given + "` not found in graph. Tried: "@ + text::join(tried, ", "@) + "\n"@
}

/// The names under which an entry is looked for.
fn entry_candidates(given: &str, canon: Option<&str>, repo: &str) -> (r: Vec<String>)
    ensures
        text::texts(r@) == candidates(given@, text::opt_str(canon), repo@),
{
    let raw = text::replace_char(given, '\\', '/');
    let mut r: Vec<String> = Vec::new();
    r.push(trim_dots(raw.as_str()));
    if let Some(c) = canon {
        if let Some(rel) = paths::strip_prefix(c, repo) {
            r.push(text::replace_char(rel.as_str(), '\\', '/'));
        }
    }
    proof {
        assert(text::texts(r@) =~= candidates(given@, text::opt_str(canon), repo@));
    }
    r
}

/// A path without any leading `./`.
fn trim_dots(path: &str) -> (r: String)
    ensures
        r@ == without_dot(path@),
{
    let s = text::to_chars(path);
    let len: usize = s.len();
    let mut k: usize = 0;
    proof {
        assert(path@.skip(0) =~= path@);
        reveal_strlit("./");
    }
    while len - k >= 2 && s[k] == '.' && s[k + 1] == '/'
        invariant
            s@ == path@,
            len == s.len(),
            k <= len,
            "./"@.len() == 2,
            "./"@[0] == '.',
            "./"@[1] == '/',
            without_dot(path@) == without_dot(path@.skip(k as int)),
        decreases len - k,
    {
        proof {
            let t = path@.skip(k as int);
            assert(t.subrange(0, 2) =~= "./"@);
            assert(t.skip(2) =~= path@.skip(k + 2));
        }
        k = k + 2;
    }
    proof {
        let t = path@.skip(k as int);
        if text::starts_with(t, "./"@) && t.len() >= 2 {
            assert(t.subrange(0, 2)[0] == '.' && t.subrange(0, 2)[1] == '/');
        }
        assert(path@.skip(k as int) =~= path@.subrange(k as int, len as int));
    }
    text::from_chars(vstd::slice::slice_subrange(s.as_slice(), k, len))
}

/// The output for the crate in `repo`, which is shown as `shown`. There is an
/// error message instead where it has no crate root, or where the entry is not
/// one of its files. `canon` is the canonical path of the entry, where it has one.
pub open spec fn report(
    d: modtree::DiskView,
    repo: Seq<char>,
    shown: Seq<char>,
    canon: Option<Seq<char>>,
    opts: GraphOptions,
) -> Result<Seq<char>, Seq<char>> {
    match deps::repo_graph(d, repo) {
        None => Err(deps::no_root_text(shown)),
        Some(g) => {
            let entry = match opts.entry {
                Some(e) => first_known(candidates(e@, canon, repo), g.files),
                None => deps::root_shown(d, repo),
            };
            match entry {
                Some(e) => Ok(graph_text(g, e, opts)),
                None => match opts.entry {
                    Some(e) => Err(no_entry_text(e@, candidates(e@, canon, repo))),
                    None => Err(deps::no_root_text(shown)),
                },
            }
        },
    }
}

/// What is reached from `entry` in a graph. Clusters imply a Mermaid block.
pub open spec fn graph_text(g: deps::GraphView, entry: Seq<char>, opts: GraphOptions) -> Seq<char> {
    let adj = adjacency(g, opts.direction, opts.include_external);
    if opts.mermaid || opts.mermaid_cluster {
        mermaid_text(
            adj,
            entry,
            opts.depth,
            opts.mermaid_cluster,
            opts.cluster_depth as nat,
        )
    } else {
        brace_text(adj, entry, opts.depth)
    }
}

/// The entry in the graph, or the message where it is not there.
fn resolve_entry(
    disk: &Disk,
    repo: &str,
    shown: &str,
    canon: Option<&str>,
    entry: &Option<String>,
    graph: &Graph,
) -> (r: Result<String, String>)
    ensures
        match entry {
            Some(e) => {
                let tried = candidates(e@, text::opt_str(canon), repo@);
                match r {
                    Ok(name) => first_known(tried, graph.files@) == Some(name@),
                    Err(message) => {
                        &&& first_known(tried, graph.files@) is None
                        &&& message@ == no_entry_text(e@, tried)
                    },
                }
            },
            None => match r {
                Ok(name) => deps::root_shown(disk@, repo@) == Some(name@),
                Err(message) => {
                    &&& deps::root_shown(disk@, repo@) is None
                    &&& message@ == deps::no_root_text(shown@)
                },
            },
        },
{
    match entry {
        Some(e) => {
            let tried = entry_candidates(e.as_str(), canon, repo);
            let ghost ts = text::texts(tried@);
            let mut k: usize = 0;
            proof {
                assert(ts.skip(0) =~= ts);
            }
            while k < tried.len()
                invariant
                    k <= tried.len(),
                    *entry == Some(*e),
                    ts == text::texts(tried@),
                    ts == candidates(e@, text::opt_str(canon), repo@),
                    first_known(ts, graph.files@) == first_known(
                        ts.skip(k as int),
                        graph.files@,
                    ),
                decreases tried.len() - k,
            {
                proof {
                    assert(ts.skip(k as int).drop_first() =~= ts.skip(k + 1));
                    assert(ts.skip(k as int)[0] == tried@[k as int]@);
                }
                if graph.files.contains(tried[k].as_str()) {
                    return Ok(tried[k].clone());
                }
                k = k + 1;
            }
            let mut message = "entry `".to_owned();
            message.append(e.as_str());
            message.append("` not found in graph. Tried: ");
            message.append(text::join_strings(&tried, ", ").as_str());
            message.append("\n");
            Err(message)
        },
        None => match detect_crate_root(disk, repo) {
            Some(root) => Ok(root),
            None => Err(no_root(shown)),
        },
    }
}

/// Renders what is reached from an entry of the crate in `repo`, a canonical
/// path, which is shown as `shown`. `canon` is the canonical path of the entry,
/// where it has one. The error is the message where there is no crate root, or
/// where the entry is not one of its files.
pub fn run(
    disk: &Disk,
    repo: &str,
    shown: &str,
    canon: Option<&str>,
    opts: &GraphOptions,
) -> (r: Result<String, String>)
    ensures
        text::result_text(r) == report(disk@, repo@, shown@, text::opt_str(canon), *opts),
{
    let graph = match build_from_repo(disk, repo) {
        Some(g) => g,
        None => return Err(no_root(shown)),
    };
    match resolve_entry(disk, repo, shown, canon, &opts.entry, &graph) {
        Ok(entry) => {
            let adj = build_adjacency(&graph, opts.direction, opts.include_external);
            if opts.mermaid || opts.mermaid_cluster {
                Ok(
                    render_mermaid(
                        entry.as_str(),
                        &adj,
                        opts.depth,
                        opts.mermaid_cluster,
                        opts.cluster_depth,
                    ),
                )
            } else {
                Ok(render_brace(entry.as_str(), &adj, opts.depth))
            }
        },
        Err(message) => Err(message),
    }
}

// --- what is reached -------------------------------------------------------------------------

/// Whether the maps of a graph are in order.
pub open spec fn graph_wf(g: deps::GraphView) -> bool {
    &&& names::edges_wf(g.out_internal)
    &&& names::edges_wf(g.out_external)
    &&& names::edges_wf(g.mod_edges)
}

/// The keys of a map that have an edge to `b`.
spec fn keys_to(e: names::EdgesView, b: Seq<char>, keys: Seq<Seq<char>>) -> Seq<Seq<char>>
    decreases keys.len(),
{
    if keys.len() == 0 {
        Seq::empty()
    } else {
        let rest = keys_to(e, b, keys.drop_last());
        if has_edge(e, keys.last(), b) {
            rest.push(keys.last())
        } else {
            rest
        }
    }
}

proof fn lemma_keys_to(e: names::EdgesView, b: Seq<char>, keys: Seq<Seq<char>>, x: Seq<char>)
    ensures
        keys_to(e, b, keys).contains(x) <==> keys.contains(x) && has_edge(e, x, b),
    decreases keys.len(),
{
    if keys.len() > 0 {
        let rest = keys.drop_last();
        lemma_keys_to(e, b, rest, x);
        assert(keys =~= rest.push(keys.last()));
        text::lemma_push_contains(rest, keys.last(), x);
        text::lemma_push_contains(keys_to(e, b, rest), keys.last(), x);
    }
}

/// What a node leads to, in some order.
spec fn leads(g: deps::GraphView, dir: Direction, include_ext: bool, a: Seq<char>) -> Seq<
    Seq<char>,
> {
    match dir {
        Direction::Forward => names::under(g.out_internal.edges, a) + names::under(
            g.mod_edges.edges,
            a,
        ) + if include_ext {
            names::under(g.out_external.edges, a).map_values(|n: Seq<char>| external_node(n))
        } else {
            Seq::empty()
        },
        Direction::Reverse => keys_to(g.out_internal, a, g.out_internal.keys) + keys_to(
            g.mod_edges,
            a,
            g.mod_edges.keys,
        ),
    }
}

proof fn lemma_leads(
    g: deps::GraphView,
    dir: Direction,
    include_ext: bool,
    a: Seq<char>,
    b: Seq<char>,
)
    requires
        graph_wf(g),
    ensures
        leads(g, dir, include_ext, a).contains(b) <==> leads_to(g, dir, include_ext, a, b),
{
    match dir {
        Direction::Forward => {
            let i = names::under(g.out_internal.edges, a);
            let m = names::under(g.mod_edges.edges, a);
            let x = names::under(g.out_external.edges, a);
            let e: Seq<Seq<char>> = if include_ext {
                x.map_values(|n: Seq<char>| external_node(n))
            } else {
                Seq::empty()
            };
            text::lemma_add_contains(i, m, b);
            text::lemma_add_contains(i + m, e, b);
            reveal_strlit("ext:");
            if e.contains(b) {
                let k = choose|k: int| 0 <= k < e.len() && e[k] == b;
                assert(b.skip(4) =~= x[k]);
                assert(b.subrange(0, 4) =~= "ext:"@);
            }
            if include_ext && is_external(b) && x.contains(b.skip(4)) {
                let k = choose|k: int| 0 <= k < x.len() && x[k] == b.skip(4);
                assert(b =~= external_node(b.skip(4)));
                assert(e[k] == b);
            }
        },
        Direction::Reverse => {
            let i = g.out_internal;
            let m = g.mod_edges;
            lemma_keys_to(i, a, i.keys, b);
            lemma_keys_to(m, a, m.keys, b);
            text::lemma_add_contains(keys_to(i, a, i.keys), keys_to(m, a, m.keys), b);
            if has_edge(i, b, a) {
                assert(i.keys.to_set().contains(b));
            }
            if has_edge(m, b, a) {
                assert(m.keys.to_set().contains(b));
            }
        },
    }
}

/// The labels that collide are those that two nodes have.
pub proof fn lemma_colliding(nodes: Seq<Seq<char>>, label: Seq<char>)
    ensures
        colliding(nodes).contains(label) <==> collides(nodes, label),
{
    let pred = |label: Seq<char>| collides(nodes, label);
    let labels = nodes.map_values(|n: Seq<char>| label_of(n));
    let all = labels.filter(pred);
    let s = order::collected(all);
    order::lemma_collected(all);
    order::lemma_collected_contains(all);
    assert forall|x: Seq<char>| #[trigger] s.contains(x) <==> pred(x) by {
        broadcast use vstd::seq_lib::group_filter_ensures;

        if pred(x) {
            let (i, j) = choose|i: int, j: int|
                0 <= i < j < nodes.len() && label_of(#[trigger] nodes[i]) == x && label_of(
                    #[trigger] nodes[j],
                ) == x;
            assert(labels[i] == x);
        }
    }
    order::lemma_listing(s, pred);
    assert(s.contains(label) <==> pred(label));
}

/// The edges of an adjacency are what a node leads to, in alphabetical order.
pub proof fn lemma_adjacent(
    g: deps::GraphView,
    dir: Direction,
    include_ext: bool,
    a: Seq<char>,
    b: Seq<char>,
)
    requires
        graph_wf(g),
    ensures
        names::under(adjacency(g, dir, include_ext), a).contains(b) <==> leads_to(
            g,
            dir,
            include_ext,
            a,
            b,
        ),
        order::ascending(names::under(adjacency(g, dir, include_ext), a)),
{
    let pred = led_to(g, dir, include_ext, a);
    let all = leads(g, dir, include_ext, a);
    let s = order::collected(all);
    order::lemma_collected(all);
    order::lemma_collected_contains(all);
    assert forall|x: Seq<char>| #[trigger] s.contains(x) <==> pred(x) by {
        lemma_leads(g, dir, include_ext, a, x);
    }
    order::lemma_listing(s, pred);
    let adj = adjacency(g, dir, include_ext);
    if adj.contains_key(a) {
        assert(s.contains(b) <==> pred(b));
    } else if leads_to(g, dir, include_ext, a, b) {
        assert(is_node(g, dir, include_ext, a));
    }
}

/// A graph has finitely many nodes.
pub proof fn lemma_finite(g: deps::GraphView, dir: Direction, include_ext: bool)
    requires
        graph_wf(g),
    ensures
        adjacency(g, dir, include_ext).dom().finite(),
{
    let adj = adjacency(g, dir, include_ext);
    let i = g.out_internal;
    let m = g.mod_edges;
    let all = g.files + i.keys + m.keys + g.out_external.keys + targets_of(i.edges, i.keys)
        + targets_of(m.edges, m.keys);
    assert forall|a: Seq<char>| #[trigger] adj.dom().contains(a) implies all.to_set().contains(
        a,
    ) by {
        assert(is_node(g, dir, include_ext, a));
        if !g.files.contains(a) {
            match dir {
                Direction::Forward => {
                    assert(i.edges.contains_key(a) ==> i.keys.to_set().contains(a));
                    assert(m.edges.contains_key(a) ==> m.keys.to_set().contains(a));
                    assert(g.out_external.edges.contains_key(a)
                        ==> g.out_external.keys.to_set().contains(a));
                },
                Direction::Reverse => {
                    let b = choose|b: Seq<char>| leads_to(g, dir, include_ext, a, b);
                    if has_edge(i, b, a) {
                        assert(i.keys.to_set().contains(b));
                        lemma_targets(i.edges, i.keys, b, a);
                    } else {
                        assert(m.keys.to_set().contains(b));
                        lemma_targets(m.edges, m.keys, b, a);
                    }
                },
            }
        }
        broadcast use vstd::seq_lib::group_seq_properties;

    }
    vstd::seq_lib::seq_to_set_is_finite(all);
    vstd::set_lib::lemma_set_subset_finite(all.to_set(), adj.dom());
}

/// A path of an adjacency, walked from its end, is a path of the other
/// direction.
proof fn lemma_path_back(
    g: deps::GraphView,
    dir: Direction,
    back: Direction,
    path: Seq<Seq<char>>,
    a: Seq<char>,
    b: Seq<char>,
)
    requires
        graph_wf(g),
        dir != back,
        is_path(adjacency(g, dir, false), path, a, b),
    ensures
        is_path(adjacency(g, back, false), path.reverse(), b, a),
{
    let q = path.reverse();
    let there = adjacency(g, dir, false);
    let here = adjacency(g, back, false);
    assert forall|i: int| 0 <= i < q.len() - 1 implies #[trigger] linked(here, q, i) by {
        let j = path.len() - 2 - i;
        assert(linked(there, path, j));
        assert(q[i] == path[j + 1] && q[i + 1] == path[j]);
        lemma_adjacent(g, dir, false, path[j], path[j + 1]);
        lemma_adjacent(g, back, false, path[j + 1], path[j]);
    }
}

/// In reverse, a file reaches exactly the files that reach it forward, with the
/// same depth limit.
pub proof fn law_reverse_reaches_back(
    g: deps::GraphView,
    a: Seq<char>,
    b: Seq<char>,
    limit: Option<usize>,
)
    requires
        graph_wf(g),
    ensures
        reaches(adjacency(g, Direction::Reverse, false), a, b, limit) <==> reaches(
            adjacency(g, Direction::Forward, false),
            b,
            a,
            limit,
        ),
{
    let fwd = adjacency(g, Direction::Forward, false);
    let rev = adjacency(g, Direction::Reverse, false);
    let most = |p: Seq<Seq<char>>| limit matches Some(m) ==> p.len() <= m + 1;
    if reaches(rev, a, b, limit) {
        let p = choose|p: Seq<Seq<char>>| #[trigger] is_path(rev, p, a, b) && most(p);
        lemma_path_back(g, Direction::Reverse, Direction::Forward, p, a, b);
        assert(is_path(fwd, p.reverse(), b, a) && p.reverse().len() == p.len());
    }
    if reaches(fwd, b, a, limit) {
        let p = choose|p: Seq<Seq<char>>| #[trigger] is_path(fwd, p, b, a) && most(p);
        lemma_path_back(g, Direction::Forward, Direction::Reverse, p, b, a);
        assert(is_path(rev, p.reverse(), a, b) && p.reverse().len() == p.len());
    }
}

/// External crates are asked for forward alone: in reverse the adjacency is the
/// same with them and without.
pub proof fn law_reverse_has_no_external(g: deps::GraphView)
    ensures
        adjacency(g, Direction::Reverse, true) == adjacency(g, Direction::Reverse, false),
{
    let x = adjacency(g, Direction::Reverse, true);
    let y = adjacency(g, Direction::Reverse, false);
    assert forall|a: Seq<char>|
        #![trigger x.contains_key(a)]
        #![trigger y.contains_key(a)]
        x.contains_key(a) == y.contains_key(a) && (x.contains_key(a) ==> x[a] == y[a]) by {
        let p = led_to(g, Direction::Reverse, true, a);
        let q = led_to(g, Direction::Reverse, false, a);
        assert(p =~= q);
        if exists|b: Seq<char>| leads_to(g, Direction::Reverse, true, a, b) {
            let b = choose|b: Seq<char>| leads_to(g, Direction::Reverse, true, a, b);
            assert(leads_to(g, Direction::Reverse, false, a, b));
        }
        if exists|b: Seq<char>| leads_to(g, Direction::Reverse, false, a, b) {
            let b = choose|b: Seq<char>| leads_to(g, Direction::Reverse, false, a, b);
            assert(leads_to(g, Direction::Reverse, true, a, b));
        }
    }
    assert(x =~= y);
}

/// A greater depth limit reaches no less, and no limit at all reaches no less
/// than any. An entry reaches itself.
pub proof fn law_limit_only_hides(
    adj: Map<Seq<char>, Seq<Seq<char>>>,
    a: Seq<char>,
    b: Seq<char>,
    less: usize,
    more: usize,
)
    requires
        less <= more,
    ensures
        reaches(adj, a, b, Some(less)) ==> reaches(adj, a, b, Some(more)),
        reaches(adj, a, b, Some(more)) ==> reaches(adj, a, b, None),
        reaches(adj, a, a, Some(0)),
{
    lemma_within_zero(adj, a, a);
}

/// A Mermaid graph draws an edge only between nodes that it declares, and every
/// node but the entry has an edge that leads to it.
pub proof fn law_edges_join_nodes(
    adj: Map<Seq<char>, Seq<Seq<char>>>,
    entry: Seq<char>,
    limit: Option<usize>,
    a: Seq<char>,
    b: Seq<char>,
)
    ensures
        opens(adj, entry, a, limit) && names::under(adj, a).contains(b) ==> reaches(
            adj,
            entry,
            a,
            limit,
        ) && reaches(adj, entry, b, limit),
        reaches(adj, entry, b, limit) && b != entry ==> exists|c: Seq<char>| #[trigger]
            opens(adj, entry, c, limit) && names::under(adj, c).contains(b),
{
    if opens(adj, entry, a, limit) && names::under(adj, a).contains(b) {
        match limit {
            Some(m) => {
                lemma_within_step(adj, entry, a, (m - 1) as nat);
                lemma_within_step(adj, entry, b, (m - 1) as nat);
            },
            None => {
                let p = choose|p: Seq<Seq<char>>| #[trigger] is_path(adj, p, entry, a);
                let n = p.len() as nat;
                assert(within(adj, entry, a, n));
                lemma_within_step(adj, entry, b, n);
                let q = choose|q: Seq<Seq<char>>| #[trigger]
                    is_path(adj, q, entry, b) && q.len() <= n + 2;
                assert(is_path(adj, q, entry, b));
            },
        }
    }
    if reaches(adj, entry, b, limit) && b != entry {
        let most = |p: Seq<Seq<char>>| limit matches Some(m) ==> p.len() <= m + 1;
        let p = choose|p: Seq<Seq<char>>| #[trigger] is_path(adj, p, entry, b) && most(p);
        let q = p.drop_last();
        let c = q.last();
        assert(p.len() > 1);
        assert forall|i: int| 0 <= i < q.len() - 1 implies #[trigger] linked(adj, q, i) by {
            assert(linked(adj, p, i));
        }
        assert(is_path(adj, q, entry, c));
        assert(linked(adj, p, p.len() - 2));
        assert(opens(adj, entry, c, limit));
    }
}

/// The nodes that a brace tree shows.
pub open spec fn brace_nodes(
    adj: Map<Seq<char>, Seq<Seq<char>>>,
    entry: Seq<char>,
    limit: Option<usize>,
) -> Seq<Seq<char>> {
    brace_of(adj, entry, limit).shown
}

/// Whether the nodes on the way from the entry are shown, and with each other
/// node that is shown and opened what it leads to; and whether all that is shown
/// is reached.
spec fn closed_below(
    adj: Map<Seq<char>, Seq<Seq<char>>>,
    entry: Seq<char>,
    limit: Option<usize>,
    shown: Seq<Seq<char>>,
    way: Seq<Seq<char>>,
) -> bool {
    &&& forall|x: Seq<char>| #[trigger] way.contains(x) ==> shown.contains(x)
    &&& forall|x: Seq<char>, y: Seq<char>|
        #![trigger shown.contains(x), names::under(adj, x).contains(y)]
        shown.contains(x) && !way.contains(x) && opens(adj, entry, x, limit) && names::under(
            adj,
            x,
        ).contains(y) ==> shown.contains(y)
    &&& forall|x: Seq<char>| #[trigger] shown.contains(x) ==> reaches(adj, entry, x, limit)
}

proof fn lemma_put_shown(shown: Seq<Seq<char>>, node: Seq<char>)
    requires
        order::ascending(shown),
    ensures
        order::ascending(order::put(shown, node)),
        forall|x: Seq<char>| #[trigger]
            order::put(shown, node).contains(x) <==> shown.contains(x) || x == node,
{
    let now = order::put(shown, node);
    order::lemma_put(shown, node);
    assert forall|x: Seq<char>| #[trigger] now.contains(x) <==> shown.contains(x) || x == node by {
        order::lemma_put_contains(shown, node, x);
    }
}

proof fn lemma_brace_closed(
    adj: Map<Seq<char>, Seq<Seq<char>>>,
    entry: Seq<char>,
    limit: Option<usize>,
    node: Seq<char>,
    dups: Seq<Seq<char>>,
    shown: Seq<Seq<char>>,
    way: Seq<Seq<char>>,
)
    requires
        adj.dom().finite(),
        order::ascending(shown),
        closed_below(adj, entry, limit, shown, way),
        reaches(adj, entry, node, limit),
    ensures
        ({
            let r = brace_node(adj, entry, limit, node, dups, shown, way).shown;
            &&& order::ascending(r)
            &&& r.contains(node)
            &&& forall|x: Seq<char>| #[trigger] shown.contains(x) ==> r.contains(x)
            &&& closed_below(adj, entry, limit, r, way)
        }),
    decreases nodes_left(adj, way), 0nat,
{
    let kids = names::under(adj, node);
    let now = order::put(shown, node);
    let r = brace_node(adj, entry, limit, node, dups, shown, way).shown;
    if !way.contains(node) && !shown.contains(node) {
        lemma_put_shown(shown, node);
        if kids.len() > 0 && opens(adj, entry, node, limit) {
            let down = way.push(node);
            lemma_nodes_left(adj, way, node);
            assert forall|x: Seq<char>| #[trigger] down.contains(x) implies now.contains(x) by {
                text::lemma_push_contains(way, node, x);
            }
            assert forall|x: Seq<char>, y: Seq<char>|
                #![trigger now.contains(x), names::under(adj, x).contains(y)]
                now.contains(x) && !down.contains(x) && opens(adj, entry, x, limit)
                    && names::under(adj, x).contains(y) implies now.contains(y) by {
                text::lemma_push_contains(way, node, x);
            }
            assert forall|k: int| 0 <= k < kids.len() implies reaches(
                adj,
                entry,
                #[trigger] kids[k],
                limit,
            ) by {
                law_edges_join_nodes(adj, entry, limit, node, kids[k]);
            }
            lemma_brace_children_closed(adj, entry, limit, kids, dups, now, down);
            assert(r == brace_children(adj, entry, limit, kids, dups, now, down).shown);
            assert forall|x: Seq<char>, y: Seq<char>|
                #![trigger r.contains(x), names::under(adj, x).contains(y)]
                r.contains(x) && !way.contains(x) && opens(adj, entry, x, limit)
                    && names::under(adj, x).contains(y) implies r.contains(y) by {
                text::lemma_push_contains(way, node, x);
                if x == node {
                    let k = choose|k: int| 0 <= k < kids.len() && kids[k] == y;
                    assert(r.contains(kids[k]));
                }
            }
            assert forall|x: Seq<char>| #[trigger] way.contains(x) implies r.contains(x) by {
                text::lemma_push_contains(way, node, x);
                assert(down.contains(x));
            }
            assert(r.contains(node)) by {
                text::lemma_push_contains(way, node, node);
                assert(down.contains(node));
            }
            assert forall|x: Seq<char>| #[trigger] shown.contains(x) implies r.contains(x) by {
                assert(now.contains(x));
            }
        } else {
            assert(r == now);
            assert forall|x: Seq<char>, y: Seq<char>|
                #![trigger now.contains(x), names::under(adj, x).contains(y)]
                now.contains(x) && !way.contains(x) && opens(adj, entry, x, limit)
                    && names::under(adj, x).contains(y) implies now.contains(y) by {
                assert(x != node);
            }
        }
    }
}

proof fn lemma_brace_children_closed(
    adj: Map<Seq<char>, Seq<Seq<char>>>,
    entry: Seq<char>,
    limit: Option<usize>,
    kids: Seq<Seq<char>>,
    dups: Seq<Seq<char>>,
    shown: Seq<Seq<char>>,
    way: Seq<Seq<char>>,
)
    requires
        adj.dom().finite(),
        order::ascending(shown),
        closed_below(adj, entry, limit, shown, way),
        forall|k: int| 0 <= k < kids.len() ==> reaches(adj, entry, #[trigger] kids[k], limit),
    ensures
        ({
            let r = brace_children(adj, entry, limit, kids, dups, shown, way).shown;
            &&& order::ascending(r)
            &&& forall|k: int| 0 <= k < kids.len() ==> r.contains(#[trigger] kids[k])
            &&& forall|x: Seq<char>| #[trigger] shown.contains(x) ==> r.contains(x)
            &&& closed_below(adj, entry, limit, r, way)
        }),
    decreases nodes_left(adj, way), kids.len(),
{
    if kids.len() > 0 {
        let rest = kids.drop_last();
        assert forall|k: int| 0 <= k < rest.len() implies reaches(
            adj,
            entry,
            #[trigger] rest[k],
            limit,
        ) by {
            assert(rest[k] == kids[k]);
        }
        lemma_brace_children_closed(adj, entry, limit, rest, dups, shown, way);
        let b = brace_children(adj, entry, limit, rest, dups, shown, way).shown;
        assert(reaches(adj, entry, kids[kids.len() - 1], limit));
        lemma_brace_closed(adj, entry, limit, kids.last(), dups, b, way);
        let r = brace_children(adj, entry, limit, kids, dups, shown, way).shown;
        assert forall|k: int| 0 <= k < kids.len() implies r.contains(#[trigger] kids[k]) by {
            if k < rest.len() {
                assert(b.contains(rest[k]));
            }
        }
    }
}

/// A brace tree shows exactly what is reached within its depth limit.
pub proof fn law_brace_shows_all_the_reached(
    adj: Map<Seq<char>, Seq<Seq<char>>>,
    entry: Seq<char>,
    limit: Option<usize>,
)
    requires
        adj.dom().finite(),
    ensures
        brace_nodes(adj, entry, limit) == reached(adj, entry, limit),
        forall|x: Seq<char>| #[trigger]
            brace_nodes(adj, entry, limit).contains(x) <==> reaches(adj, entry, x, limit),
{
    let shown = brace_nodes(adj, entry, limit);
    let dups = colliding(reached(adj, entry, limit));
    let pred = |b: Seq<char>| reaches(adj, entry, b, limit);
    let none: Seq<Seq<char>> = Seq::empty();
    assert(is_path(adj, seq![entry], entry, entry));
    assert(reaches(adj, entry, entry, limit));
    assert(closed_below(adj, entry, limit, none, none));
    lemma_brace_closed(adj, entry, limit, entry, dups, none, none);
    assert forall|x: Seq<char>| #[trigger] shown.contains(x) <==> pred(x) by {
        if reaches(adj, entry, x, limit) {
            let most = |p: Seq<Seq<char>>| limit matches Some(m) ==> p.len() <= m + 1;
            let p = choose|p: Seq<Seq<char>>| #[trigger] is_path(adj, p, entry, x) && most(p);
            lemma_path_shown(adj, entry, limit, shown, p, p.len() - 1);
        }
    }
    order::lemma_listing(shown, pred);
}

/// The listing of what is reached is in order, and holds exactly what is reached.
pub proof fn lemma_reached(
    adj: Map<Seq<char>, Seq<Seq<char>>>,
    entry: Seq<char>,
    limit: Option<usize>,
)
    requires
        adj.dom().finite(),
    ensures
        order::ascending(reached(adj, entry, limit)),
        forall|x: Seq<char>| #[trigger]
            reached(adj, entry, limit).contains(x) <==> reaches(adj, entry, x, limit),
{
    let dups = colliding(reached(adj, entry, limit));
    let none: Seq<Seq<char>> = Seq::empty();
    law_brace_shows_all_the_reached(adj, entry, limit);
    assert(is_path(adj, seq![entry], entry, entry));
    assert(reaches(adj, entry, entry, limit));
    assert(closed_below(adj, entry, limit, none, none));
    lemma_brace_closed(adj, entry, limit, entry, dups, none, none);
}

proof fn lemma_path_shown(
    adj: Map<Seq<char>, Seq<Seq<char>>>,
    entry: Seq<char>,
    limit: Option<usize>,
    shown: Seq<Seq<char>>,
    path: Seq<Seq<char>>,
    i: int,
)
    requires
        0 <= i < path.len(),
        shown.contains(entry),
        closed_below(adj, entry, limit, shown, Seq::empty()),
        is_path(adj, path, entry, path.last()),
        limit matches Some(m) ==> path.len() <= m + 1,
    ensures
        shown.contains(path[i]),
    decreases i,
{
    if i > 0 {
        lemma_path_shown(adj, entry, limit, shown, path, i - 1);
        assert(linked(adj, path, i - 1));
        let p = path.take(i);
        assert forall|j: int| 0 <= j < p.len() - 1 implies #[trigger] linked(adj, p, j) by {
            assert(linked(adj, path, j));
        }
        assert(is_path(adj, p, entry, path[i - 1]));
        assert(opens(adj, entry, path[i - 1], limit));
    }
}

/// How often `node` stands without `*` and `~` among labels.
pub open spec fn times_shown(labels: Seq<LabelView>, node: Seq<char>) -> nat
    decreases labels.len(),
{
    if labels.len() == 0 {
        0
    } else {
        let last = labels.last();
        times_shown(labels.drop_last(), node) + if last.node == node && (last.mark is Plain
            || last.mark is Cut) {
            1nat
        } else {
            0
        }
    }
}

/// The number of edges from each of `nodes`.
pub open spec fn edge_count(
    adj: Map<Seq<char>, Seq<Seq<char>>>,
    nodes: Seq<Seq<char>>,
) -> nat
    decreases nodes.len(),
{
    if nodes.len() == 0 {
        0
    } else {
        names::under(adj, nodes[0]).len() + edge_count(adj, nodes.drop_first())
    }
}

/// Those of `nodes` that are opened.
spec fn opened_among(
    adj: Map<Seq<char>, Seq<Seq<char>>>,
    entry: Seq<char>,
    limit: Option<usize>,
    nodes: Seq<Seq<char>>,
) -> Seq<Seq<char>>
    decreases nodes.len(),
{
    if nodes.len() == 0 {
        Seq::empty()
    } else {
        let rest = opened_among(adj, entry, limit, nodes.drop_first());
        if opens(adj, entry, nodes[0], limit) {
            seq![nodes[0]] + rest
        } else {
            rest
        }
    }
}

proof fn lemma_opened_among(
    adj: Map<Seq<char>, Seq<Seq<char>>>,
    entry: Seq<char>,
    limit: Option<usize>,
    nodes: Seq<Seq<char>>,
    x: Seq<char>,
)
    requires
        order::ascending(nodes),
    ensures
        opened_among(adj, entry, limit, nodes).contains(x) <==> nodes.contains(x) && opens(
            adj,
            entry,
            x,
            limit,
        ),
        order::ascending(opened_among(adj, entry, limit, nodes)),
    decreases nodes.len(),
{
    if nodes.len() > 0 {
        let t = nodes.drop_first();
        let first = nodes[0];
        assert forall|i: int, j: int| 0 <= i < j < t.len() implies order::before(
            #[trigger] t[i],
            #[trigger] t[j],
        ) by {
            assert(order::before(nodes[i + 1], nodes[j + 1]));
        }
        assert(nodes =~= seq![first] + t);
        lemma_opened_among(adj, entry, limit, t, x);
        text::lemma_front_contains(first, t, x);
        let rest = opened_among(adj, entry, limit, t);
        text::lemma_front_contains(first, rest, x);
        let all = seq![first] + rest;
        assert forall|i: int, j: int| 0 <= i < j < all.len() implies order::before(
            #[trigger] all[i],
            #[trigger] all[j],
        ) by {
            if i > 0 {
                assert(order::before(rest[i - 1], rest[j - 1]));
            } else {
                lemma_opened_among(adj, entry, limit, t, rest[j - 1]);
                assert(rest.contains(rest[j - 1]));
                let k = choose|k: int| 0 <= k < t.len() && t[k] == rest[j - 1];
                assert(order::before(nodes[0], nodes[k + 1]));
            }
        }
    }
}

/// Putting a new node in adds its edges, if it is opened.
proof fn lemma_put_opened(
    adj: Map<Seq<char>, Seq<Seq<char>>>,
    entry: Seq<char>,
    limit: Option<usize>,
    nodes: Seq<Seq<char>>,
    x: Seq<char>,
)
    requires
        !nodes.contains(x),
    ensures
        edge_count(adj, opened_among(adj, entry, limit, order::put(nodes, x))) == edge_count(
            adj,
            opened_among(adj, entry, limit, nodes),
        ) + if opens(adj, entry, x, limit) {
            names::under(adj, x).len()
        } else {
            0
        },
    decreases nodes.len(),
{
    let p = order::put(nodes, x);
    if nodes.len() == 0 {
        assert(p.drop_first() =~= Seq::empty());
        lemma_edges_front(adj, x, opened_among(adj, entry, limit, p.drop_first()));
    } else {
        let t = nodes.drop_first();
        assert(nodes =~= seq![nodes[0]] + t);
        text::lemma_front_contains(nodes[0], t, x);
        lemma_edges_front(adj, nodes[0], opened_among(adj, entry, limit, t));
        if order::before(x, nodes[0]) {
            assert(p.drop_first() =~= nodes);
            lemma_edges_front(adj, x, opened_among(adj, entry, limit, nodes));
        } else {
            lemma_put_opened(adj, entry, limit, t, x);
            assert(p.drop_first() =~= order::put(t, x));
            lemma_edges_front(
                adj,
                nodes[0],
                opened_among(adj, entry, limit, order::put(t, x)),
            );
        }
    }
}

proof fn lemma_edges_front(
    adj: Map<Seq<char>, Seq<Seq<char>>>,
    x: Seq<char>,
    nodes: Seq<Seq<char>>,
)
    ensures
        edge_count(adj, seq![x] + nodes) == names::under(adj, x).len() + edge_count(adj, nodes),
{
    assert((seq![x] + nodes).drop_first() =~= nodes);
}

proof fn lemma_times_add(a: Seq<LabelView>, b: Seq<LabelView>, x: Seq<char>)
    ensures
        times_shown(a + b, x) == times_shown(a, x) + times_shown(b, x),
    decreases b.len(),
{
    if b.len() == 0 {
        assert(a + b =~= a);
    } else {
        lemma_times_add(a, b.drop_last(), x);
        assert((a + b).drop_last() =~= a + b.drop_last());
    }
}

proof fn lemma_times_one(l: LabelView, x: Seq<char>)
    ensures
        times_shown(seq![l], x) == if l.node == x && (l.mark is Plain || l.mark is Cut) {
            1nat
        } else {
            0
        },
{
    let one = seq![l];
    assert(one.drop_last() =~= Seq::empty());
    assert(times_shown(one.drop_last(), x) == 0);
    assert(one.last() == l);
}

/// One if `node` is among `nodes`, and zero if not.
spec fn one_if(nodes: Seq<Seq<char>>, node: Seq<char>) -> nat {
    if nodes.contains(node) {
        1
    } else {
        0
    }
}

/// What holds of a label: it stands at the end of its way, and its mark says
/// what the node is there.
pub open spec fn label_holds(
    adj: Map<Seq<char>, Seq<Seq<char>>>,
    entry: Seq<char>,
    limit: Option<usize>,
    l: LabelView,
) -> bool {
    &&& is_path(adj, l.way.push(l.node), entry, l.node)
    &&& l.mark is Back <==> l.way.contains(l.node)
    &&& l.mark is Cut ==> names::under(adj, l.node).len() > 0 && !opens(adj, entry, l.node, limit)
}

spec fn labels_hold(
    adj: Map<Seq<char>, Seq<Seq<char>>>,
    entry: Seq<char>,
    limit: Option<usize>,
    labels: Seq<LabelView>,
) -> bool {
    forall|i: int| 0 <= i < labels.len() ==> label_holds(adj, entry, limit, #[trigger] labels[i])
}

proof fn lemma_labels_add(
    adj: Map<Seq<char>, Seq<Seq<char>>>,
    entry: Seq<char>,
    limit: Option<usize>,
    a: Seq<LabelView>,
    b: Seq<LabelView>,
)
    requires
        labels_hold(adj, entry, limit, a),
        labels_hold(adj, entry, limit, b),
    ensures
        labels_hold(adj, entry, limit, a + b),
{
    assert forall|i: int| 0 <= i < (a + b).len() implies label_holds(
        adj,
        entry,
        limit,
        #[trigger] (a + b)[i],
    ) by {
        if i < a.len() {
            assert((a + b)[i] == a[i]);
        } else {
            assert((a + b)[i] == b[i - a.len()]);
        }
    }
}

proof fn lemma_brace_labels(
    adj: Map<Seq<char>, Seq<Seq<char>>>,
    entry: Seq<char>,
    limit: Option<usize>,
    node: Seq<char>,
    dups: Seq<Seq<char>>,
    shown: Seq<Seq<char>>,
    way: Seq<Seq<char>>,
    x: Seq<char>,
)
    requires
        adj.dom().finite(),
        order::ascending(shown),
        is_path(adj, way.push(node), entry, node),
    ensures
        ({
            let b = brace_node(adj, entry, limit, node, dups, shown, way);
            &&& order::ascending(b.shown)
            &&& labels_hold(adj, entry, limit, b.labels)
            &&& times_shown(b.labels, x) + one_if(shown, x) == one_if(b.shown, x)
            &&& b.labels.len() + edge_count(adj, opened_among(adj, entry, limit, shown)) == 1
                + edge_count(adj, opened_among(adj, entry, limit, b.shown))
        }),
    decreases nodes_left(adj, way), 0nat,
{
    let kids = names::under(adj, node);
    let now = order::put(shown, node);
    let b = brace_node(adj, entry, limit, node, dups, shown, way);
    let head = seq![b.labels[0]];
    lemma_times_one(b.labels[0], x);
    if way.contains(node) || shown.contains(node) {
        assert(b.labels =~= head);
    } else {
        lemma_put_shown(shown, node);
        lemma_put_opened(adj, entry, limit, shown, node);
        if kids.len() > 0 && opens(adj, entry, node, limit) {
            let down = way.push(node);
            lemma_nodes_left(adj, way, node);
            assert forall|k: int| 0 <= k < kids.len() implies is_path(
                adj,
                down.push(#[trigger] kids[k]),
                entry,
                kids[k],
            ) by {
                let p = down.push(kids[k]);
                assert forall|i: int| 0 <= i < p.len() - 1 implies #[trigger] linked(
                    adj,
                    p,
                    i,
                ) by {
                    if i < down.len() - 1 {
                        assert(linked(adj, down, i));
                    } else {
                        assert(kids.contains(kids[k]));
                    }
                }
            }
            lemma_brace_children_labels(adj, entry, limit, kids, dups, now, down, x);
            let inner = brace_children(adj, entry, limit, kids, dups, now, down);
            assert(b.labels =~= head + inner.labels);
            assert(labels_hold(adj, entry, limit, head));
            lemma_labels_add(adj, entry, limit, head, inner.labels);
            lemma_times_add(head, inner.labels, x);
        } else {
            assert(b.labels =~= head);
            assert(b.shown == now);
        }
    }
}

proof fn lemma_brace_children_labels(
    adj: Map<Seq<char>, Seq<Seq<char>>>,
    entry: Seq<char>,
    limit: Option<usize>,
    kids: Seq<Seq<char>>,
    dups: Seq<Seq<char>>,
    shown: Seq<Seq<char>>,
    way: Seq<Seq<char>>,
    x: Seq<char>,
)
    requires
        adj.dom().finite(),
        order::ascending(shown),
        forall|k: int|
            0 <= k < kids.len() ==> is_path(adj, way.push(#[trigger] kids[k]), entry, kids[k]),
    ensures
        ({
            let b = brace_children(adj, entry, limit, kids, dups, shown, way);
            &&& order::ascending(b.shown)
            &&& labels_hold(adj, entry, limit, b.labels)
            &&& times_shown(b.labels, x) + one_if(shown, x) == one_if(b.shown, x)
            &&& b.labels.len() + edge_count(adj, opened_among(adj, entry, limit, shown))
                == kids.len() + edge_count(adj, opened_among(adj, entry, limit, b.shown))
        }),
    decreases nodes_left(adj, way), kids.len(),
{
    if kids.len() > 0 {
        let rest = kids.drop_last();
        assert forall|k: int| 0 <= k < rest.len() implies is_path(
            adj,
            way.push(#[trigger] rest[k]),
            entry,
            rest[k],
        ) by {
            assert(rest[k] == kids[k]);
        }
        lemma_brace_children_labels(adj, entry, limit, rest, dups, shown, way, x);
        let b = brace_children(adj, entry, limit, rest, dups, shown, way);
        assert(is_path(adj, way.push(kids[kids.len() - 1]), entry, kids.last()));
        lemma_brace_labels(adj, entry, limit, kids.last(), dups, b.shown, way, x);
        let c = brace_node(adj, entry, limit, kids.last(), dups, b.shown, way);
        lemma_labels_add(adj, entry, limit, b.labels, c.labels);
        lemma_times_add(b.labels, c.labels, x);
    }
}

/// In a brace tree each reached node stands exactly once without `*` and `~`,
/// and nothing else does. There is one label more than there are edges to follow.
/// A label is marked `~` exactly if its node is on the way to it from the entry,
/// and `{…}` only where the depth limit ends; without a limit nowhere.
pub proof fn law_brace_labels(
    adj: Map<Seq<char>, Seq<Seq<char>>>,
    entry: Seq<char>,
    limit: Option<usize>,
    node: Seq<char>,
    i: int,
)
    requires
        adj.dom().finite(),
        0 <= i < brace_of(adj, entry, limit).labels.len(),
    ensures
        times_shown(brace_of(adj, entry, limit).labels, node) == if reaches(
            adj,
            entry,
            node,
            limit,
        ) {
            1nat
        } else {
            0
        },
        brace_of(adj, entry, limit).labels.len() == 1 + edge_count(
            adj,
            opened(adj, entry, limit),
        ),
        label_holds(adj, entry, limit, brace_of(adj, entry, limit).labels[i]),
        limit is None ==> !(brace_of(adj, entry, limit).labels[i].mark is Cut),
{
    let b = brace_of(adj, entry, limit);
    let dups = colliding(reached(adj, entry, limit));
    let none: Seq<Seq<char>> = Seq::empty();
    assert(none.push(entry) =~= seq![entry]);
    assert(is_path(adj, none.push(entry), entry, entry));
    lemma_brace_labels(adj, entry, limit, entry, dups, none, none, node);
    law_brace_shows_all_the_reached(adj, entry, limit);
    assert(b.shown.contains(node) <==> reaches(adj, entry, node, limit));
    let open = opened_among(adj, entry, limit, b.shown);
    let pred = |x: Seq<char>| opens(adj, entry, x, limit);
    assert forall|x: Seq<char>| #[trigger] open.contains(x) <==> pred(x) by {
        lemma_opened_among(adj, entry, limit, b.shown, x);
        if opens(adj, entry, x, limit) {
            lemma_opens_reaches(adj, entry, x, limit);
            assert(b.shown.contains(x));
        }
    }
    lemma_opened_among(adj, entry, limit, b.shown, entry);
    order::lemma_listing(open, pred);
    let l = b.labels[i];
    assert(label_holds(adj, entry, limit, l));
}

/// The listing of the nodes whose edges are followed is in order, and holds
/// exactly these.
pub proof fn lemma_opened(
    adj: Map<Seq<char>, Seq<Seq<char>>>,
    entry: Seq<char>,
    limit: Option<usize>,
)
    requires
        adj.dom().finite(),
    ensures
        order::ascending(opened(adj, entry, limit)),
        forall|x: Seq<char>| #[trigger]
            opened(adj, entry, limit).contains(x) <==> opens(adj, entry, x, limit),
{
    let pred = |x: Seq<char>| opens(adj, entry, x, limit);
    let nodes = reached(adj, entry, limit);
    let all = nodes.filter(pred);
    let s = order::collected(all);
    lemma_reached(adj, entry, limit);
    order::lemma_collected(all);
    order::lemma_collected_contains(all);
    assert forall|x: Seq<char>| #[trigger] s.contains(x) <==> pred(x) by {
        broadcast use vstd::seq_lib::group_filter_ensures;

        if pred(x) {
            lemma_opens_reaches(adj, entry, x, limit);
            assert(nodes.contains(x));
        }
    }
    order::lemma_listing(s, pred);
    assert forall|x: Seq<char>| #[trigger] opened(adj, entry, limit).contains(x) <==> opens(
        adj,
        entry,
        x,
        limit,
    ) by {
        assert(s.contains(x) <==> pred(x));
    }
}

proof fn lemma_opens_reaches(
    adj: Map<Seq<char>, Seq<Seq<char>>>,
    a: Seq<char>,
    b: Seq<char>,
    limit: Option<usize>,
)
    requires
        opens(adj, a, b, limit),
    ensures
        reaches(adj, a, b, limit),
{
    if let Some(m) = limit {
        lemma_within_more(adj, a, b, (m - 1) as nat, m as nat);
    }
}

/// Nothing follows a label that is marked `*` or `~`: it is all that is written
/// of its node.
pub proof fn law_marked_label_stands_alone(
    adj: Map<Seq<char>, Seq<Seq<char>>>,
    entry: Seq<char>,
    limit: Option<usize>,
    node: Seq<char>,
    dups: Seq<Seq<char>>,
    shown: Seq<Seq<char>>,
    way: Seq<Seq<char>>,
)
    requires
        way.contains(node) || shown.contains(node),
    ensures
        ({
            let b = brace_node(adj, entry, limit, node, dups, shown, way);
            &&& b.text == clear_label(node, dups) + if way.contains(node) {
                "~"@
            } else {
                "*"@
            }
            &&& b.labels.len() == 1
            &&& b.shown == shown
        }),
{
}

} // verus!
