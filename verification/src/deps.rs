//! File-level dependency graph from `use` and `mod` statements.
//!
//! Each `use` path is resolved against the module tree:
//!   - `crate::*` from the crate root
//!   - `self::*`  from the current module
//!   - `super::*` from the parent module
//!   - other      an external crate (first segment)
//!
//! which gives edges: internal (file to file) and external (file to crate).
//!
//! Limitations:
//!   - Single-crate only. Workspace + `[[bin]]` overrides not parsed.
//!   - Inline `mod x { ... }` is a child whose file is the parent file.
//!   - Glob `use a::b::*;` resolves to the module's file (one edge).
//!   - Cfg-gated `mod`/`use` items are followed unconditionally.

use vstd::prelude::*;

use crate::modtree::{build_mod_tree, find_crate_root, Disk, Found, ModNode, ModTree};
use crate::names::{EdgeMap, NameSet};
use crate::order::{find_slot, Slot};
use crate::syntax::{Decl, ImportTree};
use crate::{modtree, names, order, paths, similar, syntax, text};

verus! {

#[derive(Debug, Clone, Copy)]
pub enum Mode {
    Forward,
    Reverse,
}

#[derive(Debug)]
pub struct DepsOptions {
    /// The canonical path of a file to show alone.
    pub focus: Option<String>,
    pub mode: Mode,
    pub include_external: bool,
    /// Optional repo-relative path prefix. When set, whole-repo rendering
    /// only emits rows whose file (forward) or target (reverse) lies
    /// under this prefix. Has no effect in focus mode.
    pub scope: Option<String>,
}

#[derive(Debug)]
pub struct Graph {
    /// The internal files that a file imports via `use`.
    pub out_internal: EdgeMap,
    /// The external crates that a file imports.
    pub out_external: EdgeMap,
    /// The child files that a file declares via `mod x;`. Distinct from
    /// `out_internal` because `mod` and `use` are semantically different.
    pub mod_edges: EdgeMap,
    /// All files seen (so isolated nodes still appear).
    pub files: NameSet,
}

impl Default for Graph {
    fn default() -> (r: Graph)
        ensures
            r.out_internal@ == Map::<Seq<char>, Seq<Seq<char>>>::empty(),
            r.out_internal.keys() == Seq::<Seq<char>>::empty(),
            r.out_external@ == Map::<Seq<char>, Seq<Seq<char>>>::empty(),
            r.out_external.keys() == Seq::<Seq<char>>::empty(),
            r.mod_edges@ == Map::<Seq<char>, Seq<Seq<char>>>::empty(),
            r.mod_edges.keys() == Seq::<Seq<char>>::empty(),
            r.files@ == Seq::<Seq<char>>::empty(),
    {
        Graph {
            out_internal: EdgeMap::new(),
            out_external: EdgeMap::new(),
            mod_edges: EdgeMap::new(),
            files: NameSet::new(),
        }
    }
}

// --- use paths -----------------------------------------------------------------------------

/// The paths that a `use` tree names, behind `prefix`. A glob names the path in
/// front of it.
pub open spec fn flat_use(tree: syntax::ImportView, prefix: Seq<Seq<char>>) -> Seq<Seq<Seq<char>>>
    decreases tree,
{
    match tree {
        syntax::ImportView::Path(name, rest) => flat_use(*rest, prefix.push(name)),
        syntax::ImportView::Name(name) => seq![prefix.push(name)],
        syntax::ImportView::Rename(name) => seq![prefix.push(name)],
        syntax::ImportView::Glob => seq![prefix],
        syntax::ImportView::Group(trees) => flat_uses(trees, prefix),
    }
}

pub open spec fn flat_uses(trees: Seq<syntax::ImportView>, prefix: Seq<Seq<char>>) -> Seq<
    Seq<Seq<char>>,
>
    decreases trees,
{
    if trees.len() == 0 {
        Seq::empty()
    } else {
        flat_uses(trees.drop_last(), prefix) + flat_use(trees[trees.len() - 1], prefix)
    }
}

/// The paths named by the `use` items among `items`, each with the module in
/// which it stands. An inline module extends the module path.
pub open spec fn use_paths(items: Seq<syntax::DeclView>, modpath: Seq<Seq<char>>) -> Seq<
    (Seq<Seq<char>>, Seq<Seq<char>>),
>
    decreases items,
{
    if items.len() == 0 {
        Seq::empty()
    } else {
        use_paths(items.drop_last(), modpath) + match items[items.len() - 1] {
            syntax::DeclView::Use(tree) => flat_use(tree, Seq::empty()).map_values(
                |p: Seq<Seq<char>>| (p, modpath),
            ),
            syntax::DeclView::Mod { name, content: Some(inner) } => use_paths(
                inner,
                modpath.push(name),
            ),
            _ => Seq::empty(),
        }
    }
}

pub open spec fn paths_view(v: Seq<Vec<String>>) -> Seq<Seq<Seq<char>>> {
    v.map_values(|p: Vec<String>| text::texts(p@))
}

/// Appends the paths that a `use` tree names, behind `prefix`.
pub fn flatten_use(tree: &ImportTree, prefix: &Vec<String>, out: &mut Vec<Vec<String>>)
    ensures
        paths_view(final(out)@) == paths_view(old(out)@) + flat_use(
            syntax::import_view(*tree),
            text::texts(prefix@),
        ),
    decreases tree,
{
    let ghost before = paths_view(out@);
    let ghost p = text::texts(prefix@);
    match tree {
        ImportTree::Path(name, rest) => {
            let longer = text::extended(prefix, name.as_str());
            flatten_use(rest, &longer, out);
        },
        ImportTree::Name(name) | ImportTree::Rename(name) => {
            out.push(text::extended(prefix, name.as_str()));
            proof {
                assert(paths_view(out@) =~= before + seq![p.push(name@)]);
            }
        },
        ImportTree::Glob => {
            out.push(text::copied(prefix));
            proof {
                assert(paths_view(out@) =~= before + seq![p]);
            }
        },
        ImportTree::Group(trees) => {
            let ghost ts = syntax::imports_view(trees@);
            proof {
                assert(ts.take(0) =~= Seq::empty());
                assert(before + Seq::<Seq<Seq<char>>>::empty() =~= before);
            }
            for k in 0..trees.len()
                invariant
                    tree == (ImportTree::Group(*trees)),
                    ts == syntax::imports_view(trees@),
                    p == text::texts(prefix@),
                    paths_view(out@) == before + flat_uses(ts.take(k as int), p),
            {
                proof {
                    assert(ts.take(k + 1).drop_last() =~= ts.take(k as int));
                    assert(ts[k as int] == syntax::import_view(trees@[k as int]));
                    assert(decreases_to!(*tree => tree->Group_0));
                    assert(decreases_to!(tree->Group_0@ => trees@[k as int]));
                }
                flatten_use(&trees[k], prefix, out);
                proof {
                    assert(paths_view(out@) =~= before + flat_uses(ts.take(k + 1), p));
                }
            }
            proof {
                assert(ts.take(ts.len() as int) =~= ts);
            }
        },
    }
}

/// A path named by a `use` item, and the module in which it stands.
#[derive(Debug)]
pub struct UsePathSite {
    pub path: Vec<String>,
    pub modpath: Vec<String>,
}

pub open spec fn sites_view(v: Seq<UsePathSite>) -> Seq<(Seq<Seq<char>>, Seq<Seq<char>>)> {
    v.map_values(|s: UsePathSite| (text::texts(s.path@), text::texts(s.modpath@)))
}

/// Appends every `use` path along with the module path it appears under. Inline
/// `mod x { ... }` extends the module path so `super::` resolves correctly from
/// inside test modules and other inline submodules.
pub fn collect_uses_with_modpath(
    items: &Vec<Decl>,
    modpath: &Vec<String>,
    out: &mut Vec<UsePathSite>,
)
    ensures
        sites_view(final(out)@) == sites_view(old(out)@) + use_paths(
            syntax::decls_view(items@),
            text::texts(modpath@),
        ),
    decreases items,
{
    let ghost ds = syntax::decls_view(items@);
    let ghost mp = text::texts(modpath@);
    let ghost before = sites_view(out@);
    proof {
        assert(ds.take(0) =~= Seq::empty());
        assert(before + Seq::<(Seq<Seq<char>>, Seq<Seq<char>>)>::empty() =~= before);
    }
    for k in 0..items.len()
        invariant
            ds == syntax::decls_view(items@),
            mp == text::texts(modpath@),
            sites_view(out@) == before + use_paths(ds.take(k as int), mp),
    {
        proof {
            assert(ds.take(k + 1).drop_last() =~= ds.take(k as int));
            assert(ds[k as int] == syntax::decl_view(items@[k as int]));
            assert(decreases_to!(items@ => items@[k as int]));
        }
        let ghost prev = sites_view(out@);
        match &items[k] {
            Decl::Use(tree) => {
                let none: Vec<String> = Vec::new();
                let mut found: Vec<Vec<String>> = Vec::new();
                flatten_use(tree, &none, &mut found);
                let ghost fs = flat_use(syntax::import_view(*tree), Seq::empty());
                let ghost f = |p: Seq<Seq<char>>| (p, mp);
                proof {
                    assert(text::texts(none@) =~= Seq::empty());
                    assert(paths_view(found@) =~= fs);
                    assert(prev + fs.take(0).map_values(f) =~= prev);
                }
                for p in it: found
                    invariant
                        it.seq() == found@,
                        paths_view(found@) == fs,
                        mp == text::texts(modpath@),
                        f == (|p: Seq<Seq<char>>| (p, mp)),
                        sites_view(out@) == prev + fs.take(it.index() as int).map_values(f),
                {
                    let ghost j = it.index() as int;
                    let ghost old_out = out@;
                    proof {
                        assert(fs[j] == text::texts(p@));
                        assert(fs.take(j + 1).map_values(f) =~= fs.take(j).map_values(f).push(
                            (fs[j], mp),
                        ));
                    }
                    out.push(UsePathSite { path: p, modpath: text::copied(modpath) });
                    proof {
                        assert(sites_view(out@) =~= sites_view(old_out).push((fs[j], mp)));
                    }
                }
                proof {
                    assert(fs.take(fs.len() as int) =~= fs);
                }
            },
            Decl::Mod { name, content: Some(inner) } => {
                proof {
                    let c = items@[k as int]->content;
                    assert(decreases_to!(items@[k as int] => c));
                    assert(decreases_to!(c => c->0));
                }
                let child = text::extended(modpath, name.as_str());
                collect_uses_with_modpath(inner, &child, out);
            },
            _ => {},
        }
        proof {
            assert(sites_view(out@) =~= before + use_paths(ds.take(k + 1), mp));
        }
    }
    proof {
        assert(ds.take(ds.len() as int) =~= ds);
    }
}

// --- resolution ------------------------------------------------------------------------------

/// What a `use` path leads to: a file of the crate, or another crate.
#[derive(Debug)]
pub enum Resolution {
    Internal(String),
    External(String),
}

/// What a [`Resolution`] holds.
pub enum ResolutionView {
    Internal(Seq<char>),
    External(Seq<char>),
}

impl View for Resolution {
    type V = ResolutionView;

    open spec fn view(&self) -> ResolutionView {
        match *self {
            Resolution::Internal(f) => ResolutionView::Internal(f@),
            Resolution::External(c) => ResolutionView::External(c@),
        }
    }
}

/// The child module `name`.
pub open spec fn child_of(m: modtree::ModView, name: Seq<char>) -> Option<modtree::ModView> {
    if m.names.contains(name) {
        Some(m.nodes[m.names.index_of(name)])
    } else {
        None
    }
}

/// The module with the path `path` below `m`.
pub open spec fn module_at(m: modtree::ModView, path: Seq<Seq<char>>) -> Option<modtree::ModView>
    decreases path.len(),
{
    if path.len() == 0 {
        Some(m)
    } else {
        match child_of(m, path[0]) {
            Some(c) => module_at(c, path.drop_first()),
            None => None,
        }
    }
}

/// The module that is reached from `m` by following `segments` as far as they
/// name child modules.
pub open spec fn deepest(m: modtree::ModView, segments: Seq<Seq<char>>) -> modtree::ModView
    decreases segments.len(),
{
    if segments.len() == 0 {
        m
    } else {
        match child_of(m, segments[0]) {
            Some(c) => deepest(c, segments.drop_first()),
            None => m,
        }
    }
}

/// The number of leading `super`s.
pub open spec fn supers(segments: Seq<Seq<char>>) -> nat
    decreases segments.len(),
{
    if segments.len() > 0 && segments[0] == "super"@ {
        1 + supers(segments.drop_first())
    } else {
        0
    }
}

/// The module at `path`, and from there on as far as `rest` leads.
pub open spec fn file_from(
    root: modtree::ModView,
    path: Seq<Seq<char>>,
    rest: Seq<Seq<char>>,
) -> Option<ResolutionView> {
    match module_at(root, path) {
        Some(m) => Some(ResolutionView::Internal(deepest(m, rest).file)),
        None => None,
    }
}

/// What a `use` path in the module `modpath` leads to.
pub open spec fn resolved(
    segments: Seq<Seq<char>>,
    modpath: Seq<Seq<char>>,
    root: modtree::ModView,
) -> Option<ResolutionView> {
    if segments.len() == 0 {
        None
    } else if segments[0] == "crate"@ {
        file_from(root, Seq::empty(), segments.skip(1))
    } else if segments[0] == "self"@ {
        file_from(root, modpath, segments.skip(1))
    } else if segments[0] == "super"@ {
        let up = supers(segments);
        if up > modpath.len() {
            None
        } else {
            file_from(root, modpath.take(modpath.len() - up), segments.skip(up as int))
        }
    } else {
        Some(ResolutionView::External(segments[0]))
    }
}

/// The child module `name`.
fn child<'a>(m: &'a ModNode, name: &str) -> (r: Option<&'a ModNode>)
    requires
        modtree::mod_wf(modtree::mod_view(*m)),
    ensures
        match r {
            Some(c) => {
                &&& child_of(modtree::mod_view(*m), name@) == Some(modtree::mod_view(*c))
                &&& modtree::mod_wf(modtree::mod_view(*c))
            },
            None => child_of(modtree::mod_view(*m), name@) is None,
        },
{
    let ghost v = modtree::mod_view(*m);
    match find_slot(&m.names, name) {
        Slot::Found(i) => {
            proof {
                order::lemma_ascending_distinct(v.names);
                assert(v.names[i as int] == name@);
                assert(v.names.contains(name@));
                assert(v.names.index_of(name@) == i);
                assert(v.nodes[i as int] == modtree::mod_view(m.nodes@[i as int]));
            }
            Some(&m.nodes[i])
        },
        Slot::Vacant(_) => None,
    }
}

/// The module with the path made of the first `n` parts of `path`.
fn navigate<'a>(root: &'a ModNode, path: &Vec<String>, n: usize) -> (r: Option<&'a ModNode>)
    requires
        modtree::mod_wf(modtree::mod_view(*root)),
        n <= path.len(),
    ensures
        match r {
            Some(m) => {
                &&& module_at(modtree::mod_view(*root), text::texts(path@).take(n as int)) == Some(
                    modtree::mod_view(*m),
                )
                &&& modtree::mod_wf(modtree::mod_view(*m))
            },
            None => module_at(
                modtree::mod_view(*root),
                text::texts(path@).take(n as int),
            ) is None,
        },
{
    let ghost ps = text::texts(path@).take(n as int);
    let mut m = root;
    let mut k: usize = 0;
    proof {
        assert(ps.skip(0) =~= ps);
    }
    while k < n
        invariant
            k <= n <= path.len(),
            ps == text::texts(path@).take(n as int),
            modtree::mod_wf(modtree::mod_view(*m)),
            module_at(modtree::mod_view(*root), ps) == module_at(
                modtree::mod_view(*m),
                ps.skip(k as int),
            ),
        decreases n - k,
    {
        proof {
            assert(ps.skip(k as int).drop_first() =~= ps.skip(k + 1));
            assert(ps.skip(k as int)[0] == path@[k as int]@);
        }
        match child(m, path[k].as_str()) {
            Some(c) => {
                m = c;
            },
            None => {
                return None;
            },
        }
        k = k + 1;
    }
    Some(m)
}

/// The file of the module that is reached from `m` by following the segments
/// from position `from` on.
fn descend(m: &ModNode, segments: &Vec<String>, from: usize) -> (r: String)
    requires
        modtree::mod_wf(modtree::mod_view(*m)),
        from <= segments.len(),
    ensures
        r@ == deepest(modtree::mod_view(*m), text::texts(segments@).skip(from as int)).file,
{
    let ghost ss = text::texts(segments@);
    let mut cur = m;
    let mut k: usize = from;
    while k < segments.len()
        invariant
            from <= k <= segments.len(),
            ss == text::texts(segments@),
            modtree::mod_wf(modtree::mod_view(*cur)),
            deepest(modtree::mod_view(*m), ss.skip(from as int)) == deepest(
                modtree::mod_view(*cur),
                ss.skip(k as int),
            ),
        decreases segments.len() - k,
    {
        proof {
            assert(ss.skip(k as int).drop_first() =~= ss.skip(k + 1));
            assert(ss.skip(k as int)[0] == segments@[k as int]@);
        }
        match child(cur, segments[k].as_str()) {
            Some(c) => {
                cur = c;
            },
            None => {
                return cur.file.clone();
            },
        }
        k = k + 1;
    }
    cur.file.clone()
}

fn resolve_from(
    root: &ModNode,
    path: &Vec<String>,
    n: usize,
    segments: &Vec<String>,
    from: usize,
) -> (r: Option<Resolution>)
    requires
        modtree::mod_wf(modtree::mod_view(*root)),
        n <= path.len(),
        from <= segments.len(),
    ensures
        opt_resolution(r) == file_from(
            modtree::mod_view(*root),
            text::texts(path@).take(n as int),
            text::texts(segments@).skip(from as int),
        ),
{
    match navigate(root, path, n) {
        Some(m) => Some(Resolution::Internal(descend(m, segments, from))),
        None => None,
    }
}

pub open spec fn opt_resolution(r: Option<Resolution>) -> Option<ResolutionView> {
    match r {
        Some(r) => Some(r@),
        None => None,
    }
}

/// The number of leading `super`s.
fn count_supers(segments: &Vec<String>) -> (r: usize)
    ensures
        r == supers(text::texts(segments@)),
        r <= segments.len(),
{
    let ghost ss = text::texts(segments@);
    let mut k: usize = 0;
    proof {
        assert(ss.skip(0) =~= ss);
    }
    while k < segments.len() && text::same_text(segments[k].as_str(), "super")
        invariant
            k <= segments.len(),
            ss == text::texts(segments@),
            supers(ss) == k + supers(ss.skip(k as int)),
        decreases segments.len() - k,
    {
        proof {
            assert(ss.skip(k as int).drop_first() =~= ss.skip(k + 1));
            assert(ss.skip(k as int)[0] == segments@[k as int]@);
        }
        k = k + 1;
    }
    proof {
        if k < segments.len() {
            assert(ss.skip(k as int)[0] == segments@[k as int]@);
        }
    }
    k
}

/// What a `use` path in the module `modpath` leads to.
pub fn resolve(segments: &Vec<String>, modpath: &Vec<String>, root: &ModNode) -> (r: Option<
    Resolution,
>)
    requires
        modtree::mod_wf(modtree::mod_view(*root)),
    ensures
        opt_resolution(r) == resolved(
            text::texts(segments@),
            text::texts(modpath@),
            modtree::mod_view(*root),
        ),
{
    let ghost mp = text::texts(modpath@);
    if segments.len() == 0 {
        return None;
    }
    proof {
        assert(text::texts(segments@)[0] == segments@[0]@);
        assert(mp.take(0) =~= Seq::empty());
        assert(mp.take(mp.len() as int) =~= mp);
        reveal_strlit("crate");
        reveal_strlit("self");
        reveal_strlit("super");
    }
    let first = segments[0].as_str();
    if text::same_text(first, "crate") {
        resolve_from(root, modpath, 0, segments, 1)
    } else if text::same_text(first, "self") {
        resolve_from(root, modpath, modpath.len(), segments, 1)
    } else if text::same_text(first, "super") {
        let up = count_supers(segments);
        if up > modpath.len() {
            return None;
        }
        resolve_from(root, modpath, modpath.len() - up, segments, up)
    } else {
        Some(Resolution::External(first.to_owned()))
    }
}

// --- graph build -------------------------------------------------------------------------------

/// The `mod x;` edges of a module tree, from file to file, seen from `repo`.
pub open spec fn mod_pairs(m: modtree::ModView, repo: Seq<char>) -> Seq<(Seq<char>, Seq<char>)>
    decreases m,
{
    mod_pairs_to(m.file, m.nodes, repo)
}

/// The edges from `file` to the files of its child modules `nodes`, and those
/// below them.
pub open spec fn mod_pairs_to(
    file: Seq<char>,
    nodes: Seq<modtree::ModView>,
    repo: Seq<char>,
) -> Seq<(Seq<char>, Seq<char>)>
    decreases nodes,
{
    if nodes.len() == 0 {
        Seq::empty()
    } else {
        let c = nodes[nodes.len() - 1];
        mod_pairs_to(file, nodes.drop_last(), repo) + (if c.file == file {
            Seq::empty()
        } else {
            seq![(paths::relative(file, repo), paths::relative(c.file, repo))]
        }) + mod_pairs(c, repo)
    }
}

/// The internal edges of the `use` paths `sites` of a file. A file that imports
/// from itself has no edge.
pub open spec fn internal_pairs(
    sites: Seq<(Seq<Seq<char>>, Seq<Seq<char>>)>,
    file: Seq<char>,
    root: modtree::ModView,
    repo: Seq<char>,
) -> Seq<(Seq<char>, Seq<char>)>
    decreases sites.len(),
{
    if sites.len() == 0 {
        Seq::empty()
    } else {
        let rest = internal_pairs(sites.drop_last(), file, root, repo);
        match resolved(sites.last().0, sites.last().1, root) {
            Some(ResolutionView::Internal(target)) => if target == file {
                rest
            } else {
                rest.push((paths::relative(file, repo), paths::relative(target, repo)))
            },
            _ => rest,
        }
    }
}

/// The external edges of the `use` paths `sites` of a file.
pub open spec fn external_pairs(
    sites: Seq<(Seq<Seq<char>>, Seq<Seq<char>>)>,
    file: Seq<char>,
    root: modtree::ModView,
    repo: Seq<char>,
) -> Seq<(Seq<char>, Seq<char>)>
    decreases sites.len(),
{
    if sites.len() == 0 {
        Seq::empty()
    } else {
        let rest = external_pairs(sites.drop_last(), file, root, repo);
        match resolved(sites.last().0, sites.last().1, root) {
            Some(ResolutionView::External(name)) => rest.push(
                (paths::relative(file, repo), name),
            ),
            _ => rest,
        }
    }
}

/// The `use` paths of a file; none where it cannot be read or parsed.
pub open spec fn file_sites(d: modtree::DiskView, w: modtree::WalkView, file: Seq<char>) -> Seq<
    (Seq<Seq<char>>, Seq<Seq<char>>),
> {
    match d.items(file) {
        Some(items) => use_paths(items, w.seen.modpaths[file]),
        None => Seq::empty(),
    }
}

/// The internal edges of the first `n` files.
pub open spec fn all_internal(
    d: modtree::DiskView,
    w: modtree::WalkView,
    repo: Seq<char>,
    n: int,
) -> Seq<(Seq<char>, Seq<char>)>
    decreases n,
{
    if n <= 0 {
        Seq::empty()
    } else {
        let f = w.seen.files[n - 1];
        all_internal(d, w, repo, n - 1) + internal_pairs(file_sites(d, w, f), f, w.node, repo)
    }
}

/// The external edges of the first `n` files.
pub open spec fn all_external(
    d: modtree::DiskView,
    w: modtree::WalkView,
    repo: Seq<char>,
    n: int,
) -> Seq<(Seq<char>, Seq<char>)>
    decreases n,
{
    if n <= 0 {
        Seq::empty()
    } else {
        let f = w.seen.files[n - 1];
        all_external(d, w, repo, n - 1) + external_pairs(file_sites(d, w, f), f, w.node, repo)
    }
}

/// What a [`Graph`] holds.
pub struct GraphView {
    pub out_internal: names::EdgesView,
    pub out_external: names::EdgesView,
    pub mod_edges: names::EdgesView,
    pub files: Seq<Seq<char>>,
}

pub open spec fn graph_view(g: Graph) -> GraphView {
    GraphView {
        out_internal: names::edges_view(g.out_internal),
        out_external: names::edges_view(g.out_external),
        mod_edges: names::edges_view(g.mod_edges),
        files: g.files@,
    }
}

/// The graph of a module tree, with paths seen from `repo`.
pub open spec fn graph_of(d: modtree::DiskView, w: modtree::WalkView, repo: Seq<char>) -> GraphView {
    let n = w.seen.files.len() as int;
    GraphView {
        out_internal: names::with_edges(names::no_edges(), all_internal(d, w, repo, n)),
        out_external: names::with_edges(names::no_edges(), all_external(d, w, repo, n)),
        mod_edges: names::with_edges(names::no_edges(), mod_pairs(w.node, repo)),
        files: order::collected(
            w.seen.files.map_values(|f: Seq<char>| paths::relative(f, repo)),
        ),
    }
}

/// Adds the `mod x;` edges of a module tree.
fn collect_mod_edges(m: &ModNode, repo: &str, out: &mut EdgeMap)
    ensures
        names::edges_view(*final(out)) == names::with_edges(
            names::edges_view(*old(out)),
            mod_pairs(modtree::mod_view(*m), repo@),
        ),
    decreases m,
{
    let ghost v = modtree::mod_view(*m);
    let ghost before = names::edges_view(*out);
    proof {
        assert(v.nodes.take(0) =~= Seq::empty());
    }
    for k in 0..m.nodes.len()
        invariant
            v == modtree::mod_view(*m),
            v.nodes.len() == m.nodes.len(),
            names::edges_view(*out) == names::with_edges(
                before,
                mod_pairs_to(v.file, v.nodes.take(k as int), repo@),
            ),
    {
        let ghost list = mod_pairs_to(v.file, v.nodes.take(k as int), repo@);
        let ghost c = v.nodes[k as int];
        let ghost own: Seq<(Seq<char>, Seq<char>)> = if c.file == v.file {
            Seq::empty()
        } else {
            seq![(paths::relative(v.file, repo@), paths::relative(c.file, repo@))]
        };
        proof {
            assert(v.nodes.take(k + 1).drop_last() =~= v.nodes.take(k as int));
            assert(c == modtree::mod_view(m.nodes@[k as int]));
            names::lemma_with_edges_add(before, list, own);
            names::lemma_with_edges_add(before, list + own, mod_pairs(c, repo@));
        }
        if !text::same_text(m.nodes[k].file.as_str(), m.file.as_str()) {
            out.add(
                paths::rel_to(m.file.as_str(), repo),
                paths::rel_to(m.nodes[k].file.as_str(), repo),
            );
            proof {
                assert(own.drop_last() =~= Seq::empty());
                let mid = names::with_edges(before, list);
                assert(names::with_edges(mid, own.drop_last()) == mid);
            }
        }
        collect_mod_edges(&m.nodes[k], repo, out);
    }
    proof {
        assert(v.nodes.take(v.nodes.len() as int) =~= v.nodes);
    }
}

/// Adds the edges of the `use` paths of a file.
fn add_uses(
    sites: &Vec<UsePathSite>,
    file: &str,
    root: &ModNode,
    repo: &str,
    internal: &mut EdgeMap,
    external: &mut EdgeMap,
)
    requires
        modtree::mod_wf(modtree::mod_view(*root)),
    ensures
        names::edges_view(*final(internal)) == names::with_edges(
            names::edges_view(*old(internal)),
            internal_pairs(sites_view(sites@), file@, modtree::mod_view(*root), repo@),
        ),
        names::edges_view(*final(external)) == names::with_edges(
            names::edges_view(*old(external)),
            external_pairs(sites_view(sites@), file@, modtree::mod_view(*root), repo@),
        ),
{
    let ghost ss = sites_view(sites@);
    let ghost v = modtree::mod_view(*root);
    let ghost in0 = names::edges_view(*internal);
    let ghost ex0 = names::edges_view(*external);
    proof {
        assert(ss.take(0) =~= Seq::empty());
    }
    for k in 0..sites.len()
        invariant
            modtree::mod_wf(v),
            v == modtree::mod_view(*root),
            ss == sites_view(sites@),
            names::edges_view(*internal) == names::with_edges(
                in0,
                internal_pairs(ss.take(k as int), file@, v, repo@),
            ),
            names::edges_view(*external) == names::with_edges(
                ex0,
                external_pairs(ss.take(k as int), file@, v, repo@),
            ),
    {
        let ghost ins = internal_pairs(ss.take(k as int), file@, v, repo@);
        let ghost exs = external_pairs(ss.take(k as int), file@, v, repo@);
        proof {
            assert(ss.take(k + 1).drop_last() =~= ss.take(k as int));
            assert(ss[k as int] == (
                text::texts(sites@[k as int].path@),
                text::texts(sites@[k as int].modpath@),
            ));
        }
        match resolve(&sites[k].path, &sites[k].modpath, root) {
            Some(Resolution::Internal(target)) => {
                if !text::same_text(target.as_str(), file) {
                    internal.add(paths::rel_to(file, repo), paths::rel_to(target.as_str(), repo));
                    proof {
                        let e = (paths::relative(file@, repo@), paths::relative(target@, repo@));
                        assert(ins.push(e).drop_last() =~= ins);
                    }
                }
            },
            Some(Resolution::External(name)) => {
                let ghost e = (paths::relative(file@, repo@), name@);
                external.add(paths::rel_to(file, repo), name);
                proof {
                    assert(exs.push(e).drop_last() =~= exs);
                }
            },
            None => {},
        }
    }
    proof {
        assert(ss.take(ss.len() as int) =~= ss);
    }
}

/// Builds the graph of a module tree, with paths seen from `repo`.
pub fn build_graph(disk: &Disk, tree: &ModTree, repo: &str) -> (r: Graph)
    requires
        modtree::mod_wf(modtree::mod_view(tree.root)),
    ensures
        graph_view(r) == graph_of(disk@, modtree::mod_tree_view(*tree), repo@),
{
    let ghost d = disk@;
    let ghost w = modtree::mod_tree_view(*tree);
    let ghost rels = w.seen.files.map_values(|f: Seq<char>| paths::relative(f, repo@));
    let mut g = Graph::default();
    let n: usize = tree.seen.len();
    collect_mod_edges(&tree.root, repo, &mut g.mod_edges);
    for k in 0..n
        invariant
            d == disk@,
            w == modtree::mod_tree_view(*tree),
            modtree::mod_wf(modtree::mod_view(tree.root)),
            n == w.seen.files.len(),
            rels == w.seen.files.map_values(|f: Seq<char>| paths::relative(f, repo@)),
            names::edges_view(g.mod_edges) == names::with_edges(
                names::no_edges(),
                mod_pairs(w.node, repo@),
            ),
            names::edges_view(g.out_internal) == names::with_edges(
                names::no_edges(),
                all_internal(d, w, repo@, k as int),
            ),
            names::edges_view(g.out_external) == names::with_edges(
                names::no_edges(),
                all_external(d, w, repo@, k as int),
            ),
            g.files@ == order::collected(rels.take(k as int)),
    {
        let file = tree.seen.file(k);
        let modpath = tree.seen.modpath(k);
        let ghost f = w.seen.files[k as int];
        proof {
            assert(rels.take(k + 1).drop_last() =~= rels.take(k as int));
            names::lemma_with_edges_add(
                names::no_edges(),
                all_internal(d, w, repo@, k as int),
                internal_pairs(file_sites(d, w, f), f, w.node, repo@),
            );
            names::lemma_with_edges_add(
                names::no_edges(),
                all_external(d, w, repo@, k as int),
                external_pairs(file_sites(d, w, f), f, w.node, repo@),
            );
        }
        g.files.insert(paths::rel_to(file.as_str(), repo));
        let mut sites: Vec<UsePathSite> = Vec::new();
        match disk.items(file.as_str()) {
            Some(items) => {
                collect_uses_with_modpath(items, modpath, &mut sites);
            },
            None => {},
        }
        proof {
            assert(sites_view(sites@) =~= file_sites(d, w, f));
        }
        add_uses(
            &sites,
            file.as_str(),
            &tree.root,
            repo,
            &mut g.out_internal,
            &mut g.out_external,
        );
    }
    proof {
        assert(rels.take(rels.len() as int) =~= rels);
    }
    g
}

// --- repositories ------------------------------------------------------------------------------

/// The canonical path of a file that was found at `path`.
pub open spec fn canonical(d: modtree::DiskView, path: Seq<char>) -> Seq<char> {
    match modtree::look(d, path) {
        modtree::FoundView::File(canon) => canon,
        _ => path,
    }
}

/// The graph of the crate in `repo`, a canonical path, where there is a crate
/// root.
pub open spec fn repo_graph(d: modtree::DiskView, repo: Seq<char>) -> Option<GraphView> {
    match modtree::crate_root(d, repo) {
        modtree::FoundView::File(root) => Some(
            graph_of(d, modtree::tree_from(d, canonical(d, root)), repo),
        ),
        _ => None,
    }
}

/// The paths that have to be looked at before the graph of the crate in `repo`
/// is complete.
pub open spec fn open_paths(d: modtree::DiskView, repo: Seq<char>) -> Seq<Seq<char>> {
    match modtree::crate_root(d, repo) {
        modtree::FoundView::File(root) => modtree::tree_from(d, canonical(d, root)).unknown,
        modtree::FoundView::Absent => Seq::empty(),
        modtree::FoundView::Unknown(p) => seq![p],
    }
}

/// The module tree of the crate in `repo`, where there is a crate root.
fn repo_tree(disk: &Disk, repo: &str) -> (r: Option<ModTree>)
    ensures
        match r {
            Some(t) => {
                &&& modtree::crate_root(disk@, repo@) matches modtree::FoundView::File(root)
                &&& modtree::mod_tree_view(t) == modtree::tree_from(
                    disk@,
                    canonical(disk@, root),
                )
                &&& modtree::mod_wf(modtree::mod_view(t.root))
            },
            None => !(modtree::crate_root(disk@, repo@) is File),
        },
{
    match find_crate_root(disk, repo) {
        Found::File(root) => {
            let canon = match disk.probe(root.as_str()) {
                Some(Some(canon)) => canon.clone(),
                Some(None) => root,
                None => root,
            };
            Some(build_mod_tree(disk, canon.as_str()))
        },
        Found::Absent => None,
        Found::Unknown(_) => None,
    }
}

/// The paths that have to be looked at, and recorded in `disk`, before the
/// graph of the crate in `repo` is complete. None are left when it is.
pub fn paths_to_probe(disk: &Disk, repo: &str) -> (r: Vec<String>)
    ensures
        text::texts(r@) == open_paths(disk@, repo@),
{
    if let Found::Unknown(p) = find_crate_root(disk, repo) {
        let mut r: Vec<String> = Vec::new();
        r.push(p);
        proof {
            assert(text::texts(r@) =~= seq![p@]);
        }
        return r;
    }
    match repo_tree(disk, repo) {
        Some(t) => t.unknown,
        None => {
            let r: Vec<String> = Vec::new();
            proof {
                assert(text::texts(r@) =~= Seq::empty());
            }
            r
        },
    }
}

/// Builds the dependency graph for a repository. Returns `None` if no crate
/// root is found.
pub fn build_from_repo(disk: &Disk, repo: &str) -> (r: Option<Graph>)
    ensures
        match r {
            Some(g) => repo_graph(disk@, repo@) == Some(graph_view(g)),
            None => repo_graph(disk@, repo@) is None,
        },
{
    match repo_tree(disk, repo) {
        Some(t) => Some(build_graph(disk, &t, repo)),
        None => None,
    }
}

/// The crate root of a repository, seen from it.
pub open spec fn root_shown(d: modtree::DiskView, repo: Seq<char>) -> Option<Seq<char>> {
    match modtree::crate_root(d, repo) {
        modtree::FoundView::File(root) => Some(paths::relative(root, repo)),
        _ => None,
    }
}

/// Locates the crate root file, relative to the repository.
pub fn detect_crate_root(disk: &Disk, repo: &str) -> (r: Option<String>)
    ensures
        text::opt_text(r) == root_shown(disk@, repo@),
{
    match find_crate_root(disk, repo) {
        Found::File(root) => Some(paths::rel_to(root.as_str(), repo)),
        Found::Absent => None,
        Found::Unknown(_) => None,
    }
}

// --- render ------------------------------------------------------------------------------------

/// The file name without its extension, or the path where it has no file name.
pub open spec fn short_name_of(rel: Seq<char>) -> Seq<char> {
    match paths::file_stem_of(rel) {
        Some(stem) => stem,
        None => rel,
    }
}

pub open spec fn short_names_of(rels: Seq<Seq<char>>) -> Seq<Seq<char>> {
    rels.map_values(|r: Seq<char>| short_name_of(r))
}

/// Whether `file` is `prefix` or lies under it, segment by segment.
pub open spec fn is_under(file: Seq<char>, prefix: Seq<char>) -> bool {
    let p = text::trim_end(prefix, text::only('/'));
    file == p || text::starts_with(file, p + "/"@)
}

pub open spec fn in_scope(file: Seq<char>, scope: Option<Seq<char>>) -> bool {
    match scope {
        Some(s) => is_under(file, s),
        None => true,
    }
}

/// The files in the scope.
pub open spec fn scoped(files: Seq<Seq<char>>, scope: Option<Seq<char>>) -> Seq<Seq<char>>
    decreases files.len(),
{
    if files.len() == 0 {
        Seq::empty()
    } else {
        let rest = scoped(files.drop_last(), scope);
        if in_scope(files.last(), scope) {
            rest.push(files.last())
        } else {
            rest
        }
    }
}

/// The largest number of bytes of any of the names.
pub open spec fn widest(names: Seq<Seq<char>>) -> nat
    decreases names.len(),
{
    if names.len() == 0 {
        0
    } else {
        let rest = widest(names.drop_last());
        let n = vstd::utf8::encode_utf8(names.last()).len();
        if n > rest {
            n
        } else {
            rest
        }
    }
}

/// `s` with blanks behind it up to `width` characters.
pub open spec fn left_aligned(s: Seq<char>, width: nat) -> Seq<char> {
    s + text::repeated(
        ' ',
        if s.len() < width {
            (width - s.len()) as nat
        } else {
            0
        },
    )
}

/// The list, or `-` where it is empty.
pub open spec fn list_or_dash(list: Seq<Seq<char>>) -> Seq<char> {
    if list.len() == 0 {
        "-"@
    } else {
        text::join(list, ", "@)
    }
}

/// What a file imports: the short names of files, then crates where asked for.
pub open spec fn imports_of(g: GraphView, file: Seq<char>, include_ext: bool) -> Seq<Seq<char>> {
    short_names_of(names::under(g.out_internal.edges, file)) + if include_ext {
        names::under(g.out_external.edges, file)
    } else {
        Seq::empty()
    }
}

/// The files of `keys` that import `file`.
pub open spec fn importers(
    edges: Map<Seq<char>, Seq<Seq<char>>>,
    keys: Seq<Seq<char>>,
    file: Seq<char>,
) -> Seq<Seq<char>>
    decreases keys.len(),
{
    if keys.len() == 0 {
        Seq::empty()
    } else {
        let rest = importers(edges, keys.drop_last(), file);
        if edges[keys.last()].contains(file) {
            rest.push(keys.last())
        } else {
            rest
        }
    }
}

/// The files that import `file`, in alphabetical order.
pub open spec fn callers_of(g: GraphView, file: Seq<char>) -> Seq<Seq<char>> {
    importers(g.out_internal.edges, g.out_internal.keys, file)
}

/// One row: the file, an arrow, and what it imports or what imports it.
pub open spec fn row_text(
    g: GraphView,
    file: Seq<char>,
    mode: Mode,
    include_ext: bool,
    width: nat,
) -> Seq<char> {
    match mode {
        Mode::Forward => left_aligned(file, width) + " -> "@ + list_or_dash(
            imports_of(g, file, include_ext),
        ) + "\n"@,
        Mode::Reverse => left_aligned(file, width) + " <- "@ + list_or_dash(
            short_names_of(callers_of(g, file)),
        ) + "\n"@,
    }
}

pub open spec fn rows_text(
    g: GraphView,
    files: Seq<Seq<char>>,
    mode: Mode,
    include_ext: bool,
    width: nat,
) -> Seq<char>
    decreases files.len(),
{
    if files.len() == 0 {
        Seq::empty()
    } else {
        rows_text(g, files.drop_last(), mode, include_ext, width) + row_text(
            g,
            files.last(),
            mode,
            include_ext,
            width,
        )
    }
}

/// The whole graph, one row for each file in the scope.
pub open spec fn all_text(
    g: GraphView,
    mode: Mode,
    include_ext: bool,
    scope: Option<Seq<char>>,
) -> Seq<char> {
    let files = scoped(g.files, scope);
    if files.len() == 0 {
        match scope {
            Some(s) => "no files under scope `"@ + s + "`\n"@,
            None => Seq::empty(),
        }
    } else {
        rows_text(g, files, mode, include_ext, widest(files))
    }
}

/// One file: what it imports, what imports it, and the crates it uses.
pub open spec fn focus_text(g: GraphView, focus: Seq<char>, include_ext: bool) -> Seq<char> {
    if !g.files.contains(focus) {
        "file `"@ + focus + "` not in module tree\n"@
    } else {
        focus + "\n"@ + "  out: "@ + list_or_dash(names::under(g.out_internal.edges, focus))
            + "\n"@ + "  in:  "@ + list_or_dash(callers_of(g, focus)) + "\n"@ + if include_ext {
            "  ext: "@ + list_or_dash(names::under(g.out_external.edges, focus)) + "\n"@
        } else {
            Seq::empty()
        }
    }
}

/// The message where there is no crate root.
pub open spec fn no_root_text(shown: Seq<char>) -> Seq<char> {
    "no crate root found (looked for "@ + shown + "/src/main.rs and "@ + shown
        + "/src/lib.rs)\n"@
}

/// The output for the crate in `repo`, which is shown as `shown`. There is an
/// error message instead where it has no crate root, or where the file asked for
/// is not one of its modules.
pub open spec fn report(
    d: modtree::DiskView,
    repo: Seq<char>,
    shown: Seq<char>,
    opts: DepsOptions,
) -> Result<Seq<char>, Seq<char>> {
    match repo_graph(d, repo) {
        None => Err(no_root_text(shown)),
        Some(g) => match opts.focus {
            Some(focus) => {
                let rel = paths::relative(focus@, repo);
                let out = focus_text(g, rel, opts.include_external);
                if g.files.contains(rel) {
                    Ok(out)
                } else {
                    Err(out)
                }
            },
            None => Ok(
                all_text(g, opts.mode, opts.include_external, text::opt_text(opts.scope)),
            ),
        },
    }
}

/// The file name without its extension.
pub fn short_name(rel: &str) -> (r: String)
    ensures
        r@ == short_name_of(rel@),
{
    match paths::file_stem(rel) {
        Some(stem) => stem,
        None => rel.to_owned(),
    }
}

/// Path-segment-aligned prefix match: `src/domain/x` is under `src/domain` but
/// not under `src/dom`.
pub fn path_under(file: &str, prefix: &str) -> (r: bool)
    ensures
        r == is_under(file@, prefix@),
{
    let given = text::to_chars(prefix);
    let p = text::from_chars(text::trim_end_of(given.as_slice(), '/'));
    if text::same_text(file, p.as_str()) {
        return true;
    }
    let mut inner = p;
    inner.append("/");
    text::text_begins(file, inner.as_str())
}

fn is_in_scope(file: &str, scope: Option<&str>) -> (r: bool)
    ensures
        r == in_scope(file@, text::opt_str(scope)),
{
    match scope {
        Some(s) => path_under(file, s),
        None => true,
    }
}

/// The files in the scope.
fn scoped_files(files: &NameSet, scope: Option<&str>) -> (r: Vec<String>)
    ensures
        text::texts(r@) == scoped(files@, text::opt_str(scope)),
{
    let ghost fs = files@;
    let ghost sc = text::opt_str(scope);
    let len: usize = files.len();
    let mut r: Vec<String> = Vec::new();
    proof {
        assert(fs.take(0) =~= Seq::empty());
        assert(text::texts(r@) =~= Seq::empty());
    }
    for k in 0..len
        invariant
            fs == files@,
            len == fs.len(),
            sc == text::opt_str(scope),
            text::texts(r@) == scoped(fs.take(k as int), sc),
    {
        proof {
            assert(fs.take(k + 1).drop_last() =~= fs.take(k as int));
        }
        let f = files.at(k);
        if is_in_scope(f.as_str(), scope) {
            let ghost before = r@;
            r.push(f.clone());
            proof {
                assert(text::texts(r@) =~= text::texts(before).push(f@));
            }
        }
    }
    proof {
        assert(fs.take(fs.len() as int) =~= fs);
    }
    r
}

/// The largest number of bytes of any of the names.
fn max_width(names: &Vec<String>) -> (r: usize)
    ensures
        r == widest(text::texts(names@)),
{
    let ghost ns = text::texts(names@);
    let mut r: usize = 0;
    proof {
        assert(ns.take(0) =~= Seq::empty());
    }
    for k in 0..names.len()
        invariant
            ns == text::texts(names@),
            r == widest(ns.take(k as int)),
    {
        proof {
            assert(ns.take(k + 1).drop_last() =~= ns.take(k as int));
            assert(ns[k as int] == names@[k as int]@);
        }
        let n: usize = names[k].as_str().as_bytes().len();
        if n > r {
            r = n;
        }
    }
    proof {
        assert(ns.take(ns.len() as int) =~= ns);
    }
    r
}

/// `s` with blanks behind it up to `width` characters.
fn align_left(s: &str, width: usize) -> (r: String)
    ensures
        r@ == left_aligned(s@, width as nat),
{
    let mut r = s.to_owned();
    let len: usize = s.unicode_len();
    let mut n: usize = len;
    proof {
        assert(r@ =~= s@ + text::repeated(' ', 0));
    }
    while n < width
        invariant
            len == s@.len(),
            len <= n,
            n <= width || n == len,
            r@ == s@ + text::repeated(' ', (n - len) as nat),
        decreases width - n,
    {
        r.append(" ");
        n = n + 1;
        proof {
            reveal_strlit(" ");
            assert(r@ =~= s@ + text::repeated(' ', (n - len) as nat));
        }
    }
    r
}

fn join_or_dash(list: &Vec<String>) -> (r: String)
    ensures
        r@ == list_or_dash(text::texts(list@)),
{
    if list.len() == 0 {
        "-".to_owned()
    } else {
        text::join_strings(list, ", ")
    }
}

/// Appends the names stored under `key`, shortened where asked for.
fn push_names(edges: &EdgeMap, key: &str, short: bool, out: &mut Vec<String>)
    ensures
        text::texts(final(out)@) == text::texts(old(out)@) + if short {
            short_names_of(names::under(edges@, key@))
        } else {
            names::under(edges@, key@)
        },
{
    let ghost before = text::texts(out@);
    let ghost all = names::under(edges@, key@);
    let ghost want = if short {
        short_names_of(all)
    } else {
        all
    };
    proof {
        assert(before + want.take(0) =~= before);
    }
    match edges.get(key) {
        Some(set) => {
            let len: usize = set.len();
            for k in 0..len
                invariant
                    set@ == all,
                    len == all.len(),
                    want == if short {
                        short_names_of(all)
                    } else {
                        all
                    },
                    text::texts(out@) == before + want.take(k as int),
            {
                let ghost prev = out@;
                let name = set.at(k);
                if short {
                    out.push(short_name(name.as_str()));
                } else {
                    out.push(name.clone());
                }
                proof {
                    assert(text::texts(out@) =~= text::texts(prev).push(want[k as int]));
                    assert(want.take(k + 1) =~= want.take(k as int).push(want[k as int]));
                }
            }
            proof {
                assert(want.take(want.len() as int) =~= want);
            }
        },
        None => {
            proof {
                assert(want =~= Seq::empty());
                assert(before + want =~= before);
            }
        },
    }
}

/// The files that import `file`, shortened where asked for.
fn callers(edges: &EdgeMap, file: &str, short: bool) -> (r: Vec<String>)
    ensures
        text::texts(r@) == if short {
            short_names_of(importers(edges@, edges.keys(), file@))
        } else {
            importers(edges@, edges.keys(), file@)
        },
{
    let ghost ks = edges.keys();
    let len: usize = edges.len();
    let ghost mut found: Seq<Seq<char>> = Seq::empty();
    let mut r: Vec<String> = Vec::new();
    proof {
        assert(ks.take(0) =~= Seq::empty());
        assert(text::texts(r@) =~= Seq::empty());
        assert(short_names_of(found) =~= Seq::empty());
    }
    for k in 0..len
        invariant
            ks == edges.keys(),
            len == ks.len(),
            found == importers(edges@, ks.take(k as int), file@),
            text::texts(r@) == if short {
                short_names_of(found)
            } else {
                found
            },
    {
        proof {
            assert(ks.take(k + 1).drop_last() =~= ks.take(k as int));
        }
        if edges.set(k).contains(file) {
            let key = edges.key(k);
            let ghost prev = r@;
            if short {
                r.push(short_name(key.as_str()));
            } else {
                r.push(key.clone());
            }
            proof {
                assert(text::texts(r@) =~= text::texts(prev).push(r@.last()@));
                assert(short_names_of(found.push(key@)) =~= short_names_of(found).push(
                    short_name_of(key@),
                ));
                found = found.push(key@);
            }
        }
    }
    proof {
        assert(ks.take(ks.len() as int) =~= ks);
    }
    r
}

fn render_row(g: &Graph, file: &str, mode: Mode, include_ext: bool, width: usize) -> (r: String)
    ensures
        r@ == row_text(graph_view(*g), file@, mode, include_ext, width as nat),
{
    let mut r = align_left(file, width);
    match mode {
        Mode::Forward => {
            let mut deps: Vec<String> = Vec::new();
            push_names(&g.out_internal, file, true, &mut deps);
            if include_ext {
                push_names(&g.out_external, file, false, &mut deps);
            }
            proof {
                assert(text::texts(deps@) =~= imports_of(graph_view(*g), file@, include_ext));
            }
            r.append(" -> ");
            r.append(join_or_dash(&deps).as_str());
        },
        Mode::Reverse => {
            let from = callers(&g.out_internal, file, true);
            r.append(" <- ");
            r.append(join_or_dash(&from).as_str());
        },
    }
    r.append("\n");
    r
}

/// Renders the whole graph, one row for each file in the scope.
pub fn render_all(g: &Graph, mode: Mode, include_ext: bool, scope: Option<&str>) -> (r: String)
    ensures
        r@ == all_text(graph_view(*g), mode, include_ext, text::opt_str(scope)),
{
    let files = scoped_files(&g.files, scope);
    let ghost fs = text::texts(files@);
    let mut out = String::new();
    proof {
        assert(out@ =~= Seq::empty());
        assert(fs.take(0) =~= Seq::empty());
    }
    if files.len() == 0 {
        if let Some(s) = scope {
            out.append("no files under scope `");
            out.append(s);
            out.append("`\n");
            proof {
                assert(out@ =~= "no files under scope `"@ + s@ + "`\n"@);
            }
        }
        return out;
    }
    let width = max_width(&files);
    for k in 0..files.len()
        invariant
            fs == text::texts(files@),
            out@ == rows_text(
                graph_view(*g),
                fs.take(k as int),
                mode,
                include_ext,
                width as nat,
            ),
    {
        proof {
            assert(fs.take(k + 1).drop_last() =~= fs.take(k as int));
            assert(fs[k as int] == files@[k as int]@);
        }
        out.append(render_row(g, files[k].as_str(), mode, include_ext, width).as_str());
    }
    proof {
        assert(fs.take(fs.len() as int) =~= fs);
    }
    out
}

/// Renders one file: what it imports, what imports it, and the crates it uses.
pub fn render_focus(g: &Graph, focus: &str, include_ext: bool) -> (r: String)
    ensures
        r@ == focus_text(graph_view(*g), focus@, include_ext),
{
    if !g.files.contains(focus) {
        let mut r = "file `".to_owned();
        r.append(focus);
        r.append("` not in module tree\n");
        return r;
    }
    let mut outs: Vec<String> = Vec::new();
    push_names(&g.out_internal, focus, false, &mut outs);
    let ins = callers(&g.out_internal, focus, false);
    proof {
        assert(text::texts(outs@) =~= names::under(g.out_internal@, focus@));
    }
    let mut r = focus.to_owned();
    r.append("\n");
    r.append("  out: ");
    r.append(join_or_dash(&outs).as_str());
    r.append("\n");
    r.append("  in:  ");
    r.append(join_or_dash(&ins).as_str());
    r.append("\n");
    let ghost head = r@;
    let mut tail = String::new();
    proof {
        assert(tail@ =~= Seq::empty());
    }
    if include_ext {
        let mut exts: Vec<String> = Vec::new();
        push_names(&g.out_external, focus, false, &mut exts);
        proof {
            assert(text::texts(exts@) =~= names::under(g.out_external@, focus@));
        }
        tail = "  ext: ".to_owned();
        tail.append(join_or_dash(&exts).as_str());
        tail.append("\n");
    }
    r.append(tail.as_str());
    r
}

/// The message where there is no crate root.
pub fn no_root(shown: &str) -> (r: String)
    ensures
        r@ == no_root_text(shown@),
{
    let mut r = "no crate root found (looked for ".to_owned();
    r.append(shown);
    r.append("/src/main.rs and ");
    r.append(shown);
    r.append("/src/lib.rs)\n");
    r
}

/// Renders the dependencies of the crate in `repo`, a canonical path, which is
/// shown as `shown`. The error is the message where there is no crate root, or
/// where the file asked for is not one of its modules.
pub fn run(disk: &Disk, repo: &str, shown: &str, opts: &DepsOptions) -> (r: Result<
    String,
    String,
>)
    ensures
        text::result_text(r) == report(disk@, repo@, shown@, *opts),
{
    match build_from_repo(disk, repo) {
        None => Err(no_root(shown)),
        Some(g) => match &opts.focus {
            Some(focus) => {
                let rel = paths::rel_to(focus.as_str(), repo);
                let out = render_focus(&g, rel.as_str(), opts.include_external);
                if g.files.contains(rel.as_str()) {
                    Ok(out)
                } else {
                    Err(out)
                }
            },
            None => Ok(
                render_all(
                    &g,
                    opts.mode,
                    opts.include_external,
                    text::as_opt_str(&opts.scope),
                ),
            ),
        },
    }
}

// --- what a graph keeps ------------------------------------------------------------------------

/// Whether a graph has a `use` edge from `a` to `b`.
pub open spec fn imports(g: GraphView, a: Seq<char>, b: Seq<char>) -> bool {
    names::under(g.out_internal.edges, a).contains(b)
}

/// Whether a graph has a `mod x;` edge from `a` to `b`.
pub open spec fn declares(g: GraphView, a: Seq<char>, b: Seq<char>) -> bool {
    names::under(g.mod_edges.edges, a).contains(b)
}

proof fn lemma_importers(
    e: names::EdgesView,
    keys: Seq<Seq<char>>,
    file: Seq<char>,
    x: Seq<char>,
)
    requires
        order::ascending(keys),
    ensures
        importers(e.edges, keys, file).contains(x) <==> keys.contains(x)
            && e.edges[x].contains(file),
        order::ascending(importers(e.edges, keys, file)),
    decreases keys.len(),
{
    if keys.len() > 0 {
        let rest = keys.drop_last();
        let last = keys.last();
        assert forall|i: int, j: int| 0 <= i < j < rest.len() implies order::before(
            #[trigger] rest[i],
            #[trigger] rest[j],
        ) by {
            assert(order::before(keys[i], keys[j]));
        }
        lemma_importers(e, rest, file, x);
        assert(keys =~= rest.push(last));
        text::lemma_push_contains(rest, last, x);
        let a = importers(e.edges, rest, file);
        if e.edges[last].contains(file) {
            text::lemma_push_contains(a, last, x);
            let b = a.push(last);
            assert forall|i: int, j: int| 0 <= i < j < b.len() implies order::before(
                #[trigger] b[i],
                #[trigger] b[j],
            ) by {
                if j < a.len() {
                    assert(order::before(a[i], a[j]));
                } else {
                    lemma_importers(e, rest, file, a[i]);
                    assert(a.contains(a[i]));
                    let k = choose|k: int| 0 <= k < rest.len() && rest[k] == a[i];
                    assert(order::before(keys[k], keys[keys.len() - 1]));
                }
            }
        }
    }
}

/// The rows of the two directions mirror each other: a file is listed among the
/// callers of another exactly if it imports it, and callers are listed in
/// alphabetical order, each once.
pub proof fn law_reverse_mirrors_forward(g: GraphView, a: Seq<char>, b: Seq<char>)
    requires
        names::edges_wf(g.out_internal),
    ensures
        callers_of(g, b).contains(a) <==> imports(g, a, b),
        order::ascending(callers_of(g, b)),
{
    let e = g.out_internal;
    lemma_importers(e, e.keys, b, a);
    assert(e.keys.contains(a) <==> e.edges.contains_key(a)) by {
        assert(e.keys.to_set().contains(a) <==> e.edges.dom().contains(a));
    }
}

proof fn lemma_known_root(d: modtree::DiskView, repo: Seq<char>)
    requires
        d.wf(),
    ensures
        modtree::crate_root(d, repo) matches modtree::FoundView::File(root)
            ==> d.sources.contains_key(canonical(d, root)),
{
    if let modtree::FoundView::File(root) = modtree::crate_root(d, repo) {
        assert(d.probes.contains_key(root) && d.probes[root] is Some);
    }
}

/// Once no path is left that has to be looked at, the graph is complete: it
/// stays the same whatever else comes to be known of the disk.
pub proof fn law_graph_complete(d: modtree::DiskView, e: modtree::DiskView, repo: Seq<char>)
    requires
        modtree::knows_more(d, e),
        open_paths(d, repo).len() == 0,
    ensures
        repo_graph(e, repo) == repo_graph(d, repo),
        open_paths(e, repo).len() == 0,
{
    assert(modtree::crate_root(e, repo) == modtree::crate_root(d, repo));
    lemma_known_root(d, repo);
    if let modtree::FoundView::File(root) = modtree::crate_root(d, repo) {
        let c = canonical(d, root);
        assert(canonical(e, root) == c);
        modtree::law_tree_complete(d, e, c);
        modtree::law_tree_sees_its_files(d, c);
        let w = modtree::tree_from(d, c);
        lemma_same_edges(d, e, w, repo, w.seen.files.len() as int);
    }
}

proof fn lemma_same_edges(
    d: modtree::DiskView,
    e: modtree::DiskView,
    w: modtree::WalkView,
    repo: Seq<char>,
    n: int,
)
    requires
        modtree::knows_more(d, e),
        modtree::seen_wf(d, w.seen),
        n <= w.seen.files.len(),
    ensures
        all_internal(e, w, repo, n) == all_internal(d, w, repo, n),
        all_external(e, w, repo, n) == all_external(d, w, repo, n),
    decreases n,
{
    if n > 0 {
        lemma_same_edges(d, e, w, repo, n - 1);
        assert(w.seen.files.contains(w.seen.files[n - 1]));
    }
}

proof fn lemma_no_edges(list: Seq<(Seq<char>, Seq<char>)>)
    ensures
        names::edges_wf(names::with_edges(names::no_edges(), list)),
    decreases list.len(),
{
    let e = names::with_edges(names::no_edges(), list);
    assert forall|k: Seq<char>| order::ascending(
        #[trigger] names::under(names::no_edges().edges, k),
    ) by {}
    assert forall|k: Seq<char>| order::ascending(#[trigger] names::under(e.edges, k)) by {
        names::lemma_with_edges(names::no_edges(), list, k, k);
    }
    if list.len() == 0 {
        assert(e.keys.to_set() =~= e.edges.dom());
    } else {
        let before = names::with_edges(names::no_edges(), list.drop_last());
        lemma_no_edges(list.drop_last());
        order::lemma_put(before.keys, list.last().0);
        assert(e.edges.dom() =~= before.edges.dom().insert(list.last().0));
    }
}

/// The maps of the graph of a crate are in order.
pub proof fn law_graph_in_order(d: modtree::DiskView, repo: Seq<char>)
    ensures
        repo_graph(d, repo) matches Some(g) ==> {
            &&& names::edges_wf(g.out_internal)
            &&& names::edges_wf(g.out_external)
            &&& names::edges_wf(g.mod_edges)
            &&& order::ascending(g.files)
        },
{
    if let modtree::FoundView::File(root) = modtree::crate_root(d, repo) {
        let w = modtree::tree_from(d, canonical(d, root));
        let n = w.seen.files.len() as int;
        lemma_no_edges(all_internal(d, w, repo, n));
        lemma_no_edges(all_external(d, w, repo, n));
        lemma_no_edges(mod_pairs(w.node, repo));
        order::lemma_collected(w.seen.files.map_values(|f: Seq<char>| paths::relative(f, repo)));
    }
}

/// Whether both ends of each pair are among `files`.
spec fn ends_within(pairs: Seq<(Seq<char>, Seq<char>)>, files: Seq<Seq<char>>) -> bool {
    forall|i: int|
        0 <= i < pairs.len() ==> files.contains((#[trigger] pairs[i]).0) && files.contains(
            pairs[i].1,
        )
}

proof fn lemma_ends_add(
    a: Seq<(Seq<char>, Seq<char>)>,
    b: Seq<(Seq<char>, Seq<char>)>,
    files: Seq<Seq<char>>,
)
    requires
        ends_within(a, files),
        ends_within(b, files),
    ensures
        ends_within(a + b, files),
{
    assert forall|i: int| 0 <= i < (a + b).len() implies files.contains((#[trigger] (a + b)[i]).0)
        && files.contains((a + b)[i].1) by {
        if i < a.len() {
            assert((a + b)[i] == a[i]);
        } else {
            assert((a + b)[i] == b[i - a.len()]);
        }
    }
}

/// The files seen, from the repository.
spec fn shown_files(w: modtree::WalkView, repo: Seq<char>) -> Seq<Seq<char>> {
    w.seen.files.map_values(|f: Seq<char>| paths::relative(f, repo))
}

proof fn lemma_shown_file(w: modtree::WalkView, repo: Seq<char>, f: Seq<char>)
    requires
        w.seen.files.contains(f),
    ensures
        shown_files(w, repo).contains(paths::relative(f, repo)),
{
    let k = choose|k: int| 0 <= k < w.seen.files.len() && w.seen.files[k] == f;
    assert(shown_files(w, repo)[k] == paths::relative(f, repo));
}

proof fn lemma_child_within(
    m: modtree::ModView,
    name: Seq<char>,
    files: Seq<Seq<char>>,
)
    requires
        modtree::files_within(m, files),
        modtree::mod_wf(m),
    ensures
        child_of(m, name) matches Some(c) ==> modtree::files_within(c, files)
            && modtree::mod_wf(c),
{
    if m.names.contains(name) {
        let i = m.names.index_of(name);
        assert(m.names[i] == name);
        assert(modtree::files_within(m.nodes[i], files) && modtree::mod_wf(m.nodes[i]));
    }
}

proof fn lemma_module_within(
    m: modtree::ModView,
    path: Seq<Seq<char>>,
    files: Seq<Seq<char>>,
)
    requires
        modtree::files_within(m, files),
        modtree::mod_wf(m),
    ensures
        module_at(m, path) matches Some(c) ==> modtree::files_within(c, files)
            && modtree::mod_wf(c),
    decreases path.len(),
{
    if path.len() > 0 {
        lemma_child_within(m, path[0], files);
        if let Some(c) = child_of(m, path[0]) {
            lemma_module_within(c, path.drop_first(), files);
        }
    }
}

proof fn lemma_deepest_within(
    m: modtree::ModView,
    segments: Seq<Seq<char>>,
    files: Seq<Seq<char>>,
)
    requires
        modtree::files_within(m, files),
        modtree::mod_wf(m),
    ensures
        files.contains(deepest(m, segments).file),
    decreases segments.len(),
{
    if segments.len() > 0 {
        lemma_child_within(m, segments[0], files);
        if let Some(c) = child_of(m, segments[0]) {
            lemma_deepest_within(c, segments.drop_first(), files);
        }
    }
}

/// A `use` path leads only to files of the tree.
proof fn lemma_resolved_within(
    segments: Seq<Seq<char>>,
    modpath: Seq<Seq<char>>,
    root: modtree::ModView,
    files: Seq<Seq<char>>,
)
    requires
        modtree::files_within(root, files),
        modtree::mod_wf(root),
    ensures
        resolved(segments, modpath, root) matches Some(ResolutionView::Internal(f))
            ==> files.contains(f),
{
    let up = supers(segments);
    let paths = seq![Seq::<Seq<char>>::empty(), modpath, modpath.take(modpath.len() - up)];
    assert forall|i: int, rest: Seq<Seq<char>>| 0 <= i < 3 implies (
    #[trigger] file_from(root, paths[i], rest) matches Some(ResolutionView::Internal(f))
        ==> files.contains(f)) by {
        lemma_module_within(root, paths[i], files);
        if let Some(m) = module_at(root, paths[i]) {
            lemma_deepest_within(m, rest, files);
        }
    }
    assert(paths[0] == Seq::<Seq<char>>::empty());
    assert(paths[1] == modpath);
    assert(paths[2] == modpath.take(modpath.len() - up));
}

proof fn lemma_internal_within(
    sites: Seq<(Seq<Seq<char>>, Seq<Seq<char>>)>,
    file: Seq<char>,
    w: modtree::WalkView,
    repo: Seq<char>,
)
    requires
        w.seen.files.contains(file),
        modtree::files_within(w.node, w.seen.files),
        modtree::mod_wf(w.node),
    ensures
        ends_within(internal_pairs(sites, file, w.node, repo), shown_files(w, repo)),
    decreases sites.len(),
{
    if sites.len() > 0 {
        lemma_internal_within(sites.drop_last(), file, w, repo);
        lemma_resolved_within(sites.last().0, sites.last().1, w.node, w.seen.files);
        lemma_shown_file(w, repo, file);
        if let Some(ResolutionView::Internal(target)) = resolved(
            sites.last().0,
            sites.last().1,
            w.node,
        ) {
            lemma_shown_file(w, repo, target);
        }
    }
}

proof fn lemma_external_from(
    sites: Seq<(Seq<Seq<char>>, Seq<Seq<char>>)>,
    file: Seq<char>,
    root: modtree::ModView,
    repo: Seq<char>,
    i: int,
)
    requires
        0 <= i < external_pairs(sites, file, root, repo).len(),
    ensures
        external_pairs(sites, file, root, repo)[i].0 == paths::relative(file, repo),
    decreases sites.len(),
{
    if sites.len() > 0 {
        let rest = external_pairs(sites.drop_last(), file, root, repo);
        if i < rest.len() {
            lemma_external_from(sites.drop_last(), file, root, repo, i);
        }
    }
}

proof fn lemma_all_within(d: modtree::DiskView, w: modtree::WalkView, repo: Seq<char>, n: int)
    requires
        n <= w.seen.files.len(),
        modtree::files_within(w.node, w.seen.files),
        modtree::mod_wf(w.node),
    ensures
        ends_within(all_internal(d, w, repo, n), shown_files(w, repo)),
        forall|i: int|
            0 <= i < all_external(d, w, repo, n).len() ==> shown_files(w, repo).contains(
                (#[trigger] all_external(d, w, repo, n)[i]).0,
            ),
    decreases n,
{
    if n > 0 {
        let f = w.seen.files[n - 1];
        assert(w.seen.files.contains(f));
        lemma_all_within(d, w, repo, n - 1);
        lemma_internal_within(file_sites(d, w, f), f, w, repo);
        lemma_shown_file(w, repo, f);
        let a = all_external(d, w, repo, n - 1);
        let b = external_pairs(file_sites(d, w, f), f, w.node, repo);
        assert forall|i: int| 0 <= i < (a + b).len() implies shown_files(w, repo).contains(
            (#[trigger] (a + b)[i]).0,
        ) by {
            if i < a.len() {
                assert((a + b)[i] == a[i]);
            } else {
                lemma_external_from(file_sites(d, w, f), f, w.node, repo, i - a.len());
            }
        }
        lemma_ends_add(
            all_internal(d, w, repo, n - 1),
            internal_pairs(file_sites(d, w, f), f, w.node, repo),
            shown_files(w, repo),
        );
    }
}

proof fn lemma_mod_pairs_within(
    file: Seq<char>,
    nodes: Seq<modtree::ModView>,
    w: modtree::WalkView,
    repo: Seq<char>,
)
    requires
        w.seen.files.contains(file),
        forall|i: int|
            0 <= i < nodes.len() ==> modtree::files_within(#[trigger] nodes[i], w.seen.files),
    ensures
        ends_within(mod_pairs_to(file, nodes, repo), shown_files(w, repo)),
    decreases nodes,
{
    if nodes.len() > 0 {
        let rest = nodes.drop_last();
        let c = nodes[nodes.len() - 1];
        assert forall|i: int| 0 <= i < rest.len() implies modtree::files_within(
            #[trigger] rest[i],
            w.seen.files,
        ) by {
            assert(rest[i] == nodes[i]);
        }
        lemma_mod_pairs_within(file, rest, w, repo);
        assert(modtree::files_within(c, w.seen.files));
        assert(decreases_to!(nodes => nodes[nodes.len() - 1]));
        assert(decreases_to!(c => c.nodes));
        lemma_mod_pairs_within(c.file, c.nodes, w, repo);
        lemma_shown_file(w, repo, file);
        lemma_shown_file(w, repo, c.file);
        let here: Seq<(Seq<char>, Seq<char>)> = if c.file == file {
            Seq::empty()
        } else {
            seq![(paths::relative(file, repo), paths::relative(c.file, repo))]
        };
        let files = shown_files(w, repo);
        assert(ends_within(here, files));
        lemma_ends_add(mod_pairs_to(file, rest, repo), here, files);
        lemma_ends_add(mod_pairs_to(file, rest, repo) + here, mod_pairs(c, repo), files);
    }
}

/// Every internal edge of the graph of a crate, by `use` or by `mod x;`, goes
/// from one of its files to one of its files, and every external edge from one
/// of its files.
pub proof fn law_edges_join_files(
    d: modtree::DiskView,
    repo: Seq<char>,
    a: Seq<char>,
    b: Seq<char>,
)
    requires
        d.wf(),
    ensures
        repo_graph(d, repo) matches Some(g) ==> {
            &&& imports(g, a, b) ==> g.files.contains(a) && g.files.contains(b)
            &&& declares(g, a, b) ==> g.files.contains(a) && g.files.contains(b)
            &&& names::under(g.out_external.edges, a).contains(b) ==> g.files.contains(a)
        },
{
    if let modtree::FoundView::File(root) = modtree::crate_root(d, repo) {
        lemma_known_root(d, repo);
        let c = canonical(d, root);
        modtree::law_tree_sees_its_files(d, c);
        let w = modtree::tree_from(d, c);
        let n = w.seen.files.len() as int;
        let files = shown_files(w, repo);
        lemma_all_within(d, w, repo, n);
        assert forall|i: int| 0 <= i < w.node.nodes.len() implies modtree::files_within(
            #[trigger] w.node.nodes[i],
            w.seen.files,
        ) by {}
        lemma_mod_pairs_within(w.node.file, w.node.nodes, w, repo);
        order::lemma_collected_contains(files);
        let none = names::no_edges();
        assert forall|k: Seq<char>| order::ascending(#[trigger] names::under(none.edges, k)) by {}
        let i = all_internal(d, w, repo, n);
        let x = all_external(d, w, repo, n);
        let m = mod_pairs(w.node, repo);
        names::lemma_with_edges(none, i, a, b);
        names::lemma_with_edges(none, x, a, b);
        names::lemma_with_edges(none, m, a, b);
        if i.contains((a, b)) {
            let k = choose|k: int| 0 <= k < i.len() && i[k] == (a, b);
            assert(files.contains(i[k].0) && files.contains(i[k].1));
        }
        if x.contains((a, b)) {
            let k = choose|k: int| 0 <= k < x.len() && x[k] == (a, b);
            assert(files.contains(x[k].0));
        }
        if m.contains((a, b)) {
            let k = choose|k: int| 0 <= k < m.len() && m[k] == (a, b);
            assert(files.contains(m[k].0) && files.contains(m[k].1));
        }
    }
}

// --- what a path means ----------------------------------------------------------------------------

proof fn lemma_module_at(chain: Seq<modtree::ModView>, path: Seq<Seq<char>>)
    requires
        modtree::mod_wf(chain[0]),
        modtree::goes_down(chain, path),
    ensures
        module_at(chain[0], path) == Some(chain.last()),
        modtree::mod_wf(chain.last()),
    decreases path.len(),
{
    if path.len() > 0 {
        modtree::lemma_down_rest(chain, path);
        modtree::lemma_child(chain[0], path[0], chain[1]);
        lemma_module_at(chain.drop_first(), path.drop_first());
    }
}

proof fn lemma_way_to(m: modtree::ModView, path: Seq<Seq<char>>) -> (chain: Seq<modtree::ModView>)
    requires
        modtree::mod_wf(m),
        module_at(m, path) is Some,
    ensures
        chain[0] == m,
        modtree::goes_down(chain, path),
    decreases path.len(),
{
    if path.len() == 0 {
        seq![m]
    } else {
        let c = child_of(m, path[0])->0;
        modtree::lemma_child(m, path[0], c);
        let rest = lemma_way_to(c, path.drop_first());
        modtree::lemma_down_more(m, path[0], rest, path.drop_first());
        assert(seq![path[0]] + path.drop_first() =~= path);
        seq![m] + rest
    }
}

proof fn lemma_deepest(
    chain: Seq<modtree::ModView>,
    path: Seq<Seq<char>>,
    rest: Seq<Seq<char>>,
)
    requires
        modtree::mod_wf(chain[0]),
        modtree::goes_down(chain, path),
    ensures
        deepest(chain[0], path + rest) == deepest(chain.last(), rest),
        modtree::mod_wf(chain.last()),
    decreases path.len(),
{
    if path.len() == 0 {
        assert(path + rest =~= rest);
    } else {
        modtree::lemma_down_rest(chain, path);
        modtree::lemma_child(chain[0], path[0], chain[1]);
        lemma_deepest(chain.drop_first(), path.drop_first(), rest);
        assert((path + rest).drop_first() =~= path.drop_first() + rest);
    }
}

/// A path that starts with `crate` leads to the file of the module that is
/// reached by following its segments from the crate root as far as they name
/// child modules, wherever it stands.
pub proof fn law_crate_path_is_followed(
    chain: Seq<modtree::ModView>,
    path: Seq<Seq<char>>,
    rest: Seq<Seq<char>>,
    modpath: Seq<Seq<char>>,
)
    requires
        modtree::goes_down(chain, path),
        modtree::mod_wf(chain[0]),
        rest.len() > 0 ==> !chain.last().names.contains(rest[0]),
    ensures
        resolved(seq!["crate"@] + path + rest, modpath, chain[0]) == Some(
            ResolutionView::Internal(chain.last().file),
        ),
{
    let segments = seq!["crate"@] + path + rest;
    lemma_deepest(chain, path, rest);
    assert(segments[0] == "crate"@);
    assert(segments.skip(1) =~= path + rest);
}

proof fn lemma_supers(k: nat, rest: Seq<Seq<char>>)
    requires
        rest.len() == 0 || rest[0] != "super"@,
    ensures
        supers(Seq::new(k, |i: int| "super"@) + rest) == k,
    decreases k,
{
    let s = Seq::new(k, |i: int| "super"@) + rest;
    if k > 0 {
        lemma_supers((k - 1) as nat, rest);
        assert(s[0] == "super"@);
        assert(s.drop_first() =~= Seq::new((k - 1) as nat, |i: int| "super"@) + rest);
    } else {
        assert(s =~= rest);
    }
}

/// `super` and `self` abbreviate a path from the crate root: `k` times `super`
/// and then `rest`, in the module `modpath`, means what `crate`, `modpath` without
/// its last `k` names and then `rest` means; and so does `self` and then `rest`
/// with the whole of `modpath`.
pub proof fn law_super_abbreviates_crate(
    chain: Seq<modtree::ModView>,
    modpath: Seq<Seq<char>>,
    k: nat,
    rest: Seq<Seq<char>>,
)
    requires
        k <= modpath.len(),
        modtree::goes_down(chain, modpath.take(modpath.len() - k)),
        modtree::mod_wf(chain[0]),
    ensures
        k > 0 && (rest.len() == 0 || rest[0] != "super"@) ==> resolved(
            Seq::new(k, |i: int| "super"@) + rest,
            modpath,
            chain[0],
        ) == resolved(
            seq!["crate"@] + modpath.take(modpath.len() - k) + rest,
            modpath,
            chain[0],
        ),
        k == 0 ==> resolved(seq!["self"@] + rest, modpath, chain[0]) == resolved(
            seq!["crate"@] + modpath + rest,
            modpath,
            chain[0],
        ),
{
    let path = modpath.take(modpath.len() - k);
    let whole = seq!["crate"@] + path + rest;
    reveal_strlit("crate");
    reveal_strlit("self");
    reveal_strlit("super");
    lemma_module_at(chain, path);
    lemma_deepest(chain, path, rest);
    assert(whole[0] == "crate"@);
    assert(whole.skip(1) =~= path + rest);
    if k > 0 {
        let s = Seq::new(k, |i: int| "super"@) + rest;
        assert(s[0] == "super"@);
        assert("super"@.len() != "self"@.len());
        assert("super"@[0] != "crate"@[0]);
        if rest.len() == 0 || rest[0] != "super"@ {
            lemma_supers(k, rest);
            assert(s.skip(k as int) =~= rest);
        }
    } else {
        let s = seq!["self"@] + rest;
        assert(path =~= modpath);
        assert(s[0] == "self"@);
        assert("self"@.len() != "crate"@.len());
        assert(s.skip(1) =~= rest);
    }
}

/// A path that starts with none of `crate`, `self` and `super` means another
/// crate, the one that its first segment names. Nothing is meant by a path that
/// is empty, by more `super`s than the module is deep, and by `self` in a module
/// that is not in the tree.
pub proof fn law_other_paths_lead_out(
    segments: Seq<Seq<char>>,
    modpath: Seq<Seq<char>>,
    root: modtree::ModView,
    k: nat,
    rest: Seq<Seq<char>>,
)
    requires
        modtree::mod_wf(root),
    ensures
        segments.len() > 0 && segments[0] != "crate"@ && segments[0] != "self"@ && segments[0]
            != "super"@ ==> resolved(segments, modpath, root) == Some(
            ResolutionView::External(segments[0]),
        ),
        segments.len() == 0 ==> resolved(segments, modpath, root) is None,
        k > modpath.len() && (rest.len() == 0 || rest[0] != "super"@) ==> resolved(
            Seq::new(k, |i: int| "super"@) + rest,
            modpath,
            root,
        ) is None,
        resolved(seq!["self"@] + rest, modpath, root) is Some <==> exists|
            chain: Seq<modtree::ModView>,
        |
            chain[0] == root && #[trigger] modtree::goes_down(chain, modpath),
{
    reveal_strlit("crate");
    reveal_strlit("self");
    reveal_strlit("super");
    assert("self"@.len() != "crate"@.len());
    assert("super"@.len() != "self"@.len());
    assert("super"@[0] != "crate"@[0]);
    if k > modpath.len() && (rest.len() == 0 || rest[0] != "super"@) {
        lemma_supers(k, rest);
        assert((Seq::new(k, |i: int| "super"@) + rest)[0] == "super"@);
    }
    let s = seq!["self"@] + rest;
    assert(s[0] == "self"@);
    if module_at(root, modpath) is Some {
        let chain = lemma_way_to(root, modpath);
        assert(modtree::goes_down(chain, modpath));
    }
    assert forall|chain: Seq<modtree::ModView>|
        chain[0] == root && #[trigger] modtree::goes_down(chain, modpath) implies module_at(
        root,
        modpath,
    ) is Some by {
        lemma_module_at(chain, modpath);
    }
}

// --- what a use names -------------------------------------------------------------------------------

/// What a `use` tree names: `a::rest` what `rest` names, behind `a`; a name
/// itself, also where it is renamed; a glob the path in front of it; and a group
/// what its trees name, in their order. A prefix stands in front of all of it.
pub proof fn law_use_tree_names_paths(
    tree: syntax::ImportView,
    rest: Box<syntax::ImportView>,
    name: Seq<char>,
    a: Seq<syntax::ImportView>,
    b: Seq<syntax::ImportView>,
    prefix: Seq<Seq<char>>,
)
    ensures
        flat_use(syntax::ImportView::Name(name), prefix) == seq![prefix + seq![name]],
        flat_use(syntax::ImportView::Rename(name), prefix) == seq![prefix + seq![name]],
        flat_use(syntax::ImportView::Glob, prefix) == seq![prefix],
        flat_use(syntax::ImportView::Path(name, rest), prefix) == flat_use(
            *rest,
            prefix + seq![name],
        ),
        flat_use(syntax::ImportView::Group(seq![tree]), prefix) == flat_use(tree, prefix),
        flat_use(syntax::ImportView::Group(a + b), prefix) == flat_use(
            syntax::ImportView::Group(a),
            prefix,
        ) + flat_use(syntax::ImportView::Group(b), prefix),
        flat_use(syntax::ImportView::Group(Seq::empty()), prefix) == Seq::<
            Seq<Seq<char>>,
        >::empty(),
{
    assert(prefix.push(name) =~= prefix + seq![name]);
    lemma_flat_uses_add(a, b, prefix);
    assert(seq![tree].drop_last() =~= Seq::empty());
    assert(flat_uses(seq![tree].drop_last(), prefix) =~= Seq::empty());
    assert(flat_uses(seq![tree], prefix) =~= flat_use(tree, prefix));
}

proof fn lemma_flat_uses_add(
    a: Seq<syntax::ImportView>,
    b: Seq<syntax::ImportView>,
    prefix: Seq<Seq<char>>,
)
    ensures
        flat_uses(a + b, prefix) == flat_uses(a, prefix) + flat_uses(b, prefix),
    decreases b.len(),
{
    if b.len() == 0 {
        assert(a + b =~= a);
        assert(flat_uses(a, prefix) + flat_uses(b, prefix) =~= flat_uses(a, prefix));
    } else {
        lemma_flat_uses_add(a, b.drop_last(), prefix);
        assert((a + b).drop_last() =~= a + b.drop_last());
        assert(flat_uses(a + b, prefix) =~= flat_uses(a, prefix) + flat_uses(b, prefix));
    }
}

/// The paths of one item.
spec fn item_paths(item: syntax::DeclView, modpath: Seq<Seq<char>>) -> Seq<
    (Seq<Seq<char>>, Seq<Seq<char>>),
> {
    match item {
        syntax::DeclView::Use(tree) => flat_use(tree, Seq::empty()).map_values(
            |p: Seq<Seq<char>>| (p, modpath),
        ),
        syntax::DeclView::Mod { name, content: Some(inner) } => use_paths(
            inner,
            modpath.push(name),
        ),
        _ => Seq::empty(),
    }
}

proof fn lemma_use_at(
    items: Seq<syntax::DeclView>,
    i: int,
    modpath: Seq<Seq<char>>,
    site: (Seq<Seq<char>>, Seq<Seq<char>>),
)
    requires
        0 <= i < items.len(),
        item_paths(items[i], modpath).contains(site),
    ensures
        use_paths(items, modpath).contains(site),
    decreases items.len(),
{
    let rest = items.drop_last();
    text::lemma_add_contains(
        use_paths(rest, modpath),
        item_paths(items[items.len() - 1], modpath),
        site,
    );
    if i < rest.len() {
        lemma_use_at(rest, i, modpath, site);
    }
}

proof fn lemma_use_nested(
    lists: Seq<Seq<syntax::DeclView>>,
    names: Seq<Seq<char>>,
    k: int,
    tree: syntax::ImportView,
    modpath: Seq<Seq<char>>,
    p: Seq<Seq<char>>,
)
    requires
        syntax::nested_as(lists, names),
        0 <= k < lists.last().len(),
        lists.last()[k] == syntax::DeclView::Use(tree),
        flat_use(tree, Seq::empty()).contains(p),
    ensures
        use_paths(lists[0], modpath).contains((p, modpath + names)),
    decreases names.len(),
{
    if names.len() == 0 {
        let f = |p: Seq<Seq<char>>| (p, modpath);
        let all = flat_use(tree, Seq::empty());
        let j = choose|j: int| 0 <= j < all.len() && all[j] == p;
        assert(all.map_values(f)[j] == (p, modpath));
        assert(modpath + names =~= modpath);
        lemma_use_at(lists[0], k, modpath, (p, modpath));
    } else {
        syntax::lemma_nested_as_rest(lists, names);
        lemma_use_nested(
            lists.drop_first(),
            names.drop_first(),
            k,
            tree,
            modpath.push(names[0]),
            p,
        );
        assert(modpath.push(names[0]) + names.drop_first() =~= modpath + names);
        let i = choose|i: int|
            0 <= i < lists[0].len() && (#[trigger] lists[0][i]) == (syntax::DeclView::Mod {
                name: names[0],
                content: Some(lists[1]),
            });
        lemma_use_at(lists[0], i, modpath, (p, modpath + names));
    }
}

proof fn lemma_use_from(
    items: Seq<syntax::DeclView>,
    modpath: Seq<Seq<char>>,
    site: (Seq<Seq<char>>, Seq<Seq<char>>),
) -> (r: (Seq<Seq<syntax::DeclView>>, Seq<Seq<char>>, int))
    requires
        use_paths(items, modpath).contains(site),
    ensures
        syntax::nested_as(r.0, r.1),
        r.0[0] == items,
        0 <= r.2 < r.0.last().len(),
        r.0.last()[r.2] matches syntax::DeclView::Use(tree) && flat_use(
            tree,
            Seq::empty(),
        ).contains(site.0),
        site.1 == modpath + r.1,
    decreases items,
{
    let rest = items.drop_last();
    let last = items[items.len() - 1];
    let none: Seq<Seq<char>> = Seq::empty();
    text::lemma_add_contains(use_paths(rest, modpath), item_paths(last, modpath), site);
    if use_paths(rest, modpath).contains(site) {
        assert(decreases_to!(items => items.subrange(0, items.len() - 1)));
        let (lists, names, k) = lemma_use_from(rest, modpath, site);
        if names.len() == 0 {
            assert(syntax::nested_as(seq![items], none));
            assert(rest[k] == items[k]);
            assert(names =~= none);
            (seq![items], none, k)
        } else {
            syntax::lemma_nested_as_rest(lists, names);
            let i = choose|i: int|
                0 <= i < lists[0].len() && (#[trigger] lists[0][i]) == (syntax::DeclView::Mod {
                    name: names[0],
                    content: Some(lists[1]),
                });
            assert(items[i] == rest[i]);
            syntax::lemma_nested_as_more(
                items,
                i,
                names[0],
                lists.drop_first(),
                names.drop_first(),
            );
            assert(seq![names[0]] + names.drop_first() =~= names);
            (seq![items] + lists.drop_first(), names, k)
        }
    } else {
        match last {
            syntax::DeclView::Mod { name, content: Some(inner) } => {
                assert(decreases_to!(items => items[items.len() - 1]));
                let c = last->Mod_content;
                assert(decreases_to!(last => c));
                assert(decreases_to!(c => c->0));
                let (lists, names, k) = lemma_use_from(inner, modpath.push(name), site);
                syntax::lemma_nested_as_more(items, items.len() - 1, name, lists, names);
                assert(modpath.push(name) + names =~= modpath + (seq![name] + names));
                (seq![items] + lists, seq![name] + names, k)
            },
            syntax::DeclView::Use(tree) => {
                let f = |p: Seq<Seq<char>>| (p, modpath);
                let all = flat_use(tree, Seq::empty());
                let j = choose|j: int|
                    0 <= j < all.map_values(f).len() && all.map_values(f)[j] == site;
                assert(all[j] == site.0);
                assert(syntax::nested_as(seq![items], none));
                assert(modpath + none =~= modpath);
                (seq![items], none, items.len() - 1)
            },
            _ => {
                assert(false);
                (seq![items], none, 0)
            },
        }
    }
}

/// The paths that a file uses are exactly those that its `use` items name, also
/// the items in inline modules, however deep. The module of a path is that of the
/// file followed by the names of the inline modules around it.
pub proof fn law_all_uses_are_collected(
    items: Seq<syntax::DeclView>,
    modpath: Seq<Seq<char>>,
    path: Seq<Seq<char>>,
    at: Seq<Seq<char>>,
)
    ensures
        use_paths(items, modpath).contains((path, at)) <==> exists|
            lists: Seq<Seq<syntax::DeclView>>,
            names: Seq<Seq<char>>,
            k: int,
        |
            #![trigger syntax::nested_as(lists, names), lists.last()[k]]
            {
                &&& syntax::nested_as(lists, names)
                &&& lists[0] == items
                &&& at == modpath + names
                &&& 0 <= k < lists.last().len()
                &&& lists.last()[k] matches syntax::DeclView::Use(tree)
                &&& flat_use(tree, Seq::empty()).contains(path)
            },
{
    if use_paths(items, modpath).contains((path, at)) {
        let (lists, names, k) = lemma_use_from(items, modpath, (path, at));
        assert(syntax::nested_as(lists, names));
        assert(lists.last()[k] is Use);
    }
    assert forall|lists: Seq<Seq<syntax::DeclView>>, names: Seq<Seq<char>>, k: int|
        #![trigger syntax::nested_as(lists, names), lists.last()[k]]
        {
            &&& syntax::nested_as(lists, names)
            &&& lists[0] == items
            &&& at == modpath + names
            &&& 0 <= k < lists.last().len()
            &&& lists.last()[k] matches syntax::DeclView::Use(tree)
            &&& flat_use(tree, Seq::empty()).contains(path)
        } implies use_paths(items, modpath).contains((path, at)) by {
        let tree = lists.last()[k]->Use_0;
        lemma_use_nested(lists, names, k, tree, modpath, path);
    }
}

proof fn lemma_internal_pairs(
    sites: Seq<(Seq<Seq<char>>, Seq<Seq<char>>)>,
    file: Seq<char>,
    root: modtree::ModView,
    repo: Seq<char>,
    e: (Seq<char>, Seq<char>),
)
    ensures
        internal_pairs(sites, file, root, repo).contains(e) <==> exists|s: int|
            {
                &&& 0 <= s < sites.len()
                &&& resolved((#[trigger] sites[s]).0, sites[s].1, root) matches Some(
                    ResolutionView::Internal(target),
                )
                &&& target != file
                &&& e == (paths::relative(file, repo), paths::relative(target, repo))
            },
    decreases sites.len(),
{
    if sites.len() > 0 {
        let rest = sites.drop_last();
        let last = sites[sites.len() - 1];
        lemma_internal_pairs(rest, file, root, repo, e);
        if let Some(ResolutionView::Internal(target)) = resolved(last.0, last.1, root) {
            text::lemma_push_contains(
                internal_pairs(rest, file, root, repo),
                (paths::relative(file, repo), paths::relative(target, repo)),
                e,
            );
        }
        assert forall|s: int| 0 <= s < rest.len() implies #[trigger] rest[s] == sites[s] by {}
        assert(forall|s: int|
            0 <= s < sites.len() ==> s == rest.len() || #[trigger] sites[s] == rest[s]);
    }
}

proof fn lemma_external_pairs(
    sites: Seq<(Seq<Seq<char>>, Seq<Seq<char>>)>,
    file: Seq<char>,
    root: modtree::ModView,
    repo: Seq<char>,
    e: (Seq<char>, Seq<char>),
)
    ensures
        external_pairs(sites, file, root, repo).contains(e) <==> exists|s: int|
            {
                &&& 0 <= s < sites.len()
                &&& resolved((#[trigger] sites[s]).0, sites[s].1, root) matches Some(
                    ResolutionView::External(name),
                )
                &&& e == (paths::relative(file, repo), name)
            },
    decreases sites.len(),
{
    if sites.len() > 0 {
        let rest = sites.drop_last();
        let last = sites[sites.len() - 1];
        lemma_external_pairs(rest, file, root, repo, e);
        if let Some(ResolutionView::External(name)) = resolved(last.0, last.1, root) {
            text::lemma_push_contains(
                external_pairs(rest, file, root, repo),
                (paths::relative(file, repo), name),
                e,
            );
        }
        assert forall|s: int| 0 <= s < rest.len() implies #[trigger] rest[s] == sites[s] by {}
        assert(forall|s: int|
            0 <= s < sites.len() ==> s == rest.len() || #[trigger] sites[s] == rest[s]);
    }
}

proof fn lemma_all_pairs(
    d: modtree::DiskView,
    w: modtree::WalkView,
    repo: Seq<char>,
    n: int,
    e: (Seq<char>, Seq<char>),
)
    requires
        0 <= n <= w.seen.files.len(),
    ensures
        all_internal(d, w, repo, n).contains(e) <==> exists|k: int|
            0 <= k < n && internal_pairs(
                file_sites(d, w, #[trigger] w.seen.files[k]),
                w.seen.files[k],
                w.node,
                repo,
            ).contains(e),
        all_external(d, w, repo, n).contains(e) <==> exists|k: int|
            0 <= k < n && external_pairs(
                file_sites(d, w, #[trigger] w.seen.files[k]),
                w.seen.files[k],
                w.node,
                repo,
            ).contains(e),
    decreases n,
{
    if n > 0 {
        lemma_all_pairs(d, w, repo, n - 1, e);
        let f = w.seen.files[n - 1];
        text::lemma_add_contains(
            all_internal(d, w, repo, n - 1),
            internal_pairs(file_sites(d, w, f), f, w.node, repo),
            e,
        );
        text::lemma_add_contains(
            all_external(d, w, repo, n - 1),
            external_pairs(file_sites(d, w, f), f, w.node, repo),
            e,
        );
    }
}

/// The edges of the graph of a crate are exactly these. A file imports another
/// one of the crate if one of the paths that it uses leads to a module in that
/// file; a path that leads to the file itself makes no edge. It imports another
/// crate if one of the paths leads to that crate. The files are all those that
/// the module tree was made of.
pub proof fn law_edges_come_from_uses(
    d: modtree::DiskView,
    w: modtree::WalkView,
    repo: Seq<char>,
    a: Seq<char>,
    b: Seq<char>,
)
    ensures
        ({
            let g = graph_of(d, w, repo);
            &&& names::under(g.out_internal.edges, a).contains(b) <==> exists|
                f: Seq<char>,
                site: (Seq<Seq<char>>, Seq<Seq<char>>),
            |
                #![trigger w.seen.files.contains(f), resolved(site.0, site.1, w.node)]
                {
                    &&& w.seen.files.contains(f)
                    &&& d.items(f) matches Some(items)
                    &&& use_paths(items, w.seen.modpaths[f]).contains(site)
                    &&& resolved(site.0, site.1, w.node) matches Some(
                        ResolutionView::Internal(target),
                    )
                    &&& target != f
                    &&& a == paths::relative(f, repo)
                    &&& b == paths::relative(target, repo)
                }
            &&& names::under(g.out_external.edges, a).contains(b) <==> exists|
                f: Seq<char>,
                site: (Seq<Seq<char>>, Seq<Seq<char>>),
            |
                #![trigger w.seen.files.contains(f), resolved(site.0, site.1, w.node)]
                {
                    &&& w.seen.files.contains(f)
                    &&& d.items(f) matches Some(items)
                    &&& use_paths(items, w.seen.modpaths[f]).contains(site)
                    &&& resolved(site.0, site.1, w.node) == Some(ResolutionView::External(b))
                    &&& a == paths::relative(f, repo)
                }
            &&& g.files.contains(a) <==> exists|f: Seq<char>|
                #[trigger] w.seen.files.contains(f) && a == paths::relative(f, repo)
        }),
{
    let g = graph_of(d, w, repo);
    let n = w.seen.files.len() as int;
    let none = names::no_edges();
    let i = all_internal(d, w, repo, n);
    let x = all_external(d, w, repo, n);
    assert forall|k: Seq<char>| order::ascending(#[trigger] names::under(none.edges, k)) by {}
    names::lemma_with_edges(none, i, a, b);
    names::lemma_with_edges(none, x, a, b);
    lemma_all_pairs(d, w, repo, n, (a, b));
    assert(names::under(none.edges, a).len() == 0);
    if i.contains((a, b)) {
        let k = choose|k: int|
            0 <= k < n && internal_pairs(
                file_sites(d, w, #[trigger] w.seen.files[k]),
                w.seen.files[k],
                w.node,
                repo,
            ).contains((a, b));
        let f = w.seen.files[k];
        let sites = file_sites(d, w, f);
        lemma_internal_pairs(sites, f, w.node, repo, (a, b));
        let s = choose|s: int|
            {
                &&& 0 <= s < sites.len()
                &&& resolved((#[trigger] sites[s]).0, sites[s].1, w.node) matches Some(
                    ResolutionView::Internal(target),
                )
                &&& target != f
                &&& (a, b) == (paths::relative(f, repo), paths::relative(target, repo))
            };
        assert(sites.contains(sites[s]));
        assert(w.seen.files.contains(f));
    }
    if x.contains((a, b)) {
        let k = choose|k: int|
            0 <= k < n && external_pairs(
                file_sites(d, w, #[trigger] w.seen.files[k]),
                w.seen.files[k],
                w.node,
                repo,
            ).contains((a, b));
        let f = w.seen.files[k];
        let sites = file_sites(d, w, f);
        lemma_external_pairs(sites, f, w.node, repo, (a, b));
        let s = choose|s: int|
            {
                &&& 0 <= s < sites.len()
                &&& resolved((#[trigger] sites[s]).0, sites[s].1, w.node) matches Some(
                    ResolutionView::External(name),
                )
                &&& (a, b) == (paths::relative(f, repo), name)
            };
        assert(sites.contains(sites[s]));
        assert(w.seen.files.contains(f));
    }
    assert forall|f: Seq<char>, site: (Seq<Seq<char>>, Seq<Seq<char>>)|
        #![trigger w.seen.files.contains(f), resolved(site.0, site.1, w.node)]
        w.seen.files.contains(f) && d.items(f) is Some && use_paths(
            d.items(f)->0,
            w.seen.modpaths[f],
        ).contains(site) && a == paths::relative(f, repo) implies {
        &&& (resolved(site.0, site.1, w.node) matches Some(ResolutionView::Internal(target))
            && target != f && b == paths::relative(target, repo)) ==> i.contains((a, b))
        &&& resolved(site.0, site.1, w.node) == Some(ResolutionView::External(b)) ==> x.contains(
            (a, b),
        )
    } by {
        let k = choose|k: int| 0 <= k < n && w.seen.files[k] == f;
        let sites = file_sites(d, w, f);
        let s = choose|s: int| 0 <= s < sites.len() && sites[s] == site;
        lemma_internal_pairs(sites, f, w.node, repo, (a, b));
        lemma_external_pairs(sites, f, w.node, repo, (a, b));
        assert(w.seen.files[k] == f);
        assert(sites[s] == site);
    }
    let shown = w.seen.files.map_values(|f: Seq<char>| paths::relative(f, repo));
    order::lemma_collected_contains(shown);
    if shown.contains(a) {
        let k = choose|k: int| 0 <= k < shown.len() && shown[k] == a;
        assert(w.seen.files.contains(w.seen.files[k]));
    }
    assert forall|f: Seq<char>|
        #[trigger] w.seen.files.contains(f) && a == paths::relative(f, repo) implies shown.contains(
        a,
    ) by {
        let k = choose|k: int| 0 <= k < n && w.seen.files[k] == f;
        assert(shown[k] == a);
    }
}

proof fn lemma_mod_pairs_in(
    chain: Seq<modtree::ModView>,
    path: Seq<Seq<char>>,
    i: int,
    repo: Seq<char>,
)
    requires
        modtree::mod_wf(chain[0]),
        modtree::goes_down(chain, path),
        0 <= i < chain.last().nodes.len(),
        chain.last().nodes[i].file != chain.last().file,
    ensures
        mod_pairs(chain[0], repo).contains(
            (
                paths::relative(chain.last().file, repo),
                paths::relative(chain.last().nodes[i].file, repo),
            ),
        ),
    decreases path.len(),
{
    let e = (
        paths::relative(chain.last().file, repo),
        paths::relative(chain.last().nodes[i].file, repo),
    );
    let m = chain[0];
    if path.len() == 0 {
        lemma_mod_pairs_at(m.file, m.nodes, i, repo, e);
    } else {
        modtree::lemma_down_rest(chain, path);
        modtree::lemma_child(m, path[0], chain[1]);
        lemma_mod_pairs_in(chain.drop_first(), path.drop_first(), i, repo);
        let k = choose|k: int|
            0 <= k < m.names.len() && (#[trigger] m.names[k]) == path[0] && m.nodes[k] == chain[1];
        lemma_mod_pairs_at(m.file, m.nodes, k, repo, e);
    }
}

proof fn lemma_mod_pairs_at(
    file: Seq<char>,
    nodes: Seq<modtree::ModView>,
    i: int,
    repo: Seq<char>,
    e: (Seq<char>, Seq<char>),
)
    requires
        0 <= i < nodes.len(),
        mod_pairs(nodes[i], repo).contains(e) || (nodes[i].file != file && e == (
            paths::relative(file, repo),
            paths::relative(nodes[i].file, repo),
        )),
    ensures
        mod_pairs_to(file, nodes, repo).contains(e),
    decreases nodes.len(),
{
    let rest = nodes.drop_last();
    let c = nodes[nodes.len() - 1];
    let own = if c.file == file {
        Seq::empty()
    } else {
        seq![(paths::relative(file, repo), paths::relative(c.file, repo))]
    };
    let a = mod_pairs_to(file, rest, repo);
    text::lemma_add_contains(a, own, e);
    text::lemma_add_contains(a + own, mod_pairs(c, repo), e);
    if i < rest.len() {
        assert(rest[i] == nodes[i]);
        lemma_mod_pairs_at(file, rest, i, repo, e);
    } else if c.file != file {
        assert(own[0] == (paths::relative(file, repo), paths::relative(c.file, repo)));
    }
}

proof fn lemma_mod_pairs_from(
    m: modtree::ModView,
    n: int,
    repo: Seq<char>,
    e: (Seq<char>, Seq<char>),
) -> (r: (Seq<modtree::ModView>, Seq<Seq<char>>, int))
    requires
        modtree::mod_wf(m),
        0 <= n <= m.nodes.len(),
        mod_pairs_to(m.file, m.nodes.take(n), repo).contains(e),
    ensures
        r.0[0] == m,
        modtree::goes_down(r.0, r.1),
        0 <= r.2 < r.0.last().nodes.len(),
        r.0.last().nodes[r.2].file != r.0.last().file,
        e == (
            paths::relative(r.0.last().file, repo),
            paths::relative(r.0.last().nodes[r.2].file, repo),
        ),
    decreases m, n,
{
    let nodes = m.nodes.take(n);
    let none: Seq<Seq<char>> = Seq::empty();
    if n == 0 {
        assert(nodes =~= Seq::empty());
        assert(false);
    }
    let rest = nodes.drop_last();
    let c = nodes[n - 1];
    let own = if c.file == m.file {
        Seq::empty()
    } else {
        seq![(paths::relative(m.file, repo), paths::relative(c.file, repo))]
    };
    let a = mod_pairs_to(m.file, rest, repo);
    text::lemma_add_contains(a, own, e);
    text::lemma_add_contains(a + own, mod_pairs(c, repo), e);
    assert(rest =~= m.nodes.take(n - 1));
    if a.contains(e) {
        lemma_mod_pairs_from(m, n - 1, repo, e)
    } else if own.contains(e) {
        assert(modtree::goes_down(seq![m], none));
        (seq![m], none, n - 1)
    } else {
        assert(decreases_to!(m => m.nodes));
        assert(decreases_to!(m.nodes => m.nodes[n - 1]));
        assert(modtree::mod_wf(m.nodes[n - 1]));
        assert(c.nodes.take(c.nodes.len() as int) =~= c.nodes);
        let (chain, path, i) = lemma_mod_pairs_from(c, c.nodes.len() as int, repo, e);
        let name = m.names[n - 1];
        assert(modtree::is_child(m, name, c));
        modtree::lemma_down_more(m, name, chain, path);
        (seq![m] + chain, seq![name] + path, i)
    }
}

/// A file declares another one exactly if some module in it, at any depth of the
/// tree, has a child module whose file is the other one.
pub proof fn law_edges_come_from_modules(
    d: modtree::DiskView,
    w: modtree::WalkView,
    repo: Seq<char>,
    a: Seq<char>,
    b: Seq<char>,
)
    requires
        modtree::mod_wf(w.node),
    ensures
        names::under(graph_of(d, w, repo).mod_edges.edges, a).contains(b) <==> exists|
            chain: Seq<modtree::ModView>,
            path: Seq<Seq<char>>,
            i: int,
        |
            #![trigger modtree::goes_down(chain, path), chain.last().nodes[i]]
            {
                &&& chain[0] == w.node
                &&& modtree::goes_down(chain, path)
                &&& 0 <= i < chain.last().nodes.len()
                &&& chain.last().nodes[i].file != chain.last().file
                &&& a == paths::relative(chain.last().file, repo)
                &&& b == paths::relative(chain.last().nodes[i].file, repo)
            },
{
    let none = names::no_edges();
    let all = mod_pairs(w.node, repo);
    assert forall|k: Seq<char>| order::ascending(#[trigger] names::under(none.edges, k)) by {}
    names::lemma_with_edges(none, all, a, b);
    assert(names::under(none.edges, a).len() == 0);
    if all.contains((a, b)) {
        let n = w.node.nodes.len() as int;
        assert(w.node.nodes.take(n) =~= w.node.nodes);
        let (chain, path, i) = lemma_mod_pairs_from(w.node, n, repo, (a, b));
        assert(modtree::goes_down(chain, path));
        let c = chain.last().nodes[i];
    }
    assert forall|chain: Seq<modtree::ModView>, path: Seq<Seq<char>>, i: int|
        #![trigger modtree::goes_down(chain, path), chain.last().nodes[i]]
        {
            &&& chain[0] == w.node
            &&& modtree::goes_down(chain, path)
            &&& 0 <= i < chain.last().nodes.len()
            &&& chain.last().nodes[i].file != chain.last().file
            &&& a == paths::relative(chain.last().file, repo)
            &&& b == paths::relative(chain.last().nodes[i].file, repo)
        } implies all.contains((a, b)) by {
        lemma_mod_pairs_in(chain, path, i, repo);
    }
}

// --- what is printed ----------------------------------------------------------------------------------

proof fn lemma_scoped(files: Seq<Seq<char>>, scope: Option<Seq<char>>)
    ensures
        scoped(files, scope) == files.filter(|f: Seq<char>| in_scope(f, scope)),
    decreases files.len(),
{
    reveal(Seq::filter);
    if files.len() > 0 {
        lemma_scoped(files.drop_last(), scope);
    }
}

proof fn lemma_widest(files: Seq<Seq<char>>, width: nat)
    requires
        files.len() > 0,
        forall|k: int|
            0 <= k < files.len() ==> vstd::utf8::encode_utf8(#[trigger] files[k]).len() <= width,
        exists|k: int|
            0 <= k < files.len() && vstd::utf8::encode_utf8(#[trigger] files[k]).len() == width,
    ensures
        widest(files) == width,
{
    let k = choose|k: int|
        0 <= k < files.len() && vstd::utf8::encode_utf8(#[trigger] files[k]).len() == width;
    lemma_widest_bounds(files, k, width);
}

proof fn lemma_widest_bounds(files: Seq<Seq<char>>, k: int, width: nat)
    requires
        forall|j: int|
            0 <= j < files.len() ==> vstd::utf8::encode_utf8(#[trigger] files[j]).len() <= width,
    ensures
        widest(files) <= width,
        0 <= k < files.len() ==> widest(files) >= vstd::utf8::encode_utf8(files[k]).len(),
    decreases files.len(),
{
    if files.len() > 0 {
        let rest = files.drop_last();
        let last = files[files.len() - 1];
        assert(vstd::utf8::encode_utf8(last).len() <= width);
        assert forall|j: int| 0 <= j < rest.len() implies vstd::utf8::encode_utf8(
            #[trigger] rest[j],
        ).len() <= width by {
            assert(rest[j] == files[j]);
        }
        lemma_widest_bounds(rest, k, width);
    }
}

proof fn lemma_rows(
    g: GraphView,
    files: Seq<Seq<char>>,
    mode: Mode,
    include_ext: bool,
    width: nat,
)
    ensures
        rows_text(g, files, mode, include_ext, width) == similar::glued(
            files.map_values(|f: Seq<char>| row_text(g, f, mode, include_ext, width)),
        ),
    decreases files.len(),
{
    let show = |f: Seq<char>| row_text(g, f, mode, include_ext, width);
    let all = files.map_values(show);
    if files.len() > 0 {
        lemma_rows(g, files.drop_last(), mode, include_ext, width);
        assert(all.drop_last() =~= files.drop_last().map_values(show));
    }
}

proof fn lemma_importers_exact(e: names::EdgesView, keys: Seq<Seq<char>>, file: Seq<char>)
    requires
        forall|k: Seq<char>| #[trigger] keys.contains(k) ==> e.edges.contains_key(k),
    ensures
        importers(e.edges, keys, file) == keys.filter(
            |k: Seq<char>| names::under(e.edges, k).contains(file),
        ),
    decreases keys.len(),
{
    reveal(Seq::filter);
    if keys.len() > 0 {
        let rest = keys.drop_last();
        assert forall|k: Seq<char>| #[trigger] rest.contains(k) implies e.edges.contains_key(
            k,
        ) by {
            let i = choose|i: int| 0 <= i < rest.len() && rest[i] == k;
            assert(keys[i] == k);
            assert(keys.contains(k));
        }
        lemma_importers_exact(e, rest, file);
        assert(keys[keys.len() - 1] == keys.last());
        assert(keys.contains(keys.last()));
    }
}

/// The whole graph as text: a row for each file of the graph that is the scope or
/// lies in the directory of that name, in alphabetical order. A row is the file,
/// filled up with blanks to the longest, an arrow and a list: `->` and the short
/// names of the files that it imports, followed by the crates that it imports
/// where these are asked for; or `<-` and the short names of the files that
/// import it. `-` stands for an empty list. A short name is the file name without
/// its extension.
pub proof fn law_rows_list_imports(
    g: GraphView,
    mode: Mode,
    include_ext: bool,
    scope: Option<Seq<char>>,
    width: nat,
)
    requires
        names::edges_wf(g.out_internal),
        ({
            let files = g.files.filter(
                |f: Seq<char>|
                    scope matches Some(s) ==> {
                        let dir = text::trim_end(s, |c: char| c == '/');
                        f == dir || (f.len() > dir.len() && f.take(dir.len() as int) == dir
                            && f[dir.len() as int] == '/')
                    },
            );
            &&& forall|k: int|
                0 <= k < files.len() ==> vstd::utf8::encode_utf8(#[trigger] files[k]).len()
                    <= width
            &&& files.len() > 0 ==> exists|k: int|
                0 <= k < files.len() && vstd::utf8::encode_utf8(#[trigger] files[k]).len() == width
        }),
    ensures
        ({
            let files = g.files.filter(
                |f: Seq<char>|
                    scope matches Some(s) ==> {
                        let dir = text::trim_end(s, |c: char| c == '/');
                        f == dir || (f.len() > dir.len() && f.take(dir.len() as int) == dir
                            && f[dir.len() as int] == '/')
                    },
            );
            let short = |f: Seq<char>|
                match paths::file_stem_of(f) {
                    Some(stem) => stem,
                    None => f,
                };
            all_text(g, mode, include_ext, scope) == if files.len() == 0 {
                match scope {
                    Some(s) => "no files under scope `"@ + s + "`\n"@,
                    None => Seq::empty(),
                }
            } else {
                similar::glued(
                    files.map_values(
                        |f: Seq<char>|
                            {
                                let list = match mode {
                                    Mode::Forward => names::under(
                                        g.out_internal.edges,
                                        f,
                                    ).map_values(short) + (if include_ext {
                                        names::under(g.out_external.edges, f)
                                    } else {
                                        Seq::empty()
                                    }),
                                    Mode::Reverse => g.out_internal.keys.filter(
                                        |k: Seq<char>|
                                            names::under(g.out_internal.edges, k).contains(f),
                                    ).map_values(short),
                                };
                                f + Seq::new(
                                    if f.len() < width {
                                        (width - f.len()) as nat
                                    } else {
                                        0
                                    },
                                    |i: int| ' ',
                                ) + (match mode {
                                    Mode::Forward => " -> "@,
                                    Mode::Reverse => " <- "@,
                                }) + (if list.len() == 0 {
                                    "-"@
                                } else {
                                    text::join(list, ", "@)
                                }) + "\n"@
                            },
                    ),
                )
            }
        }),
{
    let wanted = |f: Seq<char>|
        scope matches Some(s) ==> {
            let dir = text::trim_end(s, |c: char| c == '/');
            f == dir || (f.len() > dir.len() && f.take(dir.len() as int) == dir
                && f[dir.len() as int] == '/')
        };
    let files = g.files.filter(wanted);
    let short = |f: Seq<char>|
        match paths::file_stem_of(f) {
            Some(stem) => stem,
            None => f,
        };
    assert forall|f: Seq<char>| in_scope(f, scope) == #[trigger] wanted(f) by {
        if let Some(s) = scope {
            let dir = text::trim_end(s, text::only('/'));
            assert(text::only('/') =~= (|c: char| c == '/'));
            let p = dir + "/"@;
            reveal_strlit("/");
            if text::starts_with(f, p) {
                assert(f.subrange(0, p.len() as int) == p);
                assert(f.take(dir.len() as int) =~= dir) by {
                    assert(p.take(dir.len() as int) =~= dir);
                    assert(f.take(dir.len() as int) =~= f.subrange(0, p.len() as int).take(
                        dir.len() as int,
                    ));
                }
                assert(f[dir.len() as int] == p[dir.len() as int]);
            }
            if f.len() > dir.len() && f.take(dir.len() as int) == dir && f[dir.len() as int] == '/' {
                assert(f.subrange(0, p.len() as int) =~= p) by {
                    assert forall|i: int| 0 <= i < p.len() implies f.subrange(
                        0,
                        p.len() as int,
                    )[i] == p[i] by {
                        if i < dir.len() {
                            assert(f.take(dir.len() as int)[i] == dir[i]);
                        }
                    }
                }
            }
        }
    }
    assert((|f: Seq<char>| in_scope(f, scope)) =~= wanted);
    lemma_scoped(g.files, scope);
    assert(scoped(g.files, scope) == files);
    if files.len() > 0 {
        lemma_widest(files, width);
        lemma_rows(g, files, mode, include_ext, width);
        let show = |f: Seq<char>| row_text(g, f, mode, include_ext, width);
        let plain = |f: Seq<char>|
            {
                let list = match mode {
                    Mode::Forward => names::under(g.out_internal.edges, f).map_values(short) + (
                    if include_ext {
                        names::under(g.out_external.edges, f)
                    } else {
                        Seq::empty()
                    }),
                    Mode::Reverse => g.out_internal.keys.filter(
                        |k: Seq<char>| names::under(g.out_internal.edges, k).contains(f),
                    ).map_values(short),
                };
                f + Seq::new(
                    if f.len() < width {
                        (width - f.len()) as nat
                    } else {
                        0
                    },
                    |i: int| ' ',
                ) + (match mode {
                    Mode::Forward => " -> "@,
                    Mode::Reverse => " <- "@,
                }) + (if list.len() == 0 {
                    "-"@
                } else {
                    text::join(list, ", "@)
                }) + "\n"@
            };
        assert forall|f: Seq<char>| show(f) == #[trigger] plain(f) by {
            let e = g.out_internal;
            assert forall|k: Seq<char>| #[trigger] e.keys.contains(k) implies e.edges.contains_key(
                k,
            ) by {
                assert(e.keys.to_set().contains(k));
            }
            lemma_importers_exact(e, e.keys, f);
            let n: nat = if f.len() < width {
                (width - f.len()) as nat
            } else {
                0
            };
            assert(text::repeated(' ', n) =~= Seq::new(n, |i: int| ' '));
            assert((|r: Seq<char>| short_name_of(r)) =~= short);
        }
        assert(show =~= plain);
    }
}

/// One file as text: the file, the files that it imports, the files that import
/// it and, where asked for, the crates that it imports, all in alphabetical order
/// and by their paths, with `-` for an empty list. A file that is not in the graph
/// is an error.
pub proof fn law_focus_lists_both_sides(g: GraphView, focus: Seq<char>, include_ext: bool)
    requires
        names::edges_wf(g.out_internal),
        g.files.contains(focus),
    ensures
        ({
            let listed = |list: Seq<Seq<char>>|
                if list.len() == 0 {
                    "-"@
                } else {
                    text::join(list, ", "@)
                };
            focus_text(g, focus, include_ext) == focus + "\n"@ + "  out: "@ + listed(
                names::under(g.out_internal.edges, focus),
            ) + "\n"@ + "  in:  "@ + listed(
                g.out_internal.keys.filter(
                    |k: Seq<char>| names::under(g.out_internal.edges, k).contains(focus),
                ),
            ) + "\n"@ + if include_ext {
                "  ext: "@ + listed(names::under(g.out_external.edges, focus)) + "\n"@
            } else {
                Seq::empty()
            }
        }),
{
    let e = g.out_internal;
    assert forall|k: Seq<char>| #[trigger] e.keys.contains(k) implies e.edges.contains_key(k) by {
        assert(e.keys.to_set().contains(k));
    }
    lemma_importers_exact(e, e.keys, focus);
}

/// What is printed of a crate: of the graph that starts at `src/main.rs`, or else
/// at `src/lib.rs`, the file asked for, seen from the repository, or all files.
/// Where neither root is there, or the file is not in the graph, there is an error
/// message instead.
pub proof fn law_deps_of_a_crate(
    d: modtree::DiskView,
    repo: Seq<char>,
    shown: Seq<char>,
    opts: DepsOptions,
)
    ensures
        ({
            let main = paths::joined(repo, "src/main.rs"@);
            let lib = paths::joined(repo, "src/lib.rs"@);
            let root = if d.probes.contains_key(main) && d.probes[main] is Some {
                d.probes[main]
            } else if d.probes.contains_key(main) && d.probes.contains_key(lib) {
                d.probes[lib]
            } else {
                None
            };
            &&& root matches Some(canon) ==> {
                let g = graph_of(d, modtree::tree_from(d, canon), repo);
                &&& repo_graph(d, repo) == Some(g)
                &&& opts.focus is None ==> report(d, repo, shown, opts) == Ok::<
                    Seq<char>,
                    Seq<char>,
                >(all_text(g, opts.mode, opts.include_external, text::opt_text(opts.scope)))
                &&& opts.focus matches Some(f) ==> {
                    let rel = paths::relative(f@, repo);
                    &&& g.files.contains(rel) ==> report(d, repo, shown, opts) == Ok::<
                        Seq<char>,
                        Seq<char>,
                    >(focus_text(g, rel, opts.include_external))
                    &&& !g.files.contains(rel) ==> report(d, repo, shown, opts) == Err::<
                        Seq<char>,
                        Seq<char>,
                    >("file `"@ + rel + "` not in module tree\n"@)
                }
            }
            &&& root is None ==> repo_graph(d, repo) is None && report(d, repo, shown, opts) == Err::<
                Seq<char>,
                Seq<char>,
            >(
                "no crate root found (looked for "@ + shown + "/src/main.rs and "@ + shown
                    + "/src/lib.rs)\n"@,
            )
        }),
{
}

} // verus!
