//! Path enumeration: an in-memory tree of files and directories.
//!
//! The files come from a walk of the file system that respects ignore files.
//! Here they are filtered and put into a tree.

use vstd::prelude::*;
use vstd::slice::slice_subrange;

use crate::names::NameSet;
use crate::order::{find_slot, Slot};
use crate::{order, paths, text};

verus! {

#[derive(Debug)]
pub enum Node {
    Dir { name: String, rel: String, children: Vec<Node> },
    File { name: String, abs: String },
}

/// What a [`Node`] holds.
pub enum NodeView {
    Dir { name: Seq<char>, rel: Seq<char>, children: Seq<NodeView> },
    File { name: Seq<char>, abs: Seq<char> },
}

pub open spec fn node_view(n: Node) -> NodeView
    decreases n,
{
    match n {
        Node::Dir { name, rel, children } => NodeView::Dir {
            name: name@,
            rel: rel@,
            children: nodes_view(children@),
        },
        Node::File { name, abs } => NodeView::File { name: name@, abs: abs@ },
    }
}

pub open spec fn nodes_view(ns: Seq<Node>) -> Seq<NodeView>
    decreases ns,
{
    Seq::new(
        ns.len(),
        |i: int|
            if 0 <= i < ns.len() {
                node_view(ns[i])
            } else {
                NodeView::File { name: Seq::empty(), abs: Seq::empty() }
            },
    )
}

pub open spec fn node_name(n: NodeView) -> Seq<char> {
    match n {
        NodeView::Dir { name, .. } => name,
        NodeView::File { name, .. } => name,
    }
}

impl Node {
    /// The name of the file or the directory.
    pub fn name(&self) -> (r: &str)
        ensures
            r@ == node_name(node_view(*self)),
    {
        match self {
            Node::Dir { name, .. } => name.as_str(),
            Node::File { name, .. } => name.as_str(),
        }
    }
}

/// Filter applied to enumerated paths.
#[derive(Debug)]
pub struct Filter {
    /// Skip paths whose relative path contains any of these substrings.
    pub exclude: Vec<String>,
    /// If non-empty, only include files whose extension matches one of these
    /// (without leading `.`).
    pub ext: Vec<String>,
}

impl Default for Filter {
    fn default() -> (r: Filter)
        ensures
            r.exclude@.len() == 0,
            r.ext@.len() == 0,
    {
        Filter { exclude: Vec::new(), ext: Vec::new() }
    }
}

// --- filtering ---------------------------------------------------------------------

/// The text after the last `/`.
pub open spec fn base_name(rel: Seq<char>) -> Seq<char> {
    rel.skip(text::last_position(rel, '/') + 1)
}

/// Whether the text after the last dot of the file name is one of `allowed`,
/// in any letter case. An empty list allows everything.
pub open spec fn ext_allowed(rel: Seq<char>, allowed: Seq<Seq<char>>) -> bool {
    let name = base_name(rel);
    let dot = text::last_position(name, '.');
    ||| allowed.len() == 0
    ||| dot >= 0 && exists|i: int|
        0 <= i < allowed.len() && text::same_ignoring_ascii_case(
            #[trigger] allowed[i],
            name.skip(dot + 1),
        )
}

/// Whether one of `exclude` stands in the path.
pub open spec fn excluded(rel: Seq<char>, exclude: Seq<Seq<char>>) -> bool {
    exists|i: int| 0 <= i < exclude.len() && text::has_text(rel, #[trigger] exclude[i])
}

/// Whether a filter lets a path pass.
pub open spec fn passes(rel: Seq<char>, filter: Filter) -> bool {
    !excluded(rel, text::texts(filter.exclude@)) && ext_allowed(rel, text::texts(filter.ext@))
}

/// Whether the extension of `rel` is one of `allowed`, or there are none.
pub fn ext_matches(rel: &str, allowed: &Vec<String>) -> (r: bool)
    ensures
        r == ext_allowed(rel@, text::texts(allowed@)),
{
    let ghost al = text::texts(allowed@);
    if allowed.len() == 0 {
        return true;
    }
    let s = text::to_chars(rel);
    let len: usize = s.len();
    proof {
        text::lemma_last_position(rel@, '/');
    }
    let start: usize = match text::rposition(s.as_slice(), '/') {
        Some(i) => i + 1,
        None => 0,
    };
    let name = slice_subrange(s.as_slice(), start, len);
    proof {
        assert(name@ =~= base_name(rel@));
        text::lemma_last_position(name@, '.');
    }
    match text::rposition(name, '.') {
        None => false,
        Some(dot) => {
            let ext = slice_subrange(name, dot + 1, len - start);
            proof {
                assert(ext@ =~= name@.skip(dot + 1));
            }
            for k in 0..allowed.len()
                invariant
                    al == text::texts(allowed@),
                    al.len() > 0,
                    dot == text::last_position(name@, '.'),
                    name@ == base_name(rel@),
                    ext@ == name@.skip(dot + 1),
                    forall|j: int|
                        0 <= j < k ==> !text::same_ignoring_ascii_case(#[trigger] al[j], ext@),
            {
                proof {
                    assert(al[k as int] == allowed@[k as int]@);
                }
                if text::same_ascii_case(text::to_chars(allowed[k].as_str()).as_slice(), ext) {
                    return true;
                }
            }
            false
        },
    }
}

/// Whether one of `exclude` stands in `rel`.
fn is_excluded(rel: &str, exclude: &Vec<String>) -> (r: bool)
    ensures
        r == excluded(rel@, text::texts(exclude@)),
{
    let ghost ex = text::texts(exclude@);
    let s = text::to_chars(rel);
    for k in 0..exclude.len()
        invariant
            ex == text::texts(exclude@),
            s@ == rel@,
            forall|j: int| 0 <= j < k ==> !text::has_text(rel@, #[trigger] ex[j]),
    {
        proof {
            assert(ex[k as int] == exclude@[k as int]@);
        }
        if text::holds(s.as_slice(), text::to_chars(exclude[k].as_str()).as_slice()) {
            return true;
        }
    }
    false
}

/// Whether a file or directory of that name is skipped: the data of a version
/// control system always and, outside a git work tree, also what is usually
/// built, fetched or left behind.
pub open spec fn skips(name: Seq<char>, in_work_tree: bool) -> bool {
    ||| name == ".git"@ || name == ".hg"@ || name == ".svn"@
    ||| !in_work_tree && (name == "target"@ || name == "node_modules"@ || name == ".DS_Store"@
        || name == "tmp"@ || name == "dist"@)
}

/// Whether a file or directory of that name is skipped.
pub fn is_skipped(name: &str, in_work_tree: bool) -> (r: bool)
    ensures
        r == skips(name@, in_work_tree),
{
    if text::same_text(name, ".git") || text::same_text(name, ".hg") || text::same_text(
        name,
        ".svn",
    ) {
        return true;
    }
    !in_work_tree && (text::same_text(name, "target") || text::same_text(name, "node_modules")
        || text::same_text(name, ".DS_Store") || text::same_text(name, "tmp")
        || text::same_text(name, "dist"))
}

/// Whether one of the parts of a path is skipped.
pub open spec fn skips_path(rel: Seq<char>, in_work_tree: bool) -> bool {
    exists|i: int|
        0 <= i < text::split(rel, '/').len() && skips(
            #[trigger] text::split(rel, '/')[i],
            in_work_tree,
        )
}

/// Whether one of the parts of a path is skipped.
fn has_skipped_part(rel: &str, in_work_tree: bool) -> (r: bool)
    ensures
        r == skips_path(rel@, in_work_tree),
{
    let parts = text::split_chars(text::to_chars(rel).as_slice(), '/');
    let ghost ps = text::split(rel@, '/');
    for k in 0..parts.len()
        invariant
            parts@.map_values(|v: Vec<char>| v@) == ps,
            ps == text::split(rel@, '/'),
            forall|j: int| 0 <= j < k ==> !skips(#[trigger] ps[j], in_work_tree),
    {
        proof {
            assert(ps[k as int] == parts@[k as int]@);
        }
        if is_skipped(text::from_chars(parts[k].as_slice()).as_str(), in_work_tree) {
            return true;
        }
    }
    false
}

/// The paths of `found` seen from `root`, without those that are not under it
/// and those with a part that is skipped.
pub open spec fn paths_under(
    root: Seq<char>,
    found: Seq<Seq<char>>,
    in_work_tree: bool,
) -> Seq<Seq<char>>
    decreases found.len(),
{
    if found.len() == 0 {
        Seq::empty()
    } else {
        let rest = paths_under(root, found.drop_last(), in_work_tree);
        match paths::stripped(found.last(), root) {
            Some(rel) => if rel.len() == 0 || skips_path(rel, in_work_tree) {
                rest
            } else {
                rest.push(text::replaced(rel, '\\', '/'))
            },
            None => rest,
        }
    }
}

/// The paths of `found` seen from `root`, with `/` for each backslash. Paths
/// that are not under it are left out, and so are those with a part that is
/// skipped.
pub fn list_paths(root: &str, found: &Vec<String>, in_work_tree: bool) -> (r: Vec<String>)
    ensures
        text::texts(r@) == paths_under(root@, text::texts(found@), in_work_tree),
{
    let ghost fs = text::texts(found@);
    let mut r: Vec<String> = Vec::new();
    proof {
        assert(fs.take(0) =~= Seq::empty());
        assert(text::texts(r@) =~= Seq::empty());
    }
    for k in 0..found.len()
        invariant
            fs == text::texts(found@),
            text::texts(r@) == paths_under(root@, fs.take(k as int), in_work_tree),
    {
        proof {
            assert(fs.take(k + 1).drop_last() =~= fs.take(k as int));
            assert(fs[k as int] == found@[k as int]@);
        }
        match paths::strip_prefix(found[k].as_str(), root) {
            Some(rel) => {
                if rel.as_str().unicode_len() > 0 && !has_skipped_part(
                    rel.as_str(),
                    in_work_tree,
                ) {
                    let ghost before = r@;
                    r.push(text::replace_char(rel.as_str(), '\\', '/'));
                    proof {
                        assert(text::texts(r@) =~= text::texts(before).push(r@.last()@));
                    }
                }
            },
            None => {},
        }
    }
    proof {
        assert(fs.take(fs.len() as int) =~= fs);
    }
    r
}

/// Whether the found file `file` is listed as `shown`: it lies under the root,
/// none of its names is skipped, and it is shown with `/` for each backslash.
pub open spec fn listed_as(
    root: Seq<char>,
    file: Seq<char>,
    in_work_tree: bool,
    shown: Seq<char>,
) -> bool {
    paths::stripped(file, root) matches Some(rel) && rel.len() > 0 && !skips_path(
        rel,
        in_work_tree,
    ) && text::replaced(rel, '\\', '/') == shown
}

/// A path is listed exactly if a file was found that is listed as it. So nothing
/// is listed on account of a file with a name that is skipped: outside a git work
/// tree neither version control data nor `target`, `node_modules`, `.DS_Store`,
/// `tmp` or `dist`.
pub proof fn law_skipped_is_not_listed(
    root: Seq<char>,
    found: Seq<Seq<char>>,
    in_work_tree: bool,
    shown: Seq<char>,
)
    ensures
        paths_under(root, found, in_work_tree).contains(shown) <==> exists|k: int|
            0 <= k < found.len() && listed_as(root, #[trigger] found[k], in_work_tree, shown),
    decreases found.len(),
{
    if found.len() > 0 {
        let front = found.drop_last();
        let last = found[found.len() - 1];
        let rest = paths_under(root, front, in_work_tree);
        law_skipped_is_not_listed(root, front, in_work_tree, shown);
        if let Some(rel) = paths::stripped(last, root) {
            text::lemma_push_contains(rest, text::replaced(rel, '\\', '/'), shown);
        }
        if rest.contains(shown) {
            let k = choose|k: int|
                0 <= k < front.len() && listed_as(root, #[trigger] front[k], in_work_tree, shown);
            assert(listed_as(root, found[k], in_work_tree, shown));
        }
        if exists|k: int|
            0 <= k < found.len() && listed_as(root, #[trigger] found[k], in_work_tree, shown) {
            let k = choose|k: int|
                0 <= k < found.len() && listed_as(root, #[trigger] found[k], in_work_tree, shown);
            if k < front.len() {
                assert(listed_as(root, front[k], in_work_tree, shown));
            }
        }
    }
}

// --- the tree ----------------------------------------------------------------------

/// The parts of a path that are not empty.
pub open spec fn nonempty(parts: Seq<Seq<char>>) -> Seq<Seq<char>>
    decreases parts.len(),
{
    if parts.len() == 0 {
        Seq::empty()
    } else {
        let rest = nonempty(parts.drop_last());
        if parts.last().len() == 0 {
            rest
        } else {
            rest.push(parts.last())
        }
    }
}

/// The parts of a path between its separators.
pub open spec fn path_parts(rel: Seq<char>) -> Seq<Seq<char>> {
    nonempty(text::split(rel, '/'))
}

/// The names of the directories that the first parts of paths name.
pub open spec fn first_parts(entries: Seq<Seq<Seq<char>>>) -> Seq<Seq<char>>
    decreases entries.len(),
{
    if entries.len() == 0 {
        Seq::empty()
    } else {
        let rest = first_parts(entries.drop_last());
        if entries.last().len() >= 2 {
            rest.push(entries.last()[0])
        } else {
            rest
        }
    }
}

/// The directories directly below the top, in alphabetical order.
pub open spec fn subdirs(entries: Seq<Seq<Seq<char>>>) -> Seq<Seq<char>> {
    order::collected(first_parts(entries))
}

/// The files directly below the top, in the order of the paths.
pub open spec fn files_in(entries: Seq<Seq<Seq<char>>>) -> Seq<Seq<char>>
    decreases entries.len(),
{
    if entries.len() == 0 {
        Seq::empty()
    } else {
        let rest = files_in(entries.drop_last());
        if entries.last().len() == 1 {
            rest.push(entries.last()[0])
        } else {
            rest
        }
    }
}

/// The paths below the directory `dir`, seen from it.
pub open spec fn below(entries: Seq<Seq<Seq<char>>>, dir: Seq<char>) -> Seq<Seq<Seq<char>>>
    decreases entries.len(),
{
    if entries.len() == 0 {
        Seq::empty()
    } else {
        let rest = below(entries.drop_last(), dir);
        if entries.last().len() >= 2 && entries.last()[0] == dir {
            rest.push(entries.last().drop_first())
        } else {
            rest
        }
    }
}

/// The number of parts of the longest path.
pub open spec fn longest(entries: Seq<Seq<Seq<char>>>) -> nat
    decreases entries.len(),
{
    if entries.len() == 0 {
        0
    } else if entries.last().len() > longest(entries.drop_last()) {
        entries.last().len()
    } else {
        longest(entries.drop_last())
    }
}

proof fn lemma_below_shorter(entries: Seq<Seq<Seq<char>>>, dir: Seq<char>)
    ensures
        longest(below(entries, dir)) == 0 || longest(below(entries, dir)) < longest(entries),
        below(entries, dir).len() > 0 ==> longest(entries) >= 2,
    decreases entries.len(),
{
    if entries.len() > 0 {
        lemma_below_shorter(entries.drop_last(), dir);
        let b = below(entries, dir);
        let rest = below(entries.drop_last(), dir);
        if entries.last().len() >= 2 && entries.last()[0] == dir {
            assert(b.drop_last() =~= rest);
        }
    }
}

/// The node of a directory that holds the paths `entries`: its directories come
/// first, then its files, both in alphabetical order.
pub open spec fn dir_node(
    entries: Seq<Seq<Seq<char>>>,
    name: Seq<char>,
    rel: Seq<char>,
    root: Seq<char>,
) -> NodeView
    decreases longest(entries),
{
    let dirs = subdirs(entries);
    NodeView::Dir {
        name,
        rel,
        children: Seq::new(
            dirs.len(),
            |i: int|
                if longest(below(entries, dirs[i])) < longest(entries) {
                    dir_node(below(entries, dirs[i]), dirs[i], paths::joined(rel, dirs[i]), root)
                } else {
                    // Paths get shorter on the way down.
                    NodeView::Dir { name, rel, children: Seq::empty() }
                },
        ) + order::sorted(files_in(entries)).map_values(
            |f: Seq<char>|
                NodeView::File { name: f, abs: paths::joined(root, paths::joined(rel, f)) },
        ),
    }
}

/// The paths that pass a filter, in parts.
pub open spec fn passing(rels: Seq<Seq<char>>, filter: Filter) -> Seq<Seq<Seq<char>>>
    decreases rels.len(),
{
    if rels.len() == 0 {
        Seq::empty()
    } else {
        let rest = passing(rels.drop_last(), filter);
        if passes(rels.last(), filter) && path_parts(rels.last()).len() > 0 {
            rest.push(path_parts(rels.last()))
        } else {
            rest
        }
    }
}

/// The tree of the paths under `root` that pass a filter.
pub open spec fn tree_of(
    root: Seq<char>,
    found: Seq<Seq<char>>,
    in_work_tree: bool,
    filter: Filter,
) -> NodeView {
    let entries = passing(paths_under(root, found, in_work_tree), filter);
    let name = match paths::file_name_of(root) {
        Some(name) => name,
        None => "."@,
    };
    dir_node(entries, name, Seq::empty(), root)
}

/// A tree under construction: the directories by name, and the files.
#[derive(Debug)]
struct TreeBuild {
    names: Vec<String>,
    dirs: Vec<TreeBuild>,
    files: Vec<String>,
}

/// Whether a tree holds exactly the paths `entries`.
spec fn holds_paths(t: TreeBuild, entries: Seq<Seq<Seq<char>>>) -> bool
    decreases t,
{
    &&& text::texts(t.names@) == subdirs(entries)
    &&& t.dirs@.len() == t.names@.len()
    &&& text::texts(t.files@) == files_in(entries)
    &&& forall|i: int|
        0 <= i < t.dirs@.len() ==> holds_paths(
            #[trigger] t.dirs@[i],
            below(entries, t.names@[i]@),
        )
}

impl TreeBuild {
    fn new() -> (r: TreeBuild)
        ensures
            holds_paths(r, Seq::empty()),
    {
        let r = TreeBuild { names: Vec::new(), dirs: Vec::new(), files: Vec::new() };
        proof {
            assert(text::texts(r.names@) =~= Seq::empty());
        }
        r
    }

    /// Puts the path made of the parts from position `from` on into the tree.
    fn insert(
        &mut self,
        parts: &Vec<String>,
        from: usize,
        Ghost(entries): Ghost<Seq<Seq<Seq<char>>>>,
    )
        requires
            from < parts.len(),
            holds_paths(*old(self), entries),
        ensures
            holds_paths(*final(self), entries.push(text::texts(parts@).skip(from as int))),
        decreases parts.len() - from,
    {
        let ghost path = text::texts(parts@).skip(from as int);
        let ghost more = entries.push(path);
        let ghost t0 = *self;
        proof {
            assert(more.drop_last() =~= entries);
            assert(path[0] == parts@[from as int]@);
            order::lemma_collected(first_parts(entries));
        }
        if from + 1 == parts.len() {
            self.files.push(parts[from].clone());
            proof {
                assert(text::texts(self.files@) =~= text::texts(t0.files@).push(path[0]));
            }
            return;
        }
        let dir = parts[from].clone();
        let ghost d = dir@;
        proof {
            assert(path.drop_first() =~= text::texts(parts@).skip(from + 1));
            let a = first_parts(entries);
            assert(a.push(d).drop_last() =~= a);
            assert(subdirs(more) == order::put(subdirs(entries), d));
        }
        match find_slot(&self.names, dir.as_str()) {
            Slot::Found(i) => {
                self.dirs[i].insert(parts, from + 1, Ghost(below(entries, d)));
                proof {
                    order::lemma_put_found(subdirs(entries), i as int, d);
                    order::lemma_ascending_distinct(subdirs(entries));
                    assert forall|k: int| 0 <= k < self.dirs@.len() implies holds_paths(
                        #[trigger] self.dirs@[k],
                        below(more, self.names@[k]@),
                    ) by {
                        assert(subdirs(entries)[k] == self.names@[k]@);
                        assert(subdirs(entries)[i as int] == d);
                        assert(holds_paths(t0.dirs@[k], below(entries, t0.names@[k]@)));
                    }
                }
            },
            Slot::Vacant(i) => {
                let mut child = TreeBuild::new();
                proof {
                    lemma_below_absent(entries, d);
                    order::lemma_collected_contains(first_parts(entries));
                    order::lemma_put_vacant(subdirs(entries), i as int, d);
                }
                child.insert(parts, from + 1, Ghost(below(entries, d)));
                self.names.insert(i, dir);
                self.dirs.insert(i, child);
                proof {
                    assert(text::texts(self.names@) =~= subdirs(entries).insert(i as int, d));
                    assert forall|k: int| 0 <= k < self.dirs@.len() implies holds_paths(
                        #[trigger] self.dirs@[k],
                        below(more, self.names@[k]@),
                    ) by {
                        if k != i {
                            let j = if k < i {
                                k
                            } else {
                                k - 1
                            };
                            assert(t0.names@[j]@ == subdirs(entries)[j]);
                            assert(holds_paths(t0.dirs@[j], below(entries, t0.names@[j]@)));
                            order::lemma_before_irreflexive(d);
                        }
                    }
                }
            },
        }
    }
}

impl TreeBuild {
    /// The node of the directory `name`, whose path from `root` is `rel`.
    fn to_node(
        &self,
        name: &str,
        rel: &str,
        root: &str,
        Ghost(entries): Ghost<Seq<Seq<Seq<char>>>>,
    ) -> (r: Node)
        requires
            holds_paths(*self, entries),
        ensures
            node_view(r) == dir_node(entries, name@, rel@, root@),
        decreases self,
    {
        let mut children: Vec<Node> = Vec::new();
        let ghost dirs = subdirs(entries);
        let ghost whole = dir_node(entries, name@, rel@, root@)->children;
        proof {
            assert(nodes_view(children@) =~= whole.take(0));
        }
        for k in 0..self.names.len()
            invariant
                holds_paths(*self, entries),
                dirs == subdirs(entries),
                whole == dir_node(entries, name@, rel@, root@)->children,
                self.names.len() == dirs.len(),
                self.names.len() == self.dirs.len(),
                nodes_view(children@) == whole.take(k as int),
        {
            let ghost before = children@;
            proof {
                assert(dirs[k as int] == self.names@[k as int]@);
                order::lemma_collected_contains(first_parts(entries));
                assert(order::collected(first_parts(entries)).contains(dirs[k as int]));
                lemma_below_present(entries, dirs[k as int]);
                lemma_below_shorter(entries, dirs[k as int]);
                assert(whole.take(k + 1) =~= whole.take(k as int).push(whole[k as int]));
            }
            let child_rel = paths::join(rel, self.names[k].as_str());
            let child = self.dirs[k].to_node(
                self.names[k].as_str(),
                child_rel.as_str(),
                root,
                Ghost(below(entries, dirs[k as int])),
            );
            children.push(child);
            proof {
                assert(nodes_view(children@) =~= nodes_view(before).push(node_view(child)));
            }
        }
        let files = order::sort_names(&self.files);
        let ghost n = dirs.len() as int;
        let ghost fs = order::sorted(files_in(entries));
        for k in 0..files.len()
            invariant
                fs == text::texts(files@),
                fs == order::sorted(files_in(entries)),
                dirs == subdirs(entries),
                n == dirs.len(),
                whole == dir_node(entries, name@, rel@, root@)->children,
                nodes_view(children@) == whole.take(n + k),
        {
            let ghost before = children@;
            let inner = paths::join(rel, files[k].as_str());
            let abs = paths::join(root, inner.as_str());
            let child = Node::File { name: files[k].clone(), abs };
            proof {
                assert(fs[k as int] == files@[k as int]@);
                assert(whole[n + k] == node_view(child));
                assert(whole.take(n + k + 1) =~= whole.take(n + k).push(whole[n + k]));
            }
            children.push(child);
            proof {
                assert(nodes_view(children@) =~= nodes_view(before).push(node_view(child)));
            }
        }
        proof {
            assert(whole.take(whole.len() as int) =~= whole);
        }
        Node::Dir { name: name.to_owned(), rel: rel.to_owned(), children }
    }
}

/// Something lies below a directory that a path names.
proof fn lemma_below_present(entries: Seq<Seq<Seq<char>>>, dir: Seq<char>)
    requires
        first_parts(entries).contains(dir),
    ensures
        below(entries, dir).len() > 0,
    decreases entries.len(),
{
    if entries.len() > 0 {
        let rest = entries.drop_last();
        let a = first_parts(rest);
        let b = first_parts(entries);
        let k = choose|k: int| 0 <= k < b.len() && b[k] == dir;
        if k < a.len() {
            assert(a[k] == dir);
            lemma_below_present(rest, dir);
        }
    }
}

/// Nothing lies below a directory that no path names.
proof fn lemma_below_absent(entries: Seq<Seq<Seq<char>>>, dir: Seq<char>)
    requires
        !first_parts(entries).contains(dir) || !subdirs(entries).contains(dir),
    ensures
        below(entries, dir) == Seq::<Seq<Seq<char>>>::empty(),
    decreases entries.len(),
{
    order::lemma_collected_contains(first_parts(entries));
    if entries.len() > 0 {
        let rest = entries.drop_last();
        let a = first_parts(rest);
        let b = first_parts(entries);
        if a.contains(dir) {
            let k = choose|k: int| 0 <= k < a.len() && a[k] == dir;
            assert(b[k] == dir);
        }
        lemma_below_absent(rest, dir);
        if entries.last().len() >= 2 && entries.last()[0] == dir {
            assert(b[b.len() - 1] == dir);
        }
    }
}

/// The parts of a path between its separators.
fn parts_of(rel: &str) -> (r: Vec<String>)
    ensures
        text::texts(r@) == path_parts(rel@),
{
    let pieces = text::split_chars(text::to_chars(rel).as_slice(), '/');
    let ghost ps = text::split(rel@, '/');
    let mut r: Vec<String> = Vec::new();
    proof {
        assert(ps.take(0) =~= Seq::empty());
        assert(text::texts(r@) =~= Seq::empty());
    }
    for k in 0..pieces.len()
        invariant
            pieces@.map_values(|v: Vec<char>| v@) == ps,
            text::texts(r@) == nonempty(ps.take(k as int)),
    {
        proof {
            assert(ps.take(k + 1).drop_last() =~= ps.take(k as int));
            assert(ps[k as int] == pieces@[k as int]@);
        }
        if pieces[k].len() > 0 {
            let ghost before = r@;
            r.push(text::from_chars(pieces[k].as_slice()));
            proof {
                assert(text::texts(r@) =~= text::texts(before).push(ps[k as int]));
            }
        }
    }
    proof {
        assert(ps.take(ps.len() as int) =~= ps);
    }
    r
}

/// Builds the tree of the files `found` by a walk of `root`, an absolute path,
/// that pass `filter`.
pub fn enumerate(
    root: &str,
    found: &Vec<String>,
    in_work_tree: bool,
    filter: &Filter,
) -> (r: Node)
    ensures
        node_view(r) == tree_of(root@, text::texts(found@), in_work_tree, *filter),
{
    let name = match paths::file_name(root) {
        Some(name) => name,
        None => ".".to_owned(),
    };
    let rels = list_paths(root, found, in_work_tree);
    let ghost rs = text::texts(rels@);
    let mut build = TreeBuild::new();
    proof {
        assert(rs.take(0) =~= Seq::empty());
    }
    for k in 0..rels.len()
        invariant
            rs == text::texts(rels@),
            holds_paths(build, passing(rs.take(k as int), *filter)),
    {
        proof {
            assert(rs.take(k + 1).drop_last() =~= rs.take(k as int));
            assert(rs[k as int] == rels@[k as int]@);
        }
        let rel = rels[k].as_str();
        if !is_excluded(rel, &filter.exclude) && ext_matches(rel, &filter.ext) {
            let parts = parts_of(rel);
            if parts.len() > 0 {
                proof {
                    assert(text::texts(parts@).skip(0) =~= text::texts(parts@));
                }
                build.insert(&parts, 0, Ghost(passing(rs.take(k as int), *filter)));
            }
        }
    }
    proof {
        assert(rs.take(rs.len() as int) =~= rs);
    }
    let top = String::new();
    proof {
        assert(top@ =~= Seq::empty());
    }
    build.to_node(
        name.as_str(),
        top.as_str(),
        root,
        Ghost(passing(paths_under(root@, text::texts(found@), in_work_tree), *filter)),
    )
}

// --- directories by suffix -----------------------------------------------------------

/// The directories that a path lies in, innermost first.
pub open spec fn ancestors(rel: Seq<char>) -> Seq<Seq<char>>
    decreases rel.len(),
{
    let at = text::last_position(rel, '/');
    if 0 <= at < rel.len() {
        let up = rel.take(at);
        if at == 0 {
            ancestors(up)
        } else {
            seq![up] + ancestors(up)
        }
    } else {
        Seq::empty()
    }
}

/// The directories that any of the paths lies in.
pub open spec fn all_ancestors(rels: Seq<Seq<char>>) -> Seq<Seq<char>>
    decreases rels.len(),
{
    if rels.len() == 0 {
        Seq::empty()
    } else {
        all_ancestors(rels.drop_last()) + ancestors(rels.last())
    }
}

/// Whether a directory is `suffix`, or ends in it after a `/`.
pub open spec fn ends_in(dir: Seq<char>, suffix: Seq<char>) -> bool {
    dir == suffix || text::ends_with(dir, "/"@ + suffix)
}

/// Those of `dirs` that end in `suffix`, seen from `root`.
pub open spec fn dirs_ending_in(
    dirs: Seq<Seq<char>>,
    suffix: Seq<char>,
    root: Seq<char>,
) -> Seq<Seq<char>>
    decreases dirs.len(),
{
    if dirs.len() == 0 {
        Seq::empty()
    } else {
        let rest = dirs_ending_in(dirs.drop_last(), suffix, root);
        if ends_in(dirs.last(), suffix) {
            rest.push(paths::joined(root, dirs.last()))
        } else {
            rest
        }
    }
}

/// Puts the directories that `rel` lies in into `out`.
fn add_ancestors(rel: &[char], out: &mut NameSet)
    ensures
        final(out)@ == order::put_all(old(out)@, ancestors(rel@)),
{
    let ghost before = out@;
    let mut cur: &[char] = rel;
    let ghost mut done: Seq<Seq<char>> = Seq::empty();
    proof {
        assert(done + ancestors(rel@) =~= ancestors(rel@));
    }
    loop
        invariant
            before == old(out)@,
            out@ == order::put_all(before, done),
            done + ancestors(cur@) == ancestors(rel@),
        decreases cur@.len(),
    {
        proof {
            text::lemma_last_position(cur@, '/');
        }
        match text::rposition(cur, '/') {
            None => {
                proof {
                    assert(done + ancestors(cur@) =~= done);
                }
                return;
            },
            Some(at) => {
                let up = slice_subrange(cur, 0, at);
                proof {
                    assert(up@ =~= cur@.take(at as int));
                }
                if at > 0 {
                    out.insert(text::from_chars(up));
                    proof {
                        assert(done.push(up@).drop_last() =~= done);
                        assert(done.push(up@) + ancestors(up@) =~= done + (seq![up@] + ancestors(
                            up@,
                        )));
                        done = done.push(up@);
                    }
                }
                cur = up;
            },
        }
    }
}

/// Finds all directories among those that the paths `rels` lie in whose path
/// ends in `suffix` as a path-segment-aligned suffix, seen from `root`. Used to
/// resolve fuzzy module paths.
pub fn find_dirs_matching_suffix(root: &str, rels: &Vec<String>, suffix: &str) -> (r: Vec<String>)
    ensures
        text::texts(r@) == dirs_ending_in(
            order::collected(all_ancestors(text::texts(rels@))),
            text::trimmed_of(suffix@, '/'),
            root@,
        ),
{
    let ghost rs = text::texts(rels@);
    let mut dirs = NameSet::new();
    proof {
        assert(rs.take(0) =~= Seq::empty());
    }
    for k in 0..rels.len()
        invariant
            rs == text::texts(rels@),
            dirs@ == order::collected(all_ancestors(rs.take(k as int))),
    {
        proof {
            assert(rs.take(k + 1).drop_last() =~= rs.take(k as int));
            assert(rs[k as int] == rels@[k as int]@);
            order::lemma_put_all_add(
                Seq::empty(),
                all_ancestors(rs.take(k as int)),
                ancestors(rs[k as int]),
            );
        }
        add_ancestors(text::to_chars(rels[k].as_str()).as_slice(), &mut dirs);
    }
    proof {
        assert(rs.take(rs.len() as int) =~= rs);
    }
    let given = text::to_chars(suffix);
    let wanted = text::from_chars(text::trim_of(given.as_slice(), '/'));
    let mut inner = "/".to_owned();
    inner.append(wanted.as_str());
    let ghost ds = dirs@;
    let len: usize = dirs.len();
    let mut r: Vec<String> = Vec::new();
    proof {
        assert(ds.take(0) =~= Seq::empty());
        assert(text::texts(r@) =~= Seq::empty());
    }
    for k in 0..len
        invariant
            ds == dirs@,
            len == ds.len(),
            wanted@ == text::trimmed_of(suffix@, '/'),
            inner@ == "/"@ + wanted@,
            text::texts(r@) == dirs_ending_in(ds.take(k as int), wanted@, root@),
    {
        proof {
            assert(ds.take(k + 1).drop_last() =~= ds.take(k as int));
        }
        let d = dirs.at(k);
        if text::same_text(d.as_str(), wanted.as_str()) || text::text_ends(
            d.as_str(),
            inner.as_str(),
        ) {
            let ghost before = r@;
            r.push(paths::join(root, d.as_str()));
            proof {
                assert(text::texts(r@) =~= text::texts(before).push(r@.last()@));
            }
        }
    }
    proof {
        assert(ds.take(ds.len() as int) =~= ds);
    }
    r
}

/// A search by suffix finds exactly the directories that end in it.
pub proof fn law_suffix_finds_dirs(
    dirs: Seq<Seq<char>>,
    suffix: Seq<char>,
    root: Seq<char>,
    x: Seq<char>,
)
    ensures
        dirs_ending_in(dirs, suffix, root).contains(x) <==> exists|k: int|
            0 <= k < dirs.len() && ends_in(#[trigger] dirs[k], suffix) && paths::joined(
                root,
                dirs[k],
            ) == x,
    decreases dirs.len(),
{
    if dirs.len() > 0 {
        let rest = dirs.drop_last();
        let l = dirs.len() - 1;
        law_suffix_finds_dirs(rest, suffix, root, x);
        text::lemma_push_contains(
            dirs_ending_in(rest, suffix, root),
            paths::joined(root, dirs[l]),
            x,
        );
        if dirs_ending_in(rest, suffix, root).contains(x) {
            let k = choose|k: int|
                0 <= k < rest.len() && ends_in(#[trigger] rest[k], suffix) && paths::joined(
                    root,
                    rest[k],
                ) == x;
            assert(dirs[k] == rest[k]);
        }
        if exists|k: int|
            0 <= k < dirs.len() && ends_in(#[trigger] dirs[k], suffix) && paths::joined(
                root,
                dirs[k],
            ) == x {
            let k = choose|k: int|
                0 <= k < dirs.len() && ends_in(#[trigger] dirs[k], suffix) && paths::joined(
                    root,
                    dirs[k],
                ) == x;
            if k < l {
                assert(rest[k] == dirs[k]);
            }
        }
        assert(ends_in(dirs[l], suffix) ==> dirs_ending_in(dirs, suffix, root) == dirs_ending_in(
            rest,
            suffix,
            root,
        ).push(paths::joined(root, dirs[l])));
    }
}

// --- what a tree holds ---------------------------------------------------------------

/// Whether a tree holds a file at the path `path` below its top.
pub open spec fn holds_file(n: NodeView, path: Seq<Seq<char>>) -> bool
    decreases path.len(),
{
    n matches NodeView::Dir { children, .. } && path.len() > 0 && exists|i: int|
        0 <= i < children.len() && match #[trigger] children[i] {
            NodeView::File { name, .. } => path.len() == 1 && name == path[0],
            NodeView::Dir { name, .. } => path.len() > 1 && name == path[0] && holds_file(
                children[i],
                path.drop_first(),
            ),
        }
}

/// Whether the found file `file` stands at `path` in the tree of `root`.
pub open spec fn stands_at(
    root: Seq<char>,
    file: Seq<char>,
    in_work_tree: bool,
    filter: Filter,
    path: Seq<Seq<char>>,
) -> bool {
    match paths::stripped(file, root) {
        Some(rel) => {
            let shown = text::replaced(rel, '\\', '/');
            !skips_path(rel, in_work_tree) && passes(shown, filter) && path_parts(shown) == path
        },
        None => false,
    }
}

/// Whether the directories of a tree come before its files, the directories of
/// a directory in ascending order and its files in alphabetical order.
pub open spec fn in_order(n: NodeView) -> bool
    decreases n,
{
    match n {
        NodeView::File { .. } => true,
        NodeView::Dir { children, .. } => {
            &&& forall|i: int, j: int|
                0 <= i < j < children.len() ==> comes_before(
                    #[trigger] children[i],
                    #[trigger] children[j],
                )
            &&& forall|i: int| 0 <= i < children.len() ==> in_order(#[trigger] children[i])
        },
    }
}

/// Whether `a` is listed before `b` in a directory.
pub open spec fn comes_before(a: NodeView, b: NodeView) -> bool {
    match (a, b) {
        (NodeView::Dir { name: x, .. }, NodeView::Dir { name: y, .. }) => order::before(x, y),
        (NodeView::Dir { .. }, NodeView::File { .. }) => true,
        (NodeView::File { .. }, NodeView::Dir { .. }) => false,
        (NodeView::File { name: x, .. }, NodeView::File { name: y, .. }) => order::not_after(x, y),
    }
}

proof fn lemma_files_in(entries: Seq<Seq<Seq<char>>>, f: Seq<char>)
    ensures
        files_in(entries).contains(f) <==> entries.contains(seq![f]),
    decreases entries.len(),
{
    if entries.len() > 0 {
        let rest = entries.drop_last();
        lemma_files_in(rest, f);
        assert(entries =~= rest.push(entries.last()));
        text::lemma_push_contains(rest, entries.last(), seq![f]);
        if entries.last().len() == 1 {
            text::lemma_push_contains(files_in(rest), entries.last()[0], f);
            assert(entries.last() =~= seq![entries.last()[0]]);
            assert(seq![f][0] == f);
        }
    }
}

proof fn lemma_below_contains(
    entries: Seq<Seq<Seq<char>>>,
    dir: Seq<char>,
    path: Seq<Seq<char>>,
)
    requires
        path.len() > 0,
    ensures
        below(entries, dir).contains(path) <==> entries.contains(seq![dir] + path),
        entries.contains(seq![dir] + path) ==> first_parts(entries).contains(dir),
    decreases entries.len(),
{
    if entries.len() > 0 {
        let rest = entries.drop_last();
        let last = entries.last();
        let whole = seq![dir] + path;
        lemma_below_contains(rest, dir, path);
        assert(entries =~= rest.push(last));
        text::lemma_push_contains(rest, last, whole);
        assert(whole.drop_first() =~= path);
        if last.len() >= 2 {
            text::lemma_push_contains(first_parts(rest), last[0], dir);
            assert(last =~= seq![last[0]] + last.drop_first());
            if last[0] == dir {
                text::lemma_push_contains(below(rest, dir), last.drop_first(), path);
            }
        }
    }
}

/// The first children of a directory are its directories.
proof fn lemma_child_dir(
    entries: Seq<Seq<Seq<char>>>,
    name: Seq<char>,
    rel: Seq<char>,
    root: Seq<char>,
    i: int,
)
    requires
        0 <= i < subdirs(entries).len(),
    ensures
        dir_node(entries, name, rel, root)->children[i] == dir_node(
            below(entries, subdirs(entries)[i]),
            subdirs(entries)[i],
            paths::joined(rel, subdirs(entries)[i]),
            root,
        ),
        dir_node(entries, name, rel, root)->children[i] is Dir,
        dir_node(entries, name, rel, root)->children[i]->Dir_name == subdirs(entries)[i],
        longest(below(entries, subdirs(entries)[i])) < longest(entries),
{
    let dir = subdirs(entries)[i];
    order::lemma_collected_contains(first_parts(entries));
    assert(subdirs(entries).contains(dir));
    lemma_below_present(entries, dir);
    lemma_below_shorter(entries, dir);
}

proof fn lemma_dir_node_holds(
    entries: Seq<Seq<Seq<char>>>,
    name: Seq<char>,
    rel: Seq<char>,
    root: Seq<char>,
    path: Seq<Seq<char>>,
)
    requires
        path.len() > 0,
    ensures
        holds_file(dir_node(entries, name, rel, root), path) <==> entries.contains(path),
    decreases path.len(),
{
    let n = dir_node(entries, name, rel, root);
    let kids = n->children;
    let dirs = subdirs(entries);
    let files = order::sorted(files_in(entries));
    order::lemma_collected_contains(first_parts(entries));
    order::lemma_sorted(files_in(entries));
    let f = path[0];
    assert forall|i: int| 0 <= i < dirs.len() implies (#[trigger] kids[i]) is Dir && kids[i]->Dir_name
        == dirs[i] && kids[i] == dir_node(
        below(entries, dirs[i]),
        dirs[i],
        paths::joined(rel, dirs[i]),
        root,
    ) by {
        lemma_child_dir(entries, name, rel, root, i);
    }
    if path.len() == 1 {
        assert(path =~= seq![f]);
        lemma_files_in(entries, f);
        if files.contains(f) {
            let k = choose|k: int| 0 <= k < files.len() && files[k] == f;
            assert(kids[dirs.len() + k] is File);
            assert(holds_file(n, path));
        }
        if holds_file(n, path) {
            let i = choose|i: int|
                0 <= i < kids.len() && (#[trigger] kids[i] matches NodeView::File { name, .. }
                    && name == f);
            assert(files[i - dirs.len()] == f);
        }
    } else {
        let rest = path.drop_first();
        assert(path =~= seq![f] + rest);
        lemma_below_contains(entries, f, rest);
        if entries.contains(path) {
            assert(dirs.contains(f));
            let k = choose|k: int| 0 <= k < dirs.len() && dirs[k] == f;
            lemma_dir_node_holds(below(entries, f), f, paths::joined(rel, f), root, rest);
            assert(kids[k] is Dir && holds_file(kids[k], rest));
            assert(holds_file(n, path));
        }
        if holds_file(n, path) {
            let i = choose|i: int|
                0 <= i < kids.len() && (#[trigger] kids[i] matches NodeView::Dir { name, .. }
                    && name == f && holds_file(kids[i], rest));
            lemma_dir_node_holds(below(entries, f), f, paths::joined(rel, f), root, rest);
        }
    }
}

proof fn lemma_passing(
    root: Seq<char>,
    found: Seq<Seq<char>>,
    in_work_tree: bool,
    filter: Filter,
    path: Seq<Seq<char>>,
)
    requires
        path.len() > 0,
    ensures
        passing(paths_under(root, found, in_work_tree), filter).contains(path) <==> exists|k: int|
            0 <= k < found.len() && stands_at(root, #[trigger] found[k], in_work_tree, filter, path),
    decreases found.len(),
{
    if found.len() > 0 {
        let rest = found.drop_last();
        let last = found.last();
        lemma_passing(root, rest, in_work_tree, filter, path);
        let rels = paths_under(root, rest, in_work_tree);
        match paths::stripped(last, root) {
            Some(rel) => {
                let shown = text::replaced(rel, '\\', '/');
                if rel.len() > 0 && !skips_path(rel, in_work_tree) {
                    assert(rels.push(shown).drop_last() =~= rels);
                    if passes(shown, filter) && path_parts(shown).len() > 0 {
                        text::lemma_push_contains(
                            passing(rels, filter),
                            path_parts(shown),
                            path,
                        );
                    }
                } else if rel.len() == 0 {
                    assert(shown =~= rel);
                    lemma_no_parts(shown);
                }
            },
            None => {},
        }
        let l = found.len() - 1;
        if stands_at(root, found[l], in_work_tree, filter, path) {
            assert(exists|k: int|
                0 <= k < found.len() && stands_at(root, #[trigger] found[k], in_work_tree, filter, path));
        }
        if exists|k: int| 0 <= k < rest.len() && stands_at(root, #[trigger] rest[k], in_work_tree, filter, path) {
            let k = choose|k: int|
                0 <= k < rest.len() && stands_at(root, #[trigger] rest[k], in_work_tree, filter, path);
            assert(stands_at(root, found[k], in_work_tree, filter, path));
        }
        if exists|k: int|
            0 <= k < found.len() && stands_at(root, #[trigger] found[k], in_work_tree, filter, path) {
            let k = choose|k: int|
                0 <= k < found.len() && stands_at(root, #[trigger] found[k], in_work_tree, filter, path);
            if k < l {
                assert(stands_at(root, rest[k], in_work_tree, filter, path));
            }
        }
    }
}

/// The empty path has no parts.
proof fn lemma_no_parts(rel: Seq<char>)
    requires
        rel.len() == 0,
    ensures
        path_parts(rel).len() == 0,
{
    let parts = text::split(rel, '/');
    assert(parts == seq![Seq::<char>::empty()]);
    assert(parts.last().len() == 0);
    assert(nonempty(parts.drop_last()).len() == 0);
}

/// The tree of a walk holds a file at a path exactly if a file was found that
/// lies there under the root and passes the filter: no file is lost, and none
/// is made up.
pub proof fn law_tree_holds_the_files_found(
    root: Seq<char>,
    found: Seq<Seq<char>>,
    in_work_tree: bool,
    filter: Filter,
    path: Seq<Seq<char>>,
)
    requires
        path.len() > 0,
    ensures
        holds_file(tree_of(root, found, in_work_tree, filter), path) <==> exists|k: int|
            0 <= k < found.len() && stands_at(root, #[trigger] found[k], in_work_tree, filter, path),
{
    let entries = passing(paths_under(root, found, in_work_tree), filter);
    let name = tree_of(root, found, in_work_tree, filter)->Dir_name;
    lemma_dir_node_holds(entries, name, Seq::empty(), root, path);
    lemma_passing(root, found, in_work_tree, filter, path);
}

proof fn lemma_dir_node_in_order(
    entries: Seq<Seq<Seq<char>>>,
    name: Seq<char>,
    rel: Seq<char>,
    root: Seq<char>,
)
    ensures
        in_order(dir_node(entries, name, rel, root)),
    decreases longest(entries),
{
    let n = dir_node(entries, name, rel, root);
    let kids = n->children;
    let dirs = subdirs(entries);
    let files = order::sorted(files_in(entries));
    order::lemma_collected(first_parts(entries));
    order::lemma_sorted(files_in(entries));
    assert forall|i: int| 0 <= i < kids.len() implies in_order(#[trigger] kids[i]) && (i
        < dirs.len() ==> kids[i] is Dir && kids[i]->Dir_name == dirs[i]) by {
        if i < dirs.len() {
            lemma_child_dir(entries, name, rel, root, i);
            lemma_dir_node_in_order(
                below(entries, dirs[i]),
                dirs[i],
                paths::joined(rel, dirs[i]),
                root,
            );
        }
    }
    assert forall|i: int, j: int| 0 <= i < j < kids.len() implies comes_before(
        #[trigger] kids[i],
        #[trigger] kids[j],
    ) by {
        if j < dirs.len() {
            assert(order::before(dirs[i], dirs[j]));
        } else if i >= dirs.len() {
            assert(order::not_after(files[i - dirs.len()], files[j - dirs.len()]));
        }
    }
}

/// Every directory of the tree of a walk lists its directories first, each once
/// and in alphabetical order, and then its files in alphabetical order.
pub proof fn law_tree_in_order(
    root: Seq<char>,
    found: Seq<Seq<char>>,
    in_work_tree: bool,
    filter: Filter,
)
    ensures
        in_order(tree_of(root, found, in_work_tree, filter)),
{
    let entries = passing(paths_under(root, found, in_work_tree), filter);
    lemma_dir_node_in_order(
        entries,
        tree_of(root, found, in_work_tree, filter)->Dir_name,
        Seq::empty(),
        root,
    );
}

// --- where a tree puts its files ------------------------------------------------------

/// The path `path` below `root`.
pub open spec fn abs_at(root: Seq<char>, path: Seq<Seq<char>>) -> Seq<char> {
    paths::joined(root, text::join(path, "/"@))
}

/// Whether each directory of a tree at `way` has its path from the top as its
/// relative path, and each file its path below `root` as its absolute path.
pub open spec fn paths_fit(n: NodeView, root: Seq<char>, way: Seq<Seq<char>>) -> bool
    decreases n,
{
    match n {
        NodeView::File { name, abs } => abs == abs_at(root, way),
        NodeView::Dir { rel, children, .. } => {
            &&& rel == text::join(way, "/"@)
            &&& forall|i: int|
                0 <= i < children.len() ==> paths_fit(
                    #[trigger] children[i],
                    root,
                    way.push(node_name(children[i])),
                )
        },
    }
}

/// How many files of a tree have the absolute path `abs`.
pub open spec fn times_held(n: NodeView, abs: Seq<char>) -> nat
    decreases n,
{
    match n {
        NodeView::File { abs: own, .. } => if own == abs {
            1
        } else {
            0
        },
        NodeView::Dir { children, .. } => times_among(children, abs),
    }
}

/// How many files of some trees have the absolute path `abs`.
pub open spec fn times_among(ns: Seq<NodeView>, abs: Seq<char>) -> nat
    decreases ns,
{
    if ns.len() == 0 {
        0
    } else {
        proof {
            assert(decreases_to!(ns => ns.subrange(0, ns.len() - 1)));
            assert(decreases_to!(ns => ns[ns.len() - 1]));
        }
        times_among(ns.subrange(0, ns.len() - 1), abs) + times_held(ns[ns.len() - 1], abs)
    }
}

/// How many of the paths `entries`, which lie below `way`, are `abs` below `root`.
pub open spec fn times_named(
    entries: Seq<Seq<Seq<char>>>,
    way: Seq<Seq<char>>,
    root: Seq<char>,
    abs: Seq<char>,
) -> nat
    decreases entries.len(),
{
    if entries.len() == 0 {
        0
    } else {
        times_named(entries.drop_last(), way, root, abs) + if abs_at(root, way + entries.last())
            == abs {
            1nat
        } else {
            0
        }
    }
}

/// How many of the files at `way` are `abs` below `root`.
spec fn times_filed(
    files: Seq<Seq<char>>,
    way: Seq<Seq<char>>,
    root: Seq<char>,
    abs: Seq<char>,
) -> nat
    decreases files.len(),
{
    if files.len() == 0 {
        0
    } else {
        times_filed(files.drop_last(), way, root, abs) + if abs_at(root, way.push(files.last()))
            == abs {
            1nat
        } else {
            0
        }
    }
}

/// How many of the paths in the directories `dirs` at `way` are `abs` below `root`.
spec fn times_below(
    entries: Seq<Seq<Seq<char>>>,
    dirs: Seq<Seq<char>>,
    way: Seq<Seq<char>>,
    root: Seq<char>,
    abs: Seq<char>,
) -> nat
    decreases dirs.len(),
{
    if dirs.len() == 0 {
        0
    } else {
        let d = dirs.last();
        times_below(entries, dirs.drop_last(), way, root, abs) + times_named(
            below(entries, d),
            way.push(d),
            root,
            abs,
        )
    }
}

/// Whether a name can stand between separators.
spec fn plain(part: Seq<char>) -> bool {
    part.len() > 0 && !part.contains('/')
}

spec fn plain_parts(path: Seq<Seq<char>>) -> bool {
    forall|i: int| 0 <= i < path.len() ==> plain(#[trigger] path[i])
}

spec fn plain_entries(entries: Seq<Seq<Seq<char>>>) -> bool {
    forall|k: int|
        0 <= k < entries.len() ==> (#[trigger] entries[k]).len() > 0 && plain_parts(entries[k])
}

proof fn lemma_path_parts_plain(rel: Seq<char>)
    ensures
        plain_parts(path_parts(rel)),
{
    text::lemma_split_pieces(rel, '/');
    lemma_nonempty_plain(text::split(rel, '/'));
}

proof fn lemma_nonempty_plain(parts: Seq<Seq<char>>)
    requires
        forall|i: int| 0 <= i < parts.len() ==> !(#[trigger] parts[i]).contains('/'),
    ensures
        plain_parts(nonempty(parts)),
    decreases parts.len(),
{
    if parts.len() > 0 {
        let front = parts.drop_last();
        assert forall|i: int| 0 <= i < front.len() implies !(#[trigger] front[i]).contains(
            '/',
        ) by {
            assert(front[i] == parts[i]);
        }
        lemma_nonempty_plain(front);
        assert(!parts[parts.len() - 1].contains('/'));
    }
}

proof fn lemma_passing_plain(rels: Seq<Seq<char>>, filter: Filter)
    ensures
        plain_entries(passing(rels, filter)),
    decreases rels.len(),
{
    if rels.len() > 0 {
        lemma_passing_plain(rels.drop_last(), filter);
        lemma_path_parts_plain(rels.last());
    }
}

proof fn lemma_below_plain(entries: Seq<Seq<Seq<char>>>, dir: Seq<char>)
    requires
        plain_entries(entries),
    ensures
        plain_entries(below(entries, dir)),
    decreases entries.len(),
{
    if entries.len() > 0 {
        let front = entries.drop_last();
        let last = entries.last();
        assert forall|k: int| 0 <= k < front.len() implies (#[trigger] front[k]).len() > 0
            && plain_parts(front[k]) by {
            assert(front[k] == entries[k]);
        }
        lemma_below_plain(front, dir);
        if last.len() >= 2 && last[0] == dir {
            let rest = last.drop_first();
            assert(plain_parts(entries[entries.len() - 1]));
            assert forall|i: int| 0 <= i < rest.len() implies plain(#[trigger] rest[i]) by {
                assert(rest[i] == last[i + 1]);
            }
        }
    }
}

/// The first parts of plain paths are plain, and so are their files.
proof fn lemma_names_plain(entries: Seq<Seq<Seq<char>>>)
    requires
        plain_entries(entries),
    ensures
        plain_parts(first_parts(entries)),
        plain_parts(files_in(entries)),
    decreases entries.len(),
{
    if entries.len() > 0 {
        let front = entries.drop_last();
        assert forall|k: int| 0 <= k < front.len() implies (#[trigger] front[k]).len() > 0
            && plain_parts(front[k]) by {
            assert(front[k] == entries[k]);
        }
        lemma_names_plain(front);
        assert(plain_parts(entries[entries.len() - 1]));
        assert(plain(entries.last()[0]));
    }
}

/// Joining a name to a path adds it as the last part.
proof fn lemma_joined(way: Seq<Seq<char>>, name: Seq<char>)
    requires
        plain_parts(way),
        plain(name),
    ensures
        paths::joined(text::join(way, "/"@), name) == text::join(way.push(name), "/"@),
{
    let base = text::join(way, "/"@);
    let more = way.push(name);
    assert(name.contains(name[0]));
    assert(more.drop_last() =~= way);
    if way.len() == 0 {
        assert(base + name =~= name);
    } else {
        let last = way[way.len() - 1];
        assert(plain(last));
        assert(last.contains(last[last.len() - 1]));
        assert(base.len() > 0 && base.last() == last.last());
    }
}

proof fn lemma_times_among_push(ns: Seq<NodeView>, n: NodeView, abs: Seq<char>)
    ensures
        times_among(ns.push(n), abs) == times_among(ns, abs) + times_held(n, abs),
{
    let all = ns.push(n);
    assert(all.subrange(0, all.len() - 1) =~= ns);
}

proof fn lemma_times_among_add(a: Seq<NodeView>, b: Seq<NodeView>, abs: Seq<char>)
    ensures
        times_among(a + b, abs) == times_among(a, abs) + times_among(b, abs),
    decreases b.len(),
{
    if b.len() == 0 {
        assert(a + b =~= a);
    } else {
        let front = b.drop_last();
        lemma_times_among_add(a, front, abs);
        assert(a + b =~= (a + front).push(b.last()));
        assert(b =~= front.push(b.last()));
        lemma_times_among_push(a + front, b.last(), abs);
        lemma_times_among_push(front, b.last(), abs);
    }
}

/// The order of the files does not matter.
proof fn lemma_times_filed_permuted(
    a: Seq<Seq<char>>,
    b: Seq<Seq<char>>,
    way: Seq<Seq<char>>,
    root: Seq<char>,
    abs: Seq<char>,
)
    requires
        a.to_multiset() == b.to_multiset(),
    ensures
        times_filed(a, way, root, abs) == times_filed(b, way, root, abs),
    decreases a.len(),
{
    vstd::seq_lib::to_multiset_len(a);
    vstd::seq_lib::to_multiset_len(b);
    if a.len() > 0 {
        let last = a.last();
        assert(a[a.len() - 1] == last);
        assert(a.contains(last));
        vstd::seq_lib::to_multiset_contains(a, last);
        vstd::seq_lib::to_multiset_contains(b, last);
        let j = choose|j: int| 0 <= j < b.len() && b[j] == last;
        vstd::seq_lib::to_multiset_remove(a, a.len() - 1);
        vstd::seq_lib::to_multiset_remove(b, j);
        assert(a.remove(a.len() - 1) =~= a.drop_last());
        lemma_times_filed_permuted(a.drop_last(), b.remove(j), way, root, abs);
        lemma_times_filed_remove(b, j, way, root, abs);
    }
}

proof fn lemma_times_filed_remove(
    files: Seq<Seq<char>>,
    j: int,
    way: Seq<Seq<char>>,
    root: Seq<char>,
    abs: Seq<char>,
)
    requires
        0 <= j < files.len(),
    ensures
        times_filed(files, way, root, abs) == times_filed(files.remove(j), way, root, abs) + if
        abs_at(root, way.push(files[j])) == abs {
            1nat
        } else {
            0
        },
    decreases files.len(),
{
    if j == files.len() - 1 {
        assert(files.remove(j) =~= files.drop_last());
    } else {
        lemma_times_filed_remove(files.drop_last(), j, way, root, abs);
        assert(files.remove(j).drop_last() =~= files.drop_last().remove(j));
        assert(files.remove(j).last() == files.last());
    }
}

/// What one more path adds to the directories.
proof fn lemma_times_below_step(
    entries: Seq<Seq<Seq<char>>>,
    dirs: Seq<Seq<char>>,
    way: Seq<Seq<char>>,
    root: Seq<char>,
    abs: Seq<char>,
)
    requires
        entries.len() > 0,
        dirs.no_duplicates(),
    ensures
        times_below(entries, dirs, way, root, abs) == times_below(
            entries.drop_last(),
            dirs,
            way,
            root,
            abs,
        ) + if entries.last().len() >= 2 && dirs.contains(entries.last()[0]) && abs_at(
            root,
            way + entries.last(),
        ) == abs {
            1nat
        } else {
            0
        },
    decreases dirs.len(),
{
    if dirs.len() > 0 {
        let last = entries.last();
        let rest = entries.drop_last();
        let front = dirs.drop_last();
        let d = dirs.last();
        lemma_times_below_step(entries, front, way, root, abs);
        assert(dirs =~= front.push(d));
        if last.len() >= 2 {
            text::lemma_push_contains(front, d, last[0]);
            if last[0] == d {
                if front.contains(d) {
                    let i = choose|i: int| 0 <= i < front.len() && front[i] == d;
                    assert(dirs[i] == dirs[dirs.len() - 1]);
                }
                assert(below(entries, d).drop_last() =~= below(rest, d));
                assert(way.push(d) + last.drop_first() =~= way + last);
            }
        }
    }
}

/// The paths are those of the files at the top and those in the directories.
proof fn lemma_times_named_parts(
    entries: Seq<Seq<Seq<char>>>,
    dirs: Seq<Seq<char>>,
    way: Seq<Seq<char>>,
    root: Seq<char>,
    abs: Seq<char>,
)
    requires
        dirs.no_duplicates(),
        forall|k: int| 0 <= k < entries.len() ==> (#[trigger] entries[k]).len() > 0,
        forall|k: int|
            0 <= k < entries.len() ==> (#[trigger] entries[k]).len() >= 2 ==> dirs.contains(
                entries[k][0],
            ),
    ensures
        times_named(entries, way, root, abs) == times_filed(files_in(entries), way, root, abs)
            + times_below(entries, dirs, way, root, abs),
    decreases entries.len(),
{
    if entries.len() == 0 {
        lemma_times_below_none(dirs, way, root, abs);
        assert(entries =~= Seq::empty());
    } else {
        let front = entries.drop_last();
        let last = entries[entries.len() - 1];
        assert forall|k: int| 0 <= k < front.len() implies (#[trigger] front[k]).len() > 0 && (
        front[k].len() >= 2 ==> dirs.contains(front[k][0])) by {
            assert(front[k] == entries[k]);
        }
        lemma_times_named_parts(front, dirs, way, root, abs);
        lemma_times_below_step(entries, dirs, way, root, abs);
        assert(last.len() > 0 && (last.len() >= 2 ==> dirs.contains(last[0])));
        if last.len() == 1 {
            assert(files_in(entries).drop_last() =~= files_in(front));
            assert(way + last =~= way.push(last[0]));
        }
    }
}

proof fn lemma_times_below_none(
    dirs: Seq<Seq<char>>,
    way: Seq<Seq<char>>,
    root: Seq<char>,
    abs: Seq<char>,
)
    ensures
        times_below(Seq::empty(), dirs, way, root, abs) == 0,
    decreases dirs.len(),
{
    if dirs.len() > 0 {
        lemma_times_below_none(dirs.drop_last(), way, root, abs);
    }
}

/// The files of a directory, as they stand in its node.
proof fn lemma_times_of_files(
    files: Seq<Seq<char>>,
    way: Seq<Seq<char>>,
    root: Seq<char>,
    abs: Seq<char>,
)
    requires
        plain_parts(way),
        plain_parts(files),
    ensures
        ({
            let rel = text::join(way, "/"@);
            times_among(
                files.map_values(
                    |f: Seq<char>|
                        NodeView::File { name: f, abs: paths::joined(root, paths::joined(rel, f)) },
                ),
                abs,
            ) == times_filed(files, way, root, abs)
        }),
    decreases files.len(),
{
    let rel = text::join(way, "/"@);
    let node = |f: Seq<char>|
        NodeView::File { name: f, abs: paths::joined(root, paths::joined(rel, f)) };
    if files.len() > 0 {
        let front = files.drop_last();
        let last = files[files.len() - 1];
        assert forall|i: int| 0 <= i < front.len() implies plain(#[trigger] front[i]) by {
            assert(front[i] == files[i]);
        }
        assert(plain(last));
        lemma_times_of_files(front, way, root, abs);
        lemma_joined(way, last);
        assert(files.map_values(node) =~= front.map_values(node).push(node(last)));
        lemma_times_among_push(front.map_values(node), node(last), abs);
    }
}

proof fn lemma_times_of_dirs(
    entries: Seq<Seq<Seq<char>>>,
    name: Seq<char>,
    way: Seq<Seq<char>>,
    root: Seq<char>,
    abs: Seq<char>,
    n: int,
)
    requires
        plain_entries(entries),
        plain_parts(way),
        0 <= n <= subdirs(entries).len(),
    ensures
        times_among(
            dir_node(entries, name, text::join(way, "/"@), root)->children.take(n),
            abs,
        ) == times_below(entries, subdirs(entries).take(n), way, root, abs),
    decreases longest(entries), n,
{
    let rel = text::join(way, "/"@);
    let kids = dir_node(entries, name, rel, root)->children;
    let dirs = subdirs(entries);
    if n > 0 {
        let d = dirs[n - 1];
        lemma_times_of_dirs(entries, name, way, root, abs, n - 1);
        lemma_child_dir(entries, name, rel, root, n - 1);
        lemma_subdir_plain(entries, n - 1);
        lemma_below_plain(entries, d);
        lemma_joined(way, d);
        lemma_push_plain(way, d);
        lemma_times_of_tree(below(entries, d), d, way.push(d), root, abs);
        assert(kids.take(n) =~= kids.take(n - 1).push(kids[n - 1]));
        lemma_times_among_push(kids.take(n - 1), kids[n - 1], abs);
        assert(dirs.take(n).drop_last() =~= dirs.take(n - 1));
    }
}

proof fn lemma_push_plain(way: Seq<Seq<char>>, name: Seq<char>)
    requires
        plain_parts(way),
        plain(name),
    ensures
        plain_parts(way.push(name)),
{
}

proof fn lemma_subdir_plain(entries: Seq<Seq<Seq<char>>>, i: int)
    requires
        plain_entries(entries),
        0 <= i < subdirs(entries).len(),
    ensures
        plain(subdirs(entries)[i]),
{
    lemma_names_plain(entries);
    order::lemma_collected_contains(first_parts(entries));
    let d = subdirs(entries)[i];
    assert(subdirs(entries).contains(d));
    let k = choose|k: int| 0 <= k < first_parts(entries).len() && first_parts(entries)[k] == d;
    assert(plain(first_parts(entries)[k]));
}

proof fn lemma_sorted_plain(files: Seq<Seq<char>>)
    requires
        plain_parts(files),
    ensures
        plain_parts(order::sorted(files)),
{
    let all = order::sorted(files);
    order::lemma_sorted(files);
    assert forall|i: int| 0 <= i < all.len() implies plain(#[trigger] all[i]) by {
        assert(all.contains(all[i]));
        let k = choose|k: int| 0 <= k < files.len() && files[k] == all[i];
        assert(plain(files[k]));
    }
}

/// A path of two or more parts starts in one of the directories.
proof fn lemma_first_part(entries: Seq<Seq<Seq<char>>>, k: int)
    requires
        0 <= k < entries.len(),
        entries[k].len() >= 2,
    ensures
        first_parts(entries).contains(entries[k][0]),
{
    let path = entries[k].drop_first();
    assert(seq![entries[k][0]] + path =~= entries[k]);
    assert(entries.contains(entries[k]));
    lemma_below_contains(entries, entries[k][0], path);
}

proof fn lemma_times_of_tree(
    entries: Seq<Seq<Seq<char>>>,
    name: Seq<char>,
    way: Seq<Seq<char>>,
    root: Seq<char>,
    abs: Seq<char>,
)
    requires
        plain_entries(entries),
        plain_parts(way),
    ensures
        times_held(dir_node(entries, name, text::join(way, "/"@), root), abs) == times_named(
            entries,
            way,
            root,
            abs,
        ),
    decreases longest(entries), subdirs(entries).len() + 1,
{
    let rel = text::join(way, "/"@);
    let n = dir_node(entries, name, rel, root);
    let kids = n->children;
    let dirs = subdirs(entries);
    let files = files_in(entries);
    let node = |f: Seq<char>|
        NodeView::File { name: f, abs: paths::joined(root, paths::joined(rel, f)) };
    let tail = order::sorted(files).map_values(node);
    lemma_times_of_dirs(entries, name, way, root, abs, dirs.len() as int);
    assert(dirs.take(dirs.len() as int) =~= dirs);
    assert(kids =~= kids.take(dirs.len() as int) + tail);
    lemma_times_among_add(kids.take(dirs.len() as int), tail, abs);
    lemma_names_plain(entries);
    lemma_sorted_plain(files);
    lemma_times_of_files(order::sorted(files), way, root, abs);
    order::lemma_sorted(files);
    lemma_times_filed_permuted(order::sorted(files), files, way, root, abs);
    order::lemma_collected(first_parts(entries));
    order::lemma_collected_contains(first_parts(entries));
    order::lemma_ascending_distinct(dirs);
    assert forall|k: int| 0 <= k < entries.len() && (#[trigger] entries[k]).len() >= 2 implies
        dirs.contains(entries[k][0]) by {
        lemma_first_part(entries, k);
    }
    lemma_times_named_parts(entries, dirs, way, root, abs);
}

/// The absolute paths of the files in the tree of a walk are the paths of the
/// files that pass the filter, joined to the root, each as often as it was found.
pub proof fn law_tree_keeps_absolute_paths(
    root: Seq<char>,
    found: Seq<Seq<char>>,
    in_work_tree: bool,
    filter: Filter,
    abs: Seq<char>,
)
    ensures
        times_held(tree_of(root, found, in_work_tree, filter), abs) == times_named(
            passing(paths_under(root, found, in_work_tree), filter),
            Seq::empty(),
            root,
            abs,
        ),
{
    let rels = paths_under(root, found, in_work_tree);
    let name = tree_of(root, found, in_work_tree, filter)->Dir_name;
    lemma_passing_plain(rels, filter);
    lemma_times_of_tree(passing(rels, filter), name, Seq::empty(), root, abs);
}

proof fn lemma_paths_fit(
    entries: Seq<Seq<Seq<char>>>,
    name: Seq<char>,
    way: Seq<Seq<char>>,
    root: Seq<char>,
)
    requires
        plain_entries(entries),
        plain_parts(way),
    ensures
        paths_fit(dir_node(entries, name, text::join(way, "/"@), root), root, way),
    decreases longest(entries),
{
    let rel = text::join(way, "/"@);
    let n = dir_node(entries, name, rel, root);
    let kids = n->children;
    let dirs = subdirs(entries);
    let files = order::sorted(files_in(entries));
    lemma_names_plain(entries);
    lemma_sorted_plain(files_in(entries));
    assert forall|i: int| 0 <= i < kids.len() implies paths_fit(
        #[trigger] kids[i],
        root,
        way.push(node_name(kids[i])),
    ) by {
        if i < dirs.len() {
            lemma_child_dir(entries, name, rel, root, i);
            lemma_subdir_plain(entries, i);
            lemma_below_plain(entries, dirs[i]);
            lemma_joined(way, dirs[i]);
            lemma_push_plain(way, dirs[i]);
            lemma_paths_fit(below(entries, dirs[i]), dirs[i], way.push(dirs[i]), root);
        } else {
            let f = files[i - dirs.len()];
            assert(plain(f));
            lemma_joined(way, f);
        }
    }
}

/// In the tree of a walk the relative path of a directory is the path to it from
/// the top, and the absolute path of a file is the path to it joined to the root.
pub proof fn law_tree_paths_fit(
    root: Seq<char>,
    found: Seq<Seq<char>>,
    in_work_tree: bool,
    filter: Filter,
)
    ensures
        paths_fit(tree_of(root, found, in_work_tree, filter), root, Seq::empty()),
{
    let rels = paths_under(root, found, in_work_tree);
    let name = tree_of(root, found, in_work_tree, filter)->Dir_name;
    lemma_passing_plain(rels, filter);
    lemma_paths_fit(passing(rels, filter), name, Seq::empty(), root);
}

// --- what is left out ------------------------------------------------------------------

/// The data of a version control system is skipped everywhere. What is usually
/// built, fetched or left behind is skipped outside a git work tree only. Nothing
/// else is.
pub proof fn law_skipped_names(name: Seq<char>)
    ensures
        skips(name, true) <==> seq![".git"@, ".hg"@, ".svn"@].contains(name),
        skips(name, false) <==> seq![
            ".git"@,
            ".hg"@,
            ".svn"@,
            "target"@,
            "node_modules"@,
            ".DS_Store"@,
            "tmp"@,
            "dist"@,
        ].contains(name),
{
    let few = seq![".git"@, ".hg"@, ".svn"@];
    let many = seq![
        ".git"@,
        ".hg"@,
        ".svn"@,
        "target"@,
        "node_modules"@,
        ".DS_Store"@,
        "tmp"@,
        "dist"@,
    ];
    assert(few[0] == ".git"@ && few[1] == ".hg"@ && few[2] == ".svn"@);
    assert(many[0] == ".git"@ && many[1] == ".hg"@ && many[2] == ".svn"@ && many[3] == "target"@
        && many[4] == "node_modules"@ && many[5] == ".DS_Store"@ && many[6] == "tmp"@ && many[7]
        == "dist"@);
}

/// A path is skipped exactly if one of its parts is, wherever it stands.
pub proof fn law_skipped_parts(parts: Seq<Seq<char>>, in_work_tree: bool)
    requires
        parts.len() > 0,
        forall|i: int| 0 <= i < parts.len() ==> !(#[trigger] parts[i]).contains('/'),
    ensures
        skips_path(text::join(parts, seq!['/']), in_work_tree) <==> exists|i: int|
            0 <= i < parts.len() && skips(#[trigger] parts[i], in_work_tree),
{
    text::lemma_join_split(parts, '/');
}

/// A path passes a filter exactly if no excluded text stands anywhere in it and,
/// where extensions are given, what follows the last dot of its name is one of
/// them, in upper or lower case.
pub proof fn law_filter(front: Seq<char>, ext: Seq<char>, filter: Filter)
    requires
        !ext.contains('.'),
        !ext.contains('/'),
    ensures
        ({
            let rel = front + "."@ + ext;
            let kept = forall|i: int, p: int|
                0 <= i < filter.exclude@.len() && 0 <= p <= rel.len()
                    - filter.exclude@[i]@.len() ==> #[trigger] rel.subrange(
                    p,
                    p + filter.exclude@[i]@.len(),
                ) != filter.exclude@[i]@;
            let known = exists|i: int|
                0 <= i < filter.ext@.len() && (#[trigger] filter.ext@[i])@.len() == ext.len()
                    && forall|k: int|
                    0 <= k < ext.len() ==> {
                        let a = filter.ext@[i]@[k];
                        let b = #[trigger] ext[k];
                        ||| a == b
                        ||| 'a' <= a && a <= 'z' && b as int == a as int - 32
                        ||| 'a' <= b && b <= 'z' && a as int == b as int - 32
                    };
            passes(rel, filter) <==> kept && (filter.ext@.len() == 0 || known)
        }),
{
    let rel = front + "."@ + ext;
    let exclude = text::texts(filter.exclude@);
    let allowed = text::texts(filter.ext@);
    let kept = forall|i: int, p: int|
        0 <= i < filter.exclude@.len() && 0 <= p <= rel.len() - filter.exclude@[i]@.len()
            ==> #[trigger] rel.subrange(p, p + filter.exclude@[i]@.len()) != filter.exclude@[i]@;
    assert(kept <==> !excluded(rel, exclude)) by {
        if excluded(rel, exclude) {
            let i = choose|i: int|
                0 <= i < exclude.len() && text::has_text(rel, #[trigger] exclude[i]);
            let p = choose|p: int| text::occurs_at(rel, exclude[i], p);
            assert(exclude[i] == filter.exclude@[i]@);
            assert(rel.subrange(p, p + filter.exclude@[i]@.len()) == filter.exclude@[i]@);
        }
        if !kept {
            let (i, p) = choose|i: int, p: int|
                0 <= i < filter.exclude@.len() && 0 <= p <= rel.len()
                    - filter.exclude@[i]@.len() && #[trigger] rel.subrange(
                    p,
                    p + filter.exclude@[i]@.len(),
                ) == filter.exclude@[i]@;
            assert(exclude[i] == filter.exclude@[i]@);
            assert(text::occurs_at(rel, exclude[i], p));
        }
    }
    reveal_strlit(".");
    let n = front.len() as int;
    assert forall|k: int| n < k < rel.len() implies rel[k] != '/' && rel[k] != '.' by {
        assert(rel[k] == ext[k - n - 1]);
        assert(ext.contains(ext[k - n - 1]));
    }
    assert(rel[n] == '.');
    text::lemma_last_position(rel, '/');
    let slash = text::last_position(rel, '/');
    assert(slash < n);
    let name = base_name(rel);
    assert forall|k: int| n - slash - 1 < k < name.len() implies name[k] != '.' by {
        assert(name[k] == rel[k + slash + 1]);
    }
    assert(name[n - slash - 1] == '.');
    text::lemma_last_position_is(name, '.', n - slash - 1);
    assert(name.skip(n - slash) =~= ext);
    assert forall|i: int| 0 <= i < allowed.len() implies (text::same_ignoring_ascii_case(
        #[trigger] allowed[i],
        ext,
    ) <==> allowed[i].len() == ext.len() && forall|k: int|
        0 <= k < ext.len() ==> {
            let a = allowed[i][k];
            let b = #[trigger] ext[k];
            ||| a == b
            ||| 'a' <= a && a <= 'z' && b as int == a as int - 32
            ||| 'a' <= b && b <= 'z' && a as int == b as int - 32
        }) by {
        lemma_same_letters(allowed[i], ext);
    }
    assert forall|i: int| 0 <= i < allowed.len() implies #[trigger] allowed[i]
        == filter.ext@[i]@ by {}
    if exists|i: int|
        0 <= i < filter.ext@.len() && (#[trigger] filter.ext@[i])@.len() == ext.len() && forall|
            k: int,
        |
            0 <= k < ext.len() ==> {
                let a = filter.ext@[i]@[k];
                let b = #[trigger] ext[k];
                ||| a == b
                ||| 'a' <= a && a <= 'z' && b as int == a as int - 32
                ||| 'a' <= b && b <= 'z' && a as int == b as int - 32
            } {
        let i = choose|i: int|
            0 <= i < filter.ext@.len() && (#[trigger] filter.ext@[i])@.len() == ext.len()
                && forall|k: int|
                0 <= k < ext.len() ==> {
                    let a = filter.ext@[i]@[k];
                    let b = #[trigger] ext[k];
                    ||| a == b
                    ||| 'a' <= a && a <= 'z' && b as int == a as int - 32
                    ||| 'a' <= b && b <= 'z' && a as int == b as int - 32
                };
        assert(text::same_ignoring_ascii_case(allowed[i], ext));
    }
    if ext_allowed(rel, allowed) && allowed.len() > 0 {
        let i = choose|i: int|
            0 <= i < allowed.len() && text::same_ignoring_ascii_case(#[trigger] allowed[i], ext);
        assert(filter.ext@[i]@ == allowed[i]);
    }
}

proof fn lemma_same_letters(x: Seq<char>, y: Seq<char>)
    ensures
        text::same_ignoring_ascii_case(x, y) <==> x.len() == y.len() && forall|k: int|
            0 <= k < y.len() ==> {
                let a = x[k];
                let b = #[trigger] y[k];
                ||| a == b
                ||| 'a' <= a && a <= 'z' && b as int == a as int - 32
                ||| 'a' <= b && b <= 'z' && a as int == b as int - 32
            },
{
    assert forall|a: char, b: char|
        #[trigger] text::ascii_lower(a) == #[trigger] text::ascii_lower(b) <==> {
            ||| a == b
            ||| 'a' <= a && a <= 'z' && b as int == a as int - 32
            ||| 'a' <= b && b <= 'z' && a as int == b as int - 32
        } by {}
    if text::same_ignoring_ascii_case(x, y) {
        assert forall|k: int| 0 <= k < y.len() implies {
            let a = x[k];
            let b = #[trigger] y[k];
            ||| a == b
            ||| 'a' <= a && a <= 'z' && b as int == a as int - 32
            ||| 'a' <= b && b <= 'z' && a as int == b as int - 32
        } by {
            assert(text::ascii_lower(x[k]) == text::ascii_lower(y[k]));
        }
    } else if x.len() == y.len() {
        let k = choose|k: int|
            0 <= k < x.len() && text::ascii_lower(#[trigger] x[k]) != text::ascii_lower(y[k]);
        assert(y[k] == y[k]);
    }
}

/// A file whose name has no dot passes only where no extensions are given.
pub proof fn law_no_extension(dir: Seq<char>, name: Seq<char>, filter: Filter)
    requires
        !name.contains('.'),
        !name.contains('/'),
        filter.ext@.len() > 0,
    ensures
        !passes(dir + "/"@ + name, filter),
{
    let rel = dir + "/"@ + name;
    reveal_strlit("/");
    assert forall|k: int| dir.len() < k < rel.len() implies rel[k] != '/' by {
        assert(name.contains(name[k - dir.len() - 1]));
    }
    text::lemma_last_position_is(rel, '/', dir.len() as int);
    assert(base_name(rel) =~= name);
    assert forall|k: int| -1 < k < name.len() implies name[k] != '.' by {
        assert(name.contains(name[k]));
    }
    text::lemma_last_position_is(name, '.', -1);
}

proof fn lemma_ancestors(rel: Seq<char>, dir: Seq<char>)
    ensures
        ancestors(rel).contains(dir) <==> 0 < dir.len() < rel.len() && rel[dir.len() as int] == '/'
            && rel.take(dir.len() as int) == dir,
    decreases rel.len(),
{
    let at = text::last_position(rel, '/');
    text::lemma_last_position(rel, '/');
    if 0 <= at < rel.len() {
        let up = rel.take(at);
        let n = dir.len() as int;
        lemma_ancestors(up, dir);
        if at > 0 {
            text::lemma_front_contains(up, ancestors(up), dir);
        }
        if 0 < n < up.len() {
            assert(up.take(n) =~= rel.take(n));
        }
        if 0 < n < rel.len() && rel[n] == '/' && rel.take(n) == dir {
            assert(n <= at);
        }
    }
}

/// A search by suffix finds the directories that one of the paths lies in, and
/// that are the suffix or end in it after a `/`; no others.
pub proof fn law_suffix_search(
    rels: Seq<Seq<char>>,
    suffix: Seq<char>,
    root: Seq<char>,
    x: Seq<char>,
)
    ensures
        dirs_ending_in(order::collected(all_ancestors(rels)), suffix, root).contains(x)
            <==> exists|k: int, p: int|
            {
                &&& 0 <= k < rels.len()
                &&& 0 < p < rels[k].len()
                &&& rels[k][p] == '/'
                &&& p == suffix.len() || (p > suffix.len() && rels[k][p - suffix.len() - 1] == '/')
                &&& rels[k].subrange(p - suffix.len(), p) == suffix
                &&& x == paths::joined(root, #[trigger] rels[k].take(p))
            },
{
    let all = all_ancestors(rels);
    let dirs = order::collected(all);
    order::lemma_collected_contains(all);
    law_suffix_finds_dirs(dirs, suffix, root, x);
    if dirs_ending_in(dirs, suffix, root).contains(x) {
        let i = choose|i: int|
            0 <= i < dirs.len() && ends_in(#[trigger] dirs[i], suffix) && paths::joined(
                root,
                dirs[i],
            ) == x;
        let dir = dirs[i];
        assert(dirs.contains(dir));
        lemma_all_ancestors(rels, dir);
        let k = choose|k: int| 0 <= k < rels.len() && ancestors(#[trigger] rels[k]).contains(dir);
        lemma_ancestors(rels[k], dir);
        lemma_ends_in(dir, suffix);
        let p = dir.len() as int;
        assert(rels[k].take(p) == dir);
        assert(rels[k].subrange(p - suffix.len(), p) =~= dir.subrange(p - suffix.len(), p));
        if p > suffix.len() {
            assert(dir[p - suffix.len() - 1] == rels[k][p - suffix.len() - 1]);
        }
    }
    if exists|k: int, p: int|
        {
            &&& 0 <= k < rels.len()
            &&& 0 < p < rels[k].len()
            &&& rels[k][p] == '/'
            &&& p == suffix.len() || (p > suffix.len() && rels[k][p - suffix.len() - 1] == '/')
            &&& rels[k].subrange(p - suffix.len(), p) == suffix
            &&& x == paths::joined(root, #[trigger] rels[k].take(p))
        } {
        let (k, p) = choose|k: int, p: int|
            {
                &&& 0 <= k < rels.len()
                &&& 0 < p < rels[k].len()
                &&& rels[k][p] == '/'
                &&& p == suffix.len() || (p > suffix.len() && rels[k][p - suffix.len() - 1] == '/')
                &&& rels[k].subrange(p - suffix.len(), p) == suffix
                &&& x == paths::joined(root, #[trigger] rels[k].take(p))
            };
        let dir = rels[k].take(p);
        lemma_ancestors(rels[k], dir);
        lemma_all_ancestors(rels, dir);
        assert(rels[k].subrange(p - suffix.len(), p) =~= dir.subrange(p - suffix.len(), p));
        if p > suffix.len() {
            assert(dir[p - suffix.len() - 1] == rels[k][p - suffix.len() - 1]);
        }
        lemma_ends_in(dir, suffix);
        assert(dirs.contains(dir));
        let i = choose|i: int| 0 <= i < dirs.len() && dirs[i] == dir;
        assert(ends_in(dirs[i], suffix));
    }
}

proof fn lemma_ends_in(dir: Seq<char>, suffix: Seq<char>)
    ensures
        ends_in(dir, suffix) <==> {
            let p = dir.len() as int;
            &&& p == suffix.len() || (p > suffix.len() && dir[p - suffix.len() - 1] == '/')
            &&& dir.subrange(p - suffix.len(), p) == suffix
        },
{
    let p = dir.len() as int;
    let n = suffix.len() as int;
    let tail = "/"@ + suffix;
    reveal_strlit("/");
    if p == n {
        assert(dir.subrange(0, p) =~= dir);
    }
    if p > n {
        let s = dir.subrange(p - n - 1, p);
        if s == tail {
            assert(s[0] == '/');
            assert(dir.subrange(p - n, p) =~= suffix) by {
                assert(forall|k: int| 0 <= k < n ==> #[trigger] suffix[k] == tail[k + 1]);
                assert(forall|k: int| 0 <= k < n ==> dir[p - n + k] == #[trigger] s[k + 1]);
            }
        }
        if dir[p - n - 1] == '/' && dir.subrange(p - n, p) == suffix {
            assert(s =~= tail) by {
                assert forall|k: int| 0 <= k < n + 1 implies s[k] == tail[k] by {
                    if k > 0 {
                        assert(dir.subrange(p - n, p)[k - 1] == suffix[k - 1]);
                    }
                }
            }
        }
    }
}

proof fn lemma_all_ancestors(rels: Seq<Seq<char>>, dir: Seq<char>)
    ensures
        all_ancestors(rels).contains(dir) <==> exists|k: int|
            0 <= k < rels.len() && ancestors(#[trigger] rels[k]).contains(dir),
    decreases rels.len(),
{
    if rels.len() > 0 {
        let rest = rels.drop_last();
        lemma_all_ancestors(rest, dir);
        text::lemma_add_contains(all_ancestors(rest), ancestors(rels.last()), dir);
        if all_ancestors(rest).contains(dir) {
            let k = choose|k: int| 0 <= k < rest.len() && ancestors(#[trigger] rest[k]).contains(dir);
            assert(rels[k] == rest[k]);
        }
        if exists|k: int| 0 <= k < rels.len() && ancestors(#[trigger] rels[k]).contains(dir) {
            let k = choose|k: int| 0 <= k < rels.len() && ancestors(#[trigger] rels[k]).contains(dir);
            if k < rest.len() {
                assert(rest[k] == rels[k]);
            }
        }
        assert(rels[rels.len() - 1] == rels.last());
    }
}

/// The parts of a path are the names between its separators; those that are empty
/// do not count.
pub proof fn law_path_parts(parts: Seq<Seq<char>>)
    requires
        parts.len() > 0,
        forall|i: int| 0 <= i < parts.len() ==> !(#[trigger] parts[i]).contains('/'),
    ensures
        path_parts(text::join(parts, seq!['/'])) == parts.filter(|p: Seq<char>| p.len() > 0),
{
    text::lemma_join_split(parts, '/');
    lemma_nonempty_filtered(parts);
}

proof fn lemma_nonempty_filtered(parts: Seq<Seq<char>>)
    ensures
        nonempty(parts) == parts.filter(|p: Seq<char>| p.len() > 0),
    decreases parts.len(),
{
    reveal(Seq::filter);
    if parts.len() > 0 {
        lemma_nonempty_filtered(parts.drop_last());
    }
}

} // verus!
