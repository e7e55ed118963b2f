//! The module tree of a crate.
//!
//! `mod x;` declarations are followed from the crate root, which maps each file
//! to its module path (`crate::a::b`). An inline `mod x { ... }` is a child
//! whose file is the file around it.
//!
//! What is on disk is told step by step: building the tree also yields the
//! paths that have to be looked at before it is complete.

use vstd::prelude::*;

use crate::order::{find_slot, Slot};
use crate::store::NameMap;
use crate::syntax::{parse_source, Decl};
use crate::{order, paths, syntax, text};

verus! {

// --- what is known of the disk -----------------------------------------------------------

/// What is known of the disk: for each path that was looked at, the canonical
/// path of the file there, if it is one; and for each file the items in it, if
/// it can be read and parsed.
#[derive(Debug)]
pub struct Disk {
    probes: NameMap<Option<String>>,
    sources: NameMap<Option<Vec<Decl>>>,
}

/// What a [`Disk`] holds.
pub struct DiskView {
    pub probes: Map<Seq<char>, Option<Seq<char>>>,
    pub sources: Map<Seq<char>, Option<Seq<syntax::DeclView>>>,
}

pub open spec fn opt_decls(v: Option<Vec<Decl>>) -> Option<Seq<syntax::DeclView>> {
    match v {
        Some(v) => Some(syntax::decls_view(v@)),
        None => None,
    }
}

impl View for Disk {
    type V = DiskView;

    closed spec fn view(&self) -> DiskView {
        DiskView {
            probes: self.probes@.map_values(|p: Option<String>| text::opt_text(p)),
            sources: self.sources@.map_values(|v: Option<Vec<Decl>>| opt_decls(v)),
        }
    }
}

impl DiskView {
    /// Nothing is known.
    pub open spec fn empty() -> DiskView {
        DiskView { probes: Map::empty(), sources: Map::empty() }
    }

    /// Finitely many files are known, and of each file that was found what is
    /// in it.
    pub open spec fn wf(self) -> bool {
        &&& self.sources.dom().finite()
        &&& forall|p: Seq<char>|
            self.probes.contains_key(p) && (#[trigger] self.probes[p]) is Some
                ==> self.sources.contains_key(self.probes[p]->0)
    }

    /// There is no file at `path`.
    pub open spec fn with_nothing_at(self, path: Seq<char>) -> DiskView {
        DiskView { probes: self.probes.insert(path, None), sources: self.sources }
    }

    /// There is a file at `path`, which is canonically `canon` and holds `items`.
    pub open spec fn with_file_at(
        self,
        path: Seq<char>,
        canon: Seq<char>,
        items: Option<Seq<syntax::DeclView>>,
    ) -> DiskView {
        DiskView {
            probes: self.probes.insert(path, Some(canon)),
            sources: self.sources.insert(canon, items),
        }
    }

    /// The items of a file, where it can be read and parsed.
    pub open spec fn items(self, file: Seq<char>) -> Option<Seq<syntax::DeclView>> {
        if self.sources.contains_key(file) {
            self.sources[file]
        } else {
            None
        }
    }
}

impl Disk {
    #[verifier::type_invariant]
    spec fn inv(self) -> bool {
        self@.wf()
    }

    /// Nothing is known.
    pub fn new() -> (r: Disk)
        ensures
            r@ == DiskView::empty(),
            r@.wf(),
    {
        let probes: NameMap<Option<String>> = NameMap::new();
        let sources: NameMap<Option<Vec<Decl>>> = NameMap::new();
        proof {
            let p = probes@.map_values(|p: Option<String>| text::opt_text(p));
            let s = sources@.map_values(|v: Option<Vec<Decl>>| opt_decls(v));
            assert(p =~= Map::empty());
            assert(s =~= Map::empty());
        }
        Disk { probes, sources }
    }

    /// Records that there is no file at `path`.
    pub fn record_nothing(&mut self, path: String)
        ensures
            final(self)@ == old(self)@.with_nothing_at(path@),
            final(self)@.wf(),
    {
        let ghost p = path@;
        let ghost before = self@;
        proof {
            use_type_invariant(&*self);
        }
        let mut all = Disk::new();
        std::mem::swap(&mut all, self);
        let Disk { probes: mut probes, sources: sources } = all;
        let _had = probes.insert(path, None);
        proof {
            let pv = probes@.map_values(|p: Option<String>| text::opt_text(p));
            assert(pv =~= before.probes.insert(p, None));
        }
        let mut made = Disk { probes, sources };
        std::mem::swap(&mut made, self);
    }

    /// Records that there is a file at `path`, which is canonically `canon` and
    /// holds `items`, or cannot be read or parsed.
    pub fn record_items(&mut self, path: String, canon: String, items: Option<Vec<Decl>>)
        ensures
            final(self)@ == old(self)@.with_file_at(path@, canon@, opt_decls(items)),
            final(self)@.wf(),
    {
        let ghost p = path@;
        let ghost c = canon@;
        let ghost it = opt_decls(items);
        let ghost before = self@;
        proof {
            use_type_invariant(&*self);
        }
        let mut all = Disk::new();
        std::mem::swap(&mut all, self);
        let Disk { probes: mut probes, sources: mut sources } = all;
        let _had = probes.insert(path, Some(canon.clone()));
        let _was = sources.insert(canon, items);
        proof {
            let pv = probes@.map_values(|p: Option<String>| text::opt_text(p));
            let sv = sources@.map_values(|v: Option<Vec<Decl>>| opt_decls(v));
            assert(pv =~= before.probes.insert(p, Some(c)));
            assert(sv =~= before.sources.insert(c, it));
            let n = DiskView { probes: pv, sources: sv };
            assert(n.wf());
        }
        let mut made = Disk { probes, sources };
        std::mem::swap(&mut made, self);
    }

    /// Records that there is a file at `path`, which is canonically `canon` and
    /// holds the text `source`, or cannot be read.
    pub fn record_file(&mut self, path: String, canon: String, source: Option<&str>)
        ensures
            final(self)@ == old(self)@.with_file_at(
                path@,
                canon@,
                match source {
                    Some(s) => syntax::source_items(s@),
                    None => None,
                },
            ),
            final(self)@.wf(),
    {
        let items = match source {
            Some(s) => parse_source(s),
            None => None,
        };
        self.record_items(path, canon, items);
    }

    /// What was found at `path`.
    pub fn probe(&self, path: &str) -> (r: Option<&Option<String>>)
        ensures
            match r {
                Some(p) => {
                    &&& self@.probes.contains_key(path@)
                    &&& self@.probes[path@] == text::opt_text(*p)
                },
                None => !self@.probes.contains_key(path@),
            },
            self@.wf(),
    {
        proof {
            use_type_invariant(self);
        }
        self.probes.get(path)
    }

    /// The items of a file, where it can be read and parsed.
    pub fn items(&self, file: &str) -> (r: Option<&Vec<Decl>>)
        ensures
            match r {
                Some(v) => {
                    &&& self@.items(file@) == Some(syntax::decls_view(v@))
                    &&& self@.sources.contains_key(file@)
                },
                None => self@.items(file@) is None,
            },
            self@.wf(),
    {
        proof {
            use_type_invariant(self);
        }
        match self.sources.get(file) {
            Some(Some(v)) => Some(v),
            Some(None) => None,
            None => None,
        }
    }
}

// --- finding files -------------------------------------------------------------------------

/// What a look at the disk tells: there is a file, with its canonical path;
/// there is none; or a path has to be looked at first.
#[derive(Debug)]
pub enum Found {
    File(String),
    Absent,
    Unknown(String),
}

/// What a [`Found`] holds.
pub enum FoundView {
    File(Seq<char>),
    Absent,
    Unknown(Seq<char>),
}

impl View for Found {
    type V = FoundView;

    open spec fn view(&self) -> FoundView {
        match *self {
            Found::File(c) => FoundView::File(c@),
            Found::Absent => FoundView::Absent,
            Found::Unknown(p) => FoundView::Unknown(p@),
        }
    }
}

/// What is known to be at a path.
pub open spec fn look(d: DiskView, path: Seq<char>) -> FoundView {
    if !d.probes.contains_key(path) {
        FoundView::Unknown(path)
    } else {
        match d.probes[path] {
            Some(canon) => FoundView::File(canon),
            None => FoundView::Absent,
        }
    }
}

/// What is at `first` or, where nothing is there, at `second`.
pub open spec fn look_either(d: DiskView, first: Seq<char>, second: Seq<char>) -> FoundView {
    match look(d, first) {
        FoundView::Absent => look(d, second),
        found => found,
    }
}

/// The paths at which the file of `mod child;` in `file` is looked for. Next to
/// `lib.rs`, `main.rs` and `mod.rs` these are in the same directory, and
/// otherwise in the one named like the file.
pub open spec fn mod_paths(file: Seq<char>, child: Seq<char>) -> Option<(Seq<char>, Seq<char>)> {
    match (paths::parent_of(file), paths::file_name_of(file)) {
        (Some(parent), Some(name)) => {
            let dir = if name == "lib.rs"@ || name == "main.rs"@ || name == "mod.rs"@ {
                parent
            } else {
                paths::joined(parent, paths::stem_of(name))
            };
            Some(
                (
                    paths::joined(dir, child + ".rs"@),
                    paths::joined(paths::joined(dir, child), "mod.rs"@),
                ),
            )
        },
        _ => None,
    }
}

/// The file of `mod child;` in `file`.
pub open spec fn find_mod(d: DiskView, file: Seq<char>, child: Seq<char>) -> FoundView {
    match mod_paths(file, child) {
        Some((direct, nested)) => look_either(d, direct, nested),
        None => FoundView::Absent,
    }
}

fn look_at(disk: &Disk, path: String) -> (r: Found)
    ensures
        r@ == look(disk@, path@),
{
    match disk.probe(path.as_str()) {
        Some(Some(canon)) => Found::File(canon.clone()),
        Some(None) => Found::Absent,
        None => Found::Unknown(path),
    }
}

fn look_at_either(disk: &Disk, first: String, second: String) -> (r: Found)
    ensures
        r@ == look_either(disk@, first@, second@),
{
    match look_at(disk, first) {
        Found::Absent => look_at(disk, second),
        found => found,
    }
}

/// The file of `mod child;` in `file`.
pub fn resolve_mod_file(disk: &Disk, file: &str, child: &str) -> (r: Found)
    ensures
        r@ == find_mod(disk@, file@, child@),
{
    let parent = match paths::parent(file) {
        Some(p) => p,
        None => return Found::Absent,
    };
    let name = match paths::file_name(file) {
        Some(n) => n,
        None => return Found::Absent,
    };
    let dir = if text::same_text(name.as_str(), "lib.rs") || text::same_text(
        name.as_str(),
        "main.rs",
    ) || text::same_text(name.as_str(), "mod.rs") {
        parent
    } else {
        paths::join(parent.as_str(), paths::stem(name.as_str()).as_str())
    };
    let mut leaf = child.to_owned();
    leaf.append(".rs");
    let direct = paths::join(dir.as_str(), leaf.as_str());
    let nested = paths::join(paths::join(dir.as_str(), child).as_str(), "mod.rs");
    look_at_either(disk, direct, nested)
}

/// The crate root of a repository: `src/main.rs`, or else `src/lib.rs`. It is
/// given by its path, not its canonical one.
pub open spec fn crate_root(d: DiskView, repo: Seq<char>) -> FoundView {
    let main = paths::joined(repo, "src/main.rs"@);
    let lib = paths::joined(repo, "src/lib.rs"@);
    match look(d, main) {
        FoundView::File(_) => FoundView::File(main),
        FoundView::Absent => match look(d, lib) {
            FoundView::File(_) => FoundView::File(lib),
            found => found,
        },
        found => found,
    }
}

/// The crate root of a repository.
pub fn find_crate_root(disk: &Disk, repo: &str) -> (r: Found)
    ensures
        r@ == crate_root(disk@, repo@),
{
    let main = paths::join(repo, "src/main.rs");
    match look_at(disk, main.clone()) {
        Found::File(_) => Found::File(main),
        Found::Unknown(p) => Found::Unknown(p),
        Found::Absent => {
            let lib = paths::join(repo, "src/lib.rs");
            match look_at(disk, lib.clone()) {
                Found::File(_) => Found::File(lib),
                found => found,
            }
        },
    }
}

// --- the tree ------------------------------------------------------------------------------

/// A module: the file it is in, and its child modules by name.
#[derive(Debug)]
pub struct ModNode {
    pub file: String,
    pub names: Vec<String>,
    pub nodes: Vec<ModNode>,
}

/// What a [`ModNode`] holds.
pub struct ModView {
    pub file: Seq<char>,
    pub names: Seq<Seq<char>>,
    pub nodes: Seq<ModView>,
}

pub open spec fn mod_view(n: ModNode) -> ModView
    decreases n,
{
    ModView { file: n.file@, names: text::texts(n.names@), nodes: mods_view(n.nodes@) }
}

pub open spec fn mods_view(ns: Seq<ModNode>) -> Seq<ModView>
    decreases ns,
{
    Seq::new(
        ns.len(),
        |i: int|
            if 0 <= i < ns.len() {
                mod_view(ns[i])
            } else {
                ModView { file: Seq::empty(), names: Seq::empty(), nodes: Seq::empty() }
            },
    )
}

/// A module without children.
pub open spec fn leaf(file: Seq<char>) -> ModView {
    ModView { file, names: Seq::empty(), nodes: Seq::empty() }
}

/// `m` with `child` as its child `name`, in place of any that it had.
pub open spec fn with_child(m: ModView, name: Seq<char>, child: ModView) -> ModView {
    let names = order::put(m.names, name);
    let at = names.index_of(name);
    ModView {
        file: m.file,
        names,
        nodes: if m.names.contains(name) {
            m.nodes.update(at, child)
        } else {
            m.nodes.insert(at, child)
        },
    }
}

/// The names of the children are in order, and there is a module for each.
pub open spec fn mod_wf(m: ModView) -> bool
    decreases m,
{
    &&& order::ascending(m.names)
    &&& m.names.len() == m.nodes.len()
    &&& forall|i: int| 0 <= i < m.nodes.len() ==> mod_wf(#[trigger] m.nodes[i])
}

/// The files seen so far, in order, and the module path of each.
pub struct FilesView {
    pub files: Seq<Seq<char>>,
    pub modpaths: Map<Seq<char>, Seq<Seq<char>>>,
}

/// `f` with `file`, unless it was seen before.
pub open spec fn with_seen(f: FilesView, file: Seq<char>, modpath: Seq<Seq<char>>) -> FilesView {
    if f.modpaths.contains_key(file) {
        f
    } else {
        FilesView {
            files: order::put(f.files, file),
            modpaths: f.modpaths.insert(file, modpath),
        }
    }
}

/// What following the `mod` declarations of a file leads to: the module with
/// its children, the files seen, and the paths that have to be looked at.
pub struct WalkView {
    pub node: ModView,
    pub seen: FilesView,
    pub unknown: Seq<Seq<char>>,
}

/// The number of files that are known and not among `above`.
pub open spec fn files_left(d: DiskView, above: Set<Seq<char>>) -> nat {
    d.sources.dom().difference(above).len()
}

/// Going down into a known file leaves fewer files.
pub proof fn lemma_files_left(d: DiskView, above: Set<Seq<char>>, file: Seq<char>)
    requires
        d.sources.dom().finite(),
        d.sources.contains_key(file),
        !above.contains(file),
    ensures
        files_left(d, above.insert(file)) < files_left(d, above),
{
    let a = d.sources.dom().difference(above);
    assert(d.sources.dom().difference(above.insert(file)) =~= a.remove(file));
    assert(a.contains(file));
}

/// Whether the declarations of `file` are followed: it is known, can be parsed,
/// and is not among the files `above` it. A file among them would lead to
/// itself again and again.
pub open spec fn followed(d: DiskView, above: Set<Seq<char>>, file: Seq<char>) -> bool {
    d.sources.dom().finite() && d.items(file) is Some && !above.contains(file)
}

/// Follows the `mod` declarations among `items`, which stand in `file` in the
/// module `modpath`, below the files `above`.
pub open spec fn walk(
    d: DiskView,
    items: Seq<syntax::DeclView>,
    file: Seq<char>,
    modpath: Seq<Seq<char>>,
    above: Set<Seq<char>>,
    seen: FilesView,
    unknown: Seq<Seq<char>>,
) -> WalkView
    decreases files_left(d, above), items,
{
    if items.len() == 0 {
        WalkView { node: leaf(file), seen, unknown }
    } else {
        let w = walk(d, items.drop_last(), file, modpath, above, seen, unknown);
        match items[items.len() - 1] {
            syntax::DeclView::Mod { name, content: Some(inner) } => {
                let c = walk(d, inner, file, modpath.push(name), above, w.seen, w.unknown);
                WalkView { node: with_child(w.node, name, c.node), ..c }
            },
            syntax::DeclView::Mod { name, content: None } => match find_mod(d, file, name) {
                FoundView::File(child) => {
                    let s = with_seen(w.seen, child, modpath.push(name));
                    let c = if followed(d, above, child) {
                        proof {
                            lemma_files_left(d, above, child);
                        }
                        walk(
                            d,
                            d.items(child)->0,
                            child,
                            modpath.push(name),
                            above.insert(child),
                            s,
                            w.unknown,
                        )
                    } else {
                        WalkView { node: leaf(child), seen: s, unknown: w.unknown }
                    };
                    WalkView { node: with_child(w.node, name, c.node), ..c }
                },
                FoundView::Absent => w,
                FoundView::Unknown(p) => WalkView { unknown: w.unknown.push(p), ..w },
            },
            _ => w,
        }
    }
}

/// The files seen at the crate root: the root alone.
pub open spec fn seen_at_root(root: Seq<char>) -> FilesView {
    with_seen(FilesView { files: Seq::empty(), modpaths: Map::empty() }, root, Seq::empty())
}

/// The module tree of the crate with the root file `root`.
pub open spec fn tree_from(d: DiskView, root: Seq<char>) -> WalkView {
    if followed(d, Set::empty(), root) {
        walk(
            d,
            d.items(root)->0,
            root,
            Seq::empty(),
            Set::empty().insert(root),
            seen_at_root(root),
            Seq::empty(),
        )
    } else {
        WalkView { node: leaf(root), seen: seen_at_root(root), unknown: Seq::empty() }
    }
}

impl ModNode {
    fn leaf(file: &str) -> (r: ModNode)
        ensures
            mod_view(r) == leaf(file@),
    {
        let r = ModNode { file: file.to_owned(), names: Vec::new(), nodes: Vec::new() };
        proof {
            assert(text::texts(r.names@) =~= Seq::empty());
            assert(mods_view(r.nodes@) =~= Seq::empty());
        }
        r
    }

    /// Makes `child` the child `name`, in place of any that there was.
    fn insert(&mut self, name: String, child: ModNode)
        requires
            mod_wf(mod_view(*old(self))),
            mod_wf(mod_view(child)),
        ensures
            mod_view(*final(self)) == with_child(mod_view(*old(self)), name@, mod_view(child)),
            mod_wf(mod_view(*final(self))),
    {
        let ghost m = mod_view(*self);
        let ghost n = name@;
        let ghost c = mod_view(child);
        let ghost before = self.nodes@;
        match find_slot(&self.names, name.as_str()) {
            Slot::Found(i) => {
                proof {
                    order::lemma_put_found(m.names, i as int, n);
                    order::lemma_ascending_distinct(m.names);
                    assert(m.names[i as int] == n);
                    assert(m.names.contains(n));
                    assert(m.names.index_of(n) == i);
                }
                self.nodes.set(i, child);
                proof {
                    assert(mods_view(self.nodes@) =~= m.nodes.update(i as int, c));
                }
            },
            Slot::Vacant(i) => {
                proof {
                    order::lemma_put_vacant(m.names, i as int, n);
                    order::lemma_insert_ascending(m.names, i as int, n);
                    let names = m.names.insert(i as int, n);
                    order::lemma_ascending_distinct(names);
                    assert(names[i as int] == n);
                    assert(names.contains(n));
                    assert(names.index_of(n) == i);
                }
                self.names.insert(i, name);
                self.nodes.insert(i, child);
                proof {
                    assert(text::texts(self.names@) =~= m.names.insert(i as int, n));
                    assert(mods_view(self.nodes@) =~= m.nodes.insert(i as int, c));
                }
            },
        }
        proof {
            let r = mod_view(*self);
            assert forall|k: int| 0 <= k < r.nodes.len() implies mod_wf(#[trigger] r.nodes[k]) by {
                if r.nodes[k] != c {
                    if m.names.contains(n) {
                        assert(r.nodes[k] == m.nodes[k]);
                    } else {
                        let at = r.names.index_of(n);
                        let j = if k < at {
                            k
                        } else {
                            k - 1
                        };
                        assert(r.nodes[k] == m.nodes[j]);
                    }
                }
            }
        }
    }
}

/// The files seen so far, with the module path of each.
#[derive(Debug)]
pub struct Seen {
    map: NameMap<Vec<String>>,
}

impl View for Seen {
    type V = FilesView;

    closed spec fn view(&self) -> FilesView {
        FilesView {
            files: self.map.keys(),
            modpaths: self.map@.map_values(|v: Vec<String>| text::texts(v@)),
        }
    }
}

impl Seen {
    /// The files seen at the crate root: the root alone.
    fn at_root(root: &str) -> (r: Seen)
        ensures
            r@ == seen_at_root(root@),
    {
        let mut r = Seen { map: NameMap::new() };
        proof {
            assert(r@.modpaths =~= Map::empty());
        }
        let path: Vec<String> = Vec::new();
        proof {
            assert(text::texts(path@) =~= Seq::empty());
        }
        r.add(root, path);
        r
    }

    /// Adds a file with its module path, unless it was seen before.
    fn add(&mut self, file: &str, modpath: Vec<String>)
        ensures
            final(self)@ == with_seen(old(self)@, file@, text::texts(modpath@)),
    {
        let ghost before = self@;
        let ghost p = text::texts(modpath@);
        if self.map.get(file).is_some() {
            return;
        }
        let _had = self.map.insert(file.to_owned(), modpath);
        proof {
            assert(self@.modpaths =~= before.modpaths.insert(file@, p));
        }
    }

    /// The number of files.
    pub fn len(&self) -> (r: usize)
        ensures
            r == self@.files.len(),
            order::ascending(self@.files),
            self@.files.to_set() == self@.modpaths.dom(),
    {
        let r = self.map.len();
        proof {
            assert(self.map@.dom() =~= self@.modpaths.dom());
        }
        r
    }

    /// The file at position `i`.
    pub fn file(&self, i: usize) -> (r: &String)
        requires
            i < self@.files.len(),
        ensures
            r@ == self@.files[i as int],
    {
        self.map.key(i)
    }

    /// The module path of the file at position `i`.
    pub fn modpath(&self, i: usize) -> (r: &Vec<String>)
        requires
            i < self@.files.len(),
        ensures
            text::texts(r@) == self@.modpaths[self@.files[i as int]],
    {
        self.map.value(i)
    }
}

/// Follows the `mod` declarations among `items`, which stand in `file` in the
/// module `modpath`, below the files `above`.
fn walk_items(
    disk: &Disk,
    items: &Vec<Decl>,
    file: &str,
    modpath: &Vec<String>,
    above: &Vec<String>,
    seen: &mut Seen,
    unknown: &mut Vec<String>,
) -> (r: ModNode)
    ensures
        ({
            let w = walk(
                disk@,
                syntax::decls_view(items@),
                file@,
                text::texts(modpath@),
                text::texts(above@).to_set(),
                old(seen)@,
                text::texts(old(unknown)@),
            );
            &&& mod_view(r) == w.node
            &&& final(seen)@ == w.seen
            &&& text::texts(final(unknown)@) == w.unknown
        }),
        mod_wf(mod_view(r)),
    decreases files_left(disk@, text::texts(above@).to_set()), items,
{
    let ghost d = disk@;
    let ghost ds = syntax::decls_view(items@);
    let ghost mp = text::texts(modpath@);
    let ghost up = text::texts(above@).to_set();
    let ghost seen0 = seen@;
    let ghost unknown0 = text::texts(unknown@);
    let mut node = ModNode::leaf(file);
    proof {
        assert(ds.take(0) =~= Seq::empty());
    }
    for k in 0..items.len()
        invariant
            d == disk@,
            ds == syntax::decls_view(items@),
            mp == text::texts(modpath@),
            up == text::texts(above@).to_set(),
            mod_wf(mod_view(node)),
            ({
                let w = walk(d, ds.take(k as int), file@, mp, up, seen0, unknown0);
                &&& mod_view(node) == w.node
                &&& seen@ == w.seen
                &&& text::texts(unknown@) == w.unknown
            }),
    {
        proof {
            assert(ds.take(k + 1).drop_last() =~= ds.take(k as int));
            assert(ds[k as int] == syntax::decl_view(items@[k as int]));
            assert(decreases_to!(items@ => items@[k as int]));
        }
        match &items[k] {
            Decl::Mod { name, content: Some(inner) } => {
                proof {
                    let c = items@[k as int]->content;
                    assert(decreases_to!(items@[k as int] => c));
                    assert(decreases_to!(c => c->0));
                }
                let path = text::extended(modpath, name.as_str());
                let child = walk_items(disk, inner, file, &path, above, seen, unknown);
                node.insert(name.clone(), child);
            },
            Decl::Mod { name, content: None } => {
                let path = text::extended(modpath, name.as_str());
                match resolve_mod_file(disk, file, name.as_str()) {
                    Found::File(child_file) => {
                        seen.add(child_file.as_str(), text::extended(modpath, name.as_str()));
                        let known = match disk.items(child_file.as_str()) {
                            Some(inner) => if text::is_among(above, child_file.as_str()) {
                                None
                            } else {
                                Some(inner)
                            },
                            None => None,
                        };
                        proof {
                            assert(up.contains(child_file@) <==> text::texts(above@).contains(
                                child_file@,
                            ));
                            assert(known is Some <==> followed(d, up, child_file@));
                        }
                        let child = match known {
                            Some(inner) => {
                                let below = text::extended(above, child_file.as_str());
                                proof {
                                    text::lemma_push_set(text::texts(above@), child_file@);
                                    lemma_files_left(d, up, child_file@);
                                }
                                walk_items(
                                    disk,
                                    inner,
                                    child_file.as_str(),
                                    &path,
                                    &below,
                                    seen,
                                    unknown,
                                )
                            },
                            None => ModNode::leaf(child_file.as_str()),
                        };
                        node.insert(name.clone(), child);
                    },
                    Found::Absent => {},
                    Found::Unknown(p) => {
                        let ghost before = unknown@;
                        unknown.push(p);
                        proof {
                            assert(text::texts(unknown@) =~= text::texts(before).push(p@));
                        }
                    },
                }
            },
            _ => {},
        }
    }
    proof {
        assert(ds.take(ds.len() as int) =~= ds);
    }
    node
}

/// The module tree of a crate, the files in it, and the paths that have to be
/// looked at before it is complete.
#[derive(Debug)]
pub struct ModTree {
    pub root: ModNode,
    pub seen: Seen,
    pub unknown: Vec<String>,
}

pub open spec fn mod_tree_view(t: ModTree) -> WalkView {
    WalkView { node: mod_view(t.root), seen: t.seen@, unknown: text::texts(t.unknown@) }
}

/// The module tree of the crate with the root file `root`, a canonical path.
pub fn build_mod_tree(disk: &Disk, root: &str) -> (r: ModTree)
    ensures
        mod_tree_view(r) == tree_from(disk@, root@),
        mod_wf(mod_view(r.root)),
{
    let mut seen = Seen::at_root(root);
    let mut unknown: Vec<String> = Vec::new();
    proof {
        assert(text::texts(unknown@) =~= Seq::empty());
    }
    let node = match disk.items(root) {
        Some(items) => {
            let none: Vec<String> = Vec::new();
            let above = text::extended(&none, root);
            proof {
                assert(text::texts(none@) =~= Seq::empty());
                text::lemma_push_set(Seq::<Seq<char>>::empty(), root@);
                assert(Seq::<Seq<char>>::empty().to_set() =~= Set::empty());
            }
            walk_items(disk, items, root, &none, &above, &mut seen, &mut unknown)
        },
        None => ModNode::leaf(root),
    };
    ModTree { root: node, seen, unknown }
}

// --- what a walk keeps -----------------------------------------------------------------------

/// Whether `e` knows all that `d` knows.
pub open spec fn knows_more(d: DiskView, e: DiskView) -> bool {
    &&& d.wf()
    &&& e.wf()
    &&& forall|p: Seq<char>| #[trigger]
        d.probes.contains_key(p) ==> e.probes.contains_key(p) && e.probes[p] == d.probes[p]
    &&& forall|f: Seq<char>| #[trigger]
        d.sources.contains_key(f) ==> e.sources.contains_key(f) && e.sources[f] == d.sources[f]
}

/// What is found is known.
proof fn lemma_found_known(d: DiskView, file: Seq<char>, child: Seq<char>)
    requires
        d.wf(),
    ensures
        find_mod(d, file, child) matches FoundView::File(f) ==> d.sources.contains_key(f),
{
    if let Some((direct, nested)) = mod_paths(file, child) {
        if d.probes.contains_key(direct) && d.probes[direct] is Some {
            assert(d.sources.contains_key(d.probes[direct]->0));
        }
        if d.probes.contains_key(nested) && d.probes[nested] is Some {
            assert(d.sources.contains_key(d.probes[nested]->0));
        }
    }
}

/// A walk only adds to the paths that have to be looked at.
proof fn lemma_unknown_grows(
    d: DiskView,
    items: Seq<syntax::DeclView>,
    file: Seq<char>,
    modpath: Seq<Seq<char>>,
    above: Set<Seq<char>>,
    seen: FilesView,
    unknown: Seq<Seq<char>>,
)
    ensures
        unknown.is_prefix_of(
            walk(d, items, file, modpath, above, seen, unknown).unknown,
        ),
    decreases files_left(d, above), items,
{
    if items.len() > 0 {
        let w = walk(d, items.drop_last(), file, modpath, above, seen, unknown);
        lemma_unknown_grows(d, items.drop_last(), file, modpath, above, seen, unknown);
        match items[items.len() - 1] {
            syntax::DeclView::Mod { name, content: Some(inner) } => {
                lemma_mod_smaller(items);
                lemma_unknown_grows(d, inner, file, modpath.push(name), above, w.seen, w.unknown);
            },
            syntax::DeclView::Mod { name, content: None } => {
                if let FoundView::File(child) = find_mod(d, file, name) {
                    if followed(d, above, child) {
                        lemma_files_left(d, above, child);
                        lemma_unknown_grows(
                            d,
                            d.items(child)->0,
                            child,
                            modpath.push(name),
                            above.insert(child),
                            with_seen(w.seen, child, modpath.push(name)),
                            w.unknown,
                        );
                    }
                }
            },
            _ => {},
        }
    }
}

/// The items of an inline module are fewer than those around it.
proof fn lemma_mod_smaller(items: Seq<syntax::DeclView>)
    requires
        items.len() > 0,
    ensures
        items[items.len() - 1] matches syntax::DeclView::Mod { content: Some(inner), .. }
            ==> decreases_to!(items => inner),
{
    let last = items[items.len() - 1];
    assert(decreases_to!(items => items[items.len() - 1]));
    if let syntax::DeclView::Mod { content: Some(inner), .. } = last {
        let c = last->Mod_content;
        assert(decreases_to!(last => c));
        assert(decreases_to!(c => c->0));
    }
}

/// Where a walk leaves nothing to be looked at, knowing more changes nothing.
proof fn lemma_walk_complete(
    d: DiskView,
    e: DiskView,
    items: Seq<syntax::DeclView>,
    file: Seq<char>,
    modpath: Seq<Seq<char>>,
    above: Set<Seq<char>>,
    seen: FilesView,
    unknown: Seq<Seq<char>>,
)
    requires
        knows_more(d, e),
        walk(d, items, file, modpath, above, seen, unknown).unknown == unknown,
    ensures
        walk(e, items, file, modpath, above, seen, unknown) == walk(
            d,
            items,
            file,
            modpath,
            above,
            seen,
            unknown,
        ),
    decreases files_left(d, above), items,
{
    if items.len() > 0 {
        let rest = items.drop_last();
        let w = walk(d, rest, file, modpath, above, seen, unknown);
        lemma_unknown_grows(d, rest, file, modpath, above, seen, unknown);
        match items[items.len() - 1] {
            syntax::DeclView::Mod { name, content: Some(inner) } => {
                lemma_mod_smaller(items);
                lemma_unknown_grows(d, inner, file, modpath.push(name), above, w.seen, w.unknown);
                assert(w.unknown =~= unknown);
                lemma_walk_complete(d, e, rest, file, modpath, above, seen, unknown);
                lemma_walk_complete(
                    d,
                    e,
                    inner,
                    file,
                    modpath.push(name),
                    above,
                    w.seen,
                    w.unknown,
                );
            },
            syntax::DeclView::Mod { name, content: None } => {
                lemma_found_known(d, file, name);
                match find_mod(d, file, name) {
                    FoundView::File(child) => {
                        assert(find_mod(e, file, name) == find_mod(d, file, name));
                        assert(e.items(child) == d.items(child));
                        if followed(d, above, child) {
                            let s = with_seen(w.seen, child, modpath.push(name));
                            lemma_files_left(d, above, child);
                            lemma_unknown_grows(
                                d,
                                d.items(child)->0,
                                child,
                                modpath.push(name),
                                above.insert(child),
                                s,
                                w.unknown,
                            );
                            assert(w.unknown =~= unknown);
                            lemma_walk_complete(
                                d,
                                e,
                                d.items(child)->0,
                                child,
                                modpath.push(name),
                                above.insert(child),
                                s,
                                w.unknown,
                            );
                        }
                        assert(w.unknown =~= unknown);
                        lemma_walk_complete(d, e, rest, file, modpath, above, seen, unknown);
                    },
                    FoundView::Absent => {
                        assert(find_mod(e, file, name) is Absent);
                        lemma_walk_complete(d, e, rest, file, modpath, above, seen, unknown);
                    },
                    FoundView::Unknown(p) => {
                        assert(w.unknown.push(p).len() > unknown.len());
                    },
                }
            },
            _ => {
                lemma_walk_complete(d, e, rest, file, modpath, above, seen, unknown);
            },
        }
    }
}

/// Once no path is left that has to be looked at, the module tree is complete:
/// it stays the same whatever else comes to be known of the disk.
pub proof fn law_tree_complete(d: DiskView, e: DiskView, root: Seq<char>)
    requires
        knows_more(d, e),
        d.sources.contains_key(root),
        tree_from(d, root).unknown.len() == 0,
    ensures
        tree_from(e, root) == tree_from(d, root),
{
    assert(e.items(root) == d.items(root));
    if followed(d, Set::empty(), root) {
        assert(tree_from(d, root).unknown =~= Seq::empty());
        lemma_walk_complete(
            d,
            e,
            d.items(root)->0,
            root,
            Seq::empty(),
            Set::empty().insert(root),
            seen_at_root(root),
            Seq::empty(),
        );
    }
}

/// Whether the files seen are those that have a module path, and are all known.
pub open spec fn seen_wf(d: DiskView, f: FilesView) -> bool {
    &&& order::ascending(f.files)
    &&& forall|x: Seq<char>| #[trigger]
        f.files.contains(x) <==> f.modpaths.contains_key(x)
    &&& forall|x: Seq<char>| #[trigger] f.files.contains(x) ==> d.sources.contains_key(x)
}

/// Whether the files of a module and of all below it are among `files`.
pub open spec fn files_within(m: ModView, files: Seq<Seq<char>>) -> bool
    decreases m,
{
    &&& files.contains(m.file)
    &&& forall|i: int| 0 <= i < m.nodes.len() ==> files_within(#[trigger] m.nodes[i], files)
}

proof fn lemma_files_within_more(m: ModView, less: Seq<Seq<char>>, more: Seq<Seq<char>>)
    requires
        files_within(m, less),
        forall|x: Seq<char>| #[trigger] less.contains(x) ==> more.contains(x),
    ensures
        files_within(m, more),
    decreases m,
{
    assert forall|i: int| 0 <= i < m.nodes.len() implies files_within(
        #[trigger] m.nodes[i],
        more,
    ) by {
        assert(decreases_to!(m => m.nodes));
        assert(decreases_to!(m.nodes => m.nodes[i]));
        assert(files_within(m.nodes[i], less));
        lemma_files_within_more(m.nodes[i], less, more);
    }
}

proof fn lemma_with_child(m: ModView, name: Seq<char>, child: ModView, files: Seq<Seq<char>>)
    requires
        files_within(m, files),
        files_within(child, files),
        mod_wf(m),
        mod_wf(child),
    ensures
        files_within(with_child(m, name, child), files),
        mod_wf(with_child(m, name, child)),
{
    let r = with_child(m, name, child);
    order::lemma_put(m.names, name);
    order::lemma_put_contains(m.names, name, name);
    let at = r.names.index_of(name);
    assert(r.names[at] == name);
    if m.names.contains(name) {
        let k = choose|k: int| 0 <= k < m.names.len() && m.names[k] == name;
        order::lemma_put_found(m.names, k, name);
        assert(r.nodes == m.nodes.update(at, child));
        assert forall|i: int| 0 <= i < r.nodes.len() implies files_within(
            #[trigger] r.nodes[i],
            files,
        ) && mod_wf(r.nodes[i]) by {
            if i != at {
                assert(files_within(m.nodes[i], files) && mod_wf(m.nodes[i]));
            }
        }
    } else {
        let k = order::lemma_vacancy(m.names, name);
        order::lemma_put_vacant(m.names, k, name);
        assert(r.names.len() == m.names.len() + 1);
        assert(r.nodes == m.nodes.insert(at, child));
        assert forall|i: int| 0 <= i < r.nodes.len() implies files_within(
            #[trigger] r.nodes[i],
            files,
        ) && mod_wf(r.nodes[i]) by {
            if i < at {
                assert(files_within(m.nodes[i], files) && mod_wf(m.nodes[i]));
            } else if i > at {
                assert(files_within(m.nodes[i - 1], files) && mod_wf(m.nodes[i - 1]));
            }
        }
    }
}

proof fn lemma_with_seen(d: DiskView, f: FilesView, file: Seq<char>, modpath: Seq<Seq<char>>)
    requires
        seen_wf(d, f),
        d.sources.contains_key(file),
    ensures
        seen_wf(d, with_seen(f, file, modpath)),
        with_seen(f, file, modpath).files.contains(file),
        forall|x: Seq<char>| #[trigger]
            f.files.contains(x) ==> with_seen(f, file, modpath).files.contains(x),
{
    let g = with_seen(f, file, modpath);
    order::lemma_put(f.files, file);
    assert forall|x: Seq<char>| #[trigger] g.files.contains(x) <==> f.files.contains(x) || x
        == file by {
        order::lemma_put_contains(f.files, file, x);
    }
    assert(g.files.contains(file));
}

/// A walk sees the file of every module of its tree.
proof fn lemma_walk_sees(
    d: DiskView,
    items: Seq<syntax::DeclView>,
    file: Seq<char>,
    modpath: Seq<Seq<char>>,
    above: Set<Seq<char>>,
    seen: FilesView,
    unknown: Seq<Seq<char>>,
)
    requires
        d.wf(),
        seen_wf(d, seen),
        seen.files.contains(file),
    ensures
        ({
            let w = walk(d, items, file, modpath, above, seen, unknown);
            &&& seen_wf(d, w.seen)
            &&& forall|x: Seq<char>| #[trigger]
                seen.files.contains(x) ==> w.seen.files.contains(x)
            &&& files_within(w.node, w.seen.files)
            &&& mod_wf(w.node)
            &&& w.node.file == file
        }),
    decreases files_left(d, above), items,
{
    if items.len() > 0 {
        let rest = items.drop_last();
        let w = walk(d, rest, file, modpath, above, seen, unknown);
        lemma_walk_sees(d, rest, file, modpath, above, seen, unknown);
        match items[items.len() - 1] {
            syntax::DeclView::Mod { name, content: Some(inner) } => {
                lemma_mod_smaller(items);
                let c = walk(d, inner, file, modpath.push(name), above, w.seen, w.unknown);
                lemma_walk_sees(d, inner, file, modpath.push(name), above, w.seen, w.unknown);
                lemma_files_within_more(w.node, w.seen.files, c.seen.files);
                lemma_with_child(w.node, name, c.node, c.seen.files);
            },
            syntax::DeclView::Mod { name, content: None } => {
                lemma_found_known(d, file, name);
                if let FoundView::File(child) = find_mod(d, file, name) {
                    let s = with_seen(w.seen, child, modpath.push(name));
                    lemma_with_seen(d, w.seen, child, modpath.push(name));
                    if followed(d, above, child) {
                        lemma_files_left(d, above, child);
                        lemma_walk_sees(
                            d,
                            d.items(child)->0,
                            child,
                            modpath.push(name),
                            above.insert(child),
                            s,
                            w.unknown,
                        );
                        let c = walk(
                            d,
                            d.items(child)->0,
                            child,
                            modpath.push(name),
                            above.insert(child),
                            s,
                            w.unknown,
                        );
                        lemma_files_within_more(w.node, w.seen.files, c.seen.files);
                        lemma_with_child(w.node, name, c.node, c.seen.files);
                    } else {
                        lemma_files_within_more(w.node, w.seen.files, s.files);
                        lemma_with_child(w.node, name, leaf(child), s.files);
                    }
                }
            },
            _ => {},
        }
    }
}

/// The files seen are in order, known, and have a module path each; the file of
/// every module of the tree is among them.
pub proof fn law_tree_sees_its_files(d: DiskView, root: Seq<char>)
    requires
        d.wf(),
        d.sources.contains_key(root),
    ensures
        seen_wf(d, tree_from(d, root).seen),
        files_within(tree_from(d, root).node, tree_from(d, root).seen.files),
        mod_wf(tree_from(d, root).node),
{
    let none = FilesView { files: Seq::empty(), modpaths: Map::empty() };
    assert(seen_wf(d, none));
    lemma_with_seen(d, none, root, Seq::empty());
    if followed(d, Set::empty(), root) {
        lemma_walk_sees(
            d,
            d.items(root)->0,
            root,
            Seq::empty(),
            Set::empty().insert(root),
            seen_at_root(root),
            Seq::empty(),
        );
    }
}

// --- ways down the tree -----------------------------------------------------------------------

/// Whether `c` is the child module `name` of `m`.
pub open spec fn is_child(m: ModView, name: Seq<char>, c: ModView) -> bool {
    exists|i: int| 0 <= i < m.names.len() && (#[trigger] m.names[i]) == name && m.nodes[i] == c
}

/// Whether the module at position `j` has the next one as its child of that name.
pub open spec fn steps_down(chain: Seq<ModView>, path: Seq<Seq<char>>, j: int) -> bool {
    is_child(chain[j], path[j], chain[j + 1])
}

/// Whether `chain` goes from module to child module along the names `path`.
pub open spec fn goes_down(chain: Seq<ModView>, path: Seq<Seq<char>>) -> bool {
    chain.len() == path.len() + 1 && forall|j: int|
        0 <= j < path.len() ==> #[trigger] steps_down(chain, path, j)
}

pub proof fn lemma_child(m: ModView, name: Seq<char>, c: ModView)
    requires
        mod_wf(m),
    ensures
        is_child(m, name, c) <==> m.names.contains(name) && m.nodes[m.names.index_of(name)] == c,
        is_child(m, name, c) ==> mod_wf(c),
{
    order::lemma_ascending_distinct(m.names);
    if m.names.contains(name) {
        let at = m.names.index_of(name);
        assert(m.names[at] == name && 0 <= at < m.names.len());
        assert(mod_wf(m.nodes[at]));
    }
    if is_child(m, name, c) {
        let i = choose|i: int|
            0 <= i < m.names.len() && (#[trigger] m.names[i]) == name && m.nodes[i] == c;
        assert(m.names.contains(name));
        assert(i == m.names.index_of(name));
    }
}

/// The rest of a way down.
pub proof fn lemma_down_rest(chain: Seq<ModView>, path: Seq<Seq<char>>)
    requires
        goes_down(chain, path),
        path.len() > 0,
    ensures
        is_child(chain[0], path[0], chain[1]),
        goes_down(chain.drop_first(), path.drop_first()),
        chain.drop_first()[0] == chain[1],
        chain.drop_first().last() == chain.last(),
{
    let c = chain.drop_first();
    let p = path.drop_first();
    assert(steps_down(chain, path, 0));
    assert forall|j: int| 0 <= j < p.len() implies #[trigger] steps_down(c, p, j) by {
        assert(steps_down(chain, path, j + 1));
    }
}

/// A way down with one more step at its start.
pub proof fn lemma_down_more(
    m: ModView,
    name: Seq<char>,
    chain: Seq<ModView>,
    path: Seq<Seq<char>>,
)
    requires
        goes_down(chain, path),
        is_child(m, name, chain[0]),
    ensures
        goes_down(seq![m] + chain, seq![name] + path),
        (seq![m] + chain)[0] == m,
        (seq![m] + chain).last() == chain.last(),
{
    let c = seq![m] + chain;
    let p = seq![name] + path;
    assert forall|j: int| 0 <= j < p.len() implies #[trigger] steps_down(c, p, j) by {
        if j > 0 {
            assert(steps_down(chain, path, j - 1));
        }
    }
}

/// Giving a module a child changes that child alone.
proof fn lemma_with_child_is(
    m: ModView,
    name: Seq<char>,
    child: ModView,
    x: Seq<char>,
    c: ModView,
)
    requires
        mod_wf(m),
        mod_wf(child),
    ensures
        mod_wf(with_child(m, name, child)),
        is_child(with_child(m, name, child), x, c) <==> if x == name {
            c == child
        } else {
            is_child(m, x, c)
        },
{
    let r = with_child(m, name, child);
    order::lemma_put(m.names, name);
    order::lemma_put_contains(m.names, name, name);
    order::lemma_put_contains(m.names, name, x);
    let at = r.names.index_of(name);
    assert(r.names[at] == name && 0 <= at < r.names.len());
    order::lemma_ascending_distinct(r.names);
    order::lemma_ascending_distinct(m.names);
    if m.names.contains(name) {
        let k = choose|k: int| 0 <= k < m.names.len() && m.names[k] == name;
        order::lemma_put_found(m.names, k, name);
        assert(r.names == m.names);
        assert(at == k);
        assert forall|i: int| 0 <= i < r.nodes.len() implies mod_wf(#[trigger] r.nodes[i]) by {
            if i != at {
                assert(mod_wf(m.nodes[i]));
            }
        }
    } else {
        let k = order::lemma_vacancy(m.names, name);
        order::lemma_put_vacant(m.names, k, name);
        assert(r.names == m.names.insert(k, name));
        assert(r.names[k] == name);
        assert(at == k);
        assert forall|i: int| 0 <= i < r.nodes.len() implies mod_wf(#[trigger] r.nodes[i]) by {
            if i < at {
                assert(mod_wf(m.nodes[i]));
            } else if i > at {
                assert(mod_wf(m.nodes[i - 1]));
            }
        }
        if is_child(m, x, c) {
            let i = choose|i: int|
                0 <= i < m.names.len() && (#[trigger] m.names[i]) == x && m.nodes[i] == c;
            let j = if i < at {
                i
            } else {
                i + 1
            };
            assert(r.names[j] == x && r.nodes[j] == c);
        }
    }
    lemma_child(r, x, c);
    lemma_child(r, name, child);
    if is_child(r, x, c) && x != name {
        let j = choose|j: int|
            0 <= j < r.names.len() && (#[trigger] r.names[j]) == x && r.nodes[j] == c;
        assert(j != at);
        if m.names.contains(name) {
            assert(m.names[j] == x && m.nodes[j] == c);
        } else {
            let i = if j < at {
                j
            } else {
                j - 1
            };
            assert(m.names[i] == x && m.nodes[i] == c);
        }
    }
    if is_child(m, x, c) && x != name && m.names.contains(name) {
        let i = choose|i: int|
            0 <= i < m.names.len() && (#[trigger] m.names[i]) == x && m.nodes[i] == c;
        assert(r.names[i] == x && r.nodes[i] == c);
    }
    assert(is_child(r, name, child));
}

/// Whether an item declares the module `x`, and one can be made of it.
spec fn declares(d: DiskView, item: syntax::DeclView, file: Seq<char>, x: Seq<char>) -> bool {
    match item {
        syntax::DeclView::Mod { name, content } => name == x && (content is Some || find_mod(
            d,
            file,
            x,
        ) is File),
        _ => false,
    }
}

/// What is made of an item that declares the module `x`.
spec fn declared(
    d: DiskView,
    item: syntax::DeclView,
    file: Seq<char>,
    modpath: Seq<Seq<char>>,
    above: Set<Seq<char>>,
    seen: FilesView,
    unknown: Seq<Seq<char>>,
    x: Seq<char>,
) -> ModView {
    match item {
        syntax::DeclView::Mod { content: Some(inner), .. } => walk(
            d,
            inner,
            file,
            modpath.push(x),
            above,
            seen,
            unknown,
        ).node,
        _ => {
            let child = find_mod(d, file, x)->File_0;
            if d.items(child) is Some && !above.contains(child) {
                walk(
                    d,
                    d.items(child)->0,
                    child,
                    modpath.push(x),
                    above.insert(child),
                    seen,
                    unknown,
                ).node
            } else {
                ModView { file: child, names: Seq::empty(), nodes: Seq::empty() }
            }
        },
    }
}

/// What the last of some items does to the children.
proof fn lemma_child_step(
    d: DiskView,
    items: Seq<syntax::DeclView>,
    file: Seq<char>,
    modpath: Seq<Seq<char>>,
    above: Set<Seq<char>>,
    seen: FilesView,
    unknown: Seq<Seq<char>>,
    x: Seq<char>,
    c: ModView,
)
    requires
        d.wf(),
        seen_wf(d, seen),
        seen.files.contains(file),
        items.len() > 0,
    ensures
        is_child(walk(d, items, file, modpath, above, seen, unknown).node, x, c) <==> if declares(
            d,
            items[items.len() - 1],
            file,
            x,
        ) {
            c == declared(
                d,
                items[items.len() - 1],
                file,
                modpath,
                above,
                seen,
                unknown,
                x,
            )
        } else {
            is_child(
                walk(d, items.drop_last(), file, modpath, above, seen, unknown).node,
                x,
                c,
            )
        },
{
    let rest = items.drop_last();
    let before = walk(d, rest, file, modpath, above, seen, unknown);
    lemma_walk_sees(d, rest, file, modpath, above, seen, unknown);
    match items[items.len() - 1] {
        syntax::DeclView::Mod { name, content: Some(inner) } => {
            let inside = walk(
                d,
                inner,
                file,
                modpath.push(name),
                above,
                before.seen,
                before.unknown,
            );
            lemma_walk_sees(
                d,
                inner,
                file,
                modpath.push(name),
                above,
                before.seen,
                before.unknown,
            );
            lemma_with_child_is(before.node, name, inside.node, x, c);
            lemma_same_node(
                d,
                inner,
                file,
                modpath.push(name),
                above,
                before.seen,
                before.unknown,
                seen,
                unknown,
            );
        },
        syntax::DeclView::Mod { name, content: None } => {
            lemma_found_known(d, file, name);
            if let FoundView::File(child) = find_mod(d, file, name) {
                let s = with_seen(before.seen, child, modpath.push(name));
                lemma_with_seen(d, before.seen, child, modpath.push(name));
                if followed(d, above, child) {
                    let content = d.items(child)->0;
                    let inside = walk(
                        d,
                        content,
                        child,
                        modpath.push(name),
                        above.insert(child),
                        s,
                        before.unknown,
                    );
                    lemma_walk_sees(
                        d,
                        content,
                        child,
                        modpath.push(name),
                        above.insert(child),
                        s,
                        before.unknown,
                    );
                    lemma_same_node(
                        d,
                        content,
                        child,
                        modpath.push(name),
                        above.insert(child),
                        s,
                        before.unknown,
                        seen,
                        unknown,
                    );
                    lemma_with_child_is(before.node, name, inside.node, x, c);
                } else {
                    lemma_with_child_is(before.node, name, leaf(child), x, c);
                }
            }
        },
        _ => {},
    }
}

proof fn lemma_children(
    d: DiskView,
    items: Seq<syntax::DeclView>,
    file: Seq<char>,
    modpath: Seq<Seq<char>>,
    above: Set<Seq<char>>,
    seen: FilesView,
    unknown: Seq<Seq<char>>,
    x: Seq<char>,
    c: ModView,
)
    requires
        d.wf(),
        seen_wf(d, seen),
        seen.files.contains(file),
    ensures
        is_child(walk(d, items, file, modpath, above, seen, unknown).node, x, c) <==> exists|i: int|
            {
                &&& 0 <= i < items.len()
                &&& declares(d, #[trigger] items[i], file, x)
                &&& c == declared(d, items[i], file, modpath, above, seen, unknown, x)
                &&& forall|j: int|
                    i < j < items.len() ==> !declares(d, #[trigger] items[j], file, x)
            },
    decreases items.len(),
{
    if items.len() == 0 {
        assert(walk(d, items, file, modpath, above, seen, unknown).node.names.len() == 0);
    } else {
        let rest = items.drop_last();
        let n = items.len() - 1;
        lemma_child_step(d, items, file, modpath, above, seen, unknown, x, c);
        lemma_children(d, rest, file, modpath, above, seen, unknown, x, c);
        if declares(d, items[n], file, x) {
            if c == declared(d, items[n], file, modpath, above, seen, unknown, x) {
                assert(declares(d, items[n], file, x));
            }
        } else {
            if is_child(walk(d, rest, file, modpath, above, seen, unknown).node, x, c) {
                let i = choose|i: int|
                    {
                        &&& 0 <= i < rest.len()
                        &&& declares(d, #[trigger] rest[i], file, x)
                        &&& c == declared(d, rest[i], file, modpath, above, seen, unknown, x)
                        &&& forall|j: int|
                            i < j < rest.len() ==> !declares(d, #[trigger] rest[j], file, x)
                    };
                assert(items[i] == rest[i]);
                assert forall|j: int| i < j < items.len() implies !declares(
                    d,
                    #[trigger] items[j],
                    file,
                    x,
                ) by {
                    if j < n {
                        assert(rest[j] == items[j]);
                    }
                }
            }
            assert forall|i: int|
                {
                    &&& 0 <= i < items.len()
                    &&& declares(d, #[trigger] items[i], file, x)
                    &&& c == declared(d, items[i], file, modpath, above, seen, unknown, x)
                    &&& forall|j: int|
                        i < j < items.len() ==> !declares(d, #[trigger] items[j], file, x)
                } implies is_child(
                walk(d, rest, file, modpath, above, seen, unknown).node,
                x,
                c,
            ) by {
                assert(rest[i] == items[i]);
                assert forall|j: int| i < j < rest.len() implies !declares(
                    d,
                    #[trigger] rest[j],
                    file,
                    x,
                ) by {
                    assert(rest[j] == items[j]);
                }
            }
        }
    }
}

/// The child modules of a module are exactly those that its items declare: with
/// an inline module the child is made of the items in it and stays in the same
/// file; with `mod x;` it is the file that is found for it, made of the items of
/// that file, or without children where the file cannot be parsed or is one of
/// those above. Where a name is declared more than once the last one counts.
pub proof fn law_children_are_declared(
    d: DiskView,
    items: Seq<syntax::DeclView>,
    file: Seq<char>,
    modpath: Seq<Seq<char>>,
    above: Set<Seq<char>>,
    seen: FilesView,
    unknown: Seq<Seq<char>>,
    x: Seq<char>,
    c: ModView,
)
    requires
        d.wf(),
        seen_wf(d, seen),
        seen.files.contains(file),
    ensures
        walk(d, items, file, modpath, above, seen, unknown).node.file == file,
        is_child(walk(d, items, file, modpath, above, seen, unknown).node, x, c) <==> exists|i: int|
            {
                &&& 0 <= i < items.len()
                &&& match #[trigger] items[i] {
                    syntax::DeclView::Mod { name, content: Some(inner) } => name == x && c == walk(
                        d,
                        inner,
                        file,
                        modpath.push(x),
                        above,
                        seen,
                        unknown,
                    ).node,
                    syntax::DeclView::Mod { name, content: None } => name == x && (find_mod(
                        d,
                        file,
                        x,
                    ) matches FoundView::File(child) && c == if d.items(child) is Some
                        && !above.contains(child) {
                        walk(
                            d,
                            d.items(child)->0,
                            child,
                            modpath.push(x),
                            above.insert(child),
                            seen,
                            unknown,
                        ).node
                    } else {
                        ModView { file: child, names: Seq::empty(), nodes: Seq::empty() }
                    }),
                    _ => false,
                }
                &&& forall|j: int|
                    i < j < items.len() ==> match #[trigger] items[j] {
                        syntax::DeclView::Mod { name, content } => name == x ==> content is None
                            && !(find_mod(d, file, x) is File),
                        _ => true,
                    }
            },
{
    lemma_walk_sees(d, items, file, modpath, above, seen, unknown);
    lemma_children(d, items, file, modpath, above, seen, unknown, x, c);
    assert forall|j: int| 0 <= j < items.len() implies (declares(
        d,
        #[trigger] items[j],
        file,
        x,
    ) <==> !match items[j] {
        syntax::DeclView::Mod { name, content } => name == x ==> content is None && !(find_mod(
            d,
            file,
            x,
        ) is File),
        _ => true,
    }) by {}
}

/// The tree does not depend on the files seen and the paths to look at.
proof fn lemma_same_node(
    d: DiskView,
    items: Seq<syntax::DeclView>,
    file: Seq<char>,
    modpath: Seq<Seq<char>>,
    above: Set<Seq<char>>,
    s: FilesView,
    u: Seq<Seq<char>>,
    t: FilesView,
    v: Seq<Seq<char>>,
)
    ensures
        walk(d, items, file, modpath, above, t, v).node == walk(
            d,
            items,
            file,
            modpath,
            above,
            s,
            u,
        ).node,
    decreases files_left(d, above), items,
{
    if items.len() > 0 {
        let rest = items.drop_last();
        let a = walk(d, rest, file, modpath, above, s, u);
        let b = walk(d, rest, file, modpath, above, t, v);
        assert(decreases_to!(items => items.subrange(0, items.len() - 1)));
        lemma_same_node(d, rest, file, modpath, above, s, u, t, v);
        match items[items.len() - 1] {
            syntax::DeclView::Mod { name, content: Some(inner) } => {
                lemma_mod_smaller(items);
                lemma_same_node(
                    d,
                    inner,
                    file,
                    modpath.push(name),
                    above,
                    a.seen,
                    a.unknown,
                    b.seen,
                    b.unknown,
                );
            },
            syntax::DeclView::Mod { name, content: None } => {
                if let FoundView::File(child) = find_mod(d, file, name) {
                    if followed(d, above, child) {
                        lemma_files_left(d, above, child);
                        lemma_same_node(
                            d,
                            d.items(child)->0,
                            child,
                            modpath.push(name),
                            above.insert(child),
                            with_seen(a.seen, child, modpath.push(name)),
                            a.unknown,
                            with_seen(b.seen, child, modpath.push(name)),
                            b.unknown,
                        );
                    }
                }
            },
            _ => {},
        }
    }
}

/// Where the file of `mod child;` is looked for. In `lib.rs`, `main.rs` and
/// `mod.rs` it is `child.rs` or else `child/mod.rs` next to the file; in another
/// file `name.rs` these are looked for in the directory `name` next to it.
pub proof fn law_module_files_are_looked_for(
    d: DiskView,
    file: Seq<char>,
    dir: Seq<char>,
    stem: Seq<char>,
    child: Seq<char>,
)
    requires
        paths::parent_of(file) == Some(dir),
        paths::file_name_of(file) == Some(stem + ".rs"@),
        stem.len() > 0,
    ensures
        ({
            let place = if stem == "lib"@ || stem == "main"@ || stem == "mod"@ {
                dir
            } else {
                paths::joined(dir, stem)
            };
            let direct = paths::joined(place, child + ".rs"@);
            let inner = paths::joined(paths::joined(place, child), "mod.rs"@);
            &&& (d.probes.contains_key(direct) && d.probes[direct] is Some) ==> find_mod(
                d,
                file,
                child,
            ) == FoundView::File(d.probes[direct]->0)
            &&& (d.probes.contains_key(direct) && d.probes[direct] is None && d.probes.contains_key(
                inner,
            ) && d.probes[inner] is Some) ==> find_mod(d, file, child) == FoundView::File(
                d.probes[inner]->0,
            )
            &&& (d.probes.contains_key(direct) && d.probes[direct] is None && d.probes.contains_key(
                inner,
            ) && d.probes[inner] is None) ==> find_mod(d, file, child) is Absent
            &&& !d.probes.contains_key(direct) ==> find_mod(d, file, child) == FoundView::Unknown(
                direct,
            )
            &&& (d.probes.contains_key(direct) && d.probes[direct] is None
                && !d.probes.contains_key(inner)) ==> find_mod(d, file, child)
                == FoundView::Unknown(inner)
        }),
{
    let name = stem + ".rs"@;
    reveal_strlit(".rs");
    reveal_strlit("lib.rs");
    reveal_strlit("main.rs");
    reveal_strlit("mod.rs");
    reveal_strlit("lib");
    reveal_strlit("main");
    reveal_strlit("mod");
    text::lemma_last_position_is(name, '.', stem.len() as int);
    assert(name.take(stem.len() as int) =~= stem);
    assert(paths::stem_of(name) == stem);
    assert("lib"@ + ".rs"@ =~= "lib.rs"@);
    assert("main"@ + ".rs"@ =~= "main.rs"@);
    assert("mod"@ + ".rs"@ =~= "mod.rs"@);
    assert(name == "lib.rs"@ ==> stem =~= "lib.rs"@.take(3) && "lib.rs"@.take(3) =~= "lib"@);
    assert(name == "main.rs"@ ==> stem =~= "main.rs"@.take(4) && "main.rs"@.take(4) =~= "main"@);
    assert(name == "mod.rs"@ ==> stem =~= "mod.rs"@.take(3) && "mod.rs"@.take(3) =~= "mod"@);
}

/// The crate root of a repository is `src/main.rs` where that is a file, and else
/// `src/lib.rs`.
pub proof fn law_main_comes_before_lib(d: DiskView, repo: Seq<char>)
    ensures
        ({
            let main = paths::joined(repo, "src/main.rs"@);
            let lib = paths::joined(repo, "src/lib.rs"@);
            &&& (d.probes.contains_key(main) && d.probes[main] is Some) ==> crate_root(d, repo)
                == FoundView::File(main)
            &&& (d.probes.contains_key(main) && d.probes[main] is None && d.probes.contains_key(lib)
                && d.probes[lib] is Some) ==> crate_root(d, repo) == FoundView::File(lib)
            &&& (d.probes.contains_key(main) && d.probes[main] is None && d.probes.contains_key(lib)
                && d.probes[lib] is None) ==> crate_root(d, repo) is Absent
            &&& !d.probes.contains_key(main) ==> crate_root(d, repo) == FoundView::Unknown(main)
            &&& (d.probes.contains_key(main) && d.probes[main] is None && !d.probes.contains_key(
                lib,
            )) ==> crate_root(d, repo) == FoundView::Unknown(lib)
        }),
{
}

/// A walk forgets no file that was seen, and keeps its module path.
proof fn lemma_seen_kept(
    d: DiskView,
    items: Seq<syntax::DeclView>,
    file: Seq<char>,
    modpath: Seq<Seq<char>>,
    above: Set<Seq<char>>,
    seen: FilesView,
    unknown: Seq<Seq<char>>,
    f: Seq<char>,
)
    requires
        seen.modpaths.contains_key(f),
    ensures
        ({
            let w = walk(d, items, file, modpath, above, seen, unknown);
            w.seen.modpaths.contains_key(f) && w.seen.modpaths[f] == seen.modpaths[f]
        }),
    decreases files_left(d, above), items,
{
    if items.len() > 0 {
        let rest = items.drop_last();
        let w = walk(d, rest, file, modpath, above, seen, unknown);
        assert(decreases_to!(items => items.subrange(0, items.len() - 1)));
        lemma_seen_kept(d, rest, file, modpath, above, seen, unknown, f);
        match items[items.len() - 1] {
            syntax::DeclView::Mod { name, content: Some(inner) } => {
                lemma_mod_smaller(items);
                lemma_seen_kept(
                    d,
                    inner,
                    file,
                    modpath.push(name),
                    above,
                    w.seen,
                    w.unknown,
                    f,
                );
            },
            syntax::DeclView::Mod { name, content: None } => {
                if let FoundView::File(child) = find_mod(d, file, name) {
                    let s = with_seen(w.seen, child, modpath.push(name));
                    if followed(d, above, child) {
                        lemma_files_left(d, above, child);
                        lemma_seen_kept(
                            d,
                            d.items(child)->0,
                            child,
                            modpath.push(name),
                            above.insert(child),
                            s,
                            w.unknown,
                            f,
                        );
                    }
                }
            },
            _ => {},
        }
    }
}

/// Items are walked in their order. A file keeps the module path under which it
/// was first seen. A `mod x;` whose file is found adds that file, under the path
/// of the module with `x` behind it unless it was seen before, and then what the
/// file declares; an inline module adds what it declares; nothing else adds a
/// file.
pub proof fn law_files_are_seen_in_order(
    d: DiskView,
    items: Seq<syntax::DeclView>,
    last: syntax::DeclView,
    file: Seq<char>,
    modpath: Seq<Seq<char>>,
    above: Set<Seq<char>>,
    seen: FilesView,
    unknown: Seq<Seq<char>>,
    f: Seq<char>,
)
    requires
        d.wf(),
        seen_wf(d, seen),
        seen.files.contains(file),
    ensures
        ({
            let w = walk(d, items, file, modpath, above, seen, unknown).seen;
            let v = walk(d, items.push(last), file, modpath, above, seen, unknown).seen;
            &&& seen.files.contains(f) ==> w.files.contains(f) && w.modpaths[f] == seen.modpaths[f]
            &&& w.files.contains(f) ==> v.files.contains(f) && v.modpaths[f] == w.modpaths[f]
            &&& match last {
                syntax::DeclView::Mod { name, content: Some(inner) } => v == walk(
                    d,
                    inner,
                    file,
                    modpath.push(name),
                    above,
                    w,
                    Seq::empty(),
                ).seen,
                syntax::DeclView::Mod { name, content: None } => match find_mod(d, file, name) {
                    FoundView::File(child) => {
                        &&& v.files.contains(child)
                        &&& !w.files.contains(child) ==> v.modpaths[child] == modpath.push(name)
                        &&& d.items(child) is None || above.contains(child) ==> (v.files.contains(f)
                            <==> w.files.contains(f) || f == child)
                        &&& d.items(child) is Some && !above.contains(child) ==> exists|
                            s: FilesView,
                        |
                            {
                                &&& forall|x: Seq<char>| #[trigger]
                                    s.files.contains(x) <==> w.files.contains(x) || x == child
                                &&& v == #[trigger] walk(
                                    d,
                                    d.items(child)->0,
                                    child,
                                    modpath.push(name),
                                    above.insert(child),
                                    s,
                                    Seq::empty(),
                                ).seen
                            }
                    },
                    _ => v == w,
                },
                _ => v == w,
            }
        }),
{
    let w = walk(d, items, file, modpath, above, seen, unknown);
    let all = items.push(last);
    let v = walk(d, all, file, modpath, above, seen, unknown);
    assert(all.drop_last() =~= items);
    assert(all[all.len() - 1] == last);
    lemma_walk_sees(d, items, file, modpath, above, seen, unknown);
    lemma_walk_sees(d, all, file, modpath, above, seen, unknown);
    assert(seen.files.contains(f) <==> seen.modpaths.contains_key(f));
    assert(w.seen.files.contains(f) <==> w.seen.modpaths.contains_key(f));
    assert(v.seen.files.contains(f) <==> v.seen.modpaths.contains_key(f));
    if seen.files.contains(f) {
        lemma_seen_kept(d, items, file, modpath, above, seen, unknown, f);
    }
    match last {
        syntax::DeclView::Mod { name, content: Some(inner) } => {
            if w.seen.files.contains(f) {
                lemma_seen_kept(
                    d,
                    inner,
                    file,
                    modpath.push(name),
                    above,
                    w.seen,
                    w.unknown,
                    f,
                );
            }
            lemma_same_seen(
                d,
                inner,
                file,
                modpath.push(name),
                above,
                w.seen,
                w.unknown,
                Seq::empty(),
            );
        },
        syntax::DeclView::Mod { name, content: None } => {
            lemma_found_known(d, file, name);
            if let FoundView::File(child) = find_mod(d, file, name) {
                let s = with_seen(w.seen, child, modpath.push(name));
                lemma_with_seen(d, w.seen, child, modpath.push(name));
                assert(w.seen.files.contains(child) <==> w.seen.modpaths.contains_key(child));
                assert forall|x: Seq<char>| #[trigger]
                    s.files.contains(x) <==> w.seen.files.contains(x) || x == child by {
                    order::lemma_put_contains(w.seen.files, child, x);
                }
                if followed(d, above, child) {
                    let content = d.items(child)->0;
                    lemma_seen_kept(
                        d,
                        content,
                        child,
                        modpath.push(name),
                        above.insert(child),
                        s,
                        w.unknown,
                        child,
                    );
                    if w.seen.files.contains(f) {
                        lemma_seen_kept(
                            d,
                            content,
                            child,
                            modpath.push(name),
                            above.insert(child),
                            s,
                            w.unknown,
                            f,
                        );
                    }
                    lemma_same_seen(
                        d,
                        content,
                        child,
                        modpath.push(name),
                        above.insert(child),
                        s,
                        w.unknown,
                        Seq::empty(),
                    );
                    assert(v.seen.files.contains(child) <==> v.seen.modpaths.contains_key(child));
                }
            }
        },
        _ => {},
    }
}

/// The files seen do not depend on the paths to look at.
proof fn lemma_same_seen(
    d: DiskView,
    items: Seq<syntax::DeclView>,
    file: Seq<char>,
    modpath: Seq<Seq<char>>,
    above: Set<Seq<char>>,
    s: FilesView,
    u: Seq<Seq<char>>,
    v: Seq<Seq<char>>,
)
    ensures
        walk(d, items, file, modpath, above, s, u).seen == walk(
            d,
            items,
            file,
            modpath,
            above,
            s,
            v,
        ).seen,
    decreases files_left(d, above), items,
{
    if items.len() > 0 {
        let rest = items.drop_last();
        let a = walk(d, rest, file, modpath, above, s, u);
        let b = walk(d, rest, file, modpath, above, s, v);
        assert(decreases_to!(items => items.subrange(0, items.len() - 1)));
        lemma_same_seen(d, rest, file, modpath, above, s, u, v);
        match items[items.len() - 1] {
            syntax::DeclView::Mod { name, content: Some(inner) } => {
                lemma_mod_smaller(items);
                lemma_same_seen(
                    d,
                    inner,
                    file,
                    modpath.push(name),
                    above,
                    a.seen,
                    a.unknown,
                    b.unknown,
                );
            },
            syntax::DeclView::Mod { name, content: None } => {
                if let FoundView::File(child) = find_mod(d, file, name) {
                    if followed(d, above, child) {
                        lemma_files_left(d, above, child);
                        lemma_same_seen(
                            d,
                            d.items(child)->0,
                            child,
                            modpath.push(name),
                            above.insert(child),
                            with_seen(a.seen, child, modpath.push(name)),
                            a.unknown,
                            b.unknown,
                        );
                    }
                }
            },
            _ => {},
        }
    }
}

/// The module tree of a crate is made of the items of its root file, as the
/// module with the empty path.
pub proof fn law_tree_starts_at_the_root(d: DiskView, root: Seq<char>)
    requires
        d.wf(),
    ensures
        tree_from(d, root).node.file == root,
        tree_from(d, root).seen.files.contains(root),
        d.items(root) is Some ==> exists|s: FilesView|
            {
                &&& forall|x: Seq<char>| #[trigger] s.files.contains(x) <==> x == root
                &&& s.modpaths[root] == Seq::<Seq<char>>::empty()
                &&& tree_from(d, root) == #[trigger] walk(
                    d,
                    d.items(root)->0,
                    root,
                    Seq::empty(),
                    Set::empty().insert(root),
                    s,
                    Seq::empty(),
                )
            },
        d.items(root) is None ==> tree_from(d, root).node.nodes.len() == 0 && forall|x: Seq<char>|
            #[trigger] tree_from(d, root).seen.files.contains(x) <==> x == root,
{
    let none = FilesView { files: Seq::empty(), modpaths: Map::empty() };
    let s = seen_at_root(root);
    assert forall|x: Seq<char>| #[trigger] s.files.contains(x) <==> x == root by {
        order::lemma_put_contains(none.files, root, x);
    }
    if followed(d, Set::empty(), root) {
        assert(d.sources.contains_key(root));
        assert(seen_wf(d, none));
        lemma_with_seen(d, none, root, Seq::empty());
        lemma_walk_sees(
            d,
            d.items(root)->0,
            root,
            Seq::empty(),
            Set::empty().insert(root),
            s,
            Seq::empty(),
        );
        assert(s.files.contains(root));
    }
}

} // verus!
