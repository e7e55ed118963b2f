//! References to a Rust identifier.
//!
//! Names are matched by the trailing path segment (last `::` component). There
//! is no full name resolution: a hit on `foo` matches every `foo` regardless of
//! which `foo` it actually resolves to.
//!
//! Output: one hit per line.
//!   `<file>:<line>:<col> def <kind> <name>`
//!   `<file>:<line>:<col> use <kind> <name>`
//!
//! `def` kinds: `fn`, `method`, `struct`, `enum`, `union`, `trait`,
//!              `const`, `static`, `type`, `macro`.
//! `use` kinds: `call`, `method`, `type`, `struct-lit`, `path`, `macro`,
//!              `import`, `pat`.

use vstd::prelude::*;

use crate::names::NameSet;
use crate::order::{place, Place};
use crate::similar::suggest;
use crate::syntax::{collect_idents, parse_source, Decl, Member, MemberKind, Name, NamedKind};
use crate::walk::Node;
use crate::{order, parse, paths, similar, syntax, text, walk};

verus! {

#[derive(Debug, Clone, Copy)]
pub enum Mode {
    Both,
    DefsOnly,
    UsesOnly,
}

#[derive(Debug)]
pub struct RefsOptions {
    pub name: String,
    pub mode: Mode,
    /// When `Some(N)`, print `±N` lines of source context around each hit.
    pub excerpt: Option<usize>,
}

/// The ways in which a name is used.
#[derive(Debug, Clone, Copy, PartialEq, Eq, Structural)]
pub enum UseKind {
    Call,
    Method,
    Type,
    StructLit,
    Path,
    Macro,
    Import,
    Pat,
}

/// A place where a name is used.
#[derive(Debug)]
pub struct UseSite {
    pub kind: UseKind,
    pub name: Name,
}

/// A source file: the path to show, its text where it can be read, and the
/// places in it where names are used.
#[derive(Debug)]
pub struct SourceFile {
    pub rel: String,
    pub text: Option<String>,
    pub uses: Vec<UseSite>,
}

#[derive(Debug)]
pub struct Hit {
    pub file: String,
    pub line: usize,
    pub col: usize,
    /// `def` or `use`.
    pub role: &'static str,
    pub kind: &'static str,
    pub name: String,
}

/// What a [`Hit`] holds.
pub struct HitView {
    pub file: Seq<char>,
    pub line: usize,
    pub col: usize,
    pub role: Seq<char>,
    pub kind: Seq<char>,
    pub name: Seq<char>,
}

impl View for Hit {
    type V = HitView;

    open spec fn view(&self) -> HitView {
        HitView {
            file: self.file@,
            line: self.line,
            col: self.col,
            role: self.role@,
            kind: self.kind@,
            name: self.name@,
        }
    }
}

pub open spec fn hits_view(v: Seq<Hit>) -> Seq<HitView> {
    v.map_values(|h: Hit| h@)
}

// --- the order of hits -----------------------------------------------------------------

/// `a` is listed before `b`: by file, line, column, role, kind and name.
pub open spec fn hit_before(a: HitView, b: HitView) -> bool {
    if a.file != b.file {
        order::before(a.file, b.file)
    } else if a.line != b.line {
        a.line < b.line
    } else if a.col != b.col {
        a.col < b.col
    } else if a.role != b.role {
        order::before(a.role, b.role)
    } else if a.kind != b.kind {
        order::before(a.kind, b.kind)
    } else {
        order::before(a.name, b.name)
    }
}

/// `s` with `h` put into its place, unless it is there.
pub open spec fn put_hit(s: Seq<HitView>, h: HitView) -> Seq<HitView>
    decreases s.len(),
{
    if s.len() == 0 {
        seq![h]
    } else if s[0] == h {
        s
    } else if hit_before(h, s[0]) {
        seq![h] + s
    } else {
        seq![s[0]] + put_hit(s.drop_first(), h)
    }
}

/// `s` with each of `hs` put in.
pub open spec fn put_hits(s: Seq<HitView>, hs: Seq<HitView>) -> Seq<HitView>
    decreases hs.len(),
{
    if hs.len() == 0 {
        s
    } else {
        put_hit(put_hits(s, hs.drop_last()), hs.last())
    }
}

/// Each hit is listed before the ones that follow it.
pub open spec fn hits_ascending(s: Seq<HitView>) -> bool {
    forall|i: int, j: int| 0 <= i < j < s.len() ==> hit_before(#[trigger] s[i], #[trigger] s[j])
}

proof fn lemma_hit_irreflexive(a: HitView)
    ensures
        !hit_before(a, a),
{
    order::lemma_before_irreflexive(a.name);
}

proof fn lemma_hit_total(a: HitView, b: HitView)
    ensures
        a == b || hit_before(a, b) || hit_before(b, a),
{
    order::lemma_before_total(a.file, b.file);
    order::lemma_before_total(a.role, b.role);
    order::lemma_before_total(a.kind, b.kind);
    order::lemma_before_total(a.name, b.name);
}

proof fn lemma_hit_transitive(a: HitView, b: HitView, c: HitView)
    requires
        hit_before(a, b),
        hit_before(b, c),
    ensures
        hit_before(a, c),
{
    if a.file != b.file && b.file != c.file {
        order::lemma_before_transitive(a.file, b.file, c.file);
        order::lemma_before_irreflexive(a.file);
    } else if a.file == b.file && b.file == c.file && a.line == b.line && b.line == c.line && a.col
        == b.col && b.col == c.col {
        if a.role != b.role && b.role != c.role {
            order::lemma_before_transitive(a.role, b.role, c.role);
            order::lemma_before_irreflexive(a.role);
        } else if a.role == b.role && b.role == c.role {
            if a.kind != b.kind && b.kind != c.kind {
                order::lemma_before_transitive(a.kind, b.kind, c.kind);
                order::lemma_before_irreflexive(a.kind);
            } else if a.kind == b.kind && b.kind == c.kind {
                order::lemma_before_transitive(a.name, b.name, c.name);
            }
        }
    }
}

proof fn lemma_put_hit_at(s: Seq<HitView>, i: int, h: HitView)
    requires
        hits_ascending(s),
        0 <= i <= s.len(),
        forall|k: int| 0 <= k < i ==> hit_before(#[trigger] s[k], h),
        i < s.len() ==> s[i] == h || hit_before(h, s[i]),
    ensures
        put_hit(s, h) == if i < s.len() && s[i] == h {
            s
        } else {
            s.insert(i, h)
        },
        hits_ascending(put_hit(s, h)),
    decreases s.len(),
{
    lemma_hit_irreflexive(h);
    let r = put_hit(s, h);
    if s.len() == 0 {
        assert(s.insert(0, h) =~= seq![h]);
    } else if i == 0 {
        if s[0] != h {
            assert(s.insert(0, h) =~= seq![h] + s);
            assert forall|a: int, b: int| 0 <= a < b < r.len() implies hit_before(
                #[trigger] r[a],
                #[trigger] r[b],
            ) by {
                if a > 0 {
                    assert(hit_before(s[a - 1], s[b - 1]));
                } else if b > 1 {
                    assert(hit_before(s[0], s[b - 1]));
                    lemma_hit_transitive(h, s[0], s[b - 1]);
                }
            }
        }
    } else {
        assert(hit_before(s[0], h));
        if hit_before(h, s[0]) {
            lemma_hit_transitive(h, s[0], h);
        }
        let t = s.drop_first();
        assert forall|a: int, b: int| 0 <= a < b < t.len() implies hit_before(
            #[trigger] t[a],
            #[trigger] t[b],
        ) by {
            assert(hit_before(s[a + 1], s[b + 1]));
        }
        assert forall|k: int| 0 <= k < i - 1 implies hit_before(#[trigger] t[k], h) by {
            assert(hit_before(s[k + 1], h));
        }
        lemma_put_hit_at(t, i - 1, h);
        let p = put_hit(t, h);
        if i < s.len() && s[i] == h {
            assert(r =~= s);
        } else {
            assert(r =~= s.insert(i, h));
        }
        assert forall|a: int, b: int| 0 <= a < b < r.len() implies hit_before(
            #[trigger] r[a],
            #[trigger] r[b],
        ) by {
            if a > 0 {
                assert(hit_before(p[a - 1], p[b - 1]));
            } else {
                assert(r[b] == p[b - 1]);
                if p[b - 1] != h {
                    assert(t.contains(p[b - 1]));
                    let k = choose|k: int| 0 <= k < t.len() && t[k] == p[b - 1];
                    assert(hit_before(s[0], s[k + 1]));
                }
            }
        }
    }
}

/// How `a` stands to `b`.
fn hit_place(a: &Hit, b: &Hit) -> (r: Place)
    ensures
        match r {
            Place::Before => hit_before(a@, b@),
            Place::Same => a@ == b@,
            Place::After => hit_before(b@, a@),
        },
{
    proof {
        order::lemma_before_irreflexive(a.file@);
        order::lemma_before_irreflexive(a.role@);
        order::lemma_before_irreflexive(a.kind@);
    }
    let p = place(a.file.as_str(), b.file.as_str());
    if p != Place::Same {
        return p;
    }
    if a.line != b.line {
        return if a.line < b.line {
            Place::Before
        } else {
            Place::After
        };
    }
    if a.col != b.col {
        return if a.col < b.col {
            Place::Before
        } else {
            Place::After
        };
    }
    let p = place(a.role, b.role);
    if p != Place::Same {
        return p;
    }
    let p = place(a.kind, b.kind);
    if p != Place::Same {
        return p;
    }
    place(a.name.as_str(), b.name.as_str())
}

/// Puts `h` into the ordered list `hits`, unless it is there.
fn insert_hit(hits: &mut Vec<Hit>, h: Hit)
    requires
        hits_ascending(hits_view(old(hits)@)),
    ensures
        hits_view(final(hits)@) == put_hit(hits_view(old(hits)@), h@),
        hits_ascending(hits_view(final(hits)@)),
{
    let ghost s = hits_view(hits@);
    let mut lo: usize = 0;
    let mut hi: usize = hits.len();
    while lo < hi
        invariant
            s == hits_view(hits@),
            hits_ascending(s),
            lo <= hi <= hits.len(),
            forall|k: int| 0 <= k < lo ==> hit_before(#[trigger] s[k], h@),
            hi < hits.len() ==> hit_before(h@, s[hi as int]),
        decreases hi - lo,
    {
        let mid: usize = lo + (hi - lo) / 2;
        proof {
            assert(s[mid as int] == hits@[mid as int]@);
        }
        match hit_place(&hits[mid], &h) {
            Place::Same => {
                proof {
                    assert forall|k: int| 0 <= k < mid implies hit_before(#[trigger] s[k], h@) by {
                        assert(hit_before(s[k], s[mid as int]));
                    }
                    lemma_put_hit_at(s, mid as int, h@);
                }
                return;
            },
            Place::Before => {
                proof {
                    assert forall|k: int| 0 <= k <= mid implies hit_before(#[trigger] s[k], h@) by {
                        if k < mid {
                            assert(hit_before(s[k], s[mid as int]));
                            lemma_hit_transitive(s[k], s[mid as int], h@);
                        }
                    }
                }
                lo = mid + 1;
            },
            Place::After => {
                hi = mid;
            },
        }
    }
    proof {
        lemma_put_hit_at(s, lo as int, h@);
        if lo < s.len() {
            lemma_hit_irreflexive(h@);
        }
    }
    let ghost hv = h@;
    hits.insert(lo, h);
    proof {
        assert(hits_view(hits@) =~= s.insert(lo as int, hv));
    }
}

// --- definitions -------------------------------------------------------------------------

/// A definition: its kind and where its name starts.
#[derive(Debug)]
pub struct Def {
    pub kind: &'static str,
    pub line: usize,
    pub col: usize,
}

/// What a [`Def`] holds.
pub struct DefView {
    pub kind: Seq<char>,
    pub line: usize,
    pub col: usize,
}

impl View for Def {
    type V = DefView;

    open spec fn view(&self) -> DefView {
        DefView { kind: self.kind@, line: self.line, col: self.col }
    }
}

pub open spec fn defs_view(v: Seq<Def>) -> Seq<DefView> {
    v.map_values(|d: Def| d@)
}

/// A definition of `target`, where the name is it.
pub open spec fn def_at(kind: Seq<char>, name: syntax::NameView, target: Seq<char>) -> Seq<DefView> {
    if name.text == target {
        seq![DefView { kind, line: name.line, col: name.col }]
    } else {
        Seq::empty()
    }
}

pub open spec fn impl_member_word(kind: MemberKind) -> Seq<char> {
    match kind {
        MemberKind::Fn => "method"@,
        MemberKind::Type => "type"@,
        MemberKind::Const => "const"@,
    }
}

/// The methods, consts and types named `target` among the members of an impl.
pub open spec fn impl_defs(members: Seq<syntax::MemberView>, target: Seq<char>) -> Seq<DefView>
    decreases members.len(),
{
    if members.len() == 0 {
        Seq::empty()
    } else {
        impl_defs(members.drop_last(), target) + match members.last() {
            syntax::MemberView::Named { kind, name, .. } => def_at(
                impl_member_word(kind),
                name,
                target,
            ),
            syntax::MemberView::Other => Seq::empty(),
        }
    }
}

/// The methods named `target` among the members of a trait.
pub open spec fn trait_defs(members: Seq<syntax::MemberView>, target: Seq<char>) -> Seq<DefView>
    decreases members.len(),
{
    if members.len() == 0 {
        Seq::empty()
    } else {
        trait_defs(members.drop_last(), target) + match members.last() {
            syntax::MemberView::Named { kind, name, .. } => if kind == MemberKind::Fn {
                def_at("method"@, name, target)
            } else {
                Seq::empty()
            },
            syntax::MemberView::Other => Seq::empty(),
        }
    }
}

/// The definitions of `target` among items, those in inline modules included.
pub open spec fn definitions(items: Seq<syntax::DeclView>, target: Seq<char>) -> Seq<DefView>
    decreases items,
{
    if items.len() == 0 {
        Seq::empty()
    } else {
        definitions(items.drop_last(), target) + match items[items.len() - 1] {
            syntax::DeclView::Named { kind, name: Some(name), .. } => def_at(
                parse::kind_word(kind),
                name,
                target,
            ),
            syntax::DeclView::Trait { name, members, .. } => if name.text == target {
                def_at("trait"@, name, target)
            } else {
                trait_defs(members, target)
            },
            syntax::DeclView::Impl { members, .. } => impl_defs(members, target),
            syntax::DeclView::Mod { content: Some(inner), .. } => definitions(inner, target),
            _ => Seq::empty(),
        }
    }
}

/// Appends a definition of `target`, where `name` is it.
fn push_def(kind: &'static str, name: &Name, target: &str, out: &mut Vec<Def>)
    ensures
        defs_view(final(out)@) == defs_view(old(out)@) + def_at(kind@, name@, target@),
{
    let ghost before = out@;
    if text::same_text(name.text.as_str(), target) {
        out.push(Def { kind, line: name.line, col: name.col });
        proof {
            assert(defs_view(out@) =~= defs_view(before) + def_at(kind@, name@, target@));
        }
    } else {
        proof {
            assert(defs_view(before) + def_at(kind@, name@, target@) =~= defs_view(before));
        }
    }
}

fn collect_impl_defs(members: &Vec<Member>, target: &str, out: &mut Vec<Def>)
    ensures
        defs_view(final(out)@) == defs_view(old(out)@) + impl_defs(
            syntax::members_view(members@),
            target@,
        ),
{
    let ghost ms = syntax::members_view(members@);
    let ghost before = defs_view(out@);
    proof {
        assert(ms.take(0) =~= Seq::empty());
        assert(before + Seq::<DefView>::empty() =~= before);
    }
    for k in 0..members.len()
        invariant
            ms == syntax::members_view(members@),
            defs_view(out@) == before + impl_defs(ms.take(k as int), target@),
    {
        proof {
            assert(ms.take(k + 1).drop_last() =~= ms.take(k as int));
            assert(ms[k as int] == members@[k as int]@);
        }
        match &members[k] {
            Member::Named { kind, name, .. } => {
                let word = match kind {
                    MemberKind::Fn => "method",
                    MemberKind::Type => "type",
                    MemberKind::Const => "const",
                };
                push_def(word, name, target, out);
            },
            Member::Other => {},
        }
        proof {
            assert(defs_view(out@) =~= before + impl_defs(ms.take(k + 1), target@));
        }
    }
    proof {
        assert(ms.take(ms.len() as int) =~= ms);
    }
}

fn collect_trait_defs(members: &Vec<Member>, target: &str, out: &mut Vec<Def>)
    ensures
        defs_view(final(out)@) == defs_view(old(out)@) + trait_defs(
            syntax::members_view(members@),
            target@,
        ),
{
    let ghost ms = syntax::members_view(members@);
    let ghost before = defs_view(out@);
    proof {
        assert(ms.take(0) =~= Seq::empty());
        assert(before + Seq::<DefView>::empty() =~= before);
    }
    for k in 0..members.len()
        invariant
            ms == syntax::members_view(members@),
            defs_view(out@) == before + trait_defs(ms.take(k as int), target@),
    {
        proof {
            assert(ms.take(k + 1).drop_last() =~= ms.take(k as int));
            assert(ms[k as int] == members@[k as int]@);
        }
        match &members[k] {
            Member::Named { kind, name, .. } => {
                if *kind == MemberKind::Fn {
                    push_def("method", name, target, out);
                }
            },
            Member::Other => {},
        }
        proof {
            assert(defs_view(out@) =~= before + trait_defs(ms.take(k + 1), target@));
        }
    }
    proof {
        assert(ms.take(ms.len() as int) =~= ms);
    }
}

/// Appends the definitions of `target` among `items`.
pub fn collect_defs(items: &Vec<Decl>, target: &str, out: &mut Vec<Def>)
    ensures
        defs_view(final(out)@) == defs_view(old(out)@) + definitions(
            syntax::decls_view(items@),
            target@,
        ),
    decreases items,
{
    let ghost ds = syntax::decls_view(items@);
    let ghost before = defs_view(out@);
    proof {
        assert(ds.take(0) =~= Seq::empty());
        assert(before + Seq::<DefView>::empty() =~= before);
    }
    for k in 0..items.len()
        invariant
            ds == syntax::decls_view(items@),
            defs_view(out@) == before + definitions(ds.take(k as int), target@),
    {
        proof {
            assert(ds.take(k + 1).drop_last() =~= ds.take(k as int));
            assert(ds[k as int] == syntax::decl_view(items@[k as int]));
            assert(decreases_to!(items@ => items@[k as int]));
        }
        match &items[k] {
            Decl::Named { kind, name: Some(name), .. } => {
                push_def(parse::kind_str(*kind), name, target, out);
            },
            Decl::Trait { name, members, .. } => {
                if text::same_text(name.text.as_str(), target) {
                    push_def("trait", name, target, out);
                } else {
                    collect_trait_defs(members, target, out);
                }
            },
            Decl::Impl { members, .. } => {
                collect_impl_defs(members, target, out);
            },
            Decl::Mod { content: Some(inner), .. } => {
                proof {
                    let c = items@[k as int]->content;
                    assert(decreases_to!(items@[k as int] => c));
                    assert(decreases_to!(c => c->0));
                }
                collect_defs(inner, target, out);
            },
            _ => {},
        }
        proof {
            assert(defs_view(out@) =~= before + definitions(ds.take(k + 1), target@));
        }
    }
    proof {
        assert(ds.take(ds.len() as int) =~= ds);
    }
}

/// Where the names of the definitions of `target` among `items` start.
pub fn collect_def_locs(items: &Vec<Decl>, target: &str) -> (r: Vec<(usize, usize)>)
    ensures
        r@ == def_locs(definitions(syntax::decls_view(items@), target@)),
{
    let mut defs: Vec<Def> = Vec::new();
    collect_defs(items, target, &mut defs);
    let ghost ds = definitions(syntax::decls_view(items@), target@);
    proof {
        assert(defs_view(defs@) =~= ds);
    }
    locs_of(&defs)
}

/// Where the names of definitions start.
pub open spec fn def_locs(defs: Seq<DefView>) -> Seq<(usize, usize)> {
    defs.map_values(|d: DefView| (d.line, d.col))
}

fn locs_of(defs: &Vec<Def>) -> (r: Vec<(usize, usize)>)
    ensures
        r@ == def_locs(defs_view(defs@)),
{
    let mut r: Vec<(usize, usize)> = Vec::new();
    for k in 0..defs.len()
        invariant
            r@ == def_locs(defs_view(defs@)).take(k as int),
    {
        r.push((defs[k].line, defs[k].col));
    }
    r
}

// --- hits ----------------------------------------------------------------------------------

pub open spec fn use_word(kind: UseKind) -> Seq<char> {
    match kind {
        UseKind::Call => "call"@,
        UseKind::Method => "method"@,
        UseKind::Type => "type"@,
        UseKind::StructLit => "struct-lit"@,
        UseKind::Path => "path"@,
        UseKind::Macro => "macro"@,
        UseKind::Import => "import"@,
        UseKind::Pat => "pat"@,
    }
}

pub open spec fn wants_defs(mode: Mode) -> bool {
    mode is Both || mode is DefsOnly
}

pub open spec fn wants_uses(mode: Mode) -> bool {
    mode is Both || mode is UsesOnly
}

pub open spec fn def_hits(defs: Seq<DefView>, file: Seq<char>, target: Seq<char>) -> Seq<HitView> {
    defs.map_values(
        |d: DefView|
            HitView { file, line: d.line, col: d.col, role: "def"@, kind: d.kind, name: target },
    )
}

/// The uses of `target`, but for those at one of the places `skip`.
pub open spec fn use_hits(
    uses: Seq<UseSite>,
    skip: Seq<(usize, usize)>,
    file: Seq<char>,
    target: Seq<char>,
) -> Seq<HitView>
    decreases uses.len(),
{
    if uses.len() == 0 {
        Seq::empty()
    } else {
        let rest = use_hits(uses.drop_last(), skip, file, target);
        let u = uses.last();
        if u.name.text@ == target && !skip.contains((u.name.line, u.name.col)) {
            rest.push(
                HitView {
                    file,
                    line: u.name.line,
                    col: u.name.col,
                    role: "use"@,
                    kind: use_word(u.kind),
                    name: target,
                },
            )
        } else {
            rest
        }
    }
}

/// The hits in a file with the given items.
pub open spec fn item_hits(
    items: Seq<syntax::DeclView>,
    uses: Seq<UseSite>,
    file: Seq<char>,
    target: Seq<char>,
    mode: Mode,
) -> Seq<HitView> {
    let defs = definitions(items, target);
    (if wants_defs(mode) {
        def_hits(defs, file, target)
    } else {
        Seq::empty()
    }) + (if wants_uses(mode) {
        use_hits(uses, def_locs(defs), file, target)
    } else {
        Seq::empty()
    })
}

/// The hits in a file; none where it cannot be read or parsed.
pub open spec fn file_hits(f: SourceFile, target: Seq<char>, mode: Mode) -> Seq<HitView> {
    match f.text {
        Some(src) => match syntax::source_items(src@) {
            Some(items) => item_hits(items, f.uses@, f.rel@, target, mode),
            None => Seq::empty(),
        },
        None => Seq::empty(),
    }
}

/// The hits in files, in the order of the files.
pub open spec fn all_hits(files: Seq<SourceFile>, target: Seq<char>, mode: Mode) -> Seq<HitView>
    decreases files.len(),
{
    if files.len() == 0 {
        Seq::empty()
    } else {
        all_hits(files.drop_last(), target, mode) + file_hits(files.last(), target, mode)
    }
}

/// The hits in files as they are listed.
pub open spec fn listed_hits(
    files: Seq<SourceFile>,
    target: Seq<char>,
    mode: Mode,
) -> Seq<HitView> {
    put_hits(Seq::empty(), all_hits(files, target, mode))
}

fn use_str(kind: UseKind) -> (r: &'static str)
    ensures
        r@ == use_word(kind),
{
    match kind {
        UseKind::Call => "call",
        UseKind::Method => "method",
        UseKind::Type => "type",
        UseKind::StructLit => "struct-lit",
        UseKind::Path => "path",
        UseKind::Macro => "macro",
        UseKind::Import => "import",
        UseKind::Pat => "pat",
    }
}

fn has_loc(locs: &Vec<(usize, usize)>, line: usize, col: usize) -> (r: bool)
    ensures
        r == locs@.contains((line, col)),
{
    for k in 0..locs.len()
        invariant
            forall|j: int| 0 <= j < k ==> locs@[j] != (line, col),
    {
        if locs[k].0 == line && locs[k].1 == col {
            proof {
                assert(locs@[k as int] == (line, col));
            }
            return true;
        }
    }
    false
}

proof fn lemma_put_hits_add(s: Seq<HitView>, a: Seq<HitView>, b: Seq<HitView>)
    ensures
        put_hits(put_hits(s, a), b) == put_hits(s, a + b),
    decreases b.len(),
{
    if b.len() == 0 {
        assert(a + b =~= a);
    } else {
        lemma_put_hits_add(s, a, b.drop_last());
        assert((a + b).drop_last() =~= a + b.drop_last());
    }
}

/// Puts the hits in a file with the items `items` into the ordered list `hits`.
pub fn scan_items(
    items: &Vec<Decl>,
    uses: &Vec<UseSite>,
    file: &str,
    target: &str,
    mode: Mode,
    hits: &mut Vec<Hit>,
)
    requires
        hits_ascending(hits_view(old(hits)@)),
    ensures
        hits_view(final(hits)@) == put_hits(
            hits_view(old(hits)@),
            item_hits(syntax::decls_view(items@), uses@, file@, target@, mode),
        ),
        hits_ascending(hits_view(final(hits)@)),
{
    let ghost before = hits_view(hits@);
    let ghost dv = definitions(syntax::decls_view(items@), target@);
    let mut defs: Vec<Def> = Vec::new();
    collect_defs(items, target, &mut defs);
    proof {
        assert(defs_view(defs@) =~= dv);
    }
    let locs = locs_of(&defs);
    let want_defs = match mode {
        Mode::Both | Mode::DefsOnly => true,
        Mode::UsesOnly => false,
    };
    let want_uses = match mode {
        Mode::Both | Mode::UsesOnly => true,
        Mode::DefsOnly => false,
    };
    let ghost dh: Seq<HitView> = if want_defs {
        def_hits(dv, file@, target@)
    } else {
        Seq::empty()
    };
    if want_defs {
        proof {
            assert(dh.take(0) =~= Seq::empty());
        }
        for k in 0..defs.len()
            invariant
                defs_view(defs@) == dv,
                dh == def_hits(dv, file@, target@),
                hits_ascending(hits_view(hits@)),
                hits_view(hits@) == put_hits(before, dh.take(k as int)),
        {
            let h = Hit {
                file: file.to_owned(),
                line: defs[k].line,
                col: defs[k].col,
                role: "def",
                kind: defs[k].kind,
                name: target.to_owned(),
            };
            proof {
                assert(dv[k as int] == defs@[k as int]@);
                assert(h@ == dh[k as int]);
                assert(dh.take(k + 1).drop_last() =~= dh.take(k as int));
            }
            insert_hit(hits, h);
        }
        proof {
            assert(dh.take(dh.len() as int) =~= dh);
        }
    }
    let ghost middle = hits_view(hits@);
    let ghost us = uses@;
    if want_uses {
        proof {
            assert(us.take(0) =~= Seq::empty());
        }
        for k in 0..uses.len()
            invariant
                us == uses@,
                locs@ == def_locs(dv),
                hits_ascending(hits_view(hits@)),
                hits_view(hits@) == put_hits(
                    middle,
                    use_hits(us.take(k as int), def_locs(dv), file@, target@),
                ),
        {
            proof {
                assert(us.take(k + 1).drop_last() =~= us.take(k as int));
            }
            let u = &uses[k];
            if text::same_text(u.name.text.as_str(), target) && !has_loc(
                &locs,
                u.name.line,
                u.name.col,
            ) {
                let h = Hit {
                    file: file.to_owned(),
                    line: u.name.line,
                    col: u.name.col,
                    role: "use",
                    kind: use_str(u.kind),
                    name: target.to_owned(),
                };
                proof {
                    let a = use_hits(us.take(k as int), def_locs(dv), file@, target@);
                    assert(a.push(h@).drop_last() =~= a);
                }
                insert_hit(hits, h);
            }
        }
        proof {
            assert(us.take(us.len() as int) =~= us);
        }
    }
    proof {
        let uh: Seq<HitView> = if want_uses {
            use_hits(us, def_locs(dv), file@, target@)
        } else {
            Seq::empty()
        };
        lemma_put_hits_add(before, dh, uh);
    }
}

/// Puts the hits in a file into the ordered list `hits`.
fn scan_file(f: &SourceFile, target: &str, mode: Mode, hits: &mut Vec<Hit>)
    requires
        hits_ascending(hits_view(old(hits)@)),
    ensures
        hits_view(final(hits)@) == put_hits(
            hits_view(old(hits)@),
            file_hits(*f, target@, mode),
        ),
        hits_ascending(hits_view(final(hits)@)),
{
    match &f.text {
        Some(src) => match parse_source(src.as_str()) {
            Some(items) => scan_items(&items, &f.uses, f.rel.as_str(), target, mode, hits),
            None => {},
        },
        None => {},
    }
}

/// The hits in files, ordered and each once.
fn scan_all(files: &Vec<SourceFile>, target: &str, mode: Mode) -> (r: Vec<Hit>)
    ensures
        hits_view(r@) == listed_hits(files@, target@, mode),
{
    let ghost fs = files@;
    let mut hits: Vec<Hit> = Vec::new();
    proof {
        assert(fs.take(0) =~= Seq::empty());
        assert(hits_view(hits@) =~= Seq::empty());
    }
    for k in 0..files.len()
        invariant
            fs == files@,
            hits_ascending(hits_view(hits@)),
            hits_view(hits@) == put_hits(
                Seq::empty(),
                all_hits(fs.take(k as int), target@, mode),
            ),
    {
        proof {
            assert(fs.take(k + 1).drop_last() =~= fs.take(k as int));
            lemma_put_hits_add(
                Seq::empty(),
                all_hits(fs.take(k as int), target@, mode),
                file_hits(fs[k as int], target@, mode),
            );
        }
        scan_file(&files[k], target, mode, &mut hits);
    }
    proof {
        assert(fs.take(fs.len() as int) =~= fs);
    }
    hits
}

// --- output --------------------------------------------------------------------------------

/// `text` with blanks in front of it up to `width` characters.
pub open spec fn right_aligned(s: Seq<char>, width: nat) -> Seq<char> {
    text::repeated(
        ' ',
        if s.len() < width {
            (width - s.len()) as nat
        } else {
            0
        },
    ) + s
}

/// One line of an excerpt: a marker on the line of the hit, the number of the
/// line, and the line.
pub open spec fn excerpt_line(line: Seq<char>, n: nat, hit_line: nat, width: nat) -> Seq<char> {
    "  "@ + (if n == hit_line {
        ">"@
    } else {
        " "@
    }) + " "@ + right_aligned(text::decimal(n), width) + " | "@ + line + "\n"@
}

/// The lines of an excerpt from `start` to `end`.
pub open spec fn excerpt_lines(
    lines: Seq<Seq<char>>,
    start: nat,
    end: nat,
    hit_line: nat,
    width: nat,
) -> Seq<char>
    decreases end,
{
    if end < start || end == 0 {
        Seq::empty()
    } else {
        excerpt_lines(lines, start, (end - 1) as nat, hit_line, width) + excerpt_line(
            lines[end - 1],
            end,
            hit_line,
            width,
        )
    }
}

/// The first line of an excerpt.
pub open spec fn excerpt_start(hit_line: nat, ctx: nat) -> nat {
    if hit_line > ctx + 1 {
        (hit_line - ctx) as nat
    } else {
        1
    }
}

/// The last line of an excerpt.
pub open spec fn excerpt_end(hit_line: nat, ctx: nat, total: nat) -> nat {
    if hit_line + ctx < total {
        hit_line + ctx
    } else {
        total
    }
}

/// The `ctx` lines before the line of a hit, that line, and the `ctx` lines
/// after it.
pub open spec fn excerpt_text(lines: Seq<Seq<char>>, hit_line: nat, ctx: nat) -> Seq<char> {
    let end = excerpt_end(hit_line, ctx, lines.len());
    if lines.len() == 0 {
        Seq::empty()
    } else {
        excerpt_lines(
            lines,
            excerpt_start(hit_line, ctx),
            end,
            hit_line,
            text::decimal(end).len(),
        )
    }
}

/// The lines of the first file that is shown as `rel`; none where it cannot be
/// read.
pub open spec fn first_lines(files: Seq<SourceFile>, rel: Seq<char>) -> Seq<Seq<char>>
    decreases files.len(),
{
    if files.len() == 0 {
        Seq::empty()
    } else if files[0].rel@ == rel {
        match files[0].text {
            Some(t) => text::lines(t@),
            None => Seq::empty(),
        }
    } else {
        first_lines(files.drop_first(), rel)
    }
}

/// The line of a hit.
pub open spec fn hit_line(h: HitView) -> Seq<char> {
    h.file + ":"@ + text::decimal(h.line as nat) + ":"@ + text::decimal(h.col as nat) + " "@
        + h.role + " "@ + h.kind + " "@ + h.name + "\n"@
}

/// The line of a hit, followed by its excerpt where one is asked for.
pub open spec fn hit_text(h: HitView, excerpt: Option<usize>, files: Seq<SourceFile>) -> Seq<char> {
    hit_line(h) + match excerpt {
        Some(ctx) => excerpt_text(first_lines(files, h.file), h.line as nat, ctx as nat),
        None => Seq::empty(),
    }
}

pub open spec fn hit_texts(
    hits: Seq<HitView>,
    excerpt: Option<usize>,
    files: Seq<SourceFile>,
) -> Seq<char>
    decreases hits.len(),
{
    if hits.len() == 0 {
        Seq::empty()
    } else {
        hit_texts(hits.drop_last(), excerpt, files) + hit_text(hits.last(), excerpt, files)
    }
}

/// The identifiers of all files.
pub open spec fn all_idents(files: Seq<SourceFile>) -> Seq<Seq<char>>
    decreases files.len(),
{
    if files.len() == 0 {
        Seq::empty()
    } else {
        all_idents(files.drop_last()) + match files.last().text {
            Some(t) => syntax::source_idents(t@),
            None => Seq::empty(),
        }
    }
}

/// What is said when a name was not found: the message and, where there are
/// any, the names that may have been meant.
pub open spec fn miss_text(message: Seq<char>, meant: Seq<Seq<char>>) -> Seq<char> {
    message + "\n"@ + if meant.len() == 0 {
        Seq::empty()
    } else {
        "did you mean: "@ + text::join(meant, ", "@) + "?\n"@
    }
}

/// The output for a search of `files`.
pub open spec fn report(files: Seq<SourceFile>, opts: RefsOptions) -> Seq<char> {
    let hits = listed_hits(files, opts.name@, opts.mode);
    if hits.len() == 0 {
        miss_text(
            "no hits for `"@ + opts.name@ + "`"@,
            similar::suggestions(opts.name@, order::collected(all_idents(files)), 5),
        )
    } else {
        hit_texts(hits, opts.excerpt, files)
    }
}

/// Appends one line of an excerpt.
fn push_excerpt_line(out: &mut String, line: &str, n: usize, hit_line: usize, width: usize)
    ensures
        final(out)@ == old(out)@ + excerpt_line(
            line@,
            n as nat,
            hit_line as nat,
            width as nat,
        ),
{
    let ghost before = out@;
    let number = text::decimal_of(n);
    let digits: usize = number.as_str().unicode_len();
    out.append("  ");
    out.append(
        if n == hit_line {
            ">"
        } else {
            " "
        },
    );
    out.append(" ");
    let mut pad: usize = digits;
    let ghost head = out@;
    proof {
        assert(head =~= head + text::repeated(' ', 0));
    }
    while pad < width
        invariant
            digits <= pad,
            pad <= width || pad == digits,
            out@ == head + text::repeated(' ', (pad - digits) as nat),
        decreases width - pad,
    {
        out.append(" ");
        pad = pad + 1;
        proof {
            reveal_strlit(" ");
            assert(out@ =~= head + text::repeated(' ', (pad - digits) as nat));
        }
    }
    out.append(number.as_str());
    out.append(" | ");
    out.append(line);
    out.append("\n");
    proof {
        assert(out@ =~= before + excerpt_line(line@, n as nat, hit_line as nat, width as nat));
    }
}

/// Appends `ctx` source lines before and after `hit_line` (1-indexed). The hit
/// line is marked with `>`. Line numbers are right-aligned to the width of the
/// largest one.
pub fn render_excerpt(out: &mut String, lines: &Vec<String>, hit_line: usize, ctx: usize)
    ensures
        final(out)@ == old(out)@ + excerpt_text(
            text::texts(lines@),
            hit_line as nat,
            ctx as nat,
        ),
{
    let ghost ls = text::texts(lines@);
    let ghost before = out@;
    let total: usize = lines.len();
    proof {
        assert(before + Seq::<char>::empty() =~= before);
    }
    if total == 0 {
        return;
    }
    let start: usize = if hit_line > ctx && hit_line - ctx > 1 {
        hit_line - ctx
    } else {
        1
    };
    let end: usize = if total > ctx && hit_line < total - ctx {
        hit_line + ctx
    } else {
        total
    };
    let width: usize = text::decimal_of(end).as_str().unicode_len();
    if start > end {
        return;
    }
    for k in start - 1..end
        invariant
            ls == text::texts(lines@),
            1 <= start <= end <= lines.len(),
            out@ == before + excerpt_lines(
                ls,
                start as nat,
                k as nat,
                hit_line as nat,
                width as nat,
            ),
    {
        push_excerpt_line(out, lines[k].as_str(), k + 1, hit_line, width);
        proof {
            assert(ls[k as int] == lines@[k as int]@);
            assert(out@ =~= before + excerpt_lines(
                ls,
                start as nat,
                (k + 1) as nat,
                hit_line as nat,
                width as nat,
            ));
        }
    }
}

/// The lines of the first file that is shown as `rel`.
fn find_lines(files: &Vec<SourceFile>, rel: &str) -> (r: Vec<String>)
    ensures
        text::texts(r@) == first_lines(files@, rel@),
{
    let mut k: usize = 0;
    proof {
        assert(files@.skip(0) =~= files@);
    }
    while k < files.len()
        invariant
            k <= files.len(),
            first_lines(files@, rel@) == first_lines(files@.skip(k as int), rel@),
        decreases files.len() - k,
    {
        proof {
            assert(files@.skip(k as int).drop_first() =~= files@.skip(k + 1));
        }
        if text::same_text(files[k].rel.as_str(), rel) {
            return match &files[k].text {
                Some(t) => text::lines_of(t.as_str()),
                None => no_lines(),
            };
        }
        k = k + 1;
    }
    no_lines()
}

/// The lines of a file that cannot be read.
pub fn no_lines() -> (r: Vec<String>)
    ensures
        text::texts(r@) == Seq::<Seq<char>>::empty(),
{
    let r: Vec<String> = Vec::new();
    proof {
        assert(text::texts(r@) =~= Seq::empty());
    }
    r
}

/// The identifiers of all files.
pub fn file_idents(files: &Vec<SourceFile>) -> (r: NameSet)
    ensures
        r@ == order::collected(all_idents(files@)),
{
    let ghost fs = files@;
    let mut r = NameSet::new();
    proof {
        assert(fs.take(0) =~= Seq::empty());
    }
    for k in 0..files.len()
        invariant
            fs == files@,
            r@ == order::collected(all_idents(fs.take(k as int))),
    {
        let ghost old = all_idents(fs.take(k as int));
        proof {
            assert(fs.take(k + 1).drop_last() =~= fs.take(k as int));
        }
        match &files[k].text {
            Some(t) => {
                collect_idents(t.as_str(), &mut r);
                proof {
                    order::lemma_put_all_add(Seq::empty(), old, syntax::source_idents(t@));
                }
            },
            None => {
                proof {
                    assert(old + Seq::<Seq<char>>::empty() =~= old);
                }
            },
        }
    }
    proof {
        assert(fs.take(fs.len() as int) =~= fs);
    }
    r
}

/// The message for a name that was not found, with the names that may have
/// been meant.
pub fn miss(message: &str, meant: &Vec<String>) -> (r: String)
    ensures
        r@ == miss_text(message@, text::texts(meant@)),
{
    let mut r = message.to_owned();
    r.append("\n");
    if meant.len() > 0 {
        r.append("did you mean: ");
        r.append(text::join_strings(meant, ", ").as_str());
        r.append("?\n");
    }
    proof {
        assert(r@ =~= miss_text(message@, text::texts(meant@)));
    }
    r
}

/// The line of a hit.
fn line_of(h: &Hit) -> (r: String)
    ensures
        r@ == hit_line(h@),
{
    let mut r = h.file.clone();
    r.append(":");
    r.append(text::decimal_of(h.line).as_str());
    r.append(":");
    r.append(text::decimal_of(h.col).as_str());
    r.append(" ");
    r.append(h.role);
    r.append(" ");
    r.append(h.kind);
    r.append(" ");
    r.append(h.name.as_str());
    r.append("\n");
    r
}

/// Finds the definitions and the uses of a name in `files`.
pub fn run(files: &Vec<SourceFile>, opts: &RefsOptions) -> (r: String)
    ensures
        r@ == report(files@, *opts),
{
    let hits = scan_all(files, opts.name.as_str(), opts.mode);
    let ghost hv = hits_view(hits@);
    if hits.len() == 0 {
        let idents = file_idents(files);
        let meant = suggest(opts.name.as_str(), &idents, 5);
        let mut message = "no hits for `".to_owned();
        message.append(opts.name.as_str());
        message.append("`");
        return miss(message.as_str(), &meant);
    }
    let mut out = String::new();
    proof {
        assert(hv.take(0) =~= Seq::empty());
        assert(out@ =~= Seq::empty());
    }
    for k in 0..hits.len()
        invariant
            hv == hits_view(hits@),
            out@ == hit_texts(hv.take(k as int), opts.excerpt, files@),
    {
        let h = &hits[k];
        let ghost before = out@;
        proof {
            assert(hv.take(k + 1).drop_last() =~= hv.take(k as int));
            assert(hv[k as int] == h@);
        }
        out.append(line_of(h).as_str());
        if let Some(ctx) = opts.excerpt {
            let lines = find_lines(files, h.file.as_str());
            render_excerpt(&mut out, &lines, h.line, ctx);
        }
        proof {
            assert(out@ =~= before + hit_text(h@, opts.excerpt, files@));
        }
    }
    proof {
        assert(hv.take(hv.len() as int) =~= hv);
    }
    out
}

// --- what is listed --------------------------------------------------------------------------

proof fn lemma_put_hit_contains(s: Seq<HitView>, h: HitView, x: HitView)
    ensures
        put_hit(s, h).contains(x) <==> (s.contains(x) || x == h),
    decreases s.len(),
{
    if s.len() == 0 {
        assert(seq![h][0] == h);
    } else if s[0] != h {
        let t = s.drop_first();
        assert(s =~= seq![s[0]] + t);
        text::lemma_front_contains(s[0], t, x);
        if hit_before(h, s[0]) {
            text::lemma_front_contains(h, s, x);
        } else {
            lemma_put_hit_contains(t, h, x);
            text::lemma_front_contains(s[0], put_hit(t, h), x);
        }
    }
}

proof fn lemma_put_hit_ascending(s: Seq<HitView>, h: HitView)
    requires
        hits_ascending(s),
    ensures
        hits_ascending(put_hit(s, h)),
    decreases s.len(),
{
    let r = put_hit(s, h);
    if s.len() > 0 && s[0] != h {
        let t = s.drop_first();
        assert forall|a: int, b: int| 0 <= a < b < t.len() implies hit_before(
            #[trigger] t[a],
            #[trigger] t[b],
        ) by {
            assert(hit_before(s[a + 1], s[b + 1]));
        }
        if hit_before(h, s[0]) {
            assert forall|a: int, b: int| 0 <= a < b < r.len() implies hit_before(
                #[trigger] r[a],
                #[trigger] r[b],
            ) by {
                if a > 0 {
                    assert(hit_before(s[a - 1], s[b - 1]));
                } else if b > 1 {
                    assert(hit_before(s[0], s[b - 1]));
                    lemma_hit_transitive(h, s[0], s[b - 1]);
                }
            }
        } else {
            lemma_hit_total(s[0], h);
            lemma_put_hit_ascending(t, h);
            let p = put_hit(t, h);
            assert forall|a: int, b: int| 0 <= a < b < r.len() implies hit_before(
                #[trigger] r[a],
                #[trigger] r[b],
            ) by {
                if a > 0 {
                    assert(hit_before(p[a - 1], p[b - 1]));
                } else {
                    lemma_put_hit_contains(t, h, p[b - 1]);
                    assert(p.contains(p[b - 1]));
                    if p[b - 1] != h {
                        let k = choose|k: int| 0 <= k < t.len() && t[k] == p[b - 1];
                        assert(hit_before(s[0], s[k + 1]));
                    }
                }
            }
        }
    }
}

proof fn lemma_put_hits(hs: Seq<HitView>, x: HitView)
    ensures
        hits_ascending(put_hits(Seq::empty(), hs)),
        put_hits(Seq::empty(), hs).contains(x) <==> hs.contains(x),
    decreases hs.len(),
{
    if hs.len() > 0 {
        let rest = hs.drop_last();
        lemma_put_hits(rest, x);
        assert(hs =~= rest.push(hs.last()));
        text::lemma_push_contains(rest, hs.last(), x);
        lemma_put_hit_contains(put_hits(Seq::empty(), rest), hs.last(), x);
        lemma_put_hit_ascending(put_hits(Seq::empty(), rest), hs.last());
    }
}

/// Hits are listed by file, line and column, each once, and exactly those are
/// listed that some file has.
pub proof fn law_hits_listed(files: Seq<SourceFile>, target: Seq<char>, mode: Mode, h: HitView)
    ensures
        hits_ascending(listed_hits(files, target, mode)),
        listed_hits(files, target, mode).contains(h) <==> exists|k: int|
            0 <= k < files.len() && file_hits(#[trigger] files[k], target, mode).contains(h),
{
    lemma_put_hits(all_hits(files, target, mode), h);
    lemma_all_hits(files, target, mode, h);
}

proof fn lemma_all_hits(files: Seq<SourceFile>, target: Seq<char>, mode: Mode, h: HitView)
    ensures
        all_hits(files, target, mode).contains(h) <==> exists|k: int|
            0 <= k < files.len() && file_hits(#[trigger] files[k], target, mode).contains(h),
    decreases files.len(),
{
    if files.len() > 0 {
        let rest = files.drop_last();
        lemma_all_hits(rest, target, mode, h);
        text::lemma_add_contains(
            all_hits(rest, target, mode),
            file_hits(files.last(), target, mode),
            h,
        );
        let l = files.len() - 1;
        if file_hits(files[l], target, mode).contains(h) {
            assert(exists|k: int|
                0 <= k < files.len() && file_hits(#[trigger] files[k], target, mode).contains(h));
        }
        if all_hits(rest, target, mode).contains(h) {
            let k = choose|k: int|
                0 <= k < rest.len() && file_hits(#[trigger] rest[k], target, mode).contains(h);
            assert(file_hits(files[k], target, mode).contains(h));
        }
        if exists|k: int|
            0 <= k < files.len() && file_hits(#[trigger] files[k], target, mode).contains(h) {
            let k = choose|k: int|
                0 <= k < files.len() && file_hits(#[trigger] files[k], target, mode).contains(h);
            if k < l {
                assert(file_hits(rest[k], target, mode).contains(h));
            }
        }
    }
}

proof fn lemma_use_hits(
    uses: Seq<UseSite>,
    skip: Seq<(usize, usize)>,
    file: Seq<char>,
    target: Seq<char>,
    h: HitView,
)
    ensures
        use_hits(uses, skip, file, target).contains(h) ==> h.role == "use"@ && h.file == file
            && h.name == target && !skip.contains((h.line, h.col)),
    decreases uses.len(),
{
    if uses.len() > 0 {
        let rest = uses.drop_last();
        lemma_use_hits(rest, skip, file, target, h);
        let all = use_hits(uses, skip, file, target);
        let less = use_hits(rest, skip, file, target);
        if all.len() > less.len() {
            text::lemma_push_contains(less, all.last(), h);
        }
    }
}

proof fn lemma_file_hits(f: SourceFile, target: Seq<char>, h: HitView)
    ensures
        file_hits(f, target, Mode::DefsOnly).contains(h) ==> h.role == "def"@ && h.file == f.rel@
            && h.name == target,
        file_hits(f, target, Mode::UsesOnly).contains(h) ==> h.role == "use"@ && h.file == f.rel@
            && h.name == target,
        file_hits(f, target, Mode::Both).contains(h) <==> (file_hits(
            f,
            target,
            Mode::DefsOnly,
        ).contains(h) || file_hits(f, target, Mode::UsesOnly).contains(h)),
{
    if let Some(src) = f.text {
        if let Some(items) = syntax::source_items(src@) {
            let defs = definitions(items, target);
            let d = def_hits(defs, f.rel@, target);
            let u = use_hits(f.uses@, def_locs(defs), f.rel@, target);
            lemma_use_hits(f.uses@, def_locs(defs), f.rel@, target, h);
            text::lemma_add_contains(d, u, h);
            assert(d + Seq::<HitView>::empty() =~= d);
            assert(Seq::<HitView>::empty() + u =~= u);
        }
    }
}

/// Asked for definitions alone, a search lists only definitions; asked for uses
/// alone, only uses; and asked for both, it lists what the two list apart.
/// Whatever is listed has the name that was searched for.
pub proof fn law_modes(files: Seq<SourceFile>, target: Seq<char>, h: HitView)
    ensures
        listed_hits(files, target, Mode::DefsOnly).contains(h) ==> h.role == "def"@ && h.name
            == target,
        listed_hits(files, target, Mode::UsesOnly).contains(h) ==> h.role == "use"@ && h.name
            == target,
        listed_hits(files, target, Mode::Both).contains(h) <==> (listed_hits(
            files,
            target,
            Mode::DefsOnly,
        ).contains(h) || listed_hits(files, target, Mode::UsesOnly).contains(h)),
{
    law_hits_listed(files, target, Mode::Both, h);
    law_hits_listed(files, target, Mode::DefsOnly, h);
    law_hits_listed(files, target, Mode::UsesOnly, h);
    assert forall|k: int| 0 <= k < files.len() implies {
        let f = #[trigger] files[k];
        &&& file_hits(f, target, Mode::DefsOnly).contains(h) ==> h.role == "def"@ && h.name
            == target
        &&& file_hits(f, target, Mode::UsesOnly).contains(h) ==> h.role == "use"@ && h.name
            == target
        &&& file_hits(f, target, Mode::Both).contains(h) <==> (file_hits(
            f,
            target,
            Mode::DefsOnly,
        ).contains(h) || file_hits(f, target, Mode::UsesOnly).contains(h))
    } by {
        lemma_file_hits(files[k], target, h);
    }
}

/// In one file, no use is listed at the place of a definition, also where
/// definitions are not asked for.
pub proof fn law_use_is_no_definition(
    f: SourceFile,
    target: Seq<char>,
    used: HitView,
    defined: HitView,
)
    requires
        file_hits(f, target, Mode::UsesOnly).contains(used),
        file_hits(f, target, Mode::DefsOnly).contains(defined),
    ensures
        (used.line, used.col) != (defined.line, defined.col),
{
    if let Some(src) = f.text {
        if let Some(items) = syntax::source_items(src@) {
            let defs = definitions(items, target);
            let d = def_hits(defs, f.rel@, target);
            let u = use_hits(f.uses@, def_locs(defs), f.rel@, target);
            assert(d + Seq::<HitView>::empty() =~= d);
            assert(Seq::<HitView>::empty() + u =~= u);
            lemma_use_hits(f.uses@, def_locs(defs), f.rel@, target, used);
            let k = choose|k: int| 0 <= k < d.len() && d[k] == defined;
            assert(def_locs(defs)[k] == (defined.line, defined.col));
        }
    }
}

// --- what is found ---------------------------------------------------------------------------

/// The definitions of one item.
spec fn item_defs(item: syntax::DeclView, target: Seq<char>) -> Seq<DefView> {
    match item {
        syntax::DeclView::Named { kind, name: Some(name), .. } => def_at(
            parse::kind_word(kind),
            name,
            target,
        ),
        syntax::DeclView::Trait { name, members, .. } => if name.text == target {
            def_at("trait"@, name, target)
        } else {
            trait_defs(members, target)
        },
        syntax::DeclView::Impl { members, .. } => impl_defs(members, target),
        syntax::DeclView::Mod { content: Some(inner), .. } => definitions(inner, target),
        _ => Seq::empty(),
    }
}

/// What one item that is no module defines.
spec fn defines(item: syntax::DeclView, target: Seq<char>, d: DefView) -> bool {
    match item {
        syntax::DeclView::Named { kind, name: Some(name), .. } => {
            &&& name.text == target
            &&& d == DefView {
                kind: match kind {
                    NamedKind::Struct => "struct"@,
                    NamedKind::Enum => "enum"@,
                    NamedKind::Union => "union"@,
                    NamedKind::Fn => "fn"@,
                    NamedKind::Type => "type"@,
                    NamedKind::Const => "const"@,
                    NamedKind::Static => "static"@,
                    NamedKind::Macro => "macro"@,
                },
                line: name.line,
                col: name.col,
            }
        },
        syntax::DeclView::Trait { name, members, .. } => {
            ||| name.text == target && d == DefView {
                kind: "trait"@,
                line: name.line,
                col: name.col,
            }
            ||| name.text != target && exists|j: int|
                {
                    &&& 0 <= j < members.len()
                    &&& (#[trigger] members[j]) matches syntax::MemberView::Named {
                        kind,
                        name: n,
                        ..
                    }
                    &&& kind == MemberKind::Fn
                    &&& n.text == target
                    &&& d == DefView { kind: "method"@, line: n.line, col: n.col }
                }
        },
        syntax::DeclView::Impl { members, .. } => exists|j: int|
            {
                &&& 0 <= j < members.len()
                &&& (#[trigger] members[j]) matches syntax::MemberView::Named { kind, name: n, .. }
                &&& n.text == target
                &&& d == DefView {
                    kind: match kind {
                        MemberKind::Fn => "method"@,
                        MemberKind::Type => "type"@,
                        MemberKind::Const => "const"@,
                    },
                    line: n.line,
                    col: n.col,
                }
            },
        _ => false,
    }
}

proof fn lemma_def_at(kind: Seq<char>, name: syntax::NameView, target: Seq<char>, d: DefView)
    ensures
        def_at(kind, name, target).contains(d) <==> name.text == target && d == (DefView {
            kind,
            line: name.line,
            col: name.col,
        }),
{
    let one = DefView { kind, line: name.line, col: name.col };
    assert(seq![one][0] == one);
}

proof fn lemma_impl_defs(members: Seq<syntax::MemberView>, target: Seq<char>, d: DefView)
    ensures
        impl_defs(members, target).contains(d) <==> exists|j: int|
            {
                &&& 0 <= j < members.len()
                &&& (#[trigger] members[j]) matches syntax::MemberView::Named { kind, name: n, .. }
                &&& n.text == target
                &&& d == DefView {
                    kind: match kind {
                        MemberKind::Fn => "method"@,
                        MemberKind::Type => "type"@,
                        MemberKind::Const => "const"@,
                    },
                    line: n.line,
                    col: n.col,
                }
            },
    decreases members.len(),
{
    if members.len() > 0 {
        let rest = members.drop_last();
        let last = members[members.len() - 1];
        lemma_impl_defs(rest, target, d);
        let own: Seq<DefView> = match last {
            syntax::MemberView::Named { kind, name, .. } => def_at(
                impl_member_word(kind),
                name,
                target,
            ),
            syntax::MemberView::Other => Seq::empty(),
        };
        text::lemma_add_contains(impl_defs(rest, target), own, d);
        if let syntax::MemberView::Named { kind, name, .. } = last {
            lemma_def_at(impl_member_word(kind), name, target, d);
        }
        assert forall|j: int| 0 <= j < rest.len() implies #[trigger] rest[j] == members[j] by {}
        assert(forall|j: int|
            0 <= j < members.len() ==> j == rest.len() || #[trigger] members[j] == rest[j]);
    }
}

proof fn lemma_trait_defs(members: Seq<syntax::MemberView>, target: Seq<char>, d: DefView)
    ensures
        trait_defs(members, target).contains(d) <==> exists|j: int|
            {
                &&& 0 <= j < members.len()
                &&& (#[trigger] members[j]) matches syntax::MemberView::Named { kind, name: n, .. }
                &&& kind == MemberKind::Fn
                &&& n.text == target
                &&& d == DefView { kind: "method"@, line: n.line, col: n.col }
            },
    decreases members.len(),
{
    if members.len() > 0 {
        let rest = members.drop_last();
        let last = members[members.len() - 1];
        lemma_trait_defs(rest, target, d);
        let own: Seq<DefView> = match last {
            syntax::MemberView::Named { kind, name, .. } => if kind == MemberKind::Fn {
                def_at("method"@, name, target)
            } else {
                Seq::empty()
            },
            syntax::MemberView::Other => Seq::empty(),
        };
        text::lemma_add_contains(trait_defs(rest, target), own, d);
        if let syntax::MemberView::Named { name, .. } = last {
            lemma_def_at("method"@, name, target, d);
        }
        assert forall|j: int| 0 <= j < rest.len() implies #[trigger] rest[j] == members[j] by {}
        assert(forall|j: int|
            0 <= j < members.len() ==> j == rest.len() || #[trigger] members[j] == rest[j]);
    }
}

proof fn lemma_item_defs(item: syntax::DeclView, target: Seq<char>, d: DefView)
    requires
        !(item is Mod),
    ensures
        item_defs(item, target).contains(d) <==> defines(item, target, d),
{
    match item {
        syntax::DeclView::Named { kind, name: Some(name), .. } => {
            lemma_def_at(parse::kind_word(kind), name, target, d);
        },
        syntax::DeclView::Trait { name, members, .. } => {
            lemma_def_at("trait"@, name, target, d);
            lemma_trait_defs(members, target, d);
        },
        syntax::DeclView::Impl { members, .. } => {
            lemma_impl_defs(members, target, d);
        },
        _ => {},
    }
}

proof fn lemma_defs_at(items: Seq<syntax::DeclView>, i: int, target: Seq<char>, d: DefView)
    requires
        0 <= i < items.len(),
        item_defs(items[i], target).contains(d),
    ensures
        definitions(items, target).contains(d),
    decreases items.len(),
{
    let rest = items.drop_last();
    text::lemma_add_contains(
        definitions(rest, target),
        item_defs(items[items.len() - 1], target),
        d,
    );
    if i < rest.len() {
        lemma_defs_at(rest, i, target, d);
    }
}

proof fn lemma_defs_nested(
    lists: Seq<Seq<syntax::DeclView>>,
    k: int,
    target: Seq<char>,
    d: DefView,
)
    requires
        syntax::nested(lists),
        0 <= k < lists.last().len(),
        item_defs(lists.last()[k], target).contains(d),
    ensures
        definitions(lists[0], target).contains(d),
    decreases lists.len(),
{
    if lists.len() == 1 {
        lemma_defs_at(lists[0], k, target, d);
    } else {
        syntax::lemma_nested_rest(lists);
        lemma_defs_nested(lists.drop_first(), k, target, d);
        let outer = lists[0];
        let i = choose|i: int|
            0 <= i < outer.len() && (#[trigger] outer[i]) is Mod && outer[i]->Mod_content == Some(
                lists[1],
            );
        lemma_defs_at(outer, i, target, d);
    }
}

proof fn lemma_defs_from(items: Seq<syntax::DeclView>, target: Seq<char>, d: DefView) -> (r: (
    Seq<Seq<syntax::DeclView>>,
    int,
))
    requires
        definitions(items, target).contains(d),
    ensures
        syntax::nested(r.0),
        r.0[0] == items,
        0 <= r.1 < r.0.last().len(),
        !(r.0.last()[r.1] is Mod),
        item_defs(r.0.last()[r.1], target).contains(d),
    decreases items,
{
    let rest = items.drop_last();
    let last = items[items.len() - 1];
    text::lemma_add_contains(definitions(rest, target), item_defs(last, target), d);
    if definitions(rest, target).contains(d) {
        assert(decreases_to!(items => items.subrange(0, items.len() - 1)));
        let (lists, k) = lemma_defs_from(rest, target, d);
        if lists.len() == 1 {
            assert(syntax::nested(seq![items]));
            assert(rest[k] == items[k]);
            (seq![items], k)
        } else {
            syntax::lemma_nested_rest(lists);
            let i = choose|i: int|
                0 <= i < rest.len() && (#[trigger] rest[i]) is Mod && rest[i]->Mod_content == Some(
                    lists[1],
                );
            assert(items[i] == rest[i]);
            assert(syntax::inlines(items, lists[1]));
            syntax::lemma_nested_more(items, lists.drop_first());
            (seq![items] + lists.drop_first(), k)
        }
    } else {
        match last {
            syntax::DeclView::Mod { content: Some(inner), .. } => {
                assert(decreases_to!(items => items[items.len() - 1]));
                let c = last->Mod_content;
                assert(decreases_to!(last => c));
                assert(decreases_to!(c => c->0));
                let (lists, k) = lemma_defs_from(inner, target, d);
                assert(items[items.len() - 1] is Mod);
                assert(syntax::inlines(items, inner));
                syntax::lemma_nested_more(items, lists);
                (seq![items] + lists, k)
            },
            _ => {
                assert(syntax::nested(seq![items]));
                (seq![items], items.len() - 1)
            },
        }
    }
}

/// The definitions of a name are exactly the items of that name, the traits of
/// that name, the members of that name of any impl, and the methods of that name
/// of any trait of another name, however deep in inline modules they stand. Each
/// is at the place of its name.
pub proof fn law_definitions_are_complete(
    items: Seq<syntax::DeclView>,
    target: Seq<char>,
    d: DefView,
)
    ensures
        definitions(items, target).contains(d) <==> exists|
            lists: Seq<Seq<syntax::DeclView>>,
            k: int,
        |
            #![trigger syntax::nested(lists), lists.last()[k]]
            syntax::nested(lists) && lists[0] == items && 0 <= k < lists.last().len()
                && match lists.last()[k] {
                syntax::DeclView::Named { kind, name: Some(name), .. } => {
                    &&& name.text == target
                    &&& d == DefView {
                        kind: match kind {
                            NamedKind::Struct => "struct"@,
                            NamedKind::Enum => "enum"@,
                            NamedKind::Union => "union"@,
                            NamedKind::Fn => "fn"@,
                            NamedKind::Type => "type"@,
                            NamedKind::Const => "const"@,
                            NamedKind::Static => "static"@,
                            NamedKind::Macro => "macro"@,
                        },
                        line: name.line,
                        col: name.col,
                    }
                },
                syntax::DeclView::Trait { name, members, .. } => {
                    ||| name.text == target && d == DefView {
                        kind: "trait"@,
                        line: name.line,
                        col: name.col,
                    }
                    ||| name.text != target && exists|j: int|
                        {
                            &&& 0 <= j < members.len()
                            &&& (#[trigger] members[j]) matches syntax::MemberView::Named {
                                kind,
                                name: n,
                                ..
                            }
                            &&& kind == MemberKind::Fn
                            &&& n.text == target
                            &&& d == DefView { kind: "method"@, line: n.line, col: n.col }
                        }
                },
                syntax::DeclView::Impl { members, .. } => exists|j: int|
                    {
                        &&& 0 <= j < members.len()
                        &&& (#[trigger] members[j]) matches syntax::MemberView::Named {
                            kind,
                            name: n,
                            ..
                        }
                        &&& n.text == target
                        &&& d == DefView {
                            kind: match kind {
                                MemberKind::Fn => "method"@,
                                MemberKind::Type => "type"@,
                                MemberKind::Const => "const"@,
                            },
                            line: n.line,
                            col: n.col,
                        }
                    },
                _ => false,
            },
{
    if definitions(items, target).contains(d) {
        let (lists, k) = lemma_defs_from(items, target, d);
        lemma_item_defs(lists.last()[k], target, d);
        assert(syntax::nested(lists));
    }
    assert forall|lists: Seq<Seq<syntax::DeclView>>, k: int|
        #![trigger syntax::nested(lists), lists.last()[k]]
        syntax::nested(lists) && lists[0] == items && 0 <= k < lists.last().len() && defines(
            lists.last()[k],
            target,
            d,
        ) implies definitions(items, target).contains(d) by {
        lemma_item_defs(lists.last()[k], target, d);
        lemma_defs_nested(lists, k, target, d);
    }
}

proof fn lemma_def_hits(defs: Seq<DefView>, file: Seq<char>, target: Seq<char>, h: HitView)
    ensures
        def_hits(defs, file, target).contains(h) <==> h.role == "def"@ && h.file == file && h.name
            == target && exists|i: int|
            0 <= i < defs.len() && (#[trigger] defs[i]) == (DefView {
                kind: h.kind,
                line: h.line,
                col: h.col,
            }),
{
    let all = def_hits(defs, file, target);
    if all.contains(h) {
        let i = choose|i: int| 0 <= i < all.len() && all[i] == h;
        assert(defs[i] == DefView { kind: h.kind, line: h.line, col: h.col });
    }
    if h.role == "def"@ && h.file == file && h.name == target && exists|i: int|
        0 <= i < defs.len() && (#[trigger] defs[i]) == (DefView {
            kind: h.kind,
            line: h.line,
            col: h.col,
        }) {
        let i = choose|i: int|
            0 <= i < defs.len() && (#[trigger] defs[i]) == (DefView {
                kind: h.kind,
                line: h.line,
                col: h.col,
            });
        assert(all[i] == h);
    }
}

proof fn lemma_use_hits_are(
    uses: Seq<UseSite>,
    skip: Seq<(usize, usize)>,
    file: Seq<char>,
    target: Seq<char>,
    h: HitView,
)
    ensures
        use_hits(uses, skip, file, target).contains(h) <==> exists|u: int|
            {
                &&& 0 <= u < uses.len()
                &&& (#[trigger] uses[u]).name.text@ == target
                &&& !skip.contains((uses[u].name.line, uses[u].name.col))
                &&& h == HitView {
                    file,
                    line: uses[u].name.line,
                    col: uses[u].name.col,
                    role: "use"@,
                    kind: use_word(uses[u].kind),
                    name: target,
                }
            },
    decreases uses.len(),
{
    if uses.len() > 0 {
        let rest = uses.drop_last();
        let last = uses[uses.len() - 1];
        lemma_use_hits_are(rest, skip, file, target, h);
        text::lemma_push_contains(
            use_hits(rest, skip, file, target),
            HitView {
                file,
                line: last.name.line,
                col: last.name.col,
                role: "use"@,
                kind: use_word(last.kind),
                name: target,
            },
            h,
        );
        assert forall|u: int| 0 <= u < rest.len() implies #[trigger] rest[u] == uses[u] by {}
        assert(forall|u: int|
            0 <= u < uses.len() ==> u == rest.len() || #[trigger] uses[u] == rest[u]);
    }
}

/// A search lists exactly this of the files that parse: unless only uses are
/// asked for, each definition of the name; unless only definitions are asked for,
/// each place where the name is used that is not the place of one of its
/// definitions in the file, wherever in the file it stands. A hit has the file,
/// the line, the column and the kind of what it stands for. Hits are listed by
/// file, line and column, each once.
pub proof fn law_hits_are_complete(
    files: Seq<SourceFile>,
    target: Seq<char>,
    mode: Mode,
    h: HitView,
    i: int,
    j: int,
)
    ensures
        listed_hits(files, target, mode).contains(h) <==> exists|f: int|
            {
                &&& 0 <= f < files.len()
                &&& (#[trigger] files[f]).text matches Some(t)
                &&& syntax::source_items(t@) matches Some(items)
                &&& h.file == files[f].rel@
                &&& h.name == target
                &&& {
                    ||| !(mode is UsesOnly) && h.role == "def"@ && definitions(
                        items,
                        target,
                    ).contains(DefView { kind: h.kind, line: h.line, col: h.col })
                    ||| !(mode is DefsOnly) && h.role == "use"@ && exists|u: int|
                        {
                            &&& 0 <= u < files[f].uses@.len()
                            &&& (#[trigger] files[f].uses@[u]).name.text@ == target
                            &&& h.line == files[f].uses@[u].name.line
                            &&& h.col == files[f].uses@[u].name.col
                            &&& h.kind == match files[f].uses@[u].kind {
                                UseKind::Call => "call"@,
                                UseKind::Method => "method"@,
                                UseKind::Type => "type"@,
                                UseKind::StructLit => "struct-lit"@,
                                UseKind::Path => "path"@,
                                UseKind::Macro => "macro"@,
                                UseKind::Import => "import"@,
                                UseKind::Pat => "pat"@,
                            }
                            &&& forall|d: DefView| #[trigger]
                                definitions(items, target).contains(d) ==> (d.line, d.col) != (
                                    h.line,
                                    h.col,
                                )
                        }
                }
            },
        0 <= i < j < listed_hits(files, target, mode).len() ==> {
            let a = listed_hits(files, target, mode)[i];
            let b = listed_hits(files, target, mode)[j];
            &&& a != b
            &&& a.file == b.file || order::before(a.file, b.file)
            &&& a.file == b.file ==> a.line <= b.line
            &&& a.file == b.file && a.line == b.line ==> a.col <= b.col
        },
{
    law_hits_listed(files, target, mode, h);
    assert forall|f: int| 0 <= f < files.len() implies (file_hits(
        #[trigger] files[f],
        target,
        mode,
    ).contains(h) <==> {
        &&& files[f].text matches Some(t)
        &&& syntax::source_items(t@) matches Some(items)
        &&& h.file == files[f].rel@
        &&& h.name == target
        &&& {
            ||| !(mode is UsesOnly) && h.role == "def"@ && definitions(items, target).contains(
                DefView { kind: h.kind, line: h.line, col: h.col },
            )
            ||| !(mode is DefsOnly) && h.role == "use"@ && exists|u: int|
                {
                    &&& 0 <= u < files[f].uses@.len()
                    &&& (#[trigger] files[f].uses@[u]).name.text@ == target
                    &&& h.line == files[f].uses@[u].name.line
                    &&& h.col == files[f].uses@[u].name.col
                    &&& h.kind == use_word(files[f].uses@[u].kind)
                    &&& forall|d: DefView| #[trigger]
                        definitions(items, target).contains(d) ==> (d.line, d.col) != (
                            h.line,
                            h.col,
                        )
                }
        }
    }) by {
        if let Some(t) = files[f].text {
            if let Some(items) = syntax::source_items(t@) {
                lemma_item_hits(items, files[f].uses@, files[f].rel@, target, mode, h);
            }
        }
    }
    let all = listed_hits(files, target, mode);
    if 0 <= i < j < all.len() {
        assert(hit_before(all[i], all[j]));
        lemma_hit_irreflexive(all[i]);
    }
}

proof fn lemma_item_hits(
    items: Seq<syntax::DeclView>,
    uses: Seq<UseSite>,
    file: Seq<char>,
    target: Seq<char>,
    mode: Mode,
    h: HitView,
)
    ensures
        item_hits(items, uses, file, target, mode).contains(h) <==> {
            &&& h.file == file
            &&& h.name == target
            &&& {
                ||| !(mode is UsesOnly) && h.role == "def"@ && definitions(items, target).contains(
                    DefView { kind: h.kind, line: h.line, col: h.col },
                )
                ||| !(mode is DefsOnly) && h.role == "use"@ && exists|u: int|
                    {
                        &&& 0 <= u < uses.len()
                        &&& (#[trigger] uses[u]).name.text@ == target
                        &&& h.line == uses[u].name.line
                        &&& h.col == uses[u].name.col
                        &&& h.kind == use_word(uses[u].kind)
                        &&& forall|d: DefView| #[trigger]
                            definitions(items, target).contains(d) ==> (d.line, d.col) != (
                                h.line,
                                h.col,
                            )
                    }
            }
        },
{
    let defs = definitions(items, target);
    let skip = def_locs(defs);
    let a: Seq<HitView> = if wants_defs(mode) {
        def_hits(defs, file, target)
    } else {
        Seq::empty()
    };
    let b: Seq<HitView> = if wants_uses(mode) {
        use_hits(uses, skip, file, target)
    } else {
        Seq::empty()
    };
    text::lemma_add_contains(a, b, h);
    lemma_def_hits(defs, file, target, h);
    lemma_use_hits_are(uses, skip, file, target, h);
    let d = DefView { kind: h.kind, line: h.line, col: h.col };
    assert(defs.contains(d) <==> exists|i: int| 0 <= i < defs.len() && (#[trigger] defs[i]) == d);
    if skip.contains((h.line, h.col)) {
        let i = choose|i: int| 0 <= i < skip.len() && skip[i] == (h.line, h.col);
        assert(defs.contains(defs[i]));
    }
    assert forall|e: DefView| #[trigger] defs.contains(e) implies skip.contains(
        (e.line, e.col),
    ) by {
        let i = choose|i: int| 0 <= i < defs.len() && defs[i] == e;
        assert(skip[i] == (e.line, e.col));
    }
}

proof fn lemma_first_lines(files: Seq<SourceFile>, f: int)
    requires
        0 <= f < files.len(),
        files[f].text is Some,
        forall|k: int| 0 <= k < f ==> (#[trigger] files[k]).rel@ != files[f].rel@,
    ensures
        first_lines(files, files[f].rel@) == text::lines(files[f].text->0@),
    decreases f,
{
    if f > 0 {
        let rest = files.drop_first();
        assert(files[0].rel@ != files[f].rel@);
        assert(rest[f - 1] == files[f]);
        assert forall|k: int| 0 <= k < f - 1 implies (#[trigger] rest[k]).rel@
            != rest[f - 1].rel@ by {
            assert(rest[k] == files[k + 1]);
        }
        lemma_first_lines(rest, f - 1);
    }
}

proof fn lemma_hit_texts(hits: Seq<HitView>, excerpt: Option<usize>, files: Seq<SourceFile>)
    ensures
        hit_texts(hits, excerpt, files) == similar::glued(
            hits.map_values(|h: HitView| hit_text(h, excerpt, files)),
        ),
    decreases hits.len(),
{
    let show = |h: HitView| hit_text(h, excerpt, files);
    let all = hits.map_values(show);
    if hits.len() > 0 {
        lemma_hit_texts(hits.drop_last(), excerpt, files);
        assert(all.drop_last() =~= hits.drop_last().map_values(show));
    }
}

/// The rows of an excerpt from line `start` to line `end`.
spec fn excerpt_rows(
    lines: Seq<Seq<char>>,
    start: nat,
    end: nat,
    hit_line: nat,
    width: nat,
) -> Seq<Seq<char>> {
    Seq::new(
        if start <= end {
            (end - start + 1) as nat
        } else {
            0
        },
        |r: int|
            excerpt_line(lines[start + r - 1], (start + r) as nat, hit_line, width),
    )
}

proof fn lemma_excerpt_rows(
    lines: Seq<Seq<char>>,
    start: nat,
    end: nat,
    hit_line: nat,
    width: nat,
)
    requires
        start >= 1,
    ensures
        excerpt_lines(lines, start, end, hit_line, width) == similar::glued(
            excerpt_rows(lines, start, end, hit_line, width),
        ),
    decreases end,
{
    let rows = excerpt_rows(lines, start, end, hit_line, width);
    if start <= end {
        lemma_excerpt_rows(lines, start, (end - 1) as nat, hit_line, width);
        assert(rows.drop_last() =~= excerpt_rows(lines, start, (end - 1) as nat, hit_line, width));
        assert(rows.last() == excerpt_line(lines[end - 1], end, hit_line, width));
    } else {
        assert(rows =~= Seq::empty());
    }
}

/// An excerpt shows, in order, each line of the file that is at most `ctx` lines
/// from the hit, with its number and `|` before it, and `>` in front of the line
/// of the hit alone.
pub proof fn law_excerpt_shows_context(lines: Seq<Seq<char>>, hit_line: nat, ctx: nat)
    requires
        1 <= hit_line <= lines.len(),
    ensures
        ({
            let first: int = if hit_line > ctx {
                hit_line - ctx
            } else {
                1
            };
            let last: int = if hit_line + ctx <= lines.len() {
                (hit_line + ctx) as int
            } else {
                lines.len() as int
            };
            let width = text::decimal(last as nat).len();
            excerpt_text(lines, hit_line, ctx) == similar::glued(
                Seq::new(
                    (last - first + 1) as nat,
                    |r: int|
                        {
                            let digits = text::decimal((first + r) as nat);
                            "  "@ + (if first + r == hit_line {
                                ">"@
                            } else {
                                " "@
                            }) + " "@ + (Seq::new(
                                if digits.len() < width {
                                    (width - digits.len()) as nat
                                } else {
                                    0
                                },
                                |p: int| ' ',
                            ) + digits) + " | "@ + lines[first + r - 1] + "\n"@
                        },
                ),
            )
        }),
{
    let start = excerpt_start(hit_line, ctx);
    let end = excerpt_end(hit_line, ctx, lines.len());
    let width = text::decimal(end).len();
    let rows = excerpt_rows(lines, start, end, hit_line, width);
    lemma_excerpt_rows(lines, start, end, hit_line, width);
    let first: int = if hit_line > ctx {
        hit_line - ctx
    } else {
        1
    };
    let last: int = if hit_line + ctx <= lines.len() {
        (hit_line + ctx) as int
    } else {
        lines.len() as int
    };
    assert(first == start && last == end);
    let shown = Seq::new(
        (last - first + 1) as nat,
        |r: int|
            {
                let digits = text::decimal((first + r) as nat);
                "  "@ + (if first + r == hit_line {
                    ">"@
                } else {
                    " "@
                }) + " "@ + (Seq::new(
                    if digits.len() < width {
                        (width - digits.len()) as nat
                    } else {
                        0
                    },
                    |p: int| ' ',
                ) + digits) + " | "@ + lines[first + r - 1] + "\n"@
            },
    );
    assert forall|r: int| 0 <= r < rows.len() implies #[trigger] rows[r] == shown[r] by {
        let digits = text::decimal((first + r) as nat);
        let n: nat = if digits.len() < width {
            (width - digits.len()) as nat
        } else {
            0
        };
        assert(text::repeated(' ', n) =~= Seq::new(n, |p: int| ' '));
    }
    assert(rows =~= shown);
}

/// The output of a search: for each hit that is listed, in that order, the line
/// `file:line:col role kind name`, followed by the excerpt around it where one is
/// asked for. Where nothing is listed the output says so, and names what is most
/// like the name among the identifiers of the files.
pub proof fn law_hits_are_printed(files: Seq<SourceFile>, opts: RefsOptions)
    ensures
        ({
            let hits = listed_hits(files, opts.name@, opts.mode);
            &&& hits.len() > 0 ==> exists|pieces: Seq<Seq<char>>|
                {
                    &&& #[trigger] pieces.len() == hits.len()
                    &&& report(files, opts) == similar::glued(pieces)
                    &&& forall|i: int|
                        #![trigger pieces[i]]
                        #![trigger hits[i]]
                        0 <= i < hits.len() ==> {
                            let line = hits[i].file + ":"@ + text::decimal(hits[i].line as nat)
                                + ":"@ + text::decimal(hits[i].col as nat) + " "@ + hits[i].role
                                + " "@ + hits[i].kind + " "@ + hits[i].name + "\n"@;
                            &&& opts.excerpt is None ==> pieces[i] == line
                            &&& opts.excerpt matches Some(ctx) ==> forall|f: int|
                                #![trigger files[f]]
                                0 <= f < files.len() && files[f].rel@ == hits[i].file && (forall|
                                    g: int,
                                |
                                    0 <= g < f ==> (#[trigger] files[g]).rel@ != files[f].rel@) ==> (
                                files[f].text matches Some(t) ==> pieces[i] == line + excerpt_text(
                                    text::lines(t@),
                                    hits[i].line as nat,
                                    ctx as nat,
                                ))
                        }
                }
            &&& hits.len() == 0 ==> exists|ids: Seq<Seq<char>>|
                {
                    let meant = similar::suggestions(opts.name@, ids, 5);
                    &&& #[trigger] order::ascending(ids)
                    &&& forall|x: Seq<char>| #[trigger]
                        ids.contains(x) <==> exists|f: int|
                            {
                                &&& 0 <= f < files.len()
                                &&& (#[trigger] files[f]).text matches Some(t)
                                &&& syntax::source_idents(t@).contains(x)
                            }
                    &&& report(files, opts) == "no hits for `"@ + opts.name@ + "`\n"@ + if
                    meant.len() == 0 {
                        Seq::empty()
                    } else {
                        "did you mean: "@ + text::join(meant, ", "@) + "?\n"@
                    }
                }
        }),
{
    let hits = listed_hits(files, opts.name@, opts.mode);
    if hits.len() > 0 {
        let show = |h: HitView| hit_text(h, opts.excerpt, files);
        let pieces = hits.map_values(show);
        lemma_hit_texts(hits, opts.excerpt, files);
        assert forall|i: int|
            #![trigger pieces[i]]
            #![trigger hits[i]]
            0 <= i < hits.len() implies {
            let line = hits[i].file + ":"@ + text::decimal(hits[i].line as nat) + ":"@
                + text::decimal(hits[i].col as nat) + " "@ + hits[i].role + " "@ + hits[i].kind
                + " "@ + hits[i].name + "\n"@;
            &&& opts.excerpt is None ==> pieces[i] == line
            &&& opts.excerpt matches Some(ctx) ==> forall|f: int|
                #![trigger files[f]]
                0 <= f < files.len() && files[f].rel@ == hits[i].file && (forall|g: int|
                    0 <= g < f ==> (#[trigger] files[g]).rel@ != files[f].rel@) ==> (
                files[f].text matches Some(t) ==> pieces[i] == line + excerpt_text(
                    text::lines(t@),
                    hits[i].line as nat,
                    ctx as nat,
                ))
        } by {
            let line = hit_line(hits[i]);
            assert(pieces[i] == hit_text(hits[i], opts.excerpt, files));
            if opts.excerpt is None {
                assert(line + Seq::<char>::empty() =~= line);
            }
            assert forall|f: int|
                #![trigger files[f]]
                0 <= f < files.len() && files[f].rel@ == hits[i].file && (forall|g: int|
                    0 <= g < f ==> (#[trigger] files[g]).rel@ != files[f].rel@)
                    && files[f].text is Some implies first_lines(files, hits[i].file)
                == text::lines(files[f].text->0@) by {
                lemma_first_lines(files, f);
            }
        }
        assert(pieces.len() == hits.len());
    } else {
        let given = all_idents(files);
        let ids = order::collected(given);
        order::lemma_collected(given);
        order::lemma_collected_contains(given);
        assert forall|x: Seq<char>| #[trigger]
            ids.contains(x) <==> exists|f: int|
                {
                    &&& 0 <= f < files.len()
                    &&& (#[trigger] files[f]).text matches Some(t)
                    &&& syntax::source_idents(t@).contains(x)
                } by {
            lemma_all_idents(files, x);
        }
        let meant = similar::suggestions(opts.name@, ids, 5);
        let tail: Seq<char> = if meant.len() == 0 {
            Seq::empty()
        } else {
            "did you mean: "@ + text::join(meant, ", "@) + "?\n"@
        };
        reveal_strlit("`");
        reveal_strlit("\n");
        reveal_strlit("`\n");
        assert("`"@ + "\n"@ =~= "`\n"@);
        assert(report(files, opts) =~= "no hits for `"@ + opts.name@ + "`\n"@ + tail);
        assert(order::ascending(ids));
    }
}

// --- files to search -------------------------------------------------------------------------

/// A file to search: its absolute path and the path to show.
#[derive(Debug)]
pub struct FileRef {
    pub abs: String,
    pub rel: String,
}

/// A place to search: a single file, as it was given and made absolute; a
/// directory, as the tree of its Rust files; or one that cannot be walked, with
/// the reason.
#[derive(Debug)]
pub enum SearchRoot {
    File { path: String, abs: String },
    Tree(Node),
    Failed(String),
}

pub open spec fn refs_of(v: Seq<FileRef>) -> Seq<(Seq<char>, Seq<char>)> {
    v.map_values(|f: FileRef| (f.abs@, f.rel@))
}

/// The path to show for a file: seen from the working directory where it lies
/// under it, and absolute otherwise.
pub open spec fn shown(abs: Seq<char>, cwd: Option<Seq<char>>) -> Seq<char> {
    match cwd {
        Some(cwd) => paths::relative(abs, cwd),
        None => text::replaced(abs, '\\', '/'),
    }
}

/// The Rust files of a tree, in its order.
pub open spec fn rust_files(n: walk::NodeView, cwd: Option<Seq<char>>) -> Seq<
    (Seq<char>, Seq<char>),
>
    decreases n,
{
    match n {
        walk::NodeView::File { name, abs } => if text::ends_with(name, ".rs"@) {
            seq![(abs, shown(abs, cwd))]
        } else {
            Seq::empty()
        },
        walk::NodeView::Dir { children, .. } => rust_files_among(children, cwd),
    }
}

pub open spec fn rust_files_among(ns: Seq<walk::NodeView>, cwd: Option<Seq<char>>) -> Seq<
    (Seq<char>, Seq<char>),
>
    decreases ns,
{
    if ns.len() == 0 {
        Seq::empty()
    } else {
        rust_files_among(ns.drop_last(), cwd) + rust_files(ns[ns.len() - 1], cwd)
    }
}

/// The files of a root. A single file counts where its extension is `rs`.
pub open spec fn root_files(r: SearchRoot, cwd: Option<Seq<char>>) -> Seq<(Seq<char>, Seq<char>)> {
    match r {
        SearchRoot::File { path, abs } => match paths::file_name_of(path@) {
            Some(name) => if paths::extension_of(name) == Some("rs"@) {
                seq![(abs@, shown(abs@, cwd))]
            } else {
                Seq::empty()
            },
            None => Seq::empty(),
        },
        SearchRoot::Tree(n) => rust_files(walk::node_view(n), cwd),
        SearchRoot::Failed(_) => Seq::empty(),
    }
}

/// Whether a file with that absolute path is listed.
pub open spec fn listed(files: Seq<(Seq<char>, Seq<char>)>, abs: Seq<char>) -> bool {
    exists|i: int| 0 <= i < files.len() && (#[trigger] files[i]).0 == abs
}

/// `files` with those of `more` appended that are not listed yet.
pub open spec fn with_new(
    files: Seq<(Seq<char>, Seq<char>)>,
    more: Seq<(Seq<char>, Seq<char>)>,
) -> Seq<(Seq<char>, Seq<char>)>
    decreases more.len(),
{
    if more.len() == 0 {
        files
    } else {
        let rest = with_new(files, more.drop_last());
        if listed(rest, more.last().0) {
            rest
        } else {
            rest.push(more.last())
        }
    }
}

/// The files of all roots, each once.
pub open spec fn gathered(roots: Seq<SearchRoot>, cwd: Option<Seq<char>>) -> Seq<
    (Seq<char>, Seq<char>),
>
    decreases roots.len(),
{
    if roots.len() == 0 {
        Seq::empty()
    } else {
        with_new(gathered(roots.drop_last(), cwd), root_files(roots.last(), cwd))
    }
}

/// The reason why a root cannot be walked, of the first such root.
pub open spec fn first_failure(roots: Seq<SearchRoot>) -> Option<Seq<char>>
    decreases roots.len(),
{
    if roots.len() == 0 {
        None
    } else {
        match first_failure(roots.drop_last()) {
            Some(e) => Some(e),
            None => match roots.last() {
                SearchRoot::Failed(e) => Some(e@),
                _ => None,
            },
        }
    }
}

/// The path to show for a file: seen from the working directory where it lies
/// under it, and absolute otherwise.
pub fn display_rel(abs: &str, cwd: Option<&str>) -> (r: String)
    ensures
        r@ == shown(abs@, text::opt_str(cwd)),
{
    match cwd {
        Some(cwd) => paths::rel_to(abs, cwd),
        None => text::replace_char(abs, '\\', '/'),
    }
}

/// Appends the Rust files of a tree.
pub fn collect_rs_files(node: &Node, cwd: Option<&str>, out: &mut Vec<FileRef>)
    ensures
        refs_of(final(out)@) == refs_of(old(out)@) + rust_files(
            walk::node_view(*node),
            text::opt_str(cwd),
        ),
    decreases node,
{
    let ghost before = refs_of(out@);
    let ghost c = text::opt_str(cwd);
    match node {
        Node::Dir { children, .. } => {
            let ghost cs = walk::nodes_view(children@);
            proof {
                assert(cs.take(0) =~= Seq::empty());
                assert(before + Seq::<(Seq<char>, Seq<char>)>::empty() =~= before);
            }
            for k in 0..children.len()
                invariant
                    node is Dir,
                    node->children == *children,
                    c == text::opt_str(cwd),
                    cs == walk::nodes_view(children@),
                    refs_of(out@) == before + rust_files_among(cs.take(k as int), c),
            {
                proof {
                    assert(cs.take(k + 1).drop_last() =~= cs.take(k as int));
                    assert(cs[k as int] == walk::node_view(children@[k as int]));
                    assert(decreases_to!(*node => node->children));
                    assert(decreases_to!(node->children@ => children@[k as int]));
                }
                collect_rs_files(&children[k], cwd, out);
                proof {
                    assert(refs_of(out@) =~= before + rust_files_among(cs.take(k + 1), c));
                }
            }
            proof {
                assert(cs.take(cs.len() as int) =~= cs);
            }
        },
        Node::File { name, abs } => {
            if text::text_ends(name.as_str(), ".rs") {
                let ghost prev = out@;
                out.push(FileRef { abs: abs.clone(), rel: display_rel(abs.as_str(), cwd) });
                proof {
                    assert(refs_of(out@) =~= refs_of(prev) + seq![(abs@, shown(abs@, c))]);
                }
            } else {
                proof {
                    assert(before + Seq::<(Seq<char>, Seq<char>)>::empty() =~= before);
                }
            }
        },
    }
}

/// The files of a root.
fn files_of_root(root: &SearchRoot, cwd: Option<&str>) -> (r: Vec<FileRef>)
    ensures
        refs_of(r@) == root_files(*root, text::opt_str(cwd)),
{
    let mut r: Vec<FileRef> = Vec::new();
    match root {
        SearchRoot::File { path, abs } => {
            match paths::file_name(path.as_str()) {
                Some(name) => match paths::extension(name.as_str()) {
                    Some(ext) => {
                        if text::same_text(ext.as_str(), "rs") {
                            r.push(
                                FileRef { abs: abs.clone(), rel: display_rel(abs.as_str(), cwd) },
                            );
                        }
                    },
                    None => {},
                },
                None => {},
            }
        },
        SearchRoot::Tree(n) => {
            collect_rs_files(n, cwd, &mut r);
        },
        SearchRoot::Failed(_) => {},
    }
    proof {
        assert(refs_of(r@) =~= root_files(*root, text::opt_str(cwd)));
    }
    r
}

/// The files of all roots, each once, or the reason why the first root that
/// cannot be walked cannot.
pub fn gather(roots: &Vec<SearchRoot>, cwd: Option<&str>) -> (r: Result<Vec<FileRef>, String>)
    ensures
        match r {
            Ok(files) => first_failure(roots@) is None && refs_of(files@) == gathered(
                roots@,
                text::opt_str(cwd),
            ),
            Err(e) => first_failure(roots@) == Some(e@),
        },
{
    let ghost rs = roots@;
    let ghost c = text::opt_str(cwd);
    let mut files: Vec<FileRef> = Vec::new();
    let mut seen = NameSet::new();
    proof {
        assert(rs.take(0) =~= Seq::empty());
        assert(refs_of(files@) =~= Seq::empty());
    }
    for k in 0..roots.len()
        invariant
            rs == roots@,
            c == text::opt_str(cwd),
            first_failure(rs.take(k as int)) is None,
            refs_of(files@) == gathered(rs.take(k as int), c),
            forall|x: Seq<char>| #[trigger] seen@.contains(x) <==> listed(refs_of(files@), x),
    {
        proof {
            assert(rs.take(k + 1).drop_last() =~= rs.take(k as int));
        }
        if let SearchRoot::Failed(e) = &roots[k] {
            proof {
                lemma_failure_stays(rs, k + 1);
            }
            return Err(e.clone());
        }
        let more = files_of_root(&roots[k], cwd);
        let ghost ms = refs_of(more@);
        let ghost before = refs_of(files@);
        proof {
            assert(ms.take(0) =~= Seq::empty());
        }
        for f in it: more
            invariant
                it.seq() == more@,
                ms == refs_of(more@),
                refs_of(files@) == with_new(before, ms.take(it.index() as int)),
                forall|x: Seq<char>| #[trigger] seen@.contains(x) <==> listed(refs_of(files@), x),
        {
            let ghost j = it.index() as int;
            proof {
                assert(ms.take(j + 1).drop_last() =~= ms.take(j));
                assert(ms[j] == (f.abs@, f.rel@));
            }
            let ghost prev = files@;
            let ghost had = seen@;
            if seen.insert(f.abs.clone()) {
                files.push(f);
                proof {
                    assert(refs_of(files@) =~= refs_of(prev).push(ms[j]));
                    order::lemma_put(had, ms[j].0);
                    assert forall|x: Seq<char>| #[trigger] seen@.contains(x) <==> listed(
                        refs_of(files@),
                        x,
                    ) by {
                        assert(seen@.to_set().contains(x) <==> had.to_set().insert(
                            ms[j].0,
                        ).contains(x));
                        lemma_listed_push(refs_of(prev), ms[j], x);
                        assert(had.contains(x) <==> listed(refs_of(prev), x));
                    }
                }
            } else {
                proof {
                    order::lemma_put(had, ms[j].0);
                    assert(had.contains(ms[j].0));
                    let at = choose|at: int| 0 <= at < had.len() && had[at] == ms[j].0;
                    order::lemma_put_found(had, at, ms[j].0);
                }
            }
        }
        proof {
            assert(ms.take(ms.len() as int) =~= ms);
        }
    }
    proof {
        assert(rs.take(rs.len() as int) =~= rs);
    }
    Ok(files)
}

proof fn lemma_listed_push(
    files: Seq<(Seq<char>, Seq<char>)>,
    f: (Seq<char>, Seq<char>),
    x: Seq<char>,
)
    ensures
        listed(files.push(f), x) <==> listed(files, x) || x == f.0,
{
    let more = files.push(f);
    if listed(files, x) {
        let i = choose|i: int| 0 <= i < files.len() && (#[trigger] files[i]).0 == x;
        assert(more[i].0 == x);
    }
    assert(more[files.len() as int].0 == f.0);
    if listed(more, x) {
        let i = choose|i: int| 0 <= i < more.len() && (#[trigger] more[i]).0 == x;
        if i < files.len() {
            assert(files[i].0 == x);
        }
    }
}

/// The first failure among the first roots is the first of all.
proof fn lemma_failure_stays(roots: Seq<SearchRoot>, k: int)
    requires
        0 <= k <= roots.len(),
        first_failure(roots.take(k)) is Some,
    ensures
        first_failure(roots) == first_failure(roots.take(k)),
    decreases roots.len() - k,
{
    if k < roots.len() {
        assert(roots.take(k + 1).drop_last() =~= roots.take(k));
        lemma_failure_stays(roots, k + 1);
    } else {
        assert(roots.take(k) =~= roots);
    }
}

proof fn lemma_with_new(
    files: Seq<(Seq<char>, Seq<char>)>,
    more: Seq<(Seq<char>, Seq<char>)>,
    abs: Seq<char>,
)
    requires
        each_once(files),
    ensures
        each_once(with_new(files, more)),
        listed(with_new(files, more), abs) <==> listed(files, abs) || listed(more, abs),
    decreases more.len(),
{
    if more.len() > 0 {
        let rest = more.drop_last();
        let last = more.last();
        lemma_with_new(files, rest, abs);
        lemma_with_new(files, rest, last.0);
        let r = with_new(files, rest);
        let all = with_new(files, more);
        if !listed(r, last.0) {
            assert forall|i: int, j: int| 0 <= i < j < all.len() implies (#[trigger] all[i]).0 != (
            #[trigger] all[j]).0 by {
                if j < r.len() {
                    assert(r[i].0 != r[j].0);
                } else {
                    assert(r[i].0 != last.0);
                }
            }
            if listed(r, abs) {
                let k = choose|k: int| 0 <= k < r.len() && (#[trigger] r[k]).0 == abs;
                assert(all[k].0 == abs);
            }
            if last.0 == abs {
                assert(all[r.len() as int].0 == abs);
            }
            if listed(all, abs) {
                let k = choose|k: int| 0 <= k < all.len() && (#[trigger] all[k]).0 == abs;
                if k < r.len() {
                    assert(r[k].0 == abs);
                }
            }
        }
        if listed(rest, abs) {
            let k = choose|k: int| 0 <= k < rest.len() && (#[trigger] rest[k]).0 == abs;
            assert(more[k].0 == abs);
        }
        if last.0 == abs {
            assert(more[more.len() - 1].0 == abs);
        }
        if listed(more, abs) {
            let k = choose|k: int| 0 <= k < more.len() && (#[trigger] more[k]).0 == abs;
            if k < rest.len() {
                assert(rest[k].0 == abs);
            }
        }
    }
}

/// Whether no two files have the same absolute path.
pub open spec fn each_once(files: Seq<(Seq<char>, Seq<char>)>) -> bool {
    forall|i: int, j: int|
        0 <= i < j < files.len() ==> (#[trigger] files[i]).0 != (#[trigger] files[j]).0
}

/// The identifiers of all files are those of each.
pub proof fn lemma_all_idents(files: Seq<SourceFile>, x: Seq<char>)
    ensures
        all_idents(files).contains(x) <==> exists|f: int|
            {
                &&& 0 <= f < files.len()
                &&& (#[trigger] files[f]).text matches Some(t)
                &&& syntax::source_idents(t@).contains(x)
            },
    decreases files.len(),
{
    if files.len() > 0 {
        let rest = files.drop_last();
        let last = files[files.len() - 1];
        lemma_all_idents(rest, x);
        let own: Seq<Seq<char>> = match last.text {
            Some(t) => syntax::source_idents(t@),
            None => Seq::empty(),
        };
        text::lemma_add_contains(all_idents(rest), own, x);
        assert forall|f: int| 0 <= f < rest.len() implies #[trigger] rest[f] == files[f] by {}
        assert(forall|f: int|
            0 <= f < files.len() ==> f == rest.len() || #[trigger] files[f] == rest[f]);
    }
}

/// However the places to search overlap, each file is searched once, and a file
/// is searched exactly if one of the places holds it.
pub proof fn law_files_gathered_once(
    roots: Seq<SearchRoot>,
    cwd: Option<Seq<char>>,
    abs: Seq<char>,
)
    ensures
        each_once(gathered(roots, cwd)),
        listed(gathered(roots, cwd), abs) <==> exists|k: int|
            0 <= k < roots.len() && listed(root_files(#[trigger] roots[k], cwd), abs),
    decreases roots.len(),
{
    if roots.len() > 0 {
        let rest = roots.drop_last();
        law_files_gathered_once(rest, cwd, abs);
        lemma_with_new(gathered(rest, cwd), root_files(roots.last(), cwd), abs);
        let l = roots.len() - 1;
        if listed(root_files(roots[l], cwd), abs) {
            assert(exists|k: int|
                0 <= k < roots.len() && listed(root_files(#[trigger] roots[k], cwd), abs));
        }
        if listed(gathered(rest, cwd), abs) {
            let k = choose|k: int|
                0 <= k < rest.len() && listed(root_files(#[trigger] rest[k], cwd), abs);
            assert(listed(root_files(roots[k], cwd), abs));
        }
        if exists|k: int|
            0 <= k < roots.len() && listed(root_files(#[trigger] roots[k], cwd), abs) {
            let k = choose|k: int|
                0 <= k < roots.len() && listed(root_files(#[trigger] roots[k], cwd), abs);
            if k < l {
                assert(listed(root_files(rest[k], cwd), abs));
            }
        }
    }
}

// --- which files are searched ------------------------------------------------------------------

/// Whether the node at position `j + 1` of `chain` is a child of the one at `j`.
pub open spec fn holds_next(chain: Seq<walk::NodeView>, j: int) -> bool {
    chain[j] matches walk::NodeView::Dir { children, .. } && children.contains(chain[j + 1])
}

/// Whether `chain` goes down a tree, from a node to one of its children.
pub open spec fn goes_inside(chain: Seq<walk::NodeView>) -> bool {
    chain.len() > 0 && forall|j: int| 0 <= j < chain.len() - 1 ==> #[trigger] holds_next(chain, j)
}

proof fn lemma_file_down(
    n: walk::NodeView,
    cwd: Option<Seq<char>>,
    e: (Seq<char>, Seq<char>),
) -> (chain: Seq<walk::NodeView>)
    requires
        rust_files(n, cwd).contains(e),
    ensures
        goes_inside(chain),
        chain[0] == n,
        chain.last() matches walk::NodeView::File { name, abs } && text::ends_with(name, ".rs"@)
            && e == (abs, shown(abs, cwd)),
    decreases n, 0nat,
{
    match n {
        walk::NodeView::File { name, abs } => seq![n],
        walk::NodeView::Dir { children, .. } => {
            let below = lemma_file_among(children, cwd, e);
            let chain = seq![n] + below;
            assert forall|j: int| 0 <= j < chain.len() - 1 implies #[trigger] holds_next(
                chain,
                j,
            ) by {
                if j > 0 {
                    assert(holds_next(below, j - 1));
                    assert(chain[j] == below[j - 1] && chain[j + 1] == below[j]);
                } else {
                    assert(chain[1] == below[0]);
                }
            }
            chain
        },
    }
}

proof fn lemma_file_among(
    ns: Seq<walk::NodeView>,
    cwd: Option<Seq<char>>,
    e: (Seq<char>, Seq<char>),
) -> (chain: Seq<walk::NodeView>)
    requires
        rust_files_among(ns, cwd).contains(e),
    ensures
        goes_inside(chain),
        ns.contains(chain[0]),
        chain.last() matches walk::NodeView::File { name, abs } && text::ends_with(name, ".rs"@)
            && e == (abs, shown(abs, cwd)),
    decreases ns, ns.len(),
{
    let front = ns.drop_last();
    let last = ns[ns.len() - 1];
    text::lemma_add_contains(rust_files_among(front, cwd), rust_files(last, cwd), e);
    if rust_files_among(front, cwd).contains(e) {
        let chain = lemma_file_among(front, cwd, e);
        let k = choose|k: int| 0 <= k < front.len() && front[k] == chain[0];
        assert(ns[k] == chain[0]);
        chain
    } else {
        lemma_file_down(last, cwd, e)
    }
}

proof fn lemma_among_holds(
    ns: Seq<walk::NodeView>,
    cwd: Option<Seq<char>>,
    k: int,
    e: (Seq<char>, Seq<char>),
)
    requires
        0 <= k < ns.len(),
        rust_files(ns[k], cwd).contains(e),
    ensures
        rust_files_among(ns, cwd).contains(e),
    decreases ns.len(),
{
    let front = ns.drop_last();
    let last = ns[ns.len() - 1];
    text::lemma_add_contains(rust_files_among(front, cwd), rust_files(last, cwd), e);
    if k < ns.len() - 1 {
        assert(front[k] == ns[k]);
        lemma_among_holds(front, cwd, k, e);
    }
}

proof fn lemma_file_up(
    chain: Seq<walk::NodeView>,
    cwd: Option<Seq<char>>,
    e: (Seq<char>, Seq<char>),
)
    requires
        goes_inside(chain),
        chain.last() matches walk::NodeView::File { name, abs } && text::ends_with(name, ".rs"@)
            && e == (abs, shown(abs, cwd)),
    ensures
        rust_files(chain[0], cwd).contains(e),
    decreases chain.len(),
{
    if chain.len() == 1 {
        assert(rust_files(chain[0], cwd)[0] == e);
    } else {
        let rest = chain.drop_first();
        assert forall|j: int| 0 <= j < rest.len() - 1 implies #[trigger] holds_next(rest, j) by {
            assert(holds_next(chain, j + 1));
            assert(rest[j] == chain[j + 1] && rest[j + 1] == chain[j + 2]);
        }
        lemma_file_up(rest, cwd, e);
        assert(holds_next(chain, 0));
        let children = chain[0]->children;
        let k = choose|k: int| 0 <= k < children.len() && children[k] == chain[1];
        lemma_among_holds(children, cwd, k, e);
    }
}

/// The Rust files of a tree are the files in it, at any depth, whose name ends in
/// `.rs`. Each is shown as it is seen from the working directory, where it lies
/// under it, and else as it is, with `/` for each backslash.
pub proof fn law_rust_files_are_found(
    n: walk::NodeView,
    cwd: Option<Seq<char>>,
    abs: Seq<char>,
    seen: Seq<char>,
)
    ensures
        rust_files(n, cwd).contains((abs, seen)) <==> ({
            let rel = match cwd {
                Some(dir) => match paths::stripped(abs, dir) {
                    Some(rel) => rel,
                    None => abs,
                },
                None => abs,
            };
            &&& seen == rel.map_values(
                |c: char|
                    if c == '\\' {
                        '/'
                    } else {
                        c
                    },
            )
            &&& exists|chain: Seq<walk::NodeView>| #[trigger]
                goes_inside(chain) && chain[0] == n && (
                chain.last() matches walk::NodeView::File { name, abs: own } && own == abs
                    && text::ends_with(name, ".rs"@))
        }),
{
    let e = (abs, seen);
    let rel = match cwd {
        Some(dir) => match paths::stripped(abs, dir) {
            Some(rel) => rel,
            None => abs,
        },
        None => abs,
    };
    assert(shown(abs, cwd) =~= rel.map_values(
        |c: char|
            if c == '\\' {
                '/'
            } else {
                c
            },
    ));
    if rust_files(n, cwd).contains(e) {
        let chain = lemma_file_down(n, cwd, e);
        assert(goes_inside(chain));
    }
    if seen == shown(abs, cwd) && exists|chain: Seq<walk::NodeView>| #[trigger]
        goes_inside(chain) && chain[0] == n && (
        chain.last() matches walk::NodeView::File { name, abs: own } && own == abs
            && text::ends_with(name, ".rs"@)) {
        let chain = choose|chain: Seq<walk::NodeView>| #[trigger]
            goes_inside(chain) && chain[0] == n && (
            chain.last() matches walk::NodeView::File { name, abs: own } && own == abs
                && text::ends_with(name, ".rs"@));
        lemma_file_up(chain, cwd, e);
    }
}

/// What is searched of a place: a single file if what follows the last dot of its
/// name is `rs` and something stands before the dot; the Rust files of a tree; and
/// nothing of a place that cannot be walked. The first of these is the reason for a
/// search that fails.
pub proof fn law_places_to_search(
    root: SearchRoot,
    roots: Seq<SearchRoot>,
    cwd: Option<Seq<char>>,
    stem: Seq<char>,
    ext: Seq<char>,
)
    requires
        !ext.contains('.'),
    ensures
        root matches SearchRoot::Tree(n) ==> root_files(root, cwd) == rust_files(
            walk::node_view(n),
            cwd,
        ),
        root is Failed ==> root_files(root, cwd).len() == 0,
        root matches SearchRoot::File { path, abs } ==> paths::file_name_of(path@) == Some(
            stem + "."@ + ext,
        ) ==> root_files(root, cwd) == if stem.len() > 0 && ext == "rs"@ {
            seq![(abs@, shown(abs@, cwd))]
        } else {
            Seq::empty()
        },
        root matches SearchRoot::File { path, abs } ==> paths::file_name_of(path@) == Some(ext)
            ==> root_files(root, cwd).len() == 0,
        root matches SearchRoot::File { path, abs } ==> paths::file_name_of(path@) is None
            ==> root_files(root, cwd).len() == 0,
        match first_failure(roots) {
            Some(e) => exists|i: int|
                {
                    &&& 0 <= i < roots.len()
                    &&& (#[trigger] roots[i]) matches SearchRoot::Failed(own) && own@ == e
                    &&& forall|j: int| 0 <= j < i ==> !((#[trigger] roots[j]) is Failed)
                },
            None => forall|j: int| 0 <= j < roots.len() ==> !((#[trigger] roots[j]) is Failed),
        },
{
    reveal_strlit(".");
    let name = stem + "."@ + ext;
    let n = stem.len() as int;
    assert forall|k: int| 0 <= k < ext.len() implies ext[k] != '.' by {
        assert(ext.contains(ext[k]));
    }
    assert forall|k: int| n < k < name.len() implies name[k] != '.' by {
        assert(name[k] == ext[k - n - 1]);
    }
    text::lemma_last_position_is(name, '.', n);
    text::lemma_last_position_is(ext, '.', -1);
    assert(name.skip(n + 1) =~= ext);
    lemma_first_failure(roots);
}

proof fn lemma_first_failure(roots: Seq<SearchRoot>)
    ensures
        match first_failure(roots) {
            Some(e) => exists|i: int|
                {
                    &&& 0 <= i < roots.len()
                    &&& (#[trigger] roots[i]) matches SearchRoot::Failed(own) && own@ == e
                    &&& forall|j: int| 0 <= j < i ==> !((#[trigger] roots[j]) is Failed)
                },
            None => forall|j: int| 0 <= j < roots.len() ==> !((#[trigger] roots[j]) is Failed),
        },
    decreases roots.len(),
{
    if roots.len() > 0 {
        let rest = roots.drop_last();
        lemma_first_failure(rest);
        assert forall|j: int| 0 <= j < rest.len() implies #[trigger] rest[j] == roots[j] by {}
        assert(forall|j: int|
            0 <= j < roots.len() ==> j == rest.len() || #[trigger] roots[j] == rest[j]);
        if let Some(e) = first_failure(rest) {
            let i = choose|i: int|
                {
                    &&& 0 <= i < rest.len()
                    &&& (#[trigger] rest[i]) matches SearchRoot::Failed(own) && own@ == e
                    &&& forall|j: int| 0 <= j < i ==> !((#[trigger] rest[j]) is Failed)
                };
            assert(roots[i] == rest[i]);
        } else if roots.last() is Failed {
            assert(roots[rest.len() as int] == roots.last());
        }
    }
}

/// Hits are ordered by their files, those of a file by their lines, those of a line
/// by their columns, and those at one place by role, kind and name.
pub proof fn law_hit_order(a: HitView, b: HitView)
    ensures
        a.file != b.file ==> (hit_before(a, b) <==> order::before(a.file, b.file)),
        a.file == b.file && a.line != b.line ==> (hit_before(a, b) <==> a.line < b.line),
        a.file == b.file && a.line == b.line && a.col != b.col ==> (hit_before(a, b) <==> a.col
            < b.col),
        a.file == b.file && a.line == b.line && a.col == b.col && a.role != b.role ==> (hit_before(
            a,
            b,
        ) <==> order::before(a.role, b.role)),
        a.file == b.file && a.line == b.line && a.col == b.col && a.role == b.role && a.kind
            != b.kind ==> (hit_before(a, b) <==> order::before(a.kind, b.kind)),
        a.file == b.file && a.line == b.line && a.col == b.col && a.role == b.role && a.kind
            == b.kind ==> (hit_before(a, b) <==> order::before(a.name, b.name)),
{
}

} // verus!
