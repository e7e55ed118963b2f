//! Rust source as the library reads it: the items of a file with their names
//! and lines, the trees of its `use` declarations, and its tokens.
//!
//! `syn` parses and `proc_macro2` lexes. What they return is opaque here; the
//! functions below take it apart piece by piece into plain values.

use proc_macro2::{Ident, Span, TokenStream, TokenTree};
use syn::{ImplItem, Item, Path, TraitItem, Type, UseTree};
use vstd::prelude::*;

use crate::names::NameSet;
use crate::{order, text};

verus! {

// --- plain values ------------------------------------------------------------

/// An identifier and where it starts: the line and the column, both from one.
#[derive(Debug)]
pub struct Name {
    pub text: String,
    pub line: usize,
    pub col: usize,
}

/// What a [`Name`] holds.
pub struct NameView {
    pub text: Seq<char>,
    pub line: usize,
    pub col: usize,
}

impl View for Name {
    type V = NameView;

    open spec fn view(&self) -> NameView {
        NameView { text: self.text@, line: self.line, col: self.col }
    }
}

/// The first and the last line of an item.
#[derive(Debug, Clone, Copy)]
pub struct Lines {
    pub start: usize,
    pub end: usize,
}

/// The kinds of items that have a name and nothing else that is read.
#[derive(Debug, Clone, Copy, PartialEq, Eq, Structural)]
pub enum NamedKind {
    Struct,
    Enum,
    Union,
    Fn,
    Type,
    Const,
    Static,
    Macro,
}

/// The kinds of members of a trait or an impl that are read.
#[derive(Debug, Clone, Copy, PartialEq, Eq, Structural)]
pub enum MemberKind {
    Fn,
    Type,
    Const,
}

/// A member of a trait or an impl.
#[derive(Debug)]
pub enum Member {
    Named { kind: MemberKind, name: Name, lines: Lines },
    Other,
}

/// What a [`Member`] holds.
pub enum MemberView {
    Named { kind: MemberKind, name: NameView, lines: Lines },
    Other,
}

impl View for Member {
    type V = MemberView;

    open spec fn view(&self) -> MemberView {
        match *self {
            Member::Named { kind, name, lines } => MemberView::Named { kind, name: name@, lines },
            Member::Other => MemberView::Other,
        }
    }
}

/// The tree of one `use` declaration.
#[derive(Debug)]
pub enum ImportTree {
    /// `a::<tree>`
    Path(String, Box<ImportTree>),
    /// `a`
    Name(String),
    /// `a as b`, with `b` dropped
    Rename(String),
    /// `*`
    Glob,
    /// `{<tree>, <tree>}`
    Group(Vec<ImportTree>),
}

/// What an [`ImportTree`] holds.
pub enum ImportView {
    Path(Seq<char>, Box<ImportView>),
    Name(Seq<char>),
    Rename(Seq<char>),
    Glob,
    Group(Seq<ImportView>),
}

pub open spec fn import_view(t: ImportTree) -> ImportView
    decreases t,
{
    match t {
        ImportTree::Path(name, rest) => ImportView::Path(name@, Box::new(import_view(*rest))),
        ImportTree::Name(name) => ImportView::Name(name@),
        ImportTree::Rename(name) => ImportView::Rename(name@),
        ImportTree::Glob => ImportView::Glob,
        ImportTree::Group(trees) => ImportView::Group(imports_view(trees@)),
    }
}

pub open spec fn imports_view(ts: Seq<ImportTree>) -> Seq<ImportView>
    decreases ts,
{
    Seq::new(
        ts.len(),
        |i: int|
            if 0 <= i < ts.len() {
                import_view(ts[i])
            } else {
                ImportView::Glob
            },
    )
}

/// An item of a file or of an inline module.
#[allow(inconsistent_fields)]
#[derive(Debug)]
pub enum Decl {
    /// A macro invocation in item position has no name.
    Named { kind: NamedKind, name: Option<Name>, lines: Lines },
    Trait { name: Name, lines: Lines, members: Vec<Member> },
    /// The names are those of the last path segments. A self type that is no
    /// path has none; an inherent impl has no trait.
    Impl {
        self_name: Option<String>,
        trait_name: Option<String>,
        lines: Lines,
        members: Vec<Member>,
    },
    /// `mod name;` has no content.
    Mod { name: String, content: Option<Vec<Decl>> },
    Use(ImportTree),
    Other,
}

/// What a [`Decl`] holds.
#[allow(inconsistent_fields)]
pub enum DeclView {
    Named { kind: NamedKind, name: Option<NameView>, lines: Lines },
    Trait { name: NameView, lines: Lines, members: Seq<MemberView> },
    Impl {
        self_name: Option<Seq<char>>,
        trait_name: Option<Seq<char>>,
        lines: Lines,
        members: Seq<MemberView>,
    },
    Mod { name: Seq<char>, content: Option<Seq<DeclView>> },
    Use(ImportView),
    Other,
}

/// Whether `inner` is what stands in one of the inline modules among `outer`.
pub open spec fn inlines(outer: Seq<DeclView>, inner: Seq<DeclView>) -> bool {
    exists|i: int|
        0 <= i < outer.len() && (#[trigger] outer[i]) is Mod && outer[i]->Mod_content == Some(
            inner,
        )
}

/// Whether the list of items at position `j` holds the next one inline.
pub open spec fn inlines_next(lists: Seq<Seq<DeclView>>, j: int) -> bool {
    inlines(lists[j], lists[j + 1])
}

/// Whether each of the lists of items stands in an inline module of the one
/// before it.
pub open spec fn nested(lists: Seq<Seq<DeclView>>) -> bool {
    lists.len() > 0 && forall|j: int| 0 <= j < lists.len() - 1 ==> #[trigger] inlines_next(lists, j)
}

/// Whether the list of items at position `j` holds the next one in an inline
/// module of that name.
pub open spec fn inlines_as(lists: Seq<Seq<DeclView>>, names: Seq<Seq<char>>, j: int) -> bool {
    exists|i: int|
        0 <= i < lists[j].len() && (#[trigger] lists[j][i]) == (DeclView::Mod {
            name: names[j],
            content: Some(lists[j + 1]),
        })
}

/// Whether each of the lists of items stands in an inline module of the one
/// before it, by these names.
pub open spec fn nested_as(lists: Seq<Seq<DeclView>>, names: Seq<Seq<char>>) -> bool {
    lists.len() == names.len() + 1 && forall|j: int|
        0 <= j < names.len() ==> #[trigger] inlines_as(lists, names, j)
}

pub proof fn lemma_nested_as_rest(lists: Seq<Seq<DeclView>>, names: Seq<Seq<char>>)
    requires
        nested_as(lists, names),
        names.len() > 0,
    ensures
        nested_as(lists.drop_first(), names.drop_first()),
        inlines_as(lists, names, 0),
        lists.drop_first()[0] == lists[1],
        lists.drop_first().last() == lists.last(),
{
    let l = lists.drop_first();
    let n = names.drop_first();
    assert(inlines_as(lists, names, 0));
    assert forall|j: int| 0 <= j < n.len() implies #[trigger] inlines_as(l, n, j) by {
        assert(inlines_as(lists, names, j + 1));
        let i = choose|i: int|
            0 <= i < lists[j + 1].len() && (#[trigger] lists[j + 1][i]) == (DeclView::Mod {
                name: names[j + 1],
                content: Some(lists[j + 2]),
            });
        assert(l[j][i] == lists[j + 1][i]);
    }
}

pub proof fn lemma_nested_as_more(
    outer: Seq<DeclView>,
    i: int,
    name: Seq<char>,
    lists: Seq<Seq<DeclView>>,
    names: Seq<Seq<char>>,
)
    requires
        nested_as(lists, names),
        0 <= i < outer.len(),
        outer[i] == (DeclView::Mod { name, content: Some(lists[0]) }),
    ensures
        nested_as(seq![outer] + lists, seq![name] + names),
        (seq![outer] + lists)[0] == outer,
        (seq![outer] + lists).last() == lists.last(),
{
    let l = seq![outer] + lists;
    let n = seq![name] + names;
    assert forall|j: int| 0 <= j < n.len() implies #[trigger] inlines_as(l, n, j) by {
        if j > 0 {
            assert(inlines_as(lists, names, j - 1));
            let i = choose|i: int|
                0 <= i < lists[j - 1].len() && (#[trigger] lists[j - 1][i]) == (DeclView::Mod {
                    name: names[j - 1],
                    content: Some(lists[j]),
                });
            assert(l[j][i] == lists[j - 1][i]);
        } else {
            assert(l[0][i] == outer[i]);
        }
    }
}

/// The lists below the first one are nested too.
pub proof fn lemma_nested_rest(lists: Seq<Seq<DeclView>>)
    requires
        nested(lists),
        lists.len() > 1,
    ensures
        nested(lists.drop_first()),
        inlines(lists[0], lists[1]),
        lists.drop_first()[0] == lists[1],
        lists.drop_first().last() == lists.last(),
{
    let rest = lists.drop_first();
    assert(inlines_next(lists, 0));
    assert forall|j: int| 0 <= j < rest.len() - 1 implies #[trigger] inlines_next(rest, j) by {
        assert(inlines_next(lists, j + 1));
    }
}

/// A list that holds the first one inline can be put in front.
pub proof fn lemma_nested_more(outer: Seq<DeclView>, lists: Seq<Seq<DeclView>>)
    requires
        nested(lists),
        inlines(outer, lists[0]),
    ensures
        nested(seq![outer] + lists),
        (seq![outer] + lists)[0] == outer,
        (seq![outer] + lists).last() == lists.last(),
{
    let all = seq![outer] + lists;
    assert forall|j: int| 0 <= j < all.len() - 1 implies #[trigger] inlines_next(all, j) by {
        if j > 0 {
            assert(inlines_next(lists, j - 1));
        }
    }
}

pub open spec fn members_view(ms: Seq<Member>) -> Seq<MemberView> {
    ms.map_values(|m: Member| m@)
}

pub open spec fn opt_name(n: Option<Name>) -> Option<NameView> {
    match n {
        Some(n) => Some(n@),
        None => None,
    }
}

pub open spec fn decl_view(d: Decl) -> DeclView
    decreases d,
{
    match d {
        Decl::Named { kind, name, lines } => DeclView::Named { kind, name: opt_name(name), lines },
        Decl::Trait { name, lines, members } => DeclView::Trait {
            name: name@,
            lines,
            members: members_view(members@),
        },
        Decl::Impl { self_name, trait_name, lines, members } => DeclView::Impl {
            self_name: text::opt_text(self_name),
            trait_name: text::opt_text(trait_name),
            lines,
            members: members_view(members@),
        },
        Decl::Mod { name, content } => DeclView::Mod {
            name: name@,
            content: match content {
                Some(v) => Some(decls_view(v@)),
                None => None,
            },
        },
        Decl::Use(t) => DeclView::Use(import_view(t)),
        Decl::Other => DeclView::Other,
    }
}

pub open spec fn decls_view(ds: Seq<Decl>) -> Seq<DeclView>
    decreases ds,
{
    Seq::new(
        ds.len(),
        |i: int|
            if 0 <= i < ds.len() {
                decl_view(ds[i])
            } else {
                DeclView::Other
            },
    )
}

/// One token of a source: what is inside a pair of brackets is one token.
pub enum TokenView {
    Ident(Seq<char>),
    Group(Seq<TokenView>),
    Other,
}

// --- what the parser returns -------------------------------------------------

#[verifier::external_type_specification]
#[verifier::external_body]
pub struct ExItem(Item);

#[verifier::external_type_specification]
#[verifier::external_body]
pub struct ExImplItem(ImplItem);

#[verifier::external_type_specification]
#[verifier::external_body]
pub struct ExTraitItem(TraitItem);

#[verifier::external_type_specification]
#[verifier::external_body]
pub struct ExUseTree(UseTree);

#[verifier::external_type_specification]
#[verifier::external_body]
pub struct ExType(Type);

#[verifier::external_type_specification]
#[verifier::external_body]
pub struct ExPath(Path);

#[verifier::external_type_specification]
#[verifier::external_body]
pub struct ExIdent(Ident);

#[verifier::external_type_specification]
#[verifier::external_body]
pub struct ExSpan(Span);

#[verifier::external_type_specification]
#[verifier::external_body]
pub struct ExTokenStream(TokenStream);

#[verifier::external_type_specification]
#[verifier::external_body]
pub struct ExTokenTree(TokenTree);

/// The text of an identifier.
pub uninterp spec fn ident_text(i: Ident) -> Seq<char>;

/// The line and the column at which an identifier starts.
pub uninterp spec fn ident_place(i: Ident) -> (usize, usize);

/// The line and the column at which a span starts.
pub uninterp spec fn span_start(s: Span) -> (usize, usize);

/// The line on which a span ends.
pub uninterp spec fn span_end_line(s: Span) -> usize;

/// The text of the last segment of a path.
pub uninterp spec fn path_last(p: Path) -> Option<Seq<char>>;

/// The text of the last segment of a type that is a path.
pub uninterp spec fn type_last(t: Type) -> Option<Seq<char>>;

/// What an item of the parser holds.
pub uninterp spec fn item_model(i: Item) -> DeclView;

/// What a member of an impl holds.
pub uninterp spec fn impl_item_model(i: ImplItem) -> MemberView;

/// What a member of a trait holds.
pub uninterp spec fn trait_item_model(i: TraitItem) -> MemberView;

/// What a `use` tree of the parser holds.
pub uninterp spec fn use_model(t: UseTree) -> ImportView;

/// What a token holds.
pub uninterp spec fn token_model(t: TokenTree) -> TokenView;

/// The tokens of a stream.
pub uninterp spec fn stream_model(s: TokenStream) -> Seq<TokenView>;

/// The items of a source, where it is a Rust file.
pub uninterp spec fn parsed(src: Seq<char>) -> Option<Seq<DeclView>>;

/// The tokens of a source, where it is made of Rust tokens.
pub uninterp spec fn lexed(src: Seq<char>) -> Option<Seq<TokenView>>;

pub open spec fn items_model(items: Seq<Item>) -> Seq<DeclView> {
    items.map_values(|i: Item| item_model(i))
}

pub open spec fn impl_items_model(items: Seq<ImplItem>) -> Seq<MemberView> {
    items.map_values(|i: ImplItem| impl_item_model(i))
}

pub open spec fn trait_items_model(items: Seq<TraitItem>) -> Seq<MemberView> {
    items.map_values(|i: TraitItem| trait_item_model(i))
}

pub open spec fn uses_model(trees: Seq<&UseTree>) -> Seq<ImportView> {
    trees.map_values(|t: &UseTree| use_model(*t))
}

pub open spec fn tokens_model(tokens: Seq<TokenTree>) -> Seq<TokenView> {
    tokens.map_values(|t: TokenTree| token_model(t))
}

pub open spec fn ident_model(i: Ident) -> NameView {
    NameView {
        text: ident_text(i),
        line: ident_place(i).0,
        col: (ident_place(i).1 + 1) as usize,
    }
}

pub open spec fn span_lines(s: Span) -> Lines {
    Lines { start: span_start(s).0, end: span_end_line(s) }
}

/// The lines of an item that has them.
pub open spec fn decl_lines(d: DeclView) -> Option<Lines> {
    match d {
        DeclView::Named { lines, .. } => Some(lines),
        DeclView::Trait { lines, .. } => Some(lines),
        DeclView::Impl { lines, .. } => Some(lines),
        _ => None,
    }
}

pub open spec fn member_lines(m: MemberView) -> Option<Lines> {
    match m {
        MemberView::Named { lines, .. } => Some(lines),
        MemberView::Other => None,
    }
}

/// The longest source, in characters, that the parser can number: `proc_macro2`
/// numbers the characters of a source with 32 bits, from one on, and the place
/// behind the last one has a number too.
pub const MAX_SOURCE: usize = 0xffff_fffe;

/// The items of a source that is short enough to be parsed.
pub open spec fn source_items(src: Seq<char>) -> Option<Seq<DeclView>> {
    if src.len() <= MAX_SOURCE {
        parsed(src)
    } else {
        None
    }
}

/// The tokens of a source that is short enough to be lexed.
pub open spec fn source_tokens(src: Seq<char>) -> Option<Seq<TokenView>> {
    if src.len() <= MAX_SOURCE {
        lexed(src)
    } else {
        None
    }
}

// --- taking it apart -----------------------------------------------------------

/// The parts of an item of the parser that are read, but for its lines and for
/// those that are a name alone.
enum Parts<'a> {
    Macro(Option<&'a Ident>),
    Trait(&'a Ident, &'a Vec<TraitItem>),
    Impl(&'a Type, Option<&'a Path>, &'a Vec<ImplItem>),
    Mod(&'a Ident, Option<&'a Vec<Item>>),
    Use(&'a UseTree),
    Other,
}

/// The parts of a `use` tree of the parser.
enum UseParts<'a> {
    Path(&'a Ident, &'a UseTree),
    Name(&'a Ident),
    Rename(&'a Ident),
    Glob,
    Group(Vec<&'a UseTree>),
}

/// The parts of a token.
enum TokenParts {
    Ident(Ident),
    Group(TokenStream),
    Other,
}

/// The text of a last path segment, or nothing where a path has no segment.
pub open spec fn tail_text(last: Option<Seq<char>>) -> Seq<char> {
    match last {
        Some(t) => t,
        None => Seq::empty(),
    }
}

/// `syn::parse_file`: whether the text is a Rust file and, if so, its items in
/// their order. The result is a function of the text. A text nested so deeply
/// that the parser runs out of stack is left unsaid, and so is a thread whose
/// earlier texts leave the 32-bit counter of characters too little room for this
/// one.
#[verifier::external_body]
fn parse_file(src: &str) -> (r: Option<Vec<Item>>)
    requires
        src@.len() <= MAX_SOURCE,
    ensures
        match r {
            Some(items) => parsed(src@) == Some(items_model(items@)),
            None => parsed(src@) is None,
        },
{
    syn::parse_file(src).ok().map(|f| f.items)
}

/// `syn::Item`, the variants whose name alone is read and that always have one:
/// which one it is, and the identifier in it.
#[verifier::external_body]
fn named_parts(i: &Item) -> (r: Option<(NamedKind, &Ident)>)
    ensures
        match r {
            Some((k, id)) => {
                &&& item_model(*i) matches DeclView::Named { kind, name, .. }
                &&& k == kind
                &&& name == Some(ident_model(*id))
            },
            None => item_model(*i) matches DeclView::Named { kind, .. } ==> kind is Macro,
        },
{
    match i {
        Item::Struct(s) => Some((NamedKind::Struct, &s.ident)),
        Item::Enum(e) => Some((NamedKind::Enum, &e.ident)),
        Item::Union(u) => Some((NamedKind::Union, &u.ident)),
        Item::Fn(f) => Some((NamedKind::Fn, &f.sig.ident)),
        Item::Type(t) => Some((NamedKind::Type, &t.ident)),
        Item::Const(c) => Some((NamedKind::Const, &c.ident)),
        Item::Static(s) => Some((NamedKind::Static, &s.ident)),
        _ => None,
    }
}

/// `syn::Item`, the other variants that are read: the fields of each.
#[verifier::external_body]
fn nested_parts(i: &Item) -> (r: Parts<'_>)
    ensures
        match r {
            Parts::Macro(id) => {
                &&& item_model(*i) matches DeclView::Named { kind, name, .. }
                &&& kind is Macro
                &&& match id {
                    Some(id) => name == Some(ident_model(*id)),
                    None => name is None,
                }
            },
            Parts::Trait(id, ms) => {
                &&& item_model(*i) matches DeclView::Trait { name, members, .. }
                &&& name == ident_model(*id)
                &&& members == trait_items_model(ms@)
            },
            Parts::Impl(ty, tr, ms) => {
                &&& item_model(*i) matches DeclView::Impl { self_name, trait_name, members, .. }
                &&& self_name == type_last(*ty)
                &&& match tr {
                    Some(p) => trait_name == Some(tail_text(path_last(*p))),
                    None => trait_name is None,
                }
                &&& members == impl_items_model(ms@)
            },
            Parts::Mod(id, c) => {
                &&& item_model(*i) matches DeclView::Mod { name, content }
                &&& name == ident_text(*id)
                &&& match c {
                    Some(v) => content == Some(items_model(v@)),
                    None => content is None,
                }
            },
            Parts::Use(t) => item_model(*i) == DeclView::Use(use_model(*t)),
            Parts::Other => match item_model(*i) {
                DeclView::Named { kind, .. } => !(kind is Macro),
                m => m is Other,
            },
        },
{
    match i {
        Item::Macro(m) => Parts::Macro(m.ident.as_ref()),
        Item::Trait(t) => Parts::Trait(&t.ident, &t.items),
        Item::Impl(m) => Parts::Impl(&m.self_ty, m.trait_.as_ref().map(|t| &t.1), &m.items),
        Item::Mod(m) => Parts::Mod(&m.ident, m.content.as_ref().map(|c| &c.1)),
        Item::Use(u) => Parts::Use(&u.tree),
        _ => Parts::Other,
    }
}

/// `syn::spanned::Spanned::span` of an item: from its first token to its last.
#[verifier::external_body]
fn item_span(i: &Item) -> (r: Span)
    ensures
        decl_lines(item_model(*i)) matches Some(l) ==> l == span_lines(r),
{
    syn::spanned::Spanned::span(i)
}

/// `syn::ImplItem`, the variants that are read: which one it is, and its
/// identifier.
#[verifier::external_body]
fn impl_item_parts(i: &ImplItem) -> (r: Option<(MemberKind, &Ident)>)
    ensures
        match r {
            Some((k, id)) => {
                &&& impl_item_model(*i) matches MemberView::Named { kind, name, .. }
                &&& k == kind
                &&& name == ident_model(*id)
            },
            None => impl_item_model(*i) is Other,
        },
{
    match i {
        ImplItem::Fn(f) => Some((MemberKind::Fn, &f.sig.ident)),
        ImplItem::Type(t) => Some((MemberKind::Type, &t.ident)),
        ImplItem::Const(c) => Some((MemberKind::Const, &c.ident)),
        _ => None,
    }
}

/// `syn::spanned::Spanned::span` of a member of an impl.
#[verifier::external_body]
fn impl_item_span(i: &ImplItem) -> (r: Span)
    ensures
        member_lines(impl_item_model(*i)) matches Some(l) ==> l == span_lines(r),
{
    syn::spanned::Spanned::span(i)
}

/// `syn::TraitItem`, the variants that are read: which one it is, and its
/// identifier.
#[verifier::external_body]
fn trait_item_parts(i: &TraitItem) -> (r: Option<(MemberKind, &Ident)>)
    ensures
        match r {
            Some((k, id)) => {
                &&& trait_item_model(*i) matches MemberView::Named { kind, name, .. }
                &&& k == kind
                &&& name == ident_model(*id)
            },
            None => trait_item_model(*i) is Other,
        },
{
    match i {
        TraitItem::Fn(f) => Some((MemberKind::Fn, &f.sig.ident)),
        TraitItem::Type(t) => Some((MemberKind::Type, &t.ident)),
        TraitItem::Const(c) => Some((MemberKind::Const, &c.ident)),
        _ => None,
    }
}

/// `syn::spanned::Spanned::span` of a member of a trait.
#[verifier::external_body]
fn trait_item_span(i: &TraitItem) -> (r: Span)
    ensures
        member_lines(trait_item_model(*i)) matches Some(l) ==> l == span_lines(r),
{
    syn::spanned::Spanned::span(i)
}

/// `syn::UseTree`: which variant it is, and its fields.
#[verifier::external_body]
fn use_parts(t: &UseTree) -> (r: UseParts<'_>)
    ensures
        use_model(*t) == match r {
            UseParts::Path(id, rest) => ImportView::Path(
                ident_text(*id),
                Box::new(use_model(*rest)),
            ),
            UseParts::Name(id) => ImportView::Name(ident_text(*id)),
            UseParts::Rename(id) => ImportView::Rename(ident_text(*id)),
            UseParts::Glob => ImportView::Glob,
            UseParts::Group(v) => ImportView::Group(uses_model(v@)),
        },
{
    match t {
        UseTree::Path(p) => UseParts::Path(&p.ident, &p.tree),
        UseTree::Name(n) => UseParts::Name(&n.ident),
        UseTree::Rename(r) => UseParts::Rename(&r.ident),
        UseTree::Glob(_) => UseParts::Glob,
        UseTree::Group(g) => UseParts::Group(g.items.iter().collect()),
    }
}

/// `syn::Type`: the path, where the type is one.
#[verifier::external_body]
fn type_path(t: &Type) -> (r: Option<&Path>)
    ensures
        match r {
            Some(p) => type_last(*t) == path_last(*p),
            None => type_last(*t) is None,
        },
{
    match t {
        Type::Path(p) => Some(&p.path),
        _ => None,
    }
}

/// `syn::punctuated::Punctuated::last` of the segments of a path: the
/// identifier of the last segment.
#[verifier::external_body]
fn last_ident(p: &Path) -> (r: Option<&Ident>)
    ensures
        match r {
            Some(id) => path_last(*p) == Some(ident_text(*id)),
            None => path_last(*p) is None,
        },
{
    p.segments.last().map(|s| &s.ident)
}

/// `proc_macro2::Ident`'s `Display`: the text of the identifier, with `r#` in
/// front of a raw one.
#[verifier::external_body]
fn text_of(i: &Ident) -> (r: String)
    ensures
        r@ == ident_text(*i),
{
    i.to_string()
}

/// `proc_macro2::Ident::span`.
#[verifier::external_body]
fn span_of(i: &Ident) -> (r: Span)
    ensures
        span_start(r) == ident_place(*i),
{
    i.span()
}

/// `proc_macro2::Span::start`: the line and the column. The column counts the
/// characters before it on its line, and a thread's characters are numbered
/// with 32 bits.
#[verifier::external_body]
fn start_of(s: &Span) -> (r: (usize, usize))
    ensures
        r == span_start(*s),
        r.1 < u32::MAX,
{
    let start = s.start();
    (start.line, start.column)
}

/// `proc_macro2::Span::end`: the line.
#[verifier::external_body]
fn end_line_of(s: &Span) -> (r: usize)
    ensures
        r == span_end_line(*s),
{
    s.end().line
}

/// `TokenStream::from_str`: whether the text is made of Rust tokens and, if so,
/// its tokens. The result is a function of the text, with the limits of
/// [`parse_file`].
#[verifier::external_body]
fn lex(src: &str) -> (r: Option<TokenStream>)
    requires
        src@.len() <= MAX_SOURCE,
    ensures
        match r {
            Some(ts) => lexed(src@) == Some(stream_model(ts)),
            None => lexed(src@) is None,
        },
{
    src.parse::<TokenStream>().ok()
}

/// `TokenStream`'s `IntoIterator`: the tokens in their order.
#[verifier::external_body]
fn tokens_of(ts: TokenStream) -> (r: Vec<TokenTree>)
    ensures
        tokens_model(r@) == stream_model(ts),
{
    ts.into_iter().collect()
}

/// `proc_macro2::TokenTree`: an identifier, the stream of a group, or another
/// token.
#[verifier::external_body]
fn token_parts(t: TokenTree) -> (r: TokenParts)
    ensures
        token_model(t) == match r {
            TokenParts::Ident(id) => TokenView::Ident(ident_text(id)),
            TokenParts::Group(ts) => TokenView::Group(stream_model(ts)),
            TokenParts::Other => TokenView::Other,
        },
{
    match t {
        TokenTree::Ident(i) => TokenParts::Ident(i),
        TokenTree::Group(g) => TokenParts::Group(g.stream()),
        _ => TokenParts::Other,
    }
}

// --- conversion ----------------------------------------------------------------

fn name_of(i: &Ident) -> (r: Name)
    ensures
        r@ == ident_model(*i),
{
    let (line, column) = start_of(&span_of(i));
    Name { text: text_of(i), line, col: column + 1 }
}

fn lines_of(s: &Span) -> (r: Lines)
    ensures
        r == span_lines(*s),
{
    let (start, _) = start_of(s);
    Lines { start, end: end_line_of(s) }
}

/// The text of the last segment of a path, empty where it has none.
fn path_tail(p: &Path) -> (r: String)
    ensures
        r@ == tail_text(path_last(*p)),
{
    match last_ident(p) {
        Some(id) => text_of(id),
        None => String::new(),
    }
}

/// The text of the last segment of a type that is a path.
fn self_type_name(t: &Type) -> (r: Option<String>)
    ensures
        text::opt_text(r) == type_last(*t),
{
    match type_path(t) {
        Some(p) => match last_ident(p) {
            Some(id) => Some(text_of(id)),
            None => None,
        },
        None => None,
    }
}

fn convert_impl_member(i: &ImplItem) -> (r: Member)
    ensures
        r@ == impl_item_model(*i),
{
    match impl_item_parts(i) {
        Some((kind, id)) => Member::Named {
            kind,
            name: name_of(id),
            lines: lines_of(&impl_item_span(i)),
        },
        None => Member::Other,
    }
}

fn convert_trait_member(i: &TraitItem) -> (r: Member)
    ensures
        r@ == trait_item_model(*i),
{
    match trait_item_parts(i) {
        Some((kind, id)) => Member::Named {
            kind,
            name: name_of(id),
            lines: lines_of(&trait_item_span(i)),
        },
        None => Member::Other,
    }
}

fn convert_impl_members(v: &Vec<ImplItem>) -> (r: Vec<Member>)
    ensures
        members_view(r@) == impl_items_model(v@),
{
    let mut r: Vec<Member> = Vec::new();
    for k in 0..v.len()
        invariant
            members_view(r@) == impl_items_model(v@).take(k as int),
    {
        let ghost before = r@;
        r.push(convert_impl_member(&v[k]));
        proof {
            assert(members_view(r@) =~= members_view(before).push(impl_items_model(v@)[k as int]));
        }
    }
    r
}

fn convert_trait_members(v: &Vec<TraitItem>) -> (r: Vec<Member>)
    ensures
        members_view(r@) == trait_items_model(v@),
{
    let mut r: Vec<Member> = Vec::new();
    for k in 0..v.len()
        invariant
            members_view(r@) == trait_items_model(v@).take(k as int),
    {
        let ghost before = r@;
        r.push(convert_trait_member(&v[k]));
        proof {
            assert(members_view(r@) =~= members_view(before).push(trait_items_model(v@)[k as int]));
        }
    }
    r
}

fn convert_use(t: &UseTree) -> (r: ImportTree)
    ensures
        import_view(r) == use_model(*t),
    decreases use_model(*t),
{
    match use_parts(t) {
        UseParts::Path(id, rest) => {
            proof {
                assert(decreases_to!(use_model(*t) => use_model(*t)->Path_1));
            }
            ImportTree::Path(text_of(id), Box::new(convert_use(rest)))
        },
        UseParts::Name(id) => ImportTree::Name(text_of(id)),
        UseParts::Rename(id) => ImportTree::Rename(text_of(id)),
        UseParts::Glob => ImportTree::Glob,
        UseParts::Group(v) => {
            let mut r: Vec<ImportTree> = Vec::new();
            let ghost ms = uses_model(v@);
            proof {
                assert(decreases_to!(use_model(*t) => use_model(*t)->Group_0));
            }
            for k in 0..v.len()
                invariant
                    ms == uses_model(v@),
                    use_model(*t) == ImportView::Group(ms),
                    decreases_to!(use_model(*t) => ms),
                    imports_view(r@) == ms.take(k as int),
            {
                proof {
                    assert(decreases_to!(ms => ms[k as int]));
                }
                let ghost before = r@;
                r.push(convert_use(v[k]));
                proof {
                    assert(imports_view(r@) =~= imports_view(before).push(ms[k as int]));
                }
            }
            proof {
                assert(ms.take(ms.len() as int) =~= ms);
            }
            ImportTree::Group(r)
        },
    }
}

fn convert(i: &Item) -> (r: Decl)
    ensures
        decl_view(r) == item_model(*i),
    decreases item_model(*i), 0int,
{
    match named_parts(i) {
        Some((kind, id)) => return Decl::Named {
            kind,
            name: Some(name_of(id)),
            lines: lines_of(&item_span(i)),
        },
        None => {},
    }
    match nested_parts(i) {
        Parts::Macro(id) => Decl::Named {
            kind: NamedKind::Macro,
            name: match id {
                Some(id) => Some(name_of(id)),
                None => None,
            },
            lines: lines_of(&item_span(i)),
        },
        Parts::Trait(id, ms) => Decl::Trait {
            name: name_of(id),
            lines: lines_of(&item_span(i)),
            members: convert_trait_members(ms),
        },
        Parts::Impl(ty, tr, ms) => Decl::Impl {
            self_name: self_type_name(ty),
            trait_name: match tr {
                Some(p) => Some(path_tail(p)),
                None => None,
            },
            lines: lines_of(&item_span(i)),
            members: convert_impl_members(ms),
        },
        Parts::Mod(id, Some(v)) => {
            proof {
                let c = item_model(*i)->Mod_content;
                assert(decreases_to!(item_model(*i) => c));
                assert(decreases_to!(c => c->0));
            }
            Decl::Mod { name: text_of(id), content: Some(convert_all(v)) }
        },
        Parts::Mod(id, None) => Decl::Mod { name: text_of(id), content: None },
        Parts::Use(t) => Decl::Use(convert_use(t)),
        Parts::Other => Decl::Other,
    }
}

fn convert_all(v: &Vec<Item>) -> (r: Vec<Decl>)
    ensures
        decls_view(r@) == items_model(v@),
    decreases items_model(v@), 1int,
{
    let mut r: Vec<Decl> = Vec::new();
    let ghost ms = items_model(v@);
    for k in 0..v.len()
        invariant
            ms == items_model(v@),
            decls_view(r@) == ms.take(k as int),
    {
        proof {
            assert(decreases_to!(ms => ms[k as int]));
        }
        let ghost before = r@;
        r.push(convert(&v[k]));
        proof {
            assert(decls_view(r@) =~= decls_view(before).push(ms[k as int]));
        }
    }
    r
}

/// The items of a Rust file, or `None` where `src` is none.
pub fn parse_source(src: &str) -> (r: Option<Vec<Decl>>)
    ensures
        match r {
            Some(items) => source_items(src@) == Some(decls_view(items@)),
            None => source_items(src@) is None,
        },
{
    if src.unicode_len() > MAX_SOURCE {
        return None;
    }
    match parse_file(src) {
        Some(items) => Some(convert_all(&items)),
        None => None,
    }
}

// --- identifiers -----------------------------------------------------------------

/// The identifiers among tokens, those inside groups included, in the order of
/// the text.
pub open spec fn token_idents(ts: Seq<TokenView>) -> Seq<Seq<char>>
    decreases ts,
{
    if ts.len() == 0 {
        Seq::empty()
    } else {
        token_idents(ts.drop_last()) + match ts[ts.len() - 1] {
            TokenView::Ident(text) => seq![text],
            TokenView::Group(inner) => token_idents(inner),
            TokenView::Other => Seq::empty(),
        }
    }
}

/// The identifiers of a source; none where it cannot be lexed.
pub open spec fn source_idents(src: Seq<char>) -> Seq<Seq<char>> {
    match source_tokens(src) {
        Some(ts) => token_idents(ts),
        None => Seq::empty(),
    }
}

/// Puts the identifiers of a token stream into `out`.
fn walk_tokens(ts: TokenStream, out: &mut NameSet)
    ensures
        final(out)@ == order::put_all(old(out)@, token_idents(stream_model(ts))),
    decreases stream_model(ts),
{
    let ghost ms = stream_model(ts);
    let ghost before = out@;
    let tokens = tokens_of(ts);
    proof {
        assert(ms.take(0) =~= Seq::empty());
    }
    for t in it: tokens
        invariant
            it.seq() == tokens@,
            tokens_model(tokens@) == ms,
            ms == stream_model(ts),
            out@ == order::put_all(before, token_idents(ms.take(it.index() as int))),
    {
        let ghost k = it.index() as int;
        proof {
            assert(ms[k] == token_model(t));
            assert(ms.take(k + 1).drop_last() =~= ms.take(k));
            assert(decreases_to!(ms => ms[k]));
        }
        match token_parts(t) {
            TokenParts::Ident(i) => {
                out.insert(text_of(&i));
                proof {
                    let name = ident_text(i);
                    let a = token_idents(ms.take(k));
                    assert((a + seq![name]).drop_last() =~= a);
                }
            },
            TokenParts::Group(g) => {
                proof {
                    assert(decreases_to!(ms[k] => ms[k]->Group_0));
                }
                walk_tokens(g, out);
                proof {
                    order::lemma_put_all_add(
                        before,
                        token_idents(ms.take(k)),
                        token_idents(stream_model(g)),
                    );
                }
            },
            TokenParts::Other => {
                proof {
                    let a = token_idents(ms.take(k));
                    assert(a + Seq::<Seq<char>>::empty() =~= a);
                }
            },
        }
    }
    proof {
        assert(ms.take(ms.len() as int) =~= ms);
    }
}

/// Puts every identifier of `src` into `out`. Keywords are identifiers here.
pub fn collect_idents(src: &str, out: &mut NameSet)
    ensures
        final(out)@ == order::put_all(old(out)@, source_idents(src@)),
{
    if src.unicode_len() > MAX_SOURCE {
        return;
    }
    match lex(src) {
        Some(ts) => walk_tokens(ts, out),
        None => {},
    }
}

// --- what is collected -------------------------------------------------------------------------

/// Whether the tokens at position `j + 1` of `lists` are those of a group among the
/// tokens at `j`.
pub open spec fn grouped_next(lists: Seq<Seq<TokenView>>, j: int) -> bool {
    lists[j].contains(TokenView::Group(lists[j + 1]))
}

/// Whether each of `lists` is a group among the tokens before it.
pub open spec fn grouped(lists: Seq<Seq<TokenView>>) -> bool {
    lists.len() > 0 && forall|j: int| 0 <= j < lists.len() - 1 ==> #[trigger] grouped_next(lists, j)
}

proof fn lemma_ident_down(ts: Seq<TokenView>, x: Seq<char>) -> (lists: Seq<Seq<TokenView>>)
    requires
        token_idents(ts).contains(x),
    ensures
        grouped(lists),
        lists[0] == ts,
        lists.last().contains(TokenView::Ident(x)),
    decreases ts,
{
    let front = ts.drop_last();
    let t = ts[ts.len() - 1];
    let own = match t {
        TokenView::Ident(text) => seq![text],
        TokenView::Group(inner) => token_idents(inner),
        TokenView::Other => Seq::empty(),
    };
    assert(token_idents(ts) == token_idents(front) + own);
    text::lemma_add_contains(token_idents(front), own, x);
    assert forall|u: TokenView| #[trigger] front.contains(u) implies ts.contains(u) by {
        let k = choose|k: int| 0 <= k < front.len() && front[k] == u;
        assert(ts[k] == u);
    }
    if token_idents(front).contains(x) {
        let before = lemma_ident_down(front, x);
        let lists = before.update(0, ts);
        assert forall|j: int| 0 <= j < lists.len() - 1 implies #[trigger] grouped_next(
            lists,
            j,
        ) by {
            assert(grouped_next(before, j));
        }
        if before.len() == 1 {
            assert(front.contains(TokenView::Ident(x)));
        }
        lists
    } else {
        match t {
            TokenView::Ident(name) => {
                assert(name == x);
                assert(ts.contains(TokenView::Ident(x)));
                seq![ts]
            },
            TokenView::Group(inner) => {
                let below = lemma_ident_down(inner, x);
                let lists = seq![ts] + below;
                assert forall|j: int| 0 <= j < lists.len() - 1 implies #[trigger] grouped_next(
                    lists,
                    j,
                ) by {
                    if j > 0 {
                        assert(grouped_next(below, j - 1));
                        assert(lists[j] == below[j - 1] && lists[j + 1] == below[j]);
                    } else {
                        assert(lists[1] == inner);
                        assert(ts.contains(t));
                    }
                }
                lists
            },
            TokenView::Other => seq![ts],
        }
    }
}

proof fn lemma_idents_hold(ts: Seq<TokenView>, k: int, x: Seq<char>)
    requires
        0 <= k < ts.len(),
        match ts[k] {
            TokenView::Ident(name) => name == x,
            TokenView::Group(inner) => token_idents(inner).contains(x),
            TokenView::Other => false,
        },
    ensures
        token_idents(ts).contains(x),
    decreases ts.len(),
{
    let front = ts.drop_last();
    let t = ts[ts.len() - 1];
    let own = match t {
        TokenView::Ident(text) => seq![text],
        TokenView::Group(inner) => token_idents(inner),
        TokenView::Other => Seq::empty(),
    };
    assert(token_idents(ts) == token_idents(front) + own);
    text::lemma_add_contains(token_idents(front), own, x);
    if k < ts.len() - 1 {
        assert(front[k] == ts[k]);
        lemma_idents_hold(front, k, x);
    } else if t is Ident {
        assert(own[0] == x);
    }
}

proof fn lemma_ident_up(lists: Seq<Seq<TokenView>>, x: Seq<char>)
    requires
        grouped(lists),
        lists.last().contains(TokenView::Ident(x)),
    ensures
        token_idents(lists[0]).contains(x),
    decreases lists.len(),
{
    let ts = lists[0];
    if lists.len() == 1 {
        let k = choose|k: int| 0 <= k < ts.len() && ts[k] == TokenView::Ident(x);
        lemma_idents_hold(ts, k, x);
    } else {
        let rest = lists.drop_first();
        assert forall|j: int| 0 <= j < rest.len() - 1 implies #[trigger] grouped_next(rest, j) by {
            assert(grouped_next(lists, j + 1));
            assert(rest[j] == lists[j + 1] && rest[j + 1] == lists[j + 2]);
        }
        lemma_ident_up(rest, x);
        assert(grouped_next(lists, 0));
        let k = choose|k: int| 0 <= k < ts.len() && ts[k] == TokenView::Group(lists[1]);
        lemma_idents_hold(ts, k, x);
    }
}

/// The identifiers of a source are those of its tokens, however deep in groups they
/// stand; no other text is one, and a source that cannot be lexed has none.
pub proof fn law_all_identifiers_are_collected(src: Seq<char>, x: Seq<char>)
    ensures
        source_idents(src).contains(x) <==> (src.len() <= MAX_SOURCE && lexed(src) is Some
            && exists|lists: Seq<Seq<TokenView>>| #[trigger]
            grouped(lists) && lists[0] == lexed(src)->Some_0 && lists.last().contains(
                TokenView::Ident(x),
            )),
{
    if src.len() <= MAX_SOURCE && lexed(src) is Some {
        let ts = lexed(src)->Some_0;
        if token_idents(ts).contains(x) {
            let lists = lemma_ident_down(ts, x);
            assert(grouped(lists));
        }
        if exists|lists: Seq<Seq<TokenView>>| #[trigger]
            grouped(lists) && lists[0] == ts && lists.last().contains(TokenView::Ident(x)) {
            let lists = choose|lists: Seq<Seq<TokenView>>| #[trigger]
                grouped(lists) && lists[0] == ts && lists.last().contains(TokenView::Ident(x));
            lemma_ident_up(lists, x);
        }
    }
}

} // verus!
