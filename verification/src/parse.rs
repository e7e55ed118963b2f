//! Rust item extraction: a brace-formatted summary of the items that a source
//! defines: structs, enums, traits, impls, fns, consts, statics, type aliases
//! and macros.

use vstd::prelude::*;

use crate::names::NameSet;
use crate::syntax::{parse_source, Decl, Lines, Member, MemberKind, NamedKind};
use crate::{order, syntax, text};

verus! {

#[derive(Debug, Clone, Copy)]
pub struct ParseOptions {
    /// Annotate every parsed symbol with `:start-end` source line ranges.
    pub lines: bool,
}

impl Default for ParseOptions {
    fn default() -> (r: ParseOptions)
        ensures
            !r.lines,
    {
        ParseOptions { lines: false }
    }
}

// --- what is rendered --------------------------------------------------------

/// `:start-end`, where ranges are asked for.
pub open spec fn range_text(lines: Lines, with_lines: bool) -> Seq<char> {
    if with_lines {
        ":"@ + text::decimal(lines.start as nat) + "-"@ + text::decimal(lines.end as nat)
    } else {
        Seq::empty()
    }
}

/// `kind name:start-end`.
pub open spec fn named_text(
    kind: Seq<char>,
    name: Seq<char>,
    lines: Lines,
    with_lines: bool,
) -> Seq<char> {
    kind + " "@ + name + range_text(lines, with_lines)
}

/// `header { a, b }`, or the header alone where there is nothing to list.
pub open spec fn braced(header: Seq<char>, members: Seq<Seq<char>>) -> Seq<char> {
    if members.len() == 0 {
        header
    } else {
        header + " { "@ + text::join(members, ", "@) + " }"@
    }
}

pub open spec fn kind_word(kind: NamedKind) -> Seq<char> {
    match kind {
        NamedKind::Struct => "struct"@,
        NamedKind::Enum => "enum"@,
        NamedKind::Union => "union"@,
        NamedKind::Fn => "fn"@,
        NamedKind::Type => "type"@,
        NamedKind::Const => "const"@,
        NamedKind::Static => "static"@,
        NamedKind::Macro => "macro"@,
    }
}

pub open spec fn member_word(kind: MemberKind) -> Seq<char> {
    match kind {
        MemberKind::Fn => "fn"@,
        MemberKind::Type => "type"@,
        MemberKind::Const => "const"@,
    }
}

/// The fns, types and consts among members, in their order.
pub open spec fn member_texts(members: Seq<syntax::MemberView>, with_lines: bool) -> Seq<Seq<char>>
    decreases members.len(),
{
    if members.len() == 0 {
        Seq::empty()
    } else {
        let rest = member_texts(members.drop_last(), with_lines);
        match members.last() {
            syntax::MemberView::Named { kind, name, lines } => rest.push(
                named_text(member_word(kind), name.text, lines, with_lines),
            ),
            syntax::MemberView::Other => rest,
        }
    }
}

/// The name of an item that inherent methods can be merged into.
pub open spec fn local_name(d: syntax::DeclView) -> Option<Seq<char>> {
    match d {
        syntax::DeclView::Named { kind, name: Some(name), .. } => if kind == NamedKind::Struct
            || kind == NamedKind::Enum || kind == NamedKind::Union {
            Some(name.text)
        } else {
            None
        },
        syntax::DeclView::Trait { name, .. } => Some(name.text),
        _ => None,
    }
}

/// The names of the structs, enums, unions and traits among items, in their
/// order.
pub open spec fn local_names(items: Seq<syntax::DeclView>) -> Seq<Seq<char>>
    decreases items.len(),
{
    if items.len() == 0 {
        Seq::empty()
    } else {
        let rest = local_names(items.drop_last());
        match local_name(items.last()) {
            Some(name) => rest.push(name),
            None => rest,
        }
    }
}

/// The members of all inherent impls of `name` among items.
pub open spec fn inherent_members(
    items: Seq<syntax::DeclView>,
    name: Seq<char>,
    with_lines: bool,
) -> Seq<Seq<char>>
    decreases items.len(),
{
    if items.len() == 0 {
        Seq::empty()
    } else {
        let rest = inherent_members(items.drop_last(), name, with_lines);
        match items.last() {
            syntax::DeclView::Impl {
                self_name: Some(n),
                trait_name: None,
                members,
                ..
            } => if n == name {
                rest + member_texts(members, with_lines)
            } else {
                rest
            },
            _ => rest,
        }
    }
}

/// The members merged into the item at position `i`: those of the inherent
/// impls of its name, where no earlier item has that name.
pub open spec fn merged_members(
    items: Seq<syntax::DeclView>,
    i: int,
    name: Seq<char>,
    with_lines: bool,
) -> Seq<Seq<char>> {
    if local_names(items.take(i)).contains(name) {
        Seq::empty()
    } else {
        inherent_members(items, name, with_lines)
    }
}

/// The entry of the item at position `i`, if it has one.
pub open spec fn entry(items: Seq<syntax::DeclView>, i: int, with_lines: bool) -> Option<
    Seq<char>,
> {
    match items[i] {
        syntax::DeclView::Named { kind, name: Some(name), lines } => {
            let header = named_text(kind_word(kind), name.text, lines, with_lines);
            if local_name(items[i]) is Some {
                Some(braced(header, merged_members(items, i, name.text, with_lines)))
            } else {
                Some(header)
            }
        },
        syntax::DeclView::Trait { name, lines, members } => Some(
            braced(
                named_text("trait"@, name.text, lines, with_lines),
                member_texts(members, with_lines) + merged_members(
                    items,
                    i,
                    name.text,
                    with_lines,
                ),
            ),
        ),
        syntax::DeclView::Impl { self_name: Some(self_name), trait_name, lines, members } => {
            let methods = member_texts(members, with_lines);
            match trait_name {
                None => if local_names(items).contains(self_name) {
                    None
                } else {
                    Some(braced(named_text("impl"@, self_name, lines, with_lines), methods))
                },
                Some(t) => Some(
                    braced(
                        "impl "@ + t + " for "@ + self_name + range_text(lines, with_lines),
                        methods,
                    ),
                ),
            }
        },
        _ => None,
    }
}

/// The entries of the first `n` items.
pub open spec fn entries(items: Seq<syntax::DeclView>, n: int, with_lines: bool) -> Seq<Seq<char>>
    decreases n,
{
    if n <= 0 {
        Seq::empty()
    } else {
        let rest = entries(items, n - 1, with_lines);
        match entry(items, n - 1, with_lines) {
            Some(e) => rest.push(e),
            None => rest,
        }
    }
}

/// The summary of items, or `None` where none of them has an entry.
pub open spec fn summary(items: Seq<syntax::DeclView>, with_lines: bool) -> Option<Seq<char>> {
    let all = entries(items, items.len() as int, with_lines);
    if all.len() == 0 {
        None
    } else {
        Some(text::join(all, ", "@))
    }
}

/// The summary of a source, or `None` where it is no Rust file or has no entry.
pub open spec fn source_summary(src: Seq<char>, with_lines: bool) -> Option<Seq<char>> {
    match syntax::source_items(src) {
        Some(items) => summary(items, with_lines),
        None => None,
    }
}

// --- rendering -----------------------------------------------------------------

fn range(lines: Lines, options: ParseOptions) -> (r: String)
    ensures
        r@ == range_text(lines, options.lines),
{
    let mut s = String::new();
    if options.lines {
        s.append(":");
        s.append(text::decimal_of(lines.start).as_str());
        s.append("-");
        s.append(text::decimal_of(lines.end).as_str());
    }
    s
}

fn fmt_named(kind: &str, name: &str, lines: Lines, options: ParseOptions) -> (r: String)
    ensures
        r@ == named_text(kind@, name@, lines, options.lines),
{
    let mut s = String::new();
    s.append(kind);
    s.append(" ");
    s.append(name);
    s.append(range(lines, options).as_str());
    s
}

fn fmt_braced(header: String, members: &Vec<String>) -> (r: String)
    ensures
        r@ == braced(header@, text::texts(members@)),
{
    if members.len() == 0 {
        return header;
    }
    let mut s = header;
    s.append(" { ");
    s.append(text::join_strings(members, ", ").as_str());
    s.append(" }");
    s
}

/// The word for a kind of items.
pub fn kind_str(kind: NamedKind) -> (r: &'static str)
    ensures
        r@ == kind_word(kind),
{
    match kind {
        NamedKind::Struct => "struct",
        NamedKind::Enum => "enum",
        NamedKind::Union => "union",
        NamedKind::Fn => "fn",
        NamedKind::Type => "type",
        NamedKind::Const => "const",
        NamedKind::Static => "static",
        NamedKind::Macro => "macro",
    }
}

fn member_str(kind: MemberKind) -> (r: &'static str)
    ensures
        r@ == member_word(kind),
{
    match kind {
        MemberKind::Fn => "fn",
        MemberKind::Type => "type",
        MemberKind::Const => "const",
    }
}

/// Appends the rendered members to `out`.
fn push_members(members: &Vec<Member>, options: ParseOptions, out: &mut Vec<String>)
    ensures
        text::texts(final(out)@) == text::texts(old(out)@) + member_texts(
            syntax::members_view(members@),
            options.lines,
        ),
{
    let ghost ms = syntax::members_view(members@);
    let ghost before = text::texts(out@);
    proof {
        assert(ms.take(0) =~= Seq::empty());
        assert(before + Seq::<Seq<char>>::empty() =~= before);
    }
    for k in 0..members.len()
        invariant
            ms == syntax::members_view(members@),
            text::texts(out@) == before + member_texts(ms.take(k as int), options.lines),
    {
        proof {
            assert(ms.take(k + 1).drop_last() =~= ms.take(k as int));
            assert(ms[k as int] == members@[k as int]@);
        }
        let ghost prev = out@;
        match &members[k] {
            Member::Named { kind, name, lines } => {
                out.push(fmt_named(member_str(*kind), name.text.as_str(), *lines, options));
                proof {
                    assert(text::texts(out@) =~= text::texts(prev).push(out@.last()@));
                }
            },
            Member::Other => {},
        }
    }
    proof {
        assert(ms.take(ms.len() as int) =~= ms);
    }
}

/// The rendered members of all inherent impls of `name`.
fn inherent(items: &Vec<Decl>, name: &str, options: ParseOptions) -> (r: Vec<String>)
    ensures
        text::texts(r@) == inherent_members(syntax::decls_view(items@), name@, options.lines),
{
    let ghost ds = syntax::decls_view(items@);
    let mut r: Vec<String> = Vec::new();
    proof {
        assert(ds.take(0) =~= Seq::empty());
        assert(text::texts(r@) =~= Seq::empty());
    }
    for k in 0..items.len()
        invariant
            ds == syntax::decls_view(items@),
            text::texts(r@) == inherent_members(ds.take(k as int), name@, options.lines),
    {
        proof {
            assert(ds.take(k + 1).drop_last() =~= ds.take(k as int));
            assert(ds[k as int] == syntax::decl_view(items@[k as int]));
        }
        match &items[k] {
            Decl::Impl { self_name: Some(n), trait_name: None, members, .. } => {
                if text::same_text(n.as_str(), name) {
                    push_members(members, options, &mut r);
                }
            },
            _ => {},
        }
    }
    proof {
        assert(ds.take(ds.len() as int) =~= ds);
    }
    r
}

/// The name of an item that inherent methods can be merged into.
fn local_name_of(d: &Decl) -> (r: Option<&str>)
    ensures
        text::opt_str(r) == local_name(syntax::decl_view(*d)),
{
    match d {
        Decl::Named { kind, name: Some(name), .. } => {
            if *kind == NamedKind::Struct || *kind == NamedKind::Enum || *kind
                == NamedKind::Union {
                Some(name.text.as_str())
            } else {
                None
            }
        },
        Decl::Trait { name, .. } => Some(name.text.as_str()),
        _ => None,
    }
}

/// The names of the structs, enums, unions and traits among items.
fn local_types(items: &Vec<Decl>) -> (r: NameSet)
    ensures
        r@ == order::collected(local_names(syntax::decls_view(items@))),
{
    let ghost ds = syntax::decls_view(items@);
    let mut r = NameSet::new();
    proof {
        assert(ds.take(0) =~= Seq::empty());
    }
    for k in 0..items.len()
        invariant
            ds == syntax::decls_view(items@),
            r@ == order::collected(local_names(ds.take(k as int))),
    {
        add_type(&items[k], &mut r, Ghost(ds), Ghost(k as int));
    }
    proof {
        assert(ds.take(ds.len() as int) =~= ds);
    }
    r
}

/// Puts the name of an item that methods can be merged into into `out`.
fn add_type(
    d: &Decl,
    out: &mut NameSet,
    Ghost(ds): Ghost<Seq<syntax::DeclView>>,
    Ghost(k): Ghost<int>,
)
    requires
        0 <= k < ds.len(),
        ds[k] == syntax::decl_view(*d),
        old(out)@ == order::collected(local_names(ds.take(k))),
    ensures
        final(out)@ == order::collected(local_names(ds.take(k + 1))),
{
    proof {
        assert(ds.take(k + 1).drop_last() =~= ds.take(k));
    }
    match local_name_of(d) {
        Some(name) => {
            out.insert(name.to_owned());
            proof {
                let a = local_names(ds.take(k));
                assert(a.push(name@).drop_last() =~= a);
            }
        },
        None => {},
    }
}

/// The entry of the item at position `i`; `local` holds the names of all
/// structs, enums, unions and traits, `seen` those before position `i`.
fn render_entry(
    items: &Vec<Decl>,
    i: usize,
    local: &NameSet,
    seen: &NameSet,
    options: ParseOptions,
) -> (r: Option<String>)
    requires
        i < items.len(),
        local@ == order::collected(local_names(syntax::decls_view(items@))),
        seen@ == order::collected(local_names(syntax::decls_view(items@).take(i as int))),
    ensures
        text::opt_text(r) == entry(syntax::decls_view(items@), i as int, options.lines),
{
    let ghost ds = syntax::decls_view(items@);
    proof {
        assert(ds[i as int] == syntax::decl_view(items@[i as int]));
        order::lemma_collected_contains(local_names(ds));
        order::lemma_collected_contains(local_names(ds.take(i as int)));
    }
    match &items[i] {
        Decl::Named { kind, name: Some(name), lines } => {
            let header = fmt_named(kind_str(*kind), name.text.as_str(), *lines, options);
            if *kind == NamedKind::Struct || *kind == NamedKind::Enum || *kind
                == NamedKind::Union {
                let merged = if seen.contains(name.text.as_str()) {
                    Vec::new()
                } else {
                    inherent(items, name.text.as_str(), options)
                };
                proof {
                    assert(text::texts(merged@) =~= merged_members(
                        ds,
                        i as int,
                        name.text@,
                        options.lines,
                    ));
                }
                Some(fmt_braced(header, &merged))
            } else {
                Some(header)
            }
        },
        Decl::Trait { name, lines, members } => {
            let header = fmt_named("trait", name.text.as_str(), *lines, options);
            let mut all: Vec<String> = Vec::new();
            push_members(members, options, &mut all);
            let ghost own = text::texts(all@);
            if !seen.contains(name.text.as_str()) {
                let mut merged = inherent(items, name.text.as_str(), options);
                all.append(&mut merged);
            }
            proof {
                assert(own =~= member_texts(syntax::members_view(members@), options.lines));
                assert(text::texts(all@) =~= own + merged_members(
                    ds,
                    i as int,
                    name.text@,
                    options.lines,
                ));
            }
            Some(fmt_braced(header, &all))
        },
        Decl::Impl { self_name: Some(self_name), trait_name, lines, members } => {
            let mut methods: Vec<String> = Vec::new();
            push_members(members, options, &mut methods);
            proof {
                assert(text::texts(methods@) =~= member_texts(
                    syntax::members_view(members@),
                    options.lines,
                ));
            }
            match trait_name {
                None => {
                    if local.contains(self_name.as_str()) {
                        return None;
                    }
                    let header = fmt_named("impl", self_name.as_str(), *lines, options);
                    Some(fmt_braced(header, &methods))
                },
                Some(trait_name) => {
                    let mut header = String::new();
                    header.append("impl ");
                    header.append(trait_name.as_str());
                    header.append(" for ");
                    header.append(self_name.as_str());
                    header.append(range(*lines, options).as_str());
                    Some(fmt_braced(header, &methods))
                },
            }
        },
        _ => None,
    }
}

/// Renders items, or `None` where none of them has an entry.
pub fn render_items(items: &Vec<Decl>, options: ParseOptions) -> (r: Option<String>)
    ensures
        text::opt_text(r) == summary(syntax::decls_view(items@), options.lines),
{
    let ghost ds = syntax::decls_view(items@);
    let local = local_types(items);
    let mut seen = NameSet::new();
    let mut parts: Vec<String> = Vec::new();
    proof {
        assert(ds.take(0) =~= Seq::empty());
        assert(text::texts(parts@) =~= Seq::empty());
    }
    for k in 0..items.len()
        invariant
            ds == syntax::decls_view(items@),
            local@ == order::collected(local_names(ds)),
            seen@ == order::collected(local_names(ds.take(k as int))),
            text::texts(parts@) == entries(ds, k as int, options.lines),
    {
        let ghost prev = parts@;
        match render_entry(items, k, &local, &seen, options) {
            Some(e) => {
                parts.push(e);
                proof {
                    assert(text::texts(parts@) =~= text::texts(prev).push(e@));
                }
            },
            None => {},
        }
        add_type(&items[k], &mut seen, Ghost(ds), Ghost(k as int));
    }
    if parts.len() == 0 {
        None
    } else {
        Some(text::join_strings(&parts, ", "))
    }
}

/// Renders the items of a Rust source, or `None` where it cannot be parsed or
/// none of its items has an entry.
pub fn render_str(src: &str, options: ParseOptions) -> (r: Option<String>)
    ensures
        text::opt_text(r) == source_summary(src@, options.lines),
{
    match parse_source(src) {
        Some(items) => render_items(&items, options),
        None => None,
    }
}

// --- what a summary holds --------------------------------------------------------

/// Asking for line ranges changes no choice: the same items have entries, and
/// there is a summary with ranges exactly if there is one without.
pub proof fn law_ranges_only_annotate(items: Seq<syntax::DeclView>)
    ensures
        forall|i: int|
            0 <= i < items.len() ==> (#[trigger] entry(items, i, true) is Some <==> entry(
                items,
                i,
                false,
            ) is Some),
        summary(items, true) is Some <==> summary(items, false) is Some,
{
    lemma_same_entries(items, items.len() as int);
}

proof fn lemma_same_entries(items: Seq<syntax::DeclView>, n: int)
    ensures
        entries(items, n, true).len() == entries(items, n, false).len(),
    decreases n,
{
    if n > 0 {
        lemma_same_entries(items, n - 1);
    }
}

proof fn lemma_local_names(items: Seq<syntax::DeclView>, name: Seq<char>)
    ensures
        local_names(items).contains(name) <==> exists|i: int|
            0 <= i < items.len() && local_name(#[trigger] items[i]) == Some(name),
    decreases items.len(),
{
    if items.len() > 0 {
        let rest = items.drop_last();
        lemma_local_names(rest, name);
        if let Some(n) = local_name(items.last()) {
            text::lemma_push_contains(local_names(rest), n, name);
        }
        let l = items.len() - 1;
        if local_name(items[l]) == Some(name) {
            assert(exists|i: int|
                0 <= i < items.len() && local_name(#[trigger] items[i]) == Some(name));
        }
        if local_names(rest).contains(name) {
            let i = choose|i: int|
                0 <= i < rest.len() && local_name(#[trigger] rest[i]) == Some(name);
            assert(local_name(items[i]) == Some(name));
        }
        if exists|i: int| 0 <= i < items.len() && local_name(#[trigger] items[i]) == Some(name) {
            let i = choose|i: int|
                0 <= i < items.len() && local_name(#[trigger] items[i]) == Some(name);
            if i < l {
                assert(local_name(rest[i]) == Some(name));
            }
        }
    }
}

/// The first item of a local name.
proof fn lemma_first_local(items: Seq<syntax::DeclView>, name: Seq<char>, i: int) -> (j: int)
    requires
        0 <= i < items.len(),
        local_name(items[i]) == Some(name),
    ensures
        0 <= j <= i,
        local_name(items[j]) == Some(name),
        !local_names(items.take(j)).contains(name),
    decreases i,
{
    lemma_local_names(items.take(i), name);
    if local_names(items.take(i)).contains(name) {
        let k = choose|k: int|
            0 <= k < items.take(i).len() && local_name(#[trigger] items.take(i)[k]) == Some(name);
        assert(items.take(i)[k] == items[k]);
        lemma_first_local(items, name, k)
    } else {
        i
    }
}

proof fn lemma_inherent_members(
    items: Seq<syntax::DeclView>,
    i: int,
    name: Seq<char>,
    with_lines: bool,
    m: Seq<char>,
)
    requires
        0 <= i < items.len(),
        items[i] matches syntax::DeclView::Impl { self_name, trait_name, members, .. }
            && self_name == Some(name) && trait_name is None && member_texts(
            members,
            with_lines,
        ).contains(m),
    ensures
        inherent_members(items, name, with_lines).contains(m),
    decreases items.len(),
{
    let rest = items.drop_last();
    let before = inherent_members(rest, name, with_lines);
    let all = inherent_members(items, name, with_lines);
    if i < rest.len() {
        lemma_inherent_members(rest, i, name, with_lines, m);
        let k = choose|k: int| 0 <= k < before.len() && before[k] == m;
        assert(all[k] == m);
    } else {
        let own = member_texts(items[i]->Impl_members, with_lines);
        let k = choose|k: int| 0 <= k < own.len() && own[k] == m;
        assert(all[before.len() + k] == m);
    }
}

/// No method is lost, and none is listed twice: the members of an inherent impl
/// are merged into the first type of its name in the file and into no other,
/// and where there is none the impl has an entry of its own.
pub proof fn law_methods_are_listed(
    items: Seq<syntax::DeclView>,
    i: int,
    name: Seq<char>,
    with_lines: bool,
)
    requires
        0 <= i < items.len(),
        items[i] matches syntax::DeclView::Impl { self_name, trait_name, .. } && self_name == Some(
            name,
        ) && trait_name is None,
    ensures
        local_names(items).contains(name) ==> entry(items, i, with_lines) is None && exists|j: int|
            {
                &&& 0 <= j < items.len()
                &&& local_name(#[trigger] items[j]) == Some(name)
                &&& forall|m: Seq<char>| #[trigger]
                    member_texts(items[i]->Impl_members, with_lines).contains(m)
                        ==> merged_members(items, j, name, with_lines).contains(m)
                &&& forall|k: int|
                    j < k < items.len() && local_name(#[trigger] items[k]) == Some(name)
                        ==> merged_members(items, k, name, with_lines).len() == 0
            },
        !local_names(items).contains(name) ==> entry(items, i, with_lines) == Some(
            braced(
                named_text("impl"@, name, items[i]->Impl_lines, with_lines),
                member_texts(items[i]->Impl_members, with_lines),
            ),
        ),
{
    if local_names(items).contains(name) {
        lemma_local_names(items, name);
        let f = choose|f: int|
            0 <= f < items.len() && local_name(#[trigger] items[f]) == Some(name);
        let j = lemma_first_local(items, name, f);
        let merged = merged_members(items, j, name, with_lines);
        assert forall|m: Seq<char>| #[trigger]
            member_texts(items[i]->Impl_members, with_lines).contains(m) implies merged.contains(
            m,
        ) by {
            lemma_inherent_members(items, i, name, with_lines, m);
        }
        assert forall|k: int|
            j < k < items.len() && local_name(#[trigger] items[k]) == Some(name) implies
            merged_members(items, k, name, with_lines).len() == 0 by {
            lemma_local_names(items.take(k), name);
            assert(items.take(k)[j] == items[j]);
        }
        assert(local_name(items[j]) == Some(name));
    }
}

// --- ranges --------------------------------------------------------------------

/// A symbol of a summary: its word, its name and its lines.
pub struct Symbol {
    pub word: Seq<char>,
    pub name: Seq<char>,
    pub lines: Lines,
}

/// An entry of a summary: its own symbol and those in its braces.
pub struct Shown {
    pub head: Symbol,
    pub members: Seq<Symbol>,
}

pub open spec fn symbol_text(s: Symbol, with_lines: bool) -> Seq<char> {
    named_text(s.word, s.name, s.lines, with_lines)
}

pub open spec fn symbol_texts(ss: Seq<Symbol>, with_lines: bool) -> Seq<Seq<char>> {
    ss.map_values(|s: Symbol| symbol_text(s, with_lines))
}

pub open spec fn shown_text(e: Shown, with_lines: bool) -> Seq<char> {
    braced(symbol_text(e.head, with_lines), symbol_texts(e.members, with_lines))
}

pub open spec fn shown_texts(es: Seq<Shown>, with_lines: bool) -> Seq<Seq<char>> {
    es.map_values(|e: Shown| shown_text(e, with_lines))
}

/// The symbols of the fns, types and consts among members.
pub open spec fn shown_members(members: Seq<syntax::MemberView>) -> Seq<Symbol>
    decreases members.len(),
{
    if members.len() == 0 {
        Seq::empty()
    } else {
        let rest = shown_members(members.drop_last());
        match members.last() {
            syntax::MemberView::Named { kind, name, lines } => rest.push(
                Symbol { word: member_word(kind), name: name.text, lines },
            ),
            syntax::MemberView::Other => rest,
        }
    }
}

/// The symbols of all inherent impls of `name` among items.
pub open spec fn shown_inherent(items: Seq<syntax::DeclView>, name: Seq<char>) -> Seq<Symbol>
    decreases items.len(),
{
    if items.len() == 0 {
        Seq::empty()
    } else {
        let rest = shown_inherent(items.drop_last(), name);
        match items.last() {
            syntax::DeclView::Impl {
                self_name: Some(n),
                trait_name: None,
                members,
                ..
            } => if n == name {
                rest + shown_members(members)
            } else {
                rest
            },
            _ => rest,
        }
    }
}

/// The symbols merged into the item at position `i`.
pub open spec fn shown_merged(
    items: Seq<syntax::DeclView>,
    i: int,
    name: Seq<char>,
) -> Seq<Symbol> {
    if local_names(items.take(i)).contains(name) {
        Seq::empty()
    } else {
        shown_inherent(items, name)
    }
}

/// What is shown of the item at position `i`, if it has an entry.
pub open spec fn shown_entry(items: Seq<syntax::DeclView>, i: int) -> Option<Shown> {
    match items[i] {
        syntax::DeclView::Named { kind, name: Some(name), lines } => Some(
            Shown {
                head: Symbol { word: kind_word(kind), name: name.text, lines },
                members: if local_name(items[i]) is Some {
                    shown_merged(items, i, name.text)
                } else {
                    Seq::empty()
                },
            },
        ),
        syntax::DeclView::Trait { name, lines, members } => Some(
            Shown {
                head: Symbol { word: "trait"@, name: name.text, lines },
                members: shown_members(members) + shown_merged(items, i, name.text),
            },
        ),
        syntax::DeclView::Impl { self_name: Some(self_name), trait_name, lines, members } => {
            match trait_name {
                None => if local_names(items).contains(self_name) {
                    None
                } else {
                    Some(
                        Shown {
                            head: Symbol { word: "impl"@, name: self_name, lines },
                            members: shown_members(members),
                        },
                    )
                },
                Some(t) => Some(
                    Shown {
                        head: Symbol { word: "impl"@, name: t + " for "@ + self_name, lines },
                        members: shown_members(members),
                    },
                ),
            }
        },
        _ => None,
    }
}

/// What is shown of the first `n` items.
pub open spec fn shown(items: Seq<syntax::DeclView>, n: int) -> Seq<Shown>
    decreases n,
{
    if n <= 0 {
        Seq::empty()
    } else {
        let rest = shown(items, n - 1);
        match shown_entry(items, n - 1) {
            Some(e) => rest.push(e),
            None => rest,
        }
    }
}

/// The number of symbols in some entries.
pub open spec fn symbol_count(es: Seq<Shown>) -> nat
    decreases es.len(),
{
    if es.len() == 0 {
        0
    } else {
        symbol_count(es.drop_last()) + 1 + es.last().members.len()
    }
}

/// Whether no name among some entries holds a `:`.
pub open spec fn without_colons(es: Seq<Shown>) -> bool {
    forall|k: int|
        0 <= k < es.len() ==> !(#[trigger] es[k]).head.name.contains(':') && forall|m: int|
            0 <= m < es[k].members.len() ==> !(#[trigger] es[k].members[m]).name.contains(':')
}

/// Whether a text ends within a range: in what follows a `:` as long as there
/// are only digits and `-`.
pub open spec fn ends_in_range(s: Seq<char>) -> bool
    decreases s.len(),
{
    if s.len() == 0 {
        false
    } else if s.last() == ':' {
        true
    } else {
        (text::is_digit(s.last()) || s.last() == '-') && ends_in_range(s.drop_last())
    }
}

/// A text without its ranges: without each `:` and the digits and `-` after it.
pub open spec fn without_ranges(s: Seq<char>) -> Seq<char>
    decreases s.len(),
{
    if s.len() == 0 {
        Seq::empty()
    } else if ends_in_range(s) {
        without_ranges(s.drop_last())
    } else {
        without_ranges(s.drop_last()).push(s.last())
    }
}

/// How often `:` stands in a text.
pub open spec fn colon_count(s: Seq<char>) -> nat
    decreases s.len(),
{
    if s.len() == 0 {
        0
    } else if s.last() == ':' {
        colon_count(s.drop_last()) + 1
    } else {
        colon_count(s.drop_last())
    }
}

proof fn lemma_shown_members(members: Seq<syntax::MemberView>, with_lines: bool)
    ensures
        member_texts(members, with_lines) == symbol_texts(shown_members(members), with_lines),
    decreases members.len(),
{
    if members.len() > 0 {
        lemma_shown_members(members.drop_last(), with_lines);
    }
    assert(member_texts(members, with_lines) =~= symbol_texts(
        shown_members(members),
        with_lines,
    ));
}

proof fn lemma_shown_inherent(items: Seq<syntax::DeclView>, name: Seq<char>, with_lines: bool)
    ensures
        inherent_members(items, name, with_lines) == symbol_texts(
            shown_inherent(items, name),
            with_lines,
        ),
    decreases items.len(),
{
    if items.len() > 0 {
        lemma_shown_inherent(items.drop_last(), name, with_lines);
        if let syntax::DeclView::Impl { members, .. } = items.last() {
            lemma_shown_members(members, with_lines);
        }
    }
    assert(inherent_members(items, name, with_lines) =~= symbol_texts(
        shown_inherent(items, name),
        with_lines,
    ));
}

proof fn lemma_shown_merged(
    items: Seq<syntax::DeclView>,
    i: int,
    name: Seq<char>,
    with_lines: bool,
)
    ensures
        merged_members(items, i, name, with_lines) == symbol_texts(
            shown_merged(items, i, name),
            with_lines,
        ),
{
    lemma_shown_inherent(items, name, with_lines);
    assert(merged_members(items, i, name, with_lines) =~= symbol_texts(
        shown_merged(items, i, name),
        with_lines,
    ));
}

proof fn lemma_shown_entry(items: Seq<syntax::DeclView>, i: int, with_lines: bool)
    ensures
        entry(items, i, with_lines) == match shown_entry(items, i) {
            Some(e) => Some(shown_text(e, with_lines)),
            None => None,
        },
{
    match items[i] {
        syntax::DeclView::Named { kind, name: Some(name), lines } => {
            lemma_shown_merged(items, i, name.text, with_lines);
            assert(symbol_texts(Seq::empty(), with_lines).len() == 0);
        },
        syntax::DeclView::Trait { name, lines, members } => {
            let a = shown_members(members);
            let b = shown_merged(items, i, name.text);
            lemma_shown_members(members, with_lines);
            lemma_shown_merged(items, i, name.text, with_lines);
            assert(symbol_texts(a + b, with_lines) =~= symbol_texts(a, with_lines) + symbol_texts(
                b,
                with_lines,
            ));
        },
        syntax::DeclView::Impl { self_name: Some(self_name), trait_name, lines, members } => {
            lemma_shown_members(members, with_lines);
            if let Some(t) = trait_name {
                let r = range_text(lines, with_lines);
                reveal_strlit("impl ");
                reveal_strlit("impl");
                reveal_strlit(" ");
                assert("impl"@ + " "@ =~= "impl "@);
                assert("impl"@ + " "@ + (t + " for "@ + self_name) + r =~= "impl "@ + t + " for "@
                    + self_name + r);
            }
        },
        _ => {},
    }
}

/// The entries of a summary are what is shown of the items.
proof fn lemma_shown(items: Seq<syntax::DeclView>, n: int, with_lines: bool)
    ensures
        entries(items, n, with_lines) == shown_texts(shown(items, n), with_lines),
    decreases n,
{
    if n > 0 {
        lemma_shown(items, n - 1, with_lines);
        lemma_shown_entry(items, n - 1, with_lines);
    }
    assert(entries(items, n, with_lines) =~= shown_texts(shown(items, n), with_lines));
}

/// Whether a text can follow a range: it holds no `:`, and starts with neither a
/// digit nor `-`.
spec fn clean(t: Seq<char>) -> bool {
    t.len() > 0 && !t.contains(':') && !text::is_digit(t[0]) && t[0] != '-'
}

/// A text that can follow a range is kept as it is.
proof fn lemma_clean_kept(s: Seq<char>, t: Seq<char>)
    requires
        clean(t),
    ensures
        without_ranges(s + t) == without_ranges(s) + t,
        colon_count(s + t) == colon_count(s),
        !ends_in_range(s + t),
    decreases t.len(),
{
    let front = t.drop_last();
    assert(t.contains(t[t.len() - 1]));
    assert((s + t).drop_last() =~= s + front);
    if front.len() == 0 {
        assert(s + front =~= s);
        assert(without_ranges(s).push(t.last()) =~= without_ranges(s) + t);
    } else {
        if front.contains(':') {
            let i = choose|i: int| 0 <= i < front.len() && front[i] == ':';
            assert(t[i] == ':');
        }
        lemma_clean_kept(s, front);
        assert((without_ranges(s) + front).push(t.last()) =~= without_ranges(s) + t);
    }
}

/// Within a range, digits and `-` are left out.
proof fn lemma_range_cut(s: Seq<char>, t: Seq<char>)
    requires
        ends_in_range(s),
        forall|i: int| 0 <= i < t.len() ==> text::is_digit(#[trigger] t[i]) || t[i] == '-',
    ensures
        without_ranges(s + t) == without_ranges(s),
        colon_count(s + t) == colon_count(s),
        ends_in_range(s + t),
    decreases t.len(),
{
    if t.len() == 0 {
        assert(s + t =~= s);
    } else {
        lemma_range_cut(s, t.drop_last());
        assert((s + t).drop_last() =~= s + t.drop_last());
        assert(text::is_digit(t[t.len() - 1]) || t[t.len() - 1] == '-');
    }
}

proof fn lemma_decimal_digits(n: nat)
    ensures
        forall|i: int|
            0 <= i < text::decimal(n).len() ==> text::is_digit(#[trigger] text::decimal(n)[i]),
    decreases n,
{
    let d = text::decimal(n);
    if n >= 10 {
        let front = text::decimal(n / 10);
        lemma_decimal_digits(n / 10);
        assert forall|i: int| 0 <= i < d.len() implies text::is_digit(#[trigger] d[i]) by {
            if i < front.len() {
                assert(d[i] == front[i]);
            } else {
                assert(d[i] == text::digit((n % 10) as int));
            }
        }
    } else {
        assert(d[0] == text::digit(n as int));
    }
}

/// The word of a symbol and its name can follow a range.
proof fn lemma_symbol_clean(s: Symbol)
    requires
        symbol_worded(s),
        !s.name.contains(':'),
    ensures
        clean(symbol_text(s, false)),
{
    let t = symbol_text(s, false);
    reveal_strlit("struct");
    reveal_strlit("enum");
    reveal_strlit("union");
    reveal_strlit("fn");
    reveal_strlit("type");
    reveal_strlit("const");
    reveal_strlit("static");
    reveal_strlit("macro");
    reveal_strlit("trait");
    reveal_strlit("impl");
    reveal_strlit(" ");
    assert(t =~= s.word + " "@ + s.name);
    assert forall|i: int| 0 <= i < t.len() implies t[i] != ':' by {
        if i > s.word.len() {
            assert(t[i] == s.name[i - s.word.len() - 1]);
        }
    }
}

/// Whether the word of a symbol is one of those that a summary has.
spec fn symbol_worded(s: Symbol) -> bool {
    ||| s.word == "trait"@
    ||| s.word == "impl"@
    ||| exists|kind: NamedKind| s.word == #[trigger] kind_word(kind)
    ||| exists|kind: MemberKind| s.word == #[trigger] member_word(kind)
}

spec fn symbols_worded(ss: Seq<Symbol>) -> bool {
    forall|m: int| 0 <= m < ss.len() ==> symbol_worded(#[trigger] ss[m])
}

proof fn lemma_members_worded(members: Seq<syntax::MemberView>)
    ensures
        symbols_worded(shown_members(members)),
    decreases members.len(),
{
    if members.len() > 0 {
        lemma_members_worded(members.drop_last());
    }
}

proof fn lemma_inherent_worded(items: Seq<syntax::DeclView>, name: Seq<char>)
    ensures
        symbols_worded(shown_inherent(items, name)),
    decreases items.len(),
{
    if items.len() > 0 {
        lemma_inherent_worded(items.drop_last(), name);
        if let syntax::DeclView::Impl { members, .. } = items.last() {
            lemma_members_worded(members);
        }
    }
}

proof fn lemma_shown_worded(items: Seq<syntax::DeclView>, n: int, k: int)
    requires
        0 <= k < shown(items, n).len(),
    ensures
        symbol_worded(shown(items, n)[k].head),
        symbols_worded(shown(items, n)[k].members),
    decreases n,
{
    let rest = shown(items, n - 1);
    if k < rest.len() {
        lemma_shown_worded(items, n - 1, k);
    } else {
        match items[n - 1] {
            syntax::DeclView::Named { name: Some(name), .. } => {
                lemma_inherent_worded(items, name.text);
            },
            syntax::DeclView::Trait { name, members, .. } => {
                lemma_members_worded(members);
                lemma_inherent_worded(items, name.text);
            },
            syntax::DeclView::Impl { members, .. } => {
                lemma_members_worded(members);
            },
            _ => {},
        }
    }
}

/// The range of a symbol is cut, and the rest of it kept.
proof fn lemma_symbol_kept(before: Seq<char>, s: Symbol)
    requires
        symbol_worded(s),
        !s.name.contains(':'),
    ensures
        without_ranges(before + symbol_text(s, true)) == without_ranges(before) + symbol_text(
            s,
            false,
        ),
        colon_count(before + symbol_text(s, true)) == colon_count(before) + 1,
{
    let t = symbol_text(s, false);
    let a = before + t;
    let b = a + ":"@;
    let start = text::decimal(s.lines.start as nat);
    let end = text::decimal(s.lines.end as nat);
    let tail = start + "-"@ + end;
    reveal_strlit(":");
    reveal_strlit("-");
    lemma_symbol_clean(s);
    lemma_clean_kept(before, t);
    assert(b.drop_last() =~= a);
    lemma_decimal_digits(s.lines.start as nat);
    lemma_decimal_digits(s.lines.end as nat);
    lemma_range_cut(b, tail);
    assert(before + symbol_text(s, true) =~= b + tail);
}

proof fn lemma_members_kept(before: Seq<char>, ss: Seq<Symbol>)
    requires
        symbols_worded(ss),
        forall|m: int| 0 <= m < ss.len() ==> !(#[trigger] ss[m]).name.contains(':'),
    ensures
        without_ranges(before + text::join(symbol_texts(ss, true), ", "@)) == without_ranges(before)
            + text::join(symbol_texts(ss, false), ", "@),
        colon_count(before + text::join(symbol_texts(ss, true), ", "@)) == colon_count(before)
            + ss.len(),
    decreases ss.len(),
{
    let with = symbol_texts(ss, true);
    let plain = symbol_texts(ss, false);
    if ss.len() == 0 {
        assert(before + text::join(with, ", "@) =~= before);
        assert(without_ranges(before) + text::join(plain, ", "@) =~= without_ranges(before));
    } else {
        let front = ss.drop_last();
        let last = ss[ss.len() - 1];
        assert(symbol_worded(last) && !last.name.contains(':'));
        assert forall|m: int| 0 <= m < front.len() implies symbol_worded(#[trigger] front[m])
            && !front[m].name.contains(':') by {
            assert(front[m] == ss[m]);
        }
        if ss.len() == 1 {
            lemma_symbol_kept(before, last);
        } else {
            let a = before + text::join(symbol_texts(front, true), ", "@);
            lemma_members_kept(before, front);
            assert(with.drop_last() =~= symbol_texts(front, true));
            assert(plain.drop_last() =~= symbol_texts(front, false));
            lemma_comma_clean();
            lemma_clean_kept(a, ", "@);
            lemma_symbol_kept(a + ", "@, last);
            assert(before + text::join(with, ", "@) =~= a + ", "@ + symbol_text(last, true));
            assert(without_ranges(before) + text::join(plain, ", "@) =~= without_ranges(before)
                + text::join(symbol_texts(front, false), ", "@) + ", "@ + symbol_text(last, false));
        }
    }
}

proof fn lemma_comma_clean()
    ensures
        clean(", "@),
        clean(" { "@),
        clean(" }"@),
{
    reveal_strlit(", ");
    reveal_strlit(" { ");
    reveal_strlit(" }");
}

proof fn lemma_entry_kept(before: Seq<char>, e: Shown)
    requires
        symbol_worded(e.head),
        symbols_worded(e.members),
        !e.head.name.contains(':'),
        forall|m: int| 0 <= m < e.members.len() ==> !(#[trigger] e.members[m]).name.contains(':'),
    ensures
        without_ranges(before + shown_text(e, true)) == without_ranges(before) + shown_text(
            e,
            false,
        ),
        colon_count(before + shown_text(e, true)) == colon_count(before) + 1 + e.members.len(),
{
    lemma_symbol_kept(before, e.head);
    if e.members.len() > 0 {
        let a = before + symbol_text(e.head, true);
        let b = a + " { "@;
        let c = b + text::join(symbol_texts(e.members, true), ", "@);
        lemma_comma_clean();
        lemma_clean_kept(a, " { "@);
        lemma_members_kept(b, e.members);
        lemma_clean_kept(c, " }"@);
        assert(before + shown_text(e, true) =~= c + " }"@);
        assert(without_ranges(before) + shown_text(e, false) =~= without_ranges(before)
            + symbol_text(e.head, false) + " { "@ + text::join(
            symbol_texts(e.members, false),
            ", "@,
        ) + " }"@);
    }
}

proof fn lemma_entries_kept(es: Seq<Shown>)
    requires
        without_colons(es),
        forall|k: int|
            0 <= k < es.len() ==> symbol_worded((#[trigger] es[k]).head) && symbols_worded(
                es[k].members,
            ),
    ensures
        without_ranges(text::join(shown_texts(es, true), ", "@)) == text::join(
            shown_texts(es, false),
            ", "@,
        ),
        colon_count(text::join(shown_texts(es, true), ", "@)) == symbol_count(es),
    decreases es.len(),
{
    let with = shown_texts(es, true);
    let plain = shown_texts(es, false);
    if es.len() > 0 {
        let front = es.drop_last();
        let last = es[es.len() - 1];
        assert(symbol_worded(last.head) && symbols_worded(last.members));
        assert forall|k: int| 0 <= k < front.len() implies symbol_worded((#[trigger] front[k]).head)
            && symbols_worded(front[k].members) && !front[k].head.name.contains(':') && (forall|
            m: int,
        |
            0 <= m < front[k].members.len() ==> !(#[trigger] front[k].members[m]).name.contains(
                ':',
            )) by {
            assert(front[k] == es[k]);
        }
        lemma_entries_kept(front);
        if es.len() == 1 {
            let none: Seq<char> = Seq::empty();
            lemma_entry_kept(none, last);
            assert(none + shown_text(last, true) =~= with[0]);
            assert(none + shown_text(last, false) =~= plain[0]);
        } else {
            let a = text::join(shown_texts(front, true), ", "@);
            assert(with.drop_last() =~= shown_texts(front, true));
            assert(plain.drop_last() =~= shown_texts(front, false));
            lemma_comma_clean();
            lemma_clean_kept(a, ", "@);
            lemma_entry_kept(a + ", "@, last);
        }
    }
}

/// With ranges, a summary has exactly one for each symbol, and without them it is
/// what is left when they are deleted from it: `fn a:1-2` becomes `fn a`. No name
/// may hold a `:`, which would be taken for the start of a range.
pub proof fn law_ranges_can_be_deleted(items: Seq<syntax::DeclView>)
    requires
        without_colons(shown(items, items.len() as int)),
    ensures
        summary(items, false) == match summary(items, true) {
            Some(s) => Some(without_ranges(s)),
            None => None,
        },
        summary(items, true) matches Some(s) ==> colon_count(s) == symbol_count(
            shown(items, items.len() as int),
        ),
{
    let es = shown(items, items.len() as int);
    lemma_shown(items, items.len() as int, true);
    lemma_shown(items, items.len() as int, false);
    assert forall|k: int| 0 <= k < es.len() implies symbol_worded((#[trigger] es[k]).head)
        && symbols_worded(es[k].members) by {
        lemma_shown_worded(items, items.len() as int, k);
    }
    lemma_entries_kept(es);
}

/// A summary is made of the same symbols with and without ranges: each has its
/// word and its name, and with ranges its lines after that.
pub proof fn law_ranges_follow_symbols(items: Seq<syntax::DeclView>, with_lines: bool)
    ensures
        summary(items, with_lines) == if shown(items, items.len() as int).len() == 0 {
            None
        } else {
            Some(
                text::join(shown_texts(shown(items, items.len() as int), with_lines), ", "@),
            )
        },
{
    lemma_shown(items, items.len() as int, with_lines);
}

// --- entries -----------------------------------------------------------------------

proof fn lemma_member_texts(members: Seq<syntax::MemberView>, with_lines: bool)
    ensures
        member_texts(members, with_lines) == members.filter_map(
            |m: syntax::MemberView|
                match m {
                    syntax::MemberView::Named { kind, name, lines } => Some(
                        (match kind {
                            MemberKind::Fn => "fn"@,
                            MemberKind::Type => "type"@,
                            MemberKind::Const => "const"@,
                        }) + " "@ + name.text + if with_lines {
                            ":"@ + text::decimal(lines.start as nat) + "-"@ + text::decimal(
                                lines.end as nat,
                            )
                        } else {
                            Seq::empty()
                        },
                    ),
                    syntax::MemberView::Other => None,
                },
        ),
    decreases members.len(),
{
    if members.len() > 0 {
        lemma_member_texts(members.drop_last(), with_lines);
    }
}

proof fn lemma_inherent_exact(items: Seq<syntax::DeclView>, owner: Seq<char>, with_lines: bool)
    ensures
        inherent_members(items, owner, with_lines) == items.filter_map(
            |d: syntax::DeclView|
                match d {
                    syntax::DeclView::Impl { self_name, trait_name, members, .. } => if self_name
                        == Some(owner) && trait_name is None {
                        Some(
                            members.filter_map(
                                |m: syntax::MemberView|
                                    match m {
                                        syntax::MemberView::Named { kind, name, lines } => Some(
                                            (match kind {
                                                MemberKind::Fn => "fn"@,
                                                MemberKind::Type => "type"@,
                                                MemberKind::Const => "const"@,
                                            }) + " "@ + name.text + if with_lines {
                                                ":"@ + text::decimal(lines.start as nat) + "-"@
                                                    + text::decimal(lines.end as nat)
                                            } else {
                                                Seq::empty()
                                            },
                                        ),
                                        syntax::MemberView::Other => None,
                                    },
                            ),
                        )
                    } else {
                        None
                    },
                    _ => None,
                },
        ).flatten(),
    decreases items.len(),
{
    let pick = |d: syntax::DeclView|
        match d {
            syntax::DeclView::Impl { self_name, trait_name, members, .. } => if self_name == Some(
                owner,
            ) && trait_name is None {
                Some(
                    members.filter_map(
                        |m: syntax::MemberView|
                            match m {
                                syntax::MemberView::Named { kind, name, lines } => Some(
                                    (match kind {
                                        MemberKind::Fn => "fn"@,
                                        MemberKind::Type => "type"@,
                                        MemberKind::Const => "const"@,
                                    }) + " "@ + name.text + if with_lines {
                                        ":"@ + text::decimal(lines.start as nat) + "-"@
                                            + text::decimal(lines.end as nat)
                                    } else {
                                        Seq::empty()
                                    },
                                ),
                                syntax::MemberView::Other => None,
                            },
                    ),
                )
            } else {
                None
            },
            _ => None,
        };
    if items.len() > 0 {
        let rest = items.drop_last();
        let last = items.last();
        lemma_inherent_exact(rest, owner, with_lines);
        if let syntax::DeclView::Impl { members, .. } = last {
            lemma_member_texts(members, with_lines);
        }
        if let Some(own) = pick(last) {
            rest.filter_map(pick).lemma_flatten_push(own);
            assert(items.filter_map(pick) =~= rest.filter_map(pick).push(own));
        }
    } else {
        assert(items.filter_map(pick) =~= Seq::empty());
    }
}

/// What the summary of a file says of each item. Structs, enums, unions, fns,
/// type aliases, consts, statics and macros have an entry `kind name`, traits and
/// impls of traits one too. A struct, an enum, a union or a trait that is the
/// first of its name lists in braces the members of all inherent impls of that
/// name, a trait its own members before them. An inherent impl has an entry of
/// its own, `impl name`, only where the file has no such item of its name. Members
/// are listed as `kind name`, in the order of the source; each name is followed by
/// its lines where these are asked for. Nothing else has an entry.
pub proof fn law_entry_says_what_an_item_is(
    items: Seq<syntax::DeclView>,
    i: int,
    with_lines: bool,
)
    requires
        0 <= i < items.len(),
    ensures
        ({
            let at = |lines: Lines|
                if with_lines {
                    ":"@ + text::decimal(lines.start as nat) + "-"@ + text::decimal(
                        lines.end as nat,
                    )
                } else {
                    Seq::<char>::empty()
                };
            let listed = |members: Seq<syntax::MemberView>|
                members.filter_map(
                    |m: syntax::MemberView|
                        match m {
                            syntax::MemberView::Named { kind, name, lines } => Some(
                                (match kind {
                                    MemberKind::Fn => "fn"@,
                                    MemberKind::Type => "type"@,
                                    MemberKind::Const => "const"@,
                                }) + " "@ + name.text + if with_lines {
                                    ":"@ + text::decimal(lines.start as nat) + "-"@ + text::decimal(
                                        lines.end as nat,
                                    )
                                } else {
                                    Seq::empty()
                                },
                            ),
                            syntax::MemberView::Other => None,
                        },
                );
            let inherent = |owner: Seq<char>|
                items.filter_map(
                    |d: syntax::DeclView|
                        match d {
                            syntax::DeclView::Impl { self_name, trait_name, members, .. } => if self_name
                                == Some(owner) && trait_name is None {
                                Some(
                                    members.filter_map(
                                        |m: syntax::MemberView|
                                            match m {
                                                syntax::MemberView::Named {
                                                    kind,
                                                    name,
                                                    lines,
                                                } => Some(
                                                    (match kind {
                                                        MemberKind::Fn => "fn"@,
                                                        MemberKind::Type => "type"@,
                                                        MemberKind::Const => "const"@,
                                                    }) + " "@ + name.text + if with_lines {
                                                        ":"@ + text::decimal(lines.start as nat)
                                                            + "-"@ + text::decimal(
                                                            lines.end as nat,
                                                        )
                                                    } else {
                                                        Seq::empty()
                                                    },
                                                ),
                                                syntax::MemberView::Other => None,
                                            },
                                    ),
                                )
                            } else {
                                None
                            },
                            _ => None,
                        },
                ).flatten();
            let first = |owner: Seq<char>|
                forall|k: int|
                    0 <= k < i ==> match #[trigger] items[k] {
                        syntax::DeclView::Named { kind, name: Some(n), .. } => !((kind
                            == NamedKind::Struct || kind == NamedKind::Enum || kind
                            == NamedKind::Union) && n.text == owner),
                        syntax::DeclView::Trait { name, .. } => name.text != owner,
                        _ => true,
                    };
            let nowhere = |owner: Seq<char>|
                forall|k: int|
                    0 <= k < items.len() ==> match #[trigger] items[k] {
                        syntax::DeclView::Named { kind, name: Some(n), .. } => !((kind
                            == NamedKind::Struct || kind == NamedKind::Enum || kind
                            == NamedKind::Union) && n.text == owner),
                        syntax::DeclView::Trait { name, .. } => name.text != owner,
                        _ => true,
                    };
            let with_braces = |header: Seq<char>, list: Seq<Seq<char>>|
                if list.len() == 0 {
                    header
                } else {
                    header + " { "@ + text::join(list, ", "@) + " }"@
                };
            match items[i] {
                syntax::DeclView::Named { kind, name: Some(n), lines } => entry(
                    items,
                    i,
                    with_lines,
                ) == Some(
                    with_braces(
                        (match kind {
                            NamedKind::Struct => "struct"@,
                            NamedKind::Enum => "enum"@,
                            NamedKind::Union => "union"@,
                            NamedKind::Fn => "fn"@,
                            NamedKind::Type => "type"@,
                            NamedKind::Const => "const"@,
                            NamedKind::Static => "static"@,
                            NamedKind::Macro => "macro"@,
                        }) + " "@ + n.text + at(lines),
                        if (kind == NamedKind::Struct || kind == NamedKind::Enum || kind
                            == NamedKind::Union) && first(n.text) {
                            inherent(n.text)
                        } else {
                            Seq::empty()
                        },
                    ),
                ),
                syntax::DeclView::Trait { name, lines, members } => entry(items, i, with_lines)
                    == Some(
                    with_braces(
                        "trait"@ + " "@ + name.text + at(lines),
                        listed(members) + if first(name.text) {
                            inherent(name.text)
                        } else {
                            Seq::empty()
                        },
                    ),
                ),
                syntax::DeclView::Impl { self_name: Some(n), trait_name, lines, members } => entry(
                    items,
                    i,
                    with_lines,
                ) == match trait_name {
                    Some(t) => Some(
                        with_braces("impl "@ + t + " for "@ + n + at(lines), listed(members)),
                    ),
                    None => if nowhere(n) {
                        Some(with_braces("impl"@ + " "@ + n + at(lines), listed(members)))
                    } else {
                        None
                    },
                },
                _ => entry(items, i, with_lines) is None,
            }
        }),
{
    match items[i] {
        syntax::DeclView::Named { kind, name: Some(n), lines } => {
            lemma_earlier(items, i, n.text);
            lemma_inherent_exact(items, n.text, with_lines);
        },
        syntax::DeclView::Trait { name, lines, members } => {
            lemma_earlier(items, i, name.text);
            lemma_inherent_exact(items, name.text, with_lines);
            lemma_member_texts(members, with_lines);
        },
        syntax::DeclView::Impl { self_name: Some(n), trait_name, lines, members } => {
            lemma_earlier(items, items.len() as int, n);
            assert(items.take(items.len() as int) =~= items);
            lemma_member_texts(members, with_lines);
        },
        _ => {},
    }
}

/// A local name occurs among the first items exactly if one of them has it.
proof fn lemma_earlier(items: Seq<syntax::DeclView>, i: int, owner: Seq<char>)
    requires
        0 <= i <= items.len(),
    ensures
        !local_names(items.take(i)).contains(owner) <==> forall|k: int|
            0 <= k < i ==> match #[trigger] items[k] {
                syntax::DeclView::Named { kind, name: Some(n), .. } => !((kind == NamedKind::Struct
                    || kind == NamedKind::Enum || kind == NamedKind::Union) && n.text == owner),
                syntax::DeclView::Trait { name, .. } => name.text != owner,
                _ => true,
            },
{
    let front = items.take(i);
    lemma_local_names(front, owner);
    assert forall|k: int| 0 <= k < i implies #[trigger] items[k] == front[k] by {}
    if local_names(front).contains(owner) {
        let k = choose|k: int|
            0 <= k < front.len() && local_name(#[trigger] front[k]) == Some(owner);
        assert(items[k] == front[k]);
    } else {
        assert forall|k: int| 0 <= k < i implies match #[trigger] items[k] {
            syntax::DeclView::Named { kind, name: Some(n), .. } => !((kind == NamedKind::Struct
                || kind == NamedKind::Enum || kind == NamedKind::Union) && n.text == owner),
            syntax::DeclView::Trait { name, .. } => name.text != owner,
            _ => true,
        } by {
            assert(local_name(front[k]) != Some(owner));
        }
    }
}

/// The summary of a file is the entries of its items in their order, with commas
/// between; there is none where no item has an entry.
pub proof fn law_summary_lists_all_entries(items: Seq<syntax::DeclView>, with_lines: bool)
    ensures
        ({
            let all = Seq::new(items.len(), |i: int| i).filter_map(
                |i: int| entry(items, i, with_lines),
            );
            summary(items, with_lines) == if all.len() == 0 {
                None
            } else {
                Some(text::join(all, ", "@))
            }
        }),
{
    lemma_entries_exact(items, items.len(), with_lines);
}

proof fn lemma_entries_exact(items: Seq<syntax::DeclView>, n: nat, with_lines: bool)
    ensures
        entries(items, n as int, with_lines) == Seq::new(n, |i: int| i).filter_map(
            |i: int| entry(items, i, with_lines),
        ),
    decreases n,
{
    let places = Seq::new(n, |i: int| i);
    let f = |i: int| entry(items, i, with_lines);
    if n > 0 {
        let front = Seq::new((n - 1) as nat, |i: int| i);
        lemma_entries_exact(items, (n - 1) as nat, with_lines);
        assert(places.drop_last() =~= front);
        assert(places.last() == n - 1);
        assert(entries(items, n as int, with_lines) =~= places.filter_map(f));
    } else {
        assert(places.filter_map(f) =~= Seq::empty());
    }
}

} // verus!
