//! The full source body of a Rust item by name.
//!
//! A symbol is resolved to the lines of its definition, and the file is sliced
//! by them.
//!
//! Name forms:
//!   - `foo`           matches by trailing identifier (any kind)
//!   - `Foo::bar`      the member `bar` of the type or the trait `Foo`
//!
//! If a name is ambiguous, all matches are printed with headers and a blank
//! line between.

use vstd::prelude::*;
use vstd::slice::slice_subrange;

use crate::refs::{file_idents, miss, SourceFile};
use crate::similar::suggest;
use crate::syntax::{parse_source, Decl, Lines, Member, MemberKind, NamedKind};
use crate::{order, parse, refs, similar, syntax, text};

verus! {

#[derive(Debug)]
pub struct BodyOptions {
    /// Symbol to print. Accepts `name` or `Type::method`.
    pub name: String,
    /// Filter by item kind: fn, method, struct, enum, union, trait, impl,
    /// const, static, type, macro. None = any.
    pub kind: Option<String>,
}

/// A definition that matches a name.
#[derive(Debug)]
pub struct Match {
    pub file: String,
    pub kind: &'static str,
    /// Display name (e.g. `Foo::bar` for impl methods, `Debug for Foo` for
    /// trait-impl blocks).
    pub name: String,
    pub start: usize,
    pub end: usize,
}

/// What a [`Match`] holds.
pub struct MatchView {
    pub file: Seq<char>,
    pub kind: Seq<char>,
    pub name: Seq<char>,
    pub start: usize,
    pub end: usize,
}

impl View for Match {
    type V = MatchView;

    open spec fn view(&self) -> MatchView {
        MatchView {
            file: self.file@,
            kind: self.kind@,
            name: self.name@,
            start: self.start,
            end: self.end,
        }
    }
}

pub open spec fn matches_view(v: Seq<Match>) -> Seq<MatchView> {
    v.map_values(|m: Match| m@)
}

// --- names ---------------------------------------------------------------------------------

/// The last position at or before `i` at which `needle` stands in `s`, or -1.
pub open spec fn last_at(s: Seq<char>, needle: Seq<char>, i: int) -> int
    decreases i + 1,
{
    if i < 0 {
        -1
    } else if text::occurs_at(s, needle, i) {
        i
    } else {
        last_at(s, needle, i - 1)
    }
}

/// `Type::name` as `Type` and `name`, at the last `::`. A name without `::`, or
/// with nothing on one side of it, has no type.
pub open spec fn name_parts(s: Seq<char>) -> (Option<Seq<char>>, Seq<char>) {
    let at = last_at(s, "::"@, s.len() as int);
    if 0 < at && at + 2 < s.len() {
        (Some(s.take(at)), s.skip(at + 2))
    } else {
        (None, s)
    }
}

/// Splits `Type::name` into the type and the name.
pub fn split_name(s: &str) -> (r: (Option<String>, String))
    ensures
        (text::opt_text(r.0), r.1@) == name_parts(s@),
{
    let chars = text::to_chars(s);
    let sep = text::to_chars("::");
    let len: usize = chars.len();
    let mut i: usize = len;
    loop
        invariant
            chars@ == s@,
            sep@ == "::"@,
            i <= len == chars.len(),
            last_at(s@, "::"@, len as int) == last_at(s@, "::"@, i as int),
        decreases i,
    {
        if text::occurs(chars.as_slice(), sep.as_slice(), i) {
            proof {
                reveal_strlit("::");
            }
            if i > 0 && len - i > 2 {
                let t = text::from_chars(slice_subrange(chars.as_slice(), 0, i));
                let n = text::from_chars(slice_subrange(chars.as_slice(), i + 2, len));
                proof {
                    assert(t@ =~= s@.take(i as int));
                    assert(n@ =~= s@.skip(i + 2));
                }
                return (Some(t), n);
            }
            return (None, s.to_owned());
        }
        if i == 0 {
            proof {
                assert(last_at(s@, "::"@, -1) == -1);
            }
            return (None, s.to_owned());
        }
        i = i - 1;
    }
}

// --- matches -------------------------------------------------------------------------------

pub open spec fn match_at(
    file: Seq<char>,
    kind: Seq<char>,
    name: Seq<char>,
    lines: Lines,
) -> MatchView {
    MatchView { file, kind, name, start: lines.start, end: lines.end }
}

/// The methods named `target` of a trait.
pub open spec fn trait_methods(
    members: Seq<syntax::MemberView>,
    trait_name: Seq<char>,
    target: Seq<char>,
    file: Seq<char>,
) -> Seq<MatchView>
    decreases members.len(),
{
    if members.len() == 0 {
        Seq::empty()
    } else {
        let rest = trait_methods(members.drop_last(), trait_name, target, file);
        match members.last() {
            syntax::MemberView::Named { kind, name, lines } => if kind == MemberKind::Fn
                && name.text == target {
                rest.push(match_at(file, "method"@, trait_name + "::"@ + target, lines))
            } else {
                rest
            },
            syntax::MemberView::Other => rest,
        }
    }
}

/// The members named `target` of an impl, shown as `shown`.
pub open spec fn impl_members(
    members: Seq<syntax::MemberView>,
    shown: Seq<char>,
    target: Seq<char>,
    file: Seq<char>,
) -> Seq<MatchView>
    decreases members.len(),
{
    if members.len() == 0 {
        Seq::empty()
    } else {
        let rest = impl_members(members.drop_last(), shown, target, file);
        match members.last() {
            syntax::MemberView::Named { kind, name, lines } => if name.text == target {
                rest.push(match_at(file, refs::impl_member_word(kind), shown, lines))
            } else {
                rest
            },
            syntax::MemberView::Other => rest,
        }
    }
}

/// The name under which an impl block is found: the type, or `Trait for Type`.
pub open spec fn impl_name(self_name: Seq<char>, trait_name: Option<Seq<char>>) -> Seq<char> {
    match trait_name {
        Some(t) => t + " for "@ + self_name,
        None => self_name,
    }
}

/// The matches of one trait: the trait itself where no type is asked for, and
/// its methods where no other one is.
pub open spec fn trait_matches(
    name: Seq<char>,
    lines: Lines,
    members: Seq<syntax::MemberView>,
    target: Seq<char>,
    type_filter: Option<Seq<char>>,
    file: Seq<char>,
) -> Seq<MatchView> {
    (if type_filter is None && name == target {
        seq![match_at(file, "trait"@, target, lines)]
    } else {
        Seq::empty()
    }) + (if type_filter is None || type_filter == Some(name) {
        trait_methods(members, name, target, file)
    } else {
        Seq::empty()
    })
}

/// The matches of one impl: the block itself where no type is asked for and the
/// type, the trait or `Trait for Type` is the target, and its members where no
/// other type is.
pub open spec fn impl_matches(
    self_name: Option<Seq<char>>,
    trait_name: Option<Seq<char>>,
    lines: Lines,
    members: Seq<syntax::MemberView>,
    target: Seq<char>,
    type_filter: Option<Seq<char>>,
    file: Seq<char>,
) -> Seq<MatchView> {
    (match self_name {
        Some(n) => if type_filter is None && (impl_name(n, trait_name) == target || trait_name
            == Some(target)) {
            seq![match_at(file, "impl"@, impl_name(n, trait_name), lines)]
        } else {
            Seq::empty()
        },
        None => Seq::empty(),
    }) + (if type_filter is None || self_name == type_filter {
        impl_members(
            members,
            match self_name {
                Some(n) => n + "::"@ + target,
                None => target,
            },
            target,
            file,
        )
    } else {
        Seq::empty()
    })
}

/// The matches among items, those in inline modules included.
pub open spec fn matches(
    items: Seq<syntax::DeclView>,
    target: Seq<char>,
    type_filter: Option<Seq<char>>,
    file: Seq<char>,
) -> Seq<MatchView>
    decreases items,
{
    if items.len() == 0 {
        Seq::empty()
    } else {
        matches(items.drop_last(), target, type_filter, file) + match items[items.len() - 1] {
            syntax::DeclView::Named { kind, name: Some(name), lines } => if type_filter is None
                && name.text == target {
                seq![match_at(file, parse::kind_word(kind), target, lines)]
            } else {
                Seq::empty()
            },
            syntax::DeclView::Trait { name, lines, members } => trait_matches(
                name.text,
                lines,
                members,
                target,
                type_filter,
                file,
            ),
            syntax::DeclView::Impl { self_name, trait_name, lines, members } => impl_matches(
                self_name,
                trait_name,
                lines,
                members,
                target,
                type_filter,
                file,
            ),
            syntax::DeclView::Mod { content: Some(inner), .. } => matches(
                inner,
                target,
                type_filter,
                file,
            ),
            _ => Seq::empty(),
        }
    }
}

fn push(out: &mut Vec<Match>, file: &str, kind: &'static str, name: &str, lines: Lines)
    ensures
        matches_view(final(out)@) == matches_view(old(out)@).push(
            match_at(file@, kind@, name@, lines),
        ),
{
    let ghost before = out@;
    out.push(
        Match {
            file: file.to_owned(),
            kind,
            name: name.to_owned(),
            start: lines.start,
            end: lines.end,
        },
    );
    proof {
        assert(matches_view(out@) =~= matches_view(before).push(
            match_at(file@, kind@, name@, lines),
        ));
    }
}

fn same_filter(name: &str, filter: Option<&str>) -> (r: bool)
    ensures
        r == (text::opt_str(filter) == Some(name@)),
{
    match filter {
        Some(f) => text::same_text(f, name),
        None => false,
    }
}

fn collect_trait(
    name: &str,
    lines: Lines,
    members: &Vec<Member>,
    target: &str,
    type_filter: Option<&str>,
    file: &str,
    out: &mut Vec<Match>,
)
    ensures
        matches_view(final(out)@) == matches_view(old(out)@) + trait_matches(
            name@,
            lines,
            syntax::members_view(members@),
            target@,
            text::opt_str(type_filter),
            file@,
        ),
{
    let ghost ms = syntax::members_view(members@);
    let ghost before = matches_view(out@);
    let ghost own: Seq<MatchView> = if type_filter is None && name@ == target@ {
        seq![match_at(file@, "trait"@, target@, lines)]
    } else {
        Seq::empty()
    };
    if type_filter.is_none() && text::same_text(name, target) {
        push(out, file, "trait", target, lines);
    }
    proof {
        assert(matches_view(out@) =~= before + own);
    }
    if !(type_filter.is_none() || same_filter(name, type_filter)) {
        proof {
            assert(own + Seq::<MatchView>::empty() =~= own);
        }
        return;
    }
    let mut shown = name.to_owned();
    shown.append("::");
    shown.append(target);
    let ghost head = before + own;
    proof {
        assert(ms.take(0) =~= Seq::empty());
        assert(head + Seq::<MatchView>::empty() =~= head);
    }
    for k in 0..members.len()
        invariant
            ms == syntax::members_view(members@),
            shown@ == name@ + "::"@ + target@,
            matches_view(out@) == head + trait_methods(ms.take(k as int), name@, target@, file@),
    {
        proof {
            assert(ms.take(k + 1).drop_last() =~= ms.take(k as int));
            assert(ms[k as int] == members@[k as int]@);
        }
        match &members[k] {
            Member::Named { kind, name: n, lines } => {
                if *kind == MemberKind::Fn && text::same_text(n.text.as_str(), target) {
                    push(out, file, "method", shown.as_str(), *lines);
                }
            },
            Member::Other => {},
        }
        proof {
            assert(matches_view(out@) =~= head + trait_methods(
                ms.take(k + 1),
                name@,
                target@,
                file@,
            ));
        }
    }
    proof {
        assert(ms.take(ms.len() as int) =~= ms);
        assert(head + trait_methods(ms, name@, target@, file@) =~= before + (own + trait_methods(
            ms,
            name@,
            target@,
            file@,
        )));
    }
}

/// Appends the members of an impl that are named `target`, shown as `shown`.
fn collect_members(
    members: &Vec<Member>,
    shown: &str,
    target: &str,
    file: &str,
    out: &mut Vec<Match>,
)
    ensures
        matches_view(final(out)@) == matches_view(old(out)@) + impl_members(
            syntax::members_view(members@),
            shown@,
            target@,
            file@,
        ),
{
    let ghost ms = syntax::members_view(members@);
    let ghost head = matches_view(out@);
    proof {
        assert(ms.take(0) =~= Seq::empty());
        assert(head + Seq::<MatchView>::empty() =~= head);
    }
    for k in 0..members.len()
        invariant
            ms == syntax::members_view(members@),
            matches_view(out@) == head + impl_members(ms.take(k as int), shown@, target@, file@),
    {
        proof {
            assert(ms.take(k + 1).drop_last() =~= ms.take(k as int));
            assert(ms[k as int] == members@[k as int]@);
        }
        match &members[k] {
            Member::Named { kind, name, lines } => {
                if text::same_text(name.text.as_str(), target) {
                    let word = match kind {
                        MemberKind::Fn => "method",
                        MemberKind::Type => "type",
                        MemberKind::Const => "const",
                    };
                    push(out, file, word, shown, *lines);
                }
            },
            Member::Other => {},
        }
        proof {
            assert(matches_view(out@) =~= head + impl_members(
                ms.take(k + 1),
                shown@,
                target@,
                file@,
            ));
        }
    }
    proof {
        assert(ms.take(ms.len() as int) =~= ms);
    }
}

fn collect_impl(
    self_name: Option<&str>,
    trait_name: Option<&str>,
    lines: Lines,
    members: &Vec<Member>,
    target: &str,
    type_filter: Option<&str>,
    file: &str,
    out: &mut Vec<Match>,
)
    ensures
        matches_view(final(out)@) == matches_view(old(out)@) + impl_matches(
            text::opt_str(self_name),
            text::opt_str(trait_name),
            lines,
            syntax::members_view(members@),
            target@,
            text::opt_str(type_filter),
            file@,
        ),
{
    let ghost before = matches_view(out@);
    let ghost whole = impl_matches(
        text::opt_str(self_name),
        text::opt_str(trait_name),
        lines,
        syntax::members_view(members@),
        target@,
        text::opt_str(type_filter),
        file@,
    );
    if let Some(n) = self_name {
        if type_filter.is_none() {
            let mut name = String::new();
            if let Some(t) = trait_name {
                name.append(t);
                name.append(" for ");
            }
            name.append(n);
            proof {
                assert(name@ =~= impl_name(n@, text::opt_str(trait_name)));
            }
            if text::same_text(name.as_str(), target) || same_filter(target, trait_name) {
                push(out, file, "impl", name.as_str(), lines);
            }
        }
    }
    let ghost middle = matches_view(out@);
    if let Some(tf) = type_filter {
        if !same_filter(tf, self_name) {
            proof {
                assert(middle =~= before + whole);
            }
            return;
        }
    }
    let mut shown = String::new();
    if let Some(n) = self_name {
        shown.append(n);
        shown.append("::");
    }
    shown.append(target);
    let ghost shown_view = match text::opt_str(self_name) {
        Some(n) => n + "::"@ + target@,
        None => target@,
    };
    proof {
        assert(shown@ =~= shown_view);
    }
    collect_members(members, shown.as_str(), target, file, out);
    proof {
        assert(matches_view(out@) =~= before + whole);
    }
}

/// Appends the matches among `items`.
pub fn collect(
    items: &Vec<Decl>,
    target: &str,
    type_filter: Option<&str>,
    file: &str,
    out: &mut Vec<Match>,
)
    ensures
        matches_view(final(out)@) == matches_view(old(out)@) + matches(
            syntax::decls_view(items@),
            target@,
            text::opt_str(type_filter),
            file@,
        ),
    decreases items,
{
    let ghost ds = syntax::decls_view(items@);
    let ghost tf = text::opt_str(type_filter);
    let ghost before = matches_view(out@);
    proof {
        assert(ds.take(0) =~= Seq::empty());
        assert(before + Seq::<MatchView>::empty() =~= before);
    }
    for k in 0..items.len()
        invariant
            ds == syntax::decls_view(items@),
            tf == text::opt_str(type_filter),
            matches_view(out@) == before + matches(ds.take(k as int), target@, tf, file@),
    {
        proof {
            assert(ds.take(k + 1).drop_last() =~= ds.take(k as int));
            assert(ds[k as int] == syntax::decl_view(items@[k as int]));
            assert(decreases_to!(items@ => items@[k as int]));
        }
        match &items[k] {
            Decl::Mod { content: Some(inner), .. } => {
                proof {
                    let c = items@[k as int]->content;
                    assert(decreases_to!(items@[k as int] => c));
                    assert(decreases_to!(c => c->0));
                }
                collect(inner, target, type_filter, file, out);
            },
            Decl::Impl { self_name, trait_name, lines, members } => {
                collect_impl(
                    text::as_opt_str(self_name),
                    text::as_opt_str(trait_name),
                    *lines,
                    members,
                    target,
                    type_filter,
                    file,
                    out,
                );
            },
            Decl::Trait { name, lines, members } => {
                collect_trait(
                    name.text.as_str(),
                    *lines,
                    members,
                    target,
                    type_filter,
                    file,
                    out,
                );
            },
            // Free-standing items are only candidates when the name was not
            // scoped by a type.
            Decl::Named { kind, name: Some(name), lines } => {
                if type_filter.is_none() && text::same_text(name.text.as_str(), target) {
                    push(out, file, parse::kind_str(*kind), target, *lines);
                }
            },
            _ => {},
        }
        proof {
            assert(matches_view(out@) =~= before + matches(ds.take(k + 1), target@, tf, file@));
        }
    }
    proof {
        assert(ds.take(ds.len() as int) =~= ds);
    }
}

/// The matches in a source; none where it cannot be parsed.
pub open spec fn source_matches(
    src: Seq<char>,
    target: Seq<char>,
    type_filter: Option<Seq<char>>,
    file: Seq<char>,
) -> Seq<MatchView> {
    match syntax::source_items(src) {
        Some(items) => matches(items, target, type_filter, file),
        None => Seq::empty(),
    }
}

/// Appends the matches in a source.
pub fn scan_src(
    src: &str,
    file: &str,
    target: &str,
    type_filter: Option<&str>,
    out: &mut Vec<Match>,
)
    ensures
        matches_view(final(out)@) == matches_view(old(out)@) + source_matches(
            src@,
            target@,
            text::opt_str(type_filter),
            file@,
        ),
{
    match parse_source(src) {
        Some(items) => collect(&items, target, type_filter, file, out),
        None => {
            proof {
                let s = matches_view(out@);
                assert(s + Seq::<MatchView>::empty() =~= s);
            }
        },
    }
}

// --- output --------------------------------------------------------------------------------

/// The matches in all files.
pub open spec fn all_matches(
    files: Seq<SourceFile>,
    target: Seq<char>,
    type_filter: Option<Seq<char>>,
) -> Seq<MatchView>
    decreases files.len(),
{
    if files.len() == 0 {
        Seq::empty()
    } else {
        all_matches(files.drop_last(), target, type_filter) + match files.last().text {
            Some(t) => source_matches(t@, target, type_filter, files.last().rel@),
            None => Seq::empty(),
        }
    }
}

/// The matches of the given kind.
pub open spec fn of_kind(ms: Seq<MatchView>, kind: Option<Seq<char>>) -> Seq<MatchView>
    decreases ms.len(),
{
    if ms.len() == 0 {
        Seq::empty()
    } else {
        let rest = of_kind(ms.drop_last(), kind);
        if kind is None || kind == Some(ms.last().kind) {
            rest.push(ms.last())
        } else {
            rest
        }
    }
}

/// The lines of the last file that is shown as `rel`; none where it cannot be
/// read.
pub open spec fn last_lines(files: Seq<SourceFile>, rel: Seq<char>) -> Seq<Seq<char>>
    decreases files.len(),
{
    if files.len() == 0 {
        Seq::empty()
    } else if files.last().rel@ == rel {
        match files.last().text {
            Some(t) => text::lines(t@),
            None => Seq::empty(),
        }
    } else {
        last_lines(files.drop_last(), rel)
    }
}

/// The lines from number `start` to number `end`, each ended.
pub open spec fn line_range(lines: Seq<Seq<char>>, start: nat, end: nat) -> Seq<char>
    decreases end,
{
    if end < start || end == 0 {
        Seq::empty()
    } else {
        line_range(lines, start, (end - 1) as nat) + lines[end - 1] + "\n"@
    }
}

/// `// file:start-end kind name`.
pub open spec fn header_text(m: MatchView) -> Seq<char> {
    "// "@ + m.file + ":"@ + text::decimal(m.start as nat) + "-"@ + text::decimal(m.end as nat)
        + " "@ + m.kind + " "@ + m.name + "\n"@
}

/// The header of a match and the lines of the file that it spans.
pub open spec fn match_text(m: MatchView, lines: Seq<Seq<char>>) -> Seq<char> {
    header_text(m) + line_range(
        lines,
        if m.start == 0 {
            1
        } else {
            m.start as nat
        },
        if m.end <= lines.len() {
            m.end as nat
        } else {
            lines.len()
        },
    )
}

/// The matches with a blank line between.
pub open spec fn match_texts(ms: Seq<MatchView>, files: Seq<SourceFile>) -> Seq<char>
    decreases ms.len(),
{
    if ms.len() == 0 {
        Seq::empty()
    } else {
        match_texts(ms.drop_last(), files) + (if ms.len() > 1 {
            "\n"@
        } else {
            Seq::empty()
        }) + match_text(ms.last(), last_lines(files, ms.last().file))
    }
}

/// The output for a search of `files`.
pub open spec fn report(files: Seq<SourceFile>, opts: BodyOptions) -> Seq<char> {
    let (type_filter, target) = name_parts(opts.name@);
    let found = of_kind(all_matches(files, target, type_filter), text::opt_text(opts.kind));
    if found.len() == 0 {
        refs::miss_text(
            "no symbol `"@ + opts.name@ + "` found"@,
            similar::suggestions(target, order::collected(refs::all_idents(files)), 5),
        )
    } else {
        match_texts(found, files)
    }
}

/// The matches in all files.
fn scan_all(files: &Vec<SourceFile>, target: &str, type_filter: Option<&str>) -> (r: Vec<Match>)
    ensures
        matches_view(r@) == all_matches(files@, target@, text::opt_str(type_filter)),
{
    let ghost fs = files@;
    let ghost tf = text::opt_str(type_filter);
    let mut r: Vec<Match> = Vec::new();
    proof {
        assert(fs.take(0) =~= Seq::empty());
        assert(matches_view(r@) =~= Seq::empty());
    }
    for k in 0..files.len()
        invariant
            fs == files@,
            tf == text::opt_str(type_filter),
            matches_view(r@) == all_matches(fs.take(k as int), target@, tf),
    {
        proof {
            assert(fs.take(k + 1).drop_last() =~= fs.take(k as int));
        }
        match &files[k].text {
            Some(t) => scan_src(t.as_str(), files[k].rel.as_str(), target, type_filter, &mut r),
            None => {
                proof {
                    let s = matches_view(r@);
                    assert(s + Seq::<MatchView>::empty() =~= s);
                }
            },
        }
    }
    proof {
        assert(fs.take(fs.len() as int) =~= fs);
    }
    r
}

/// The matches of the given kind.
fn keep_kind(ms: Vec<Match>, kind: Option<&str>) -> (r: Vec<Match>)
    ensures
        matches_view(r@) == of_kind(matches_view(ms@), text::opt_str(kind)),
{
    let ghost mv = matches_view(ms@);
    let ghost kv = text::opt_str(kind);
    let mut r: Vec<Match> = Vec::new();
    proof {
        assert(mv.take(0) =~= Seq::empty());
        assert(matches_view(r@) =~= Seq::empty());
    }
    for m in it: ms
        invariant
            it.seq() == ms@,
            mv == matches_view(ms@),
            kv == text::opt_str(kind),
            matches_view(r@) == of_kind(mv.take(it.index() as int), kv),
    {
        let ghost k = it.index() as int;
        proof {
            assert(mv.take(k + 1).drop_last() =~= mv.take(k));
            assert(mv[k] == m@);
        }
        let wanted = match kind {
            Some(kd) => text::same_text(kd, m.kind),
            None => true,
        };
        if wanted {
            let ghost before = r@;
            r.push(m);
            proof {
                assert(matches_view(r@) =~= matches_view(before).push(mv[k]));
            }
        }
    }
    proof {
        assert(mv.take(mv.len() as int) =~= mv);
    }
    r
}

/// The lines of the last file that is shown as `rel`.
fn find_lines(files: &Vec<SourceFile>, rel: &str) -> (r: Vec<String>)
    ensures
        text::texts(r@) == last_lines(files@, rel@),
{
    let mut k: usize = files.len();
    proof {
        assert(files@.take(k as int) =~= files@);
    }
    while k > 0
        invariant
            k <= files.len(),
            last_lines(files@, rel@) == last_lines(files@.take(k as int), rel@),
        decreases k,
    {
        proof {
            assert(files@.take(k as int).drop_last() =~= files@.take(k - 1));
        }
        if text::same_text(files[k - 1].rel.as_str(), rel) {
            return match &files[k - 1].text {
                Some(t) => text::lines_of(t.as_str()),
                None => refs::no_lines(),
            };
        }
        k = k - 1;
    }
    refs::no_lines()
}

/// `// file:start-end kind name`.
fn header_of(m: &Match) -> (r: String)
    ensures
        r@ == header_text(m@),
{
    let mut r = "// ".to_owned();
    r.append(m.file.as_str());
    r.append(":");
    r.append(text::decimal_of(m.start).as_str());
    r.append("-");
    r.append(text::decimal_of(m.end).as_str());
    r.append(" ");
    r.append(m.kind);
    r.append(" ");
    r.append(m.name.as_str());
    r.append("\n");
    r
}

/// The header of a match and the lines of the file that it spans.
fn render_match(m: &Match, lines: &Vec<String>) -> (r: String)
    ensures
        r@ == match_text(m@, text::texts(lines@)),
{
    let ghost ls = text::texts(lines@);
    let mut r = header_of(m);
    let ghost head = r@;
    let start: usize = if m.start == 0 {
        1
    } else {
        m.start
    };
    let end: usize = if m.end <= lines.len() {
        m.end
    } else {
        lines.len()
    };
    proof {
        assert(head + Seq::<char>::empty() =~= head);
    }
    if start > end {
        return r;
    }
    for k in start - 1..end
        invariant
            ls == text::texts(lines@),
            1 <= start <= end <= lines.len(),
            r@ == head + line_range(ls, start as nat, k as nat),
    {
        r.append(lines[k].as_str());
        r.append("\n");
        proof {
            assert(ls[k as int] == lines@[k as int]@);
            assert(r@ =~= head + line_range(ls, start as nat, (k + 1) as nat));
        }
    }
    r
}

/// Prints the bodies of the items in `files` that match a name.
pub fn run(files: &Vec<SourceFile>, opts: &BodyOptions) -> (r: String)
    ensures
        r@ == report(files@, *opts),
{
    let (type_filter, target) = split_name(opts.name.as_str());
    let tf = text::as_opt_str(&type_filter);
    let all = scan_all(files, target.as_str(), tf);
    let found = keep_kind(all, text::as_opt_str(&opts.kind));
    let ghost fv = matches_view(found@);
    if found.len() == 0 {
        let idents = file_idents(files);
        let meant = suggest(target.as_str(), &idents, 5);
        let mut message = "no symbol `".to_owned();
        message.append(opts.name.as_str());
        message.append("` found");
        return miss(message.as_str(), &meant);
    }
    let mut out = String::new();
    proof {
        assert(fv.take(0) =~= Seq::empty());
        assert(out@ =~= Seq::empty());
    }
    for k in 0..found.len()
        invariant
            fv == matches_view(found@),
            out@ == match_texts(fv.take(k as int), files@),
    {
        let m = &found[k];
        proof {
            assert(fv.take(k + 1).drop_last() =~= fv.take(k as int));
            assert(fv[k as int] == m@);
        }
        let ghost before = out@;
        if k > 0 {
            out.append("\n");
        } else {
            proof {
                assert(before + Seq::<char>::empty() =~= before);
            }
        }
        let lines = find_lines(files, m.file.as_str());
        out.append(render_match(m, &lines).as_str());
    }
    proof {
        assert(fv.take(fv.len() as int) =~= fv);
    }
    out
}

// --- what is found ---------------------------------------------------------------------------

/// A search for one kind finds exactly the matches of that kind, and a search
/// without a kind finds all.
pub proof fn law_kind_filter(ms: Seq<MatchView>, kind: Seq<char>, m: MatchView)
    ensures
        of_kind(ms, Some(kind)).contains(m) <==> ms.contains(m) && m.kind == kind,
        of_kind(ms, None) == ms,
    decreases ms.len(),
{
    if ms.len() > 0 {
        let rest = ms.drop_last();
        law_kind_filter(rest, kind, m);
        assert(ms =~= rest.push(ms.last()));
        text::lemma_push_contains(rest, ms.last(), m);
        text::lemma_push_contains(of_kind(rest, Some(kind)), ms.last(), m);
    }
}

/// The matches of one item.
spec fn item_matches(
    item: syntax::DeclView,
    target: Seq<char>,
    type_filter: Option<Seq<char>>,
    file: Seq<char>,
) -> Seq<MatchView> {
    match item {
        syntax::DeclView::Named { kind, name: Some(name), lines } => if type_filter is None
            && name.text == target {
            seq![match_at(file, parse::kind_word(kind), target, lines)]
        } else {
            Seq::empty()
        },
        syntax::DeclView::Trait { name, lines, members } => trait_matches(
            name.text,
            lines,
            members,
            target,
            type_filter,
            file,
        ),
        syntax::DeclView::Impl { self_name, trait_name, lines, members } => impl_matches(
            self_name,
            trait_name,
            lines,
            members,
            target,
            type_filter,
            file,
        ),
        syntax::DeclView::Mod { content: Some(inner), .. } => matches(
            inner,
            target,
            type_filter,
            file,
        ),
        _ => Seq::empty(),
    }
}

/// Naming a type narrows a search: what is found of `Type::name` is found of
/// `name`.
pub proof fn law_type_narrows(
    items: Seq<syntax::DeclView>,
    target: Seq<char>,
    owner: Seq<char>,
    file: Seq<char>,
    m: MatchView,
)
    requires
        matches(items, target, Some(owner), file).contains(m),
    ensures
        matches(items, target, None, file).contains(m),
    decreases items,
{
    if items.len() > 0 {
        let rest = items.drop_last();
        let last = items[items.len() - 1];
        let narrow = item_matches(last, target, Some(owner), file);
        let wide = item_matches(last, target, None, file);
        text::lemma_add_contains(matches(rest, target, Some(owner), file), narrow, m);
        text::lemma_add_contains(matches(rest, target, None, file), wide, m);
        if matches(rest, target, Some(owner), file).contains(m) {
            law_type_narrows(rest, target, owner, file, m);
        } else {
            match last {
                syntax::DeclView::Mod { content: Some(inner), .. } => {
                    assert(decreases_to!(items => items[items.len() - 1]));
                    let c = last->Mod_content;
                    assert(decreases_to!(last => c));
                    assert(decreases_to!(c => c->0));
                    law_type_narrows(inner, target, owner, file, m);
                },
                syntax::DeclView::Trait { name, lines, members } => {
                    let own: Seq<MatchView> = if name.text == target {
                        seq![match_at(file, "trait"@, target, lines)]
                    } else {
                        Seq::empty()
                    };
                    let methods = trait_methods(members, name.text, target, file);
                    text::lemma_add_contains(own, methods, m);
                    if Some(owner) == Some(name.text) {
                        assert(narrow =~= methods);
                    } else {
                        assert(narrow =~= Seq::empty());
                    }
                },
                syntax::DeclView::Impl { self_name, trait_name, lines, members } => {
                    let shown = match self_name {
                        Some(n) => n + "::"@ + target,
                        None => target,
                    };
                    let inner = impl_members(members, shown, target, file);
                    if self_name == Some(owner) {
                        assert(narrow =~= inner);
                    } else {
                        assert(narrow =~= Seq::empty());
                    }
                    let block = wide.take(wide.len() - inner.len());
                    assert(wide =~= block + inner);
                    text::lemma_add_contains(block, inner, m);
                },
                _ => {},
            }
        }
    }
}

proof fn lemma_impl_kinds(
    members: Seq<syntax::MemberView>,
    shown: Seq<char>,
    target: Seq<char>,
    file: Seq<char>,
    i: int,
)
    requires
        0 <= i < refs::impl_defs(members, target).len(),
    ensures
        refs::impl_defs(members, target).len() == impl_members(members, shown, target, file).len(),
        impl_members(members, shown, target, file)[i].kind == refs::impl_defs(
            members,
            target,
        )[i].kind,
    decreases members.len(),
{
    if members.len() > 0 {
        let rest = members.drop_last();
        lemma_impl_lengths(rest, shown, target, file);
        lemma_impl_lengths(members, shown, target, file);
        if i < refs::impl_defs(rest, target).len() {
            lemma_impl_kinds(rest, shown, target, file, i);
        }
    }
}

proof fn lemma_impl_lengths(
    members: Seq<syntax::MemberView>,
    shown: Seq<char>,
    target: Seq<char>,
    file: Seq<char>,
)
    ensures
        refs::impl_defs(members, target).len() == impl_members(members, shown, target, file).len(),
    decreases members.len(),
{
    if members.len() > 0 {
        lemma_impl_lengths(members.drop_last(), shown, target, file);
    }
}

proof fn lemma_trait_kinds(
    members: Seq<syntax::MemberView>,
    owner: Seq<char>,
    target: Seq<char>,
    file: Seq<char>,
)
    ensures
        refs::trait_defs(members, target).len() == trait_methods(
            members,
            owner,
            target,
            file,
        ).len(),
        forall|i: int|
            0 <= i < refs::trait_defs(members, target).len() ==> (
            #[trigger] refs::trait_defs(members, target)[i]).kind == "method"@,
        forall|i: int|
            0 <= i < trait_methods(members, owner, target, file).len() ==> (
            #[trigger] trait_methods(members, owner, target, file)[i]).kind == "method"@,
    decreases members.len(),
{
    if members.len() > 0 {
        lemma_trait_kinds(members.drop_last(), owner, target, file);
    }
}

/// Whether one of the matches has the kind `kind`.
pub open spec fn has_kind(ms: Seq<MatchView>, kind: Seq<char>) -> bool {
    exists|i: int| 0 <= i < ms.len() && (#[trigger] ms[i]).kind == kind
}

proof fn lemma_has_kind_add(a: Seq<MatchView>, b: Seq<MatchView>, kind: Seq<char>)
    ensures
        has_kind(a, kind) || has_kind(b, kind) ==> has_kind(a + b, kind),
{
    let t = a + b;
    if has_kind(a, kind) {
        let k = choose|k: int| 0 <= k < a.len() && (#[trigger] a[k]).kind == kind;
        assert(t[k].kind == kind);
    }
    if has_kind(b, kind) {
        let k = choose|k: int| 0 <= k < b.len() && (#[trigger] b[k]).kind == kind;
        assert(t[a.len() + k].kind == kind);
    }
}

/// What a search for references lists as a definition has a body to print: a
/// match of the same kind.
pub proof fn law_definitions_have_bodies(
    items: Seq<syntax::DeclView>,
    target: Seq<char>,
    file: Seq<char>,
    i: int,
)
    requires
        0 <= i < refs::definitions(items, target).len(),
    ensures
        has_kind(
            matches(items, target, None, file),
            refs::definitions(items, target)[i].kind,
        ),
    decreases items,
{
    if items.len() > 0 {
        let rest = items.drop_last();
        let last = items[items.len() - 1];
        let before = refs::definitions(rest, target);
        let all = refs::definitions(items, target);
        let kind = all[i].kind;
        let own = item_matches(last, target, None, file);
        lemma_has_kind_add(matches(rest, target, None, file), own, kind);
        if i < before.len() {
            law_definitions_have_bodies(rest, target, file, i);
        } else {
            let j = i - before.len();
            match last {
                syntax::DeclView::Named { kind: k, name: Some(name), .. } => {
                    assert(own[0].kind == kind);
                },
                syntax::DeclView::Trait { name, lines, members } => {
                    if name.text == target {
                        assert(own[0].kind == kind);
                    } else {
                        lemma_trait_kinds(members, name.text, target, file);
                        assert(all[i] == refs::trait_defs(members, target)[j]);
                        assert(own =~= trait_methods(members, name.text, target, file));
                        assert(own[j].kind == kind);
                    }
                },
                syntax::DeclView::Impl { self_name, trait_name, lines, members } => {
                    let shown = match self_name {
                        Some(n) => n + "::"@ + target,
                        None => target,
                    };
                    let inner = impl_members(members, shown, target, file);
                    lemma_impl_kinds(members, shown, target, file, j);
                    assert(all[i] == refs::impl_defs(members, target)[j]);
                    let block = own.take(own.len() - inner.len());
                    assert(own =~= block + inner);
                    assert(inner[j].kind == kind);
                    lemma_has_kind_add(block, inner, kind);
                },
                syntax::DeclView::Mod { content: Some(inner), .. } => {
                    assert(decreases_to!(items => items[items.len() - 1]));
                    let c = last->Mod_content;
                    assert(decreases_to!(last => c));
                    assert(decreases_to!(c => c->0));
                    law_definitions_have_bodies(inner, target, file, j);
                    assert(all[i] == refs::definitions(inner, target)[j]);
                },
                _ => {},
            }
        }
    }
}

// --- what is searched --------------------------------------------------------------------------

/// What one item that is no module has to do with a match.
spec fn answers(
    item: syntax::DeclView,
    target: Seq<char>,
    owner: Option<Seq<char>>,
    file: Seq<char>,
    m: MatchView,
) -> bool {
    match item {
        syntax::DeclView::Named { kind, name: Some(name), lines } => {
            &&& owner is None
            &&& name.text == target
            &&& m == MatchView {
                file,
                kind: match kind {
                    NamedKind::Struct => "struct"@,
                    NamedKind::Enum => "enum"@,
                    NamedKind::Union => "union"@,
                    NamedKind::Fn => "fn"@,
                    NamedKind::Type => "type"@,
                    NamedKind::Const => "const"@,
                    NamedKind::Static => "static"@,
                    NamedKind::Macro => "macro"@,
                },
                name: target,
                start: lines.start,
                end: lines.end,
            }
        },
        syntax::DeclView::Trait { name, lines, members } => {
            ||| owner is None && name.text == target && m == MatchView {
                file,
                kind: "trait"@,
                name: target,
                start: lines.start,
                end: lines.end,
            }
            ||| (owner is None || owner == Some(name.text)) && exists|j: int|
                {
                    &&& 0 <= j < members.len()
                    &&& (#[trigger] members[j]) matches syntax::MemberView::Named {
                        kind,
                        name: n,
                        lines: at,
                    }
                    &&& kind == MemberKind::Fn
                    &&& n.text == target
                    &&& m == MatchView {
                        file,
                        kind: "method"@,
                        name: name.text + "::"@ + target,
                        start: at.start,
                        end: at.end,
                    }
                }
        },
        syntax::DeclView::Impl { self_name, trait_name, lines, members } => {
            ||| owner is None && (self_name matches Some(n) && {
                let full = match trait_name {
                    Some(t) => t + " for "@ + n,
                    None => n,
                };
                &&& full == target || trait_name == Some(target)
                &&& m == MatchView {
                    file,
                    kind: "impl"@,
                    name: full,
                    start: lines.start,
                    end: lines.end,
                }
            })
            ||| (owner is None || owner == self_name) && exists|j: int|
                {
                    &&& 0 <= j < members.len()
                    &&& (#[trigger] members[j]) matches syntax::MemberView::Named {
                        kind,
                        name: n,
                        lines: at,
                    }
                    &&& n.text == target
                    &&& m == MatchView {
                        file,
                        kind: match kind {
                            MemberKind::Fn => "method"@,
                            MemberKind::Type => "type"@,
                            MemberKind::Const => "const"@,
                        },
                        name: match self_name {
                            Some(n) => n + "::"@ + target,
                            None => target,
                        },
                        start: at.start,
                        end: at.end,
                    }
                }
        },
        _ => false,
    }
}

proof fn lemma_trait_methods(
    members: Seq<syntax::MemberView>,
    owner: Seq<char>,
    target: Seq<char>,
    file: Seq<char>,
    m: MatchView,
)
    ensures
        trait_methods(members, owner, target, file).contains(m) <==> exists|j: int|
            {
                &&& 0 <= j < members.len()
                &&& (#[trigger] members[j]) matches syntax::MemberView::Named {
                    kind,
                    name: n,
                    lines: at,
                }
                &&& kind == MemberKind::Fn
                &&& n.text == target
                &&& m == MatchView {
                    file,
                    kind: "method"@,
                    name: owner + "::"@ + target,
                    start: at.start,
                    end: at.end,
                }
            },
    decreases members.len(),
{
    if members.len() > 0 {
        let rest = members.drop_last();
        let last = members[members.len() - 1];
        lemma_trait_methods(rest, owner, target, file, m);
        let before = trait_methods(rest, owner, target, file);
        if let syntax::MemberView::Named { kind, name, lines } = last {
            text::lemma_push_contains(
                before,
                match_at(file, "method"@, owner + "::"@ + target, lines),
                m,
            );
        }
        assert forall|j: int| 0 <= j < rest.len() implies #[trigger] rest[j] == members[j] by {}
        assert(forall|j: int| 0 <= j < members.len() ==> j == rest.len() || #[trigger] members[j] == rest[j]);
    }
}

proof fn lemma_impl_members(
    members: Seq<syntax::MemberView>,
    shown: Seq<char>,
    target: Seq<char>,
    file: Seq<char>,
    m: MatchView,
)
    ensures
        impl_members(members, shown, target, file).contains(m) <==> exists|j: int|
            {
                &&& 0 <= j < members.len()
                &&& (#[trigger] members[j]) matches syntax::MemberView::Named {
                    kind,
                    name: n,
                    lines: at,
                }
                &&& n.text == target
                &&& m == MatchView {
                    file,
                    kind: match kind {
                        MemberKind::Fn => "method"@,
                        MemberKind::Type => "type"@,
                        MemberKind::Const => "const"@,
                    },
                    name: shown,
                    start: at.start,
                    end: at.end,
                }
            },
    decreases members.len(),
{
    if members.len() > 0 {
        let rest = members.drop_last();
        let last = members[members.len() - 1];
        lemma_impl_members(rest, shown, target, file, m);
        let before = impl_members(rest, shown, target, file);
        if let syntax::MemberView::Named { kind, name, lines } = last {
            text::lemma_push_contains(
                before,
                match_at(file, refs::impl_member_word(kind), shown, lines),
                m,
            );
        }
        assert forall|j: int| 0 <= j < rest.len() implies #[trigger] rest[j] == members[j] by {}
        assert(forall|j: int| 0 <= j < members.len() ==> j == rest.len() || #[trigger] members[j] == rest[j]);
    }
}

proof fn lemma_item_matches(
    item: syntax::DeclView,
    target: Seq<char>,
    owner: Option<Seq<char>>,
    file: Seq<char>,
    m: MatchView,
)
    requires
        !(item is Mod),
    ensures
        item_matches(item, target, owner, file).contains(m) <==> answers(
            item,
            target,
            owner,
            file,
            m,
        ),
{
    match item {
        syntax::DeclView::Named { kind, name: Some(name), lines } => {
            let one = match_at(file, parse::kind_word(kind), target, lines);
            assert(seq![one].contains(m) <==> m == one) by {
                assert(seq![one][0] == one);
            }
        },
        syntax::DeclView::Trait { name, lines, members } => {
            let one = match_at(file, "trait"@, target, lines);
            let own: Seq<MatchView> = if owner is None && name.text == target {
                seq![one]
            } else {
                Seq::empty()
            };
            let methods: Seq<MatchView> = if owner is None || owner == Some(name.text) {
                trait_methods(members, name.text, target, file)
            } else {
                Seq::empty()
            };
            assert(seq![one].contains(m) <==> m == one) by {
                assert(seq![one][0] == one);
            }
            text::lemma_add_contains(own, methods, m);
            lemma_trait_methods(members, name.text, target, file, m);
        },
        syntax::DeclView::Impl { self_name, trait_name, lines, members } => {
            let shown = match self_name {
                Some(n) => n + "::"@ + target,
                None => target,
            };
            let inner: Seq<MatchView> = if owner is None || self_name == owner {
                impl_members(members, shown, target, file)
            } else {
                Seq::empty()
            };
            let all = item_matches(item, target, owner, file);
            let block = all.take(all.len() - inner.len());
            assert(all =~= block + inner);
            text::lemma_add_contains(block, inner, m);
            lemma_impl_members(members, shown, target, file, m);
            if let Some(n) = self_name {
                let one = match_at(file, "impl"@, impl_name(n, trait_name), lines);
                assert(seq![one].contains(m) <==> m == one) by {
                    assert(seq![one][0] == one);
                }
                if owner is None && (impl_name(n, trait_name) == target || trait_name == Some(
                    target,
                )) {
                    assert(block =~= seq![one]);
                } else {
                    assert(block =~= Seq::empty());
                }
            } else {
                assert(block =~= Seq::empty());
            }
        },
        _ => {},
    }
}

/// What an item has to show, the items that it stands among show.
proof fn lemma_matches_at(
    items: Seq<syntax::DeclView>,
    i: int,
    target: Seq<char>,
    owner: Option<Seq<char>>,
    file: Seq<char>,
    m: MatchView,
)
    requires
        0 <= i < items.len(),
        item_matches(items[i], target, owner, file).contains(m),
    ensures
        matches(items, target, owner, file).contains(m),
    decreases items.len(),
{
    let rest = items.drop_last();
    let last = items[items.len() - 1];
    text::lemma_add_contains(
        matches(rest, target, owner, file),
        item_matches(last, target, owner, file),
        m,
    );
    if i < rest.len() {
        lemma_matches_at(rest, i, target, owner, file, m);
    }
}

proof fn lemma_matches_nested(
    lists: Seq<Seq<syntax::DeclView>>,
    k: int,
    target: Seq<char>,
    owner: Option<Seq<char>>,
    file: Seq<char>,
    m: MatchView,
)
    requires
        syntax::nested(lists),
        0 <= k < lists.last().len(),
        item_matches(lists.last()[k], target, owner, file).contains(m),
    ensures
        matches(lists[0], target, owner, file).contains(m),
    decreases lists.len(),
{
    if lists.len() == 1 {
        lemma_matches_at(lists[0], k, target, owner, file, m);
    } else {
        syntax::lemma_nested_rest(lists);
        lemma_matches_nested(lists.drop_first(), k, target, owner, file, m);
        let outer = lists[0];
        let i = choose|i: int|
            0 <= i < outer.len() && (#[trigger] outer[i]) is Mod && outer[i]->Mod_content == Some(
                lists[1],
            );
        lemma_matches_at(outer, i, target, owner, file, m);
    }
}

/// Where a match comes from: the lists of items down to it, and its position.
proof fn lemma_matches_from(
    items: Seq<syntax::DeclView>,
    target: Seq<char>,
    owner: Option<Seq<char>>,
    file: Seq<char>,
    m: MatchView,
) -> (r: (Seq<Seq<syntax::DeclView>>, int))
    requires
        matches(items, target, owner, file).contains(m),
    ensures
        syntax::nested(r.0),
        r.0[0] == items,
        0 <= r.1 < r.0.last().len(),
        !(r.0.last()[r.1] is Mod),
        item_matches(r.0.last()[r.1], target, owner, file).contains(m),
    decreases items,
{
    let rest = items.drop_last();
    let last = items[items.len() - 1];
    text::lemma_add_contains(
        matches(rest, target, owner, file),
        item_matches(last, target, owner, file),
        m,
    );
    if matches(rest, target, owner, file).contains(m) {
        assert(decreases_to!(items => items.subrange(0, items.len() - 1)));
        let (lists, k) = lemma_matches_from(rest, target, owner, file, m);
        if lists.len() == 1 {
            assert(syntax::nested(seq![items]));
            assert(rest[k] == items[k]);
            (seq![items], k)
        } else {
            syntax::lemma_nested_rest(lists);
            let i = choose|i: int|
                0 <= i < rest.len() && (#[trigger] rest[i]) is Mod && rest[i]->Mod_content == Some(
                    lists[1],
                );
            assert(items[i] == rest[i]);
            assert(syntax::inlines(items, lists[1]));
            syntax::lemma_nested_more(items, lists.drop_first());
            (seq![items] + lists.drop_first(), k)
        }
    } else {
        match last {
            syntax::DeclView::Mod { content: Some(inner), .. } => {
                assert(decreases_to!(items => items[items.len() - 1]));
                let c = last->Mod_content;
                assert(decreases_to!(last => c));
                assert(decreases_to!(c => c->0));
                let (lists, k) = lemma_matches_from(inner, target, owner, file, m);
                assert(items[items.len() - 1] is Mod);
                assert(syntax::inlines(items, inner));
                syntax::lemma_nested_more(items, lists);
                (seq![items] + lists, k)
            },
            _ => {
                assert(syntax::nested(seq![items]));
                (seq![items], items.len() - 1)
            },
        }
    }
}

/// A search finds exactly the definitions of the name among the items, however
/// deep in inline modules they stand. Without a type these are items and traits
/// of that name, impl blocks of a type or a trait of that name or with it as
/// `Trait for Type`, and members of impls and traits. With a type they are the
/// members of that name of every impl of the type, be it inherent or of a trait,
/// and the methods of a trait that has the name of the type. Each has the lines
/// of what it stands for.
pub proof fn law_search_is_complete(
    items: Seq<syntax::DeclView>,
    target: Seq<char>,
    owner: Option<Seq<char>>,
    file: Seq<char>,
    m: MatchView,
)
    ensures
        matches(items, target, owner, file).contains(m) <==> exists|
            lists: Seq<Seq<syntax::DeclView>>,
            k: int,
        |
            #![trigger syntax::nested(lists), lists.last()[k]]
            syntax::nested(lists) && lists[0] == items && 0 <= k < lists.last().len()
                && match lists.last()[k] {
                syntax::DeclView::Named { kind, name: Some(name), lines } => {
                    &&& owner is None
                    &&& name.text == target
                    &&& m == MatchView {
                        file,
                        kind: match kind {
                            NamedKind::Struct => "struct"@,
                            NamedKind::Enum => "enum"@,
                            NamedKind::Union => "union"@,
                            NamedKind::Fn => "fn"@,
                            NamedKind::Type => "type"@,
                            NamedKind::Const => "const"@,
                            NamedKind::Static => "static"@,
                            NamedKind::Macro => "macro"@,
                        },
                        name: target,
                        start: lines.start,
                        end: lines.end,
                    }
                },
                syntax::DeclView::Trait { name, lines, members } => {
                    ||| owner is None && name.text == target && m == MatchView {
                        file,
                        kind: "trait"@,
                        name: target,
                        start: lines.start,
                        end: lines.end,
                    }
                    ||| (owner is None || owner == Some(name.text)) && exists|j: int|
                        {
                            &&& 0 <= j < members.len()
                            &&& (#[trigger] members[j]) matches syntax::MemberView::Named {
                                kind,
                                name: n,
                                lines: at,
                            }
                            &&& kind == MemberKind::Fn
                            &&& n.text == target
                            &&& m == MatchView {
                                file,
                                kind: "method"@,
                                name: name.text + "::"@ + target,
                                start: at.start,
                                end: at.end,
                            }
                        }
                },
                syntax::DeclView::Impl { self_name, trait_name, lines, members } => {
                    ||| owner is None && (self_name matches Some(n) && {
                        let full = match trait_name {
                            Some(t) => t + " for "@ + n,
                            None => n,
                        };
                        &&& full == target || trait_name == Some(target)
                        &&& m == MatchView {
                            file,
                            kind: "impl"@,
                            name: full,
                            start: lines.start,
                            end: lines.end,
                        }
                    })
                    ||| (owner is None || owner == self_name) && exists|j: int|
                        {
                            &&& 0 <= j < members.len()
                            &&& (#[trigger] members[j]) matches syntax::MemberView::Named {
                                kind,
                                name: n,
                                lines: at,
                            }
                            &&& n.text == target
                            &&& m == MatchView {
                                file,
                                kind: match kind {
                                    MemberKind::Fn => "method"@,
                                    MemberKind::Type => "type"@,
                                    MemberKind::Const => "const"@,
                                },
                                name: match self_name {
                                    Some(n) => n + "::"@ + target,
                                    None => target,
                                },
                                start: at.start,
                                end: at.end,
                            }
                        }
                },
                _ => false,
            },
{
    if matches(items, target, owner, file).contains(m) {
        let (lists, k) = lemma_matches_from(items, target, owner, file, m);
        lemma_item_matches(lists.last()[k], target, owner, file, m);
        assert(syntax::nested(lists));
    }
    assert forall|lists: Seq<Seq<syntax::DeclView>>, k: int|
        #![trigger syntax::nested(lists), lists.last()[k]]
        syntax::nested(lists) && lists[0] == items && 0 <= k < lists.last().len() && answers(
            lists.last()[k],
            target,
            owner,
            file,
            m,
        ) implies matches(items, target, owner, file).contains(m) by {
        lemma_item_matches(lists.last()[k], target, owner, file, m);
        lemma_matches_nested(lists, k, target, owner, file, m);
    }
}

/// Matches are found in the order of the items: those of the first items, then
/// those of the others. An item without members has one at most.
pub proof fn law_search_in_order(
    a: Seq<syntax::DeclView>,
    b: Seq<syntax::DeclView>,
    target: Seq<char>,
    owner: Option<Seq<char>>,
    file: Seq<char>,
)
    ensures
        matches(a + b, target, owner, file) == matches(a, target, owner, file) + matches(
            b,
            target,
            owner,
            file,
        ),
        a.len() == 1 && a[0] is Named ==> matches(a, target, owner, file).len() <= 1,
    decreases b.len(),
{
    if b.len() == 0 {
        assert(a + b =~= a);
        assert(matches(a, target, owner, file) + matches(b, target, owner, file) =~= matches(
            a,
            target,
            owner,
            file,
        ));
    } else {
        law_search_in_order(a, b.drop_last(), target, owner, file);
        assert((a + b).drop_last() =~= a + b.drop_last());
        assert(matches(a + b, target, owner, file) =~= matches(a, target, owner, file) + matches(
            b,
            target,
            owner,
            file,
        ));
    }
    if a.len() == 1 && a[0] is Named {
        assert(a.drop_last() =~= Seq::empty());
        assert(matches(a.drop_last(), target, owner, file) =~= Seq::empty());
    }
}

proof fn lemma_last_at(s: Seq<char>, needle: Seq<char>, at: int, i: int)
    requires
        0 <= at <= i,
        text::occurs_at(s, needle, at),
        forall|k: int| at < k <= i ==> !text::occurs_at(s, needle, k),
    ensures
        last_at(s, needle, i) == at,
    decreases i - at,
{
    if i > at {
        lemma_last_at(s, needle, at, i - 1);
    }
}

proof fn lemma_last_nowhere(s: Seq<char>, needle: Seq<char>, i: int)
    requires
        forall|k: int| 0 <= k <= i ==> !text::occurs_at(s, needle, k),
    ensures
        last_at(s, needle, i) < 0,
    decreases i + 1,
{
    if i >= 0 {
        lemma_last_nowhere(s, needle, i - 1);
    }
}

/// `Type::name` asks for `name` of `Type`, also where the type is a path itself;
/// a name without `::` asks for itself.
pub proof fn law_name_is_split(owner: Seq<char>, target: Seq<char>)
    requires
        !target.contains(':'),
    ensures
        owner.len() > 0 && target.len() > 0 ==> name_parts(owner + "::"@ + target) == (
            Some(owner),
            target,
        ),
        name_parts(target) == (None::<Seq<char>>, target),
{
    let sep = "::"@;
    reveal_strlit("::");
    assert forall|k: int| 0 <= k <= target.len() implies !text::occurs_at(target, sep, k) by {
        if text::occurs_at(target, sep, k) {
            assert(target.subrange(k, k + 2)[0] == ':');
            assert(target[k] == ':');
        }
    }
    lemma_last_nowhere(target, sep, target.len() as int);
    if owner.len() > 0 && target.len() > 0 {
        let s = owner + sep + target;
        let at = owner.len() as int;
        assert(s.subrange(at, at + 2) =~= sep);
        assert forall|k: int| at < k <= s.len() implies !text::occurs_at(s, sep, k) by {
            if text::occurs_at(s, sep, k) {
                assert(s.subrange(k, k + 2)[1] == ':');
                assert(s[k + 1] == target[k - at - 1]);
            }
        }
        lemma_last_at(s, sep, at, s.len() as int);
        assert(s.take(at) =~= owner);
        assert(s.skip(at + 2) =~= target);
    }
}

proof fn lemma_all_matches(
    files: Seq<SourceFile>,
    target: Seq<char>,
    owner: Option<Seq<char>>,
    m: MatchView,
)
    ensures
        all_matches(files, target, owner).contains(m) <==> exists|f: int|
            {
                &&& 0 <= f < files.len()
                &&& (#[trigger] files[f]).text matches Some(t)
                &&& syntax::source_items(t@) matches Some(items)
                &&& matches(items, target, owner, files[f].rel@).contains(m)
            },
    decreases files.len(),
{
    if files.len() > 0 {
        let rest = files.drop_last();
        let last = files[files.len() - 1];
        lemma_all_matches(rest, target, owner, m);
        let own: Seq<MatchView> = match last.text {
            Some(t) => source_matches(t@, target, owner, last.rel@),
            None => Seq::empty(),
        };
        text::lemma_add_contains(all_matches(rest, target, owner), own, m);
        assert forall|f: int| 0 <= f < rest.len() implies #[trigger] rest[f] == files[f] by {}
        assert(forall|f: int|
            0 <= f < files.len() ==> f == rest.len() || #[trigger] files[f] == rest[f]);
    }
}

proof fn lemma_of_kind(ms: Seq<MatchView>, kind: Option<Seq<char>>, m: MatchView)
    ensures
        of_kind(ms, kind).contains(m) <==> ms.contains(m) && (kind is None || kind == Some(m.kind)),
{
    match kind {
        Some(k) => law_kind_filter(ms, k, m),
        None => law_kind_filter(ms, m.kind, m),
    }
}

proof fn lemma_line_range(lines: Seq<Seq<char>>, start: nat, end: nat)
    requires
        1 <= start <= end + 1,
        end <= lines.len(),
    ensures
        line_range(lines, start, end) == similar::glued(
            lines.subrange(start - 1, end as int).map_values(|l: Seq<char>| l + "\n"@),
        ),
    decreases end,
{
    let ended = |l: Seq<char>| l + "\n"@;
    let parts = lines.subrange(start - 1, end as int).map_values(ended);
    if end >= start {
        lemma_line_range(lines, start, (end - 1) as nat);
        assert(parts.drop_last() =~= lines.subrange(start - 1, end - 1).map_values(ended));
        assert(parts.last() == lines[end - 1] + "\n"@);
        let before = line_range(lines, start, (end - 1) as nat);
        assert(before + lines[end - 1] + "\n"@ =~= before + (lines[end - 1] + "\n"@));
    } else {
        assert(parts =~= Seq::empty());
    }
}

proof fn lemma_last_lines(files: Seq<SourceFile>, f: int)
    requires
        0 <= f < files.len(),
        files[f].text is Some,
        forall|k: int| f < k < files.len() ==> (#[trigger] files[k]).rel@ != files[f].rel@,
    ensures
        last_lines(files, files[f].rel@) == text::lines(files[f].text->0@),
    decreases files.len(),
{
    if f < files.len() - 1 {
        let rest = files.drop_last();
        assert(files[files.len() - 1].rel@ != files[f].rel@);
        assert(rest[f] == files[f]);
        assert forall|k: int| f < k < rest.len() implies (#[trigger] rest[k]).rel@
            != rest[f].rel@ by {
            assert(rest[k] == files[k]);
        }
        lemma_last_lines(rest, f);
    }
}

proof fn lemma_match_texts(ms: Seq<MatchView>, files: Seq<SourceFile>)
    ensures
        match_texts(ms, files) == text::join(
            ms.map_values(|m: MatchView| match_text(m, last_lines(files, m.file))),
            "\n"@,
        ),
    decreases ms.len(),
{
    let show = |m: MatchView| match_text(m, last_lines(files, m.file));
    let blocks = ms.map_values(show);
    if ms.len() > 0 {
        let rest = ms.drop_last();
        lemma_match_texts(rest, files);
        assert(blocks.drop_last() =~= rest.map_values(show));
        if ms.len() == 1 {
            assert(match_texts(ms, files) =~= blocks[0]);
        }
    }
}

/// The output of a search: a block for each definition that is found in one of
/// the files and is of the kind asked for, with a blank line between. A block is
/// the line `// file:start-end kind name` and then the lines of the file from the
/// first to the last of the definition, as they stand there. Where nothing is
/// found the output says so, and names what is most like the name among the
/// identifiers of the files.
pub proof fn law_bodies_are_printed(
    files: Seq<SourceFile>,
    opts: BodyOptions,
    owner: Option<Seq<char>>,
    target: Seq<char>,
)
    requires
        !target.contains(':'),
        match owner {
            Some(o) => opts.name@ == o + "::"@ + target && o.len() > 0 && target.len() > 0,
            None => opts.name@ == target,
        },
    ensures
        exists|ms: Seq<MatchView>, blocks: Seq<Seq<char>>|
            #![trigger ms.len(), blocks.len()]
            {
                &&& blocks.len() == ms.len()
                &&& forall|m: MatchView| #[trigger]
                    ms.contains(m) <==> (opts.kind matches Some(k) ==> k@ == m.kind) && exists|
                        f: int,
                    |
                        {
                            &&& 0 <= f < files.len()
                            &&& (#[trigger] files[f]).text matches Some(t)
                            &&& syntax::source_items(t@) matches Some(items)
                            &&& matches(items, target, owner, files[f].rel@).contains(m)
                        }
                &&& forall|i: int, f: int|
                    #![trigger ms[i], files[f]]
                    0 <= i < ms.len() && 0 <= f < files.len() && files[f].rel@ == ms[i].file && (
                    forall|g: int|
                        f < g < files.len() ==> (#[trigger] files[g]).rel@ != files[f].rel@) ==> (
                    files[f].text matches Some(t) ==> {
                        let lines = text::lines(t@);
                        &&& 1 <= ms[i].start <= ms[i].end <= lines.len() ==> blocks[i] == "// "@
                            + ms[i].file + ":"@ + text::decimal(ms[i].start as nat) + "-"@
                            + text::decimal(ms[i].end as nat) + " "@ + ms[i].kind + " "@ + ms[i].name
                            + "\n"@ + similar::glued(
                            lines.subrange(ms[i].start - 1, ms[i].end as int).map_values(
                                |l: Seq<char>| l + "\n"@,
                            ),
                        )
                    })
                &&& ms.len() > 0 ==> report(files, opts) == text::join(blocks, "\n"@)
                &&& ms.len() == 0 ==> exists|ids: Seq<Seq<char>>|
                    {
                        let meant = similar::suggestions(target, ids, 5);
                        &&& #[trigger] order::ascending(ids)
                        &&& forall|x: Seq<char>| #[trigger]
                            ids.contains(x) <==> exists|f: int|
                                {
                                    &&& 0 <= f < files.len()
                                    &&& (#[trigger] files[f]).text matches Some(t)
                                    &&& syntax::source_idents(t@).contains(x)
                                }
                        &&& report(files, opts) == "no symbol `"@ + opts.name@ + "` found\n"@ + if
                        meant.len() == 0 {
                            Seq::empty()
                        } else {
                            "did you mean: "@ + text::join(meant, ", "@) + "?\n"@
                        }
                    }
            },
{
    match owner {
        Some(o) => law_name_is_split(o, target),
        None => law_name_is_split(target, target),
    }
    let kind = text::opt_text(opts.kind);
    let all = all_matches(files, target, owner);
    let ms = of_kind(all, kind);
    let show = |m: MatchView| match_text(m, last_lines(files, m.file));
    let blocks = ms.map_values(show);
    lemma_match_texts(ms, files);
    assert forall|m: MatchView| #[trigger]
        ms.contains(m) <==> (opts.kind matches Some(k) ==> k@ == m.kind) && exists|f: int|
            {
                &&& 0 <= f < files.len()
                &&& (#[trigger] files[f]).text matches Some(t)
                &&& syntax::source_items(t@) matches Some(items)
                &&& matches(items, target, owner, files[f].rel@).contains(m)
            } by {
        lemma_of_kind(all, kind, m);
        lemma_all_matches(files, target, owner, m);
    }
    assert forall|i: int, f: int|
        #![trigger ms[i], files[f]]
        0 <= i < ms.len() && 0 <= f < files.len() && files[f].rel@ == ms[i].file && (forall|g: int|
            f < g < files.len() ==> (#[trigger] files[g]).rel@ != files[f].rel@)
            && files[f].text is Some && 1 <= ms[i].start <= ms[i].end <= text::lines(
            files[f].text->0@,
        ).len() implies blocks[i] == "// "@ + ms[i].file + ":"@ + text::decimal(
        ms[i].start as nat,
    ) + "-"@ + text::decimal(ms[i].end as nat) + " "@ + ms[i].kind + " "@ + ms[i].name + "\n"@
        + similar::glued(
        text::lines(files[f].text->0@).subrange(
            ms[i].start - 1,
            ms[i].end as int,
        ).map_values(|l: Seq<char>| l + "\n"@),
    ) by {
        lemma_last_lines(files, f);
        lemma_line_range(
            text::lines(files[f].text->0@),
            ms[i].start as nat,
            ms[i].end as nat,
        );
    }
    if ms.len() == 0 {
        let given = refs::all_idents(files);
        let ids = order::collected(given);
        order::lemma_collected(given);
        order::lemma_collected_contains(given);
        assert forall|x: Seq<char>| #[trigger]
            ids.contains(x) <==> exists|f: int|
                {
                    &&& 0 <= f < files.len()
                    &&& (#[trigger] files[f]).text matches Some(t)
                    &&& syntax::source_idents(t@).contains(x)
                } by {
            refs::lemma_all_idents(files, x);
        }
        lemma_found_line(opts.name@);
        assert(order::ascending(ids));
        let meant = similar::suggestions(target, ids, 5);
        let tail: Seq<char> = if meant.len() == 0 {
            Seq::empty()
        } else {
            "did you mean: "@ + text::join(meant, ", "@) + "?\n"@
        };
        assert(report(files, opts) =~= "no symbol `"@ + opts.name@ + "` found\n"@ + tail);
    }
    assert(blocks.len() == ms.len());
}

proof fn lemma_found_line(name: Seq<char>)
    ensures
        "no symbol `"@ + name + "` found"@ + "\n"@ == "no symbol `"@ + name + "` found\n"@,
{
    reveal_strlit("` found");
    reveal_strlit("\n");
    reveal_strlit("` found\n");
    assert("no symbol `"@ + name + "` found"@ + "\n"@ =~= "no symbol `"@ + name + "` found\n"@);
}

} // verus!
