//! What the command line means: defaults, guards, and which paths are meant.

use vstd::prelude::*;
use vstd::slice::slice_subrange;

use crate::refs::Mode;
use crate::walk::find_dirs_matching_suffix;
use crate::{order, paths, similar, text, walk};

verus! {

/// How many files of `docs/sessions` are listed by default.
pub const DEFAULT_CAP: usize = 10;

/// Soft depth cap when detail is asked for without an explicit depth. Prevents
/// wall-of-text on large trees while still surfacing the structure.
pub const DETAIL_DEFAULT_DEPTH: usize = 4;

/// The depth limit of a tree: the given one or, with detail, the default.
pub fn tree_depth(detail: bool, depth: Option<usize>) -> (r: Option<usize>)
    ensures
        r == if detail && depth is None {
            Some(DETAIL_DEFAULT_DEPTH)
        } else {
            depth
        },
{
    match (detail, depth) {
        (true, None) => Some(DETAIL_DEFAULT_DEPTH),
        (_, d) => d,
    }
}

pub open spec fn caps_view(v: Seq<(String, usize)>) -> Seq<(Seq<char>, usize)> {
    v.map_values(|c: (String, usize)| (c.0@, c.1))
}

/// The caps of a tree: the given ones and, unless it is switched off, the
/// default behind them. The first cap for a directory holds, so that a given one
/// overrides the default.
pub fn tree_caps(given: Vec<(String, usize)>, no_default: bool) -> (r: Vec<(String, usize)>)
    ensures
        caps_view(r@) == caps_view(given@) + if no_default {
            Seq::empty()
        } else {
            seq![("docs/sessions"@, DEFAULT_CAP)]
        },
{
    let mut r = given;
    if !no_default {
        r.push(("docs/sessions".to_owned(), DEFAULT_CAP));
    }
    proof {
        assert(caps_view(r@) =~= caps_view(given@) + if no_default {
            Seq::empty()
        } else {
            seq![("docs/sessions"@, DEFAULT_CAP)]
        });
    }
    r
}

/// A cap as it is written: `PREFIX=N`, split at the last `=`.
pub open spec fn cap_of(s: Seq<char>) -> Result<(Seq<char>, nat), Seq<char>> {
    let at = text::last_position(s, '=');
    if at < 0 {
        Err("expected `PREFIX=N`, got `"@ + s + "`"@)
    } else {
        match text::number(s.skip(at + 1), usize::MAX as nat) {
            Some(n) => Ok((s.take(at), n)),
            None => Err(
                "N must be a non-negative integer, got `"@ + s.skip(at + 1) + "`"@,
            ),
        }
    }
}

/// Reads a cap, `PREFIX=N`.
pub fn parse_cap(s: &str) -> (r: Result<(String, usize), String>)
    ensures
        match r {
            Ok(c) => cap_of(s@) == Ok::<(Seq<char>, nat), Seq<char>>((c.0@, c.1 as nat)),
            Err(e) => cap_of(s@) == Err::<(Seq<char>, nat), Seq<char>>(e@),
        },
{
    let chars = text::to_chars(s);
    let len: usize = chars.len();
    proof {
        text::lemma_last_position(s@, '=');
    }
    match text::rposition(chars.as_slice(), '=') {
        None => {
            let mut e = "expected `PREFIX=N`, got `".to_owned();
            e.append(s);
            e.append("`");
            Err(e)
        },
        Some(at) => {
            let rest = slice_subrange(chars.as_slice(), at + 1, len);
            let prefix = text::from_chars(slice_subrange(chars.as_slice(), 0, at));
            proof {
                assert(rest@ =~= s@.skip(at + 1));
                assert(prefix@ =~= s@.take(at as int));
            }
            match text::parse_number(rest, usize::MAX as u64) {
                Some(n) => Ok((prefix, n as usize)),
                None => {
                    let mut e = "N must be a non-negative integer, got `".to_owned();
                    e.append(text::from_chars(rest).as_str());
                    e.append("`");
                    Err(e)
                },
            }
        },
    }
}

/// Whether a name that should be an identifier looks like a path: it holds a
/// `/` or ends in `.rs`.
pub fn looks_like_path(name: &str) -> (r: bool)
    ensures
        r == (name@.contains('/') || text::ends_with(name@, ".rs"@)),
{
    proof {
        text::lemma_first_position(name@, '/');
        if name@.contains('/') {
            let k = choose|k: int| 0 <= k < name@.len() && name@[k] == '/';
            assert(text::first_position(name@, '/') <= k);
        }
    }
    let chars = text::to_chars(name);
    match text::position(chars.as_slice(), '/') {
        Some(at) => {
            proof {
                assert(name@[at as int] == '/');
            }
            true
        },
        None => text::text_ends(name, ".rs"),
    }
}

/// What a search for references shows.
pub fn refs_mode(defs_only: bool, uses_only: bool) -> (r: Mode)
    ensures
        r == if defs_only {
            Mode::DefsOnly
        } else if uses_only {
            Mode::UsesOnly
        } else {
            Mode::Both
        },
{
    match (defs_only, uses_only) {
        (true, _) => Mode::DefsOnly,
        (_, true) => Mode::UsesOnly,
        _ => Mode::Both,
    }
}

// --- module paths ----------------------------------------------------------------------------

/// The suffix that a module path is searched by.
pub open spec fn needle_of(input: Seq<char>) -> Seq<char> {
    text::trimmed_of(text::replaced(input, '\\', '/'), '/')
}

/// The directories that a module path may mean, seen from the working directory.
pub open spec fn meant(input: Seq<char>, rels: Seq<Seq<char>>) -> Seq<Seq<char>> {
    walk::dirs_ending_in(
        order::collected(walk::all_ancestors(rels)),
        text::trimmed_of(needle_of(input), '/'),
        "."@,
    )
}

pub open spec fn bullet_lines(list: Seq<Seq<char>>) -> Seq<char>
    decreases list.len(),
{
    if list.len() == 0 {
        Seq::empty()
    } else {
        bullet_lines(list.drop_last()) + "  "@ + list.last() + "\n"@
    }
}

/// A module path: the input where it exists, else the only directory that ends
/// in it.
pub open spec fn module_meant(input: Seq<char>, exists: bool, rels: Seq<Seq<char>>) -> Result<
    Seq<char>,
    Seq<char>,
> {
    let needle = needle_of(input);
    let found = meant(input, rels);
    if exists {
        Ok(input)
    } else if needle.len() == 0 {
        Err("error: `"@ + input + "` does not exist"@)
    } else if found.len() == 0 {
        Err(
            "error: `"@ + input + "` does not exist and no directory ending in `"@ + needle
                + "` was found"@,
        )
    } else if found.len() == 1 {
        Ok(found[0])
    } else {
        Err(
            "error: `"@ + needle + "` is ambiguous — "@ + text::decimal(found.len())
                + " candidates:\n"@ + bullet_lines(found)
                + "Use the full path to disambiguate."@,
        )
    }
}

fn bullets(list: &Vec<String>) -> (r: String)
    ensures
        r@ == bullet_lines(text::texts(list@)),
{
    let ghost ls = text::texts(list@);
    let mut r = String::new();
    proof {
        assert(ls.take(0) =~= Seq::empty());
        assert(r@ =~= Seq::empty());
    }
    for k in 0..list.len()
        invariant
            ls == text::texts(list@),
            r@ == bullet_lines(ls.take(k as int)),
    {
        proof {
            assert(ls.take(k + 1).drop_last() =~= ls.take(k as int));
            assert(ls[k as int] == list@[k as int]@);
        }
        r.append("  ");
        r.append(list[k].as_str());
        r.append("\n");
    }
    proof {
        assert(ls.take(ls.len() as int) =~= ls);
    }
    r
}

/// Resolves a module path. If the input exists, it is meant. Otherwise the
/// directories that the paths `rels` lie in are searched for those whose path
/// ends in the input as a path-aligned suffix; succeeds iff exactly one matches.
pub fn resolve_module_path(input: &str, exists: bool, rels: &Vec<String>) -> (r: Result<
    String,
    String,
>)
    ensures
        match r {
            Ok(p) => module_meant(input@, exists, text::texts(rels@)) == Ok::<
                Seq<char>,
                Seq<char>,
            >(p@),
            Err(e) => module_meant(input@, exists, text::texts(rels@)) == Err::<
                Seq<char>,
                Seq<char>,
            >(e@),
        },
{
    if exists {
        return Ok(input.to_owned());
    }
    let slashed = text::replace_char(input, '\\', '/');
    let needle = text::from_chars(
        text::trim_of(text::to_chars(slashed.as_str()).as_slice(), '/'),
    );
    if needle.as_str().unicode_len() == 0 {
        let mut e = "error: `".to_owned();
        e.append(input);
        e.append("` does not exist");
        return Err(e);
    }
    let found = find_dirs_matching_suffix(".", rels, needle.as_str());
    let ghost fv = text::texts(found@);
    if found.len() == 0 {
        let mut e = "error: `".to_owned();
        e.append(input);
        e.append("` does not exist and no directory ending in `");
        e.append(needle.as_str());
        e.append("` was found");
        return Err(e);
    }
    if found.len() == 1 {
        proof {
            assert(fv[0] == found@[0]@);
        }
        return Ok(found[0].clone());
    }
    let mut e = "error: `".to_owned();
    e.append(needle.as_str());
    e.append("` is ambiguous — ");
    e.append(text::decimal_of(found.len()).as_str());
    e.append(" candidates:\n");
    e.append(bullets(&found).as_str());
    e.append("Use the full path to disambiguate.");
    Err(e)
}

// --- repositories ----------------------------------------------------------------------------

/// What the positional path of a dependency search means.
#[derive(Debug)]
pub struct DepsTarget {
    pub repo: String,
    pub focus: Option<String>,
    pub scope: Option<String>,
}

/// What is known of the positional path of a dependency search.
#[derive(Debug)]
pub struct PathFacts {
    /// The path as it was given.
    pub path: String,
    /// The path names a file.
    pub is_file: bool,
    /// The canonical path, or the given one where it has none.
    pub abs: String,
    /// The path is a directory that holds a `Cargo.toml`.
    pub has_manifest: bool,
    /// The nearest directory upward that holds a `Cargo.toml`, or the topmost.
    pub repo: String,
    /// The canonical path of that directory.
    pub canon_repo: String,
}

/// The path of `abs` from the repository, unless it is the repository.
pub open spec fn scope_of(abs: Seq<char>, repo: Seq<char>) -> Option<Seq<char>> {
    match paths::stripped(abs, repo) {
        Some(rel) => if rel.len() == 0 {
            None
        } else {
            Some(text::replaced(rel, '\\', '/'))
        },
        None => None,
    }
}

/// Maps the positional path of a dependency search to what it means:
///   - a file: that file alone, in the nearest repository upward
///   - a directory with a `Cargo.toml`: that repository
///   - another directory: the nearest repository upward, scoped to the
///     directory's path in it
pub fn resolve_deps_target(facts: &PathFacts) -> (r: DepsTarget)
    ensures
        facts.is_file ==> r.repo@ == facts.repo@ && text::opt_text(r.focus) == Some(facts.path@)
            && r.scope is None,
        !facts.is_file && facts.has_manifest ==> r.repo@ == facts.path@ && r.focus is None
            && r.scope is None,
        !facts.is_file && !facts.has_manifest ==> r.repo@ == facts.repo@ && r.focus is None
            && text::opt_text(r.scope) == scope_of(facts.abs@, facts.canon_repo@),
{
    if facts.is_file {
        return DepsTarget {
            repo: facts.repo.clone(),
            focus: Some(facts.path.clone()),
            scope: None,
        };
    }
    if facts.has_manifest {
        return DepsTarget { repo: facts.path.clone(), focus: None, scope: None };
    }
    let scope = match paths::strip_prefix(facts.abs.as_str(), facts.canon_repo.as_str()) {
        Some(rel) => if rel.as_str().unicode_len() == 0 {
            None
        } else {
            Some(text::replace_char(rel.as_str(), '\\', '/'))
        },
        None => None,
    };
    DepsTarget { repo: facts.repo.clone(), focus: None, scope }
}

// --- what the arguments mean -----------------------------------------------------------------

/// A cap is written `PREFIX=N`. It is split at the last `=`, so a prefix may hold
/// one too. What does not read like that is refused.
pub proof fn law_cap_is_read(prefix: Seq<char>, number: Seq<char>)
    requires
        !number.contains('='),
    ensures
        cap_of(prefix + "="@ + number) == match text::number(number, usize::MAX as nat) {
            Some(n) => Ok((prefix, n)),
            None => Err("N must be a non-negative integer, got `"@ + number + "`"@),
        },
        cap_of(number) == Err::<(Seq<char>, nat), Seq<char>>(
            "expected `PREFIX=N`, got `"@ + number + "`"@,
        ),
{
    reveal_strlit("=");
    let s = prefix + "="@ + number;
    let at = prefix.len() as int;
    assert forall|k: int| 0 <= k < number.len() implies number[k] != '=' by {
        assert(number.contains(number[k]));
    }
    assert forall|k: int| at < k < s.len() implies s[k] != '=' by {
        assert(s[k] == number[k - at - 1]);
    }
    text::lemma_last_position_is(s, '=', at);
    text::lemma_last_position_is(number, '=', -1);
    assert(s.skip(at + 1) =~= number);
    assert(s.take(at) =~= prefix);
}

proof fn lemma_bullets(list: Seq<Seq<char>>)
    ensures
        bullet_lines(list) == similar::glued(
            list.map_values(|p: Seq<char>| "  "@ + p + "\n"@),
        ),
    decreases list.len(),
{
    let f = |p: Seq<char>| "  "@ + p + "\n"@;
    if list.len() == 0 {
        assert(list.map_values(f) =~= Seq::empty());
    } else {
        let rest = list.drop_last();
        lemma_bullets(rest);
        assert(list.map_values(f).drop_last() =~= rest.map_values(f));
        let t = bullet_lines(rest);
        assert(t + "  "@ + list.last() + "\n"@ =~= t + ("  "@ + list.last() + "\n"@));
    }
}

/// A module path that exists is meant as it stands. Any other is looked for among
/// the directories of the paths, as a suffix without `/` around it: the only one
/// that ends in it is meant. Where there is none, or more than one, a message says
/// so, and lists them.
pub proof fn law_module_path(input: Seq<char>, rels: Seq<Seq<char>>)
    ensures
        module_meant(input, true, rels) == Ok::<Seq<char>, Seq<char>>(input),
        ({
            let r = module_meant(input, false, rels);
            let needle = text::trimmed_of(text::replaced(input, '\\', '/'), '/');
            let found = walk::dirs_ending_in(
                order::collected(walk::all_ancestors(rels)),
                needle,
                "."@,
            );
            r == if needle.len() == 0 {
                Err("error: `"@ + input + "` does not exist"@)
            } else if found.len() == 1 {
                Ok(found[0])
            } else if found.len() == 0 {
                Err(
                    "error: `"@ + input + "` does not exist and no directory ending in `"@ + needle
                        + "` was found"@,
                )
            } else {
                Err(
                    "error: `"@ + needle + "` is ambiguous — "@ + text::decimal(found.len())
                        + " candidates:\n"@ + similar::glued(
                        found.map_values(|p: Seq<char>| "  "@ + p + "\n"@),
                    ) + "Use the full path to disambiguate."@,
                )
            }
        }),
{
    let needle = needle_of(input);
    lemma_trimmed_twice(text::replaced(input, '\\', '/'), '/');
    lemma_bullets(meant(input, rels));
}

/// What is trimmed has nothing more to trim.
proof fn lemma_trimmed_twice(s: Seq<char>, c: char)
    ensures
        text::trimmed_of(text::trimmed_of(s, c), c) == text::trimmed_of(s, c),
{
    let set = text::only(c);
    let a = text::trim_start(s, set);
    let b = text::trim_end(a, set);
    lemma_trim_ends(s, set);
    lemma_trim_ends(a, set);
    if b.len() > 0 {
        assert(!set(b.last()));
        lemma_trim_end_front(a, set);
        assert(b[0] == a[0]);
        assert(!set(b[0]));
    }
}

proof fn lemma_trim_ends(s: Seq<char>, set: spec_fn(char) -> bool)
    ensures
        text::trim_start(s, set).len() > 0 ==> !set(text::trim_start(s, set)[0]),
        text::trim_end(s, set).len() > 0 ==> !set(text::trim_end(s, set).last()),
    decreases s.len(),
{
    if s.len() > 0 {
        lemma_trim_ends(s.drop_first(), set);
        lemma_trim_ends(s.drop_last(), set);
    }
}

proof fn lemma_trim_end_front(s: Seq<char>, set: spec_fn(char) -> bool)
    ensures
        text::trim_end(s, set).len() <= s.len(),
        text::trim_end(s, set).len() > 0 ==> text::trim_end(s, set)[0] == s[0],
    decreases s.len(),
{
    if s.len() > 0 {
        lemma_trim_end_front(s.drop_last(), set);
    }
}

/// The scope of a directory in a repository is its path from there, with `/` for
/// each backslash. The repository itself has none, and neither has a directory
/// outside of it.
pub proof fn law_scope(abs: Seq<char>, repo: Seq<char>)
    ensures
        match paths::stripped(abs, repo) {
            Some(rel) => if rel.len() > 0 {
                scope_of(abs, repo) == Some(
                    rel.map_values(
                        |c: char|
                            if c == '\\' {
                                '/'
                            } else {
                                c
                            },
                    ),
                )
            } else {
                scope_of(abs, repo) is None
            },
            None => scope_of(abs, repo) is None,
        },
{
}

} // verus!
