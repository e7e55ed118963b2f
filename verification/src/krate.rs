//! Crate source resolution: maps a crate spec (`name` or `name@version`) to its
//! unpacked source directory in the local cargo registry.
//!
//! Offline only: the crate must already be vendored by a prior `cargo fetch` or
//! `cargo build`. Registry layout:
//!
//! ```text
//! $CARGO_HOME/registry/src/<index-host-hash>/<name>-<version>/
//! ```
//!
//! Multiple index hosts and multiple versions can coexist; all are scanned.

use std::cmp::Ordering;
use vstd::prelude::*;
use vstd::slice::slice_subrange;

use crate::{paths, text};

verus! {

/// A directory in the registry: its name and its path.
#[derive(Debug)]
pub struct RegistryDir {
    pub name: String,
    pub path: String,
}

/// A version of a crate and the directory of its source.
#[derive(Debug)]
pub struct Vendored {
    pub version: String,
    pub path: String,
}

/// The outcome of version selection: the chosen source dir plus an optional
/// warning that the caller should surface.
#[derive(Debug)]
pub struct Selection {
    pub path: String,
    pub warn: Option<String>,
}

pub open spec fn dirs_view(v: Seq<RegistryDir>) -> Seq<(Seq<char>, Seq<char>)> {
    v.map_values(|d: RegistryDir| (d.name@, d.path@))
}

pub open spec fn vendored_view(v: Seq<Vendored>) -> Seq<(Seq<char>, Seq<char>)> {
    v.map_values(|d: Vendored| (d.version@, d.path@))
}

// --- versions ------------------------------------------------------------------------------

/// The position of the first `-` or `+`, or the length.
pub open spec fn core_len(v: Seq<char>) -> int {
    let minus = text::first_position(v, '-');
    let plus = text::first_position(v, '+');
    if minus < plus {
        minus
    } else {
        plus
    }
}

/// The number that part `i` of a version writes; zero where it writes none, or
/// is not there.
pub open spec fn part_value(parts: Seq<Seq<char>>, i: int) -> nat {
    if i < parts.len() {
        match text::number(parts[i], u64::MAX as nat) {
            Some(n) => n,
            None => 0,
        }
    } else {
        0
    }
}

/// The major, minor and patch number of a version. Pre-release and build
/// metadata are ignored.
pub open spec fn version_of(v: Seq<char>) -> (nat, nat, nat) {
    let parts = text::split(v.take(core_len(v)), '.');
    (part_value(parts, 0), part_value(parts, 1), part_value(parts, 2))
}

/// Whether version `a` is lower than version `b`.
pub open spec fn lower(a: (nat, nat, nat), b: (nat, nat, nat)) -> bool {
    ||| a.0 < b.0
    ||| a.0 == b.0 && a.1 < b.1
    ||| a.0 == b.0 && a.1 == b.1 && a.2 < b.2
}

fn part_number(parts: &Vec<Vec<char>>, i: usize) -> (r: u64)
    ensures
        r == part_value(parts@.map_values(|v: Vec<char>| v@), i as int),
{
    if i < parts.len() {
        match text::parse_number(parts[i].as_slice(), u64::MAX) {
            Some(n) => n,
            None => 0,
        }
    } else {
        0
    }
}

/// The major, minor and patch number of a version.
pub fn parse_ver(v: &str) -> (r: (u64, u64, u64))
    ensures
        (r.0 as nat, r.1 as nat, r.2 as nat) == version_of(v@),
{
    let s = text::to_chars(v);
    proof {
        text::lemma_first_position(v@, '-');
        text::lemma_first_position(v@, '+');
    }
    let len: usize = s.len();
    let minus: usize = match text::position(s.as_slice(), '-') {
        Some(p) => p,
        None => len,
    };
    let plus: usize = match text::position(s.as_slice(), '+') {
        Some(p) => p,
        None => len,
    };
    let end: usize = if minus < plus {
        minus
    } else {
        plus
    };
    let core = slice_subrange(s.as_slice(), 0, end);
    proof {
        assert(core@ =~= v@.take(core_len(v@)));
    }
    let parts = text::split_chars(core, '.');
    (part_number(&parts, 0), part_number(&parts, 1), part_number(&parts, 2))
}

/// Compares two version strings by their major, minor and patch numbers.
/// Adequate for "pick the highest vendored".
pub fn cmp_semver(a: &str, b: &str) -> (r: Ordering)
    ensures
        match r {
            Ordering::Less => lower(version_of(a@), version_of(b@)),
            Ordering::Equal => version_of(a@) == version_of(b@),
            Ordering::Greater => lower(version_of(b@), version_of(a@)),
        },
{
    if is_lower(a, b) {
        Ordering::Less
    } else if is_lower(b, a) {
        Ordering::Greater
    } else {
        Ordering::Equal
    }
}

/// Whether version `a` is lower than version `b`.
fn is_lower(a: &str, b: &str) -> (r: bool)
    ensures
        r == lower(version_of(a@), version_of(b@)),
{
    let x = parse_ver(a);
    let y = parse_ver(b);
    x.0 < y.0 || (x.0 == y.0 && (x.1 < y.1 || (x.1 == y.1 && x.2 < y.2)))
}

/// Every two versions are ordered one way, or have the same numbers.
pub proof fn law_versions_ordered(
    a: (nat, nat, nat),
    b: (nat, nat, nat),
    c: (nat, nat, nat),
)
    ensures
        !(lower(a, b) && lower(b, a)),
        lower(a, b) || lower(b, a) || a == b,
        lower(a, b) && lower(b, c) ==> lower(a, c),
{
}

// --- the registry ----------------------------------------------------------------------------

/// The version in the name of a directory of the crate `name`:
/// `<name>-<version>`, where the version starts with a digit.
pub open spec fn dir_version(dir: Seq<char>, name: Seq<char>) -> Option<Seq<char>> {
    let prefix = name + "-"@;
    let rest = dir.skip(prefix.len() as int);
    if text::starts_with(dir, prefix) && rest.len() > 0 && text::is_digit(rest[0]) {
        Some(rest)
    } else {
        None
    }
}

/// The versions of the crate `name` among directories.
pub open spec fn versions_in(dirs: Seq<(Seq<char>, Seq<char>)>, name: Seq<char>) -> Seq<
    (Seq<char>, Seq<char>),
>
    decreases dirs.len(),
{
    if dirs.len() == 0 {
        Seq::empty()
    } else {
        let rest = versions_in(dirs.drop_last(), name);
        match dir_version(dirs.last().0, name) {
            Some(version) => rest.push((version, dirs.last().1)),
            None => rest,
        }
    }
}

fn version_in_name(dir: &str, name: &str) -> (r: Option<String>)
    ensures
        text::opt_text(r) == dir_version(dir@, name@),
{
    let mut prefix = name.to_owned();
    prefix.append("-");
    let d = text::to_chars(dir);
    let p = text::to_chars(prefix.as_str());
    if !text::begins(d.as_slice(), p.as_slice()) {
        return None;
    }
    let len: usize = d.len();
    let rest = slice_subrange(d.as_slice(), p.len(), len);
    proof {
        assert(rest@ =~= dir@.skip(prefix@.len() as int));
    }
    if rest.len() > 0 && '0' <= rest[0] && rest[0] <= '9' {
        Some(text::from_chars(rest))
    } else {
        None
    }
}

/// All `<name>-<version>` source dirs for `name` among the directories of one
/// registry index host. Filters out same-prefix crates (`serde` vs
/// `serde_json`) by requiring the remainder to start with a digit (a version).
pub fn versions_of(dirs: &Vec<RegistryDir>, name: &str) -> (r: Vec<Vendored>)
    ensures
        vendored_view(r@) == versions_in(dirs_view(dirs@), name@),
{
    let ghost ds = dirs_view(dirs@);
    let mut r: Vec<Vendored> = Vec::new();
    proof {
        assert(ds.take(0) =~= Seq::empty());
        assert(vendored_view(r@) =~= Seq::empty());
    }
    for k in 0..dirs.len()
        invariant
            ds == dirs_view(dirs@),
            vendored_view(r@) == versions_in(ds.take(k as int), name@),
    {
        proof {
            assert(ds.take(k + 1).drop_last() =~= ds.take(k as int));
            assert(ds[k as int] == (dirs@[k as int].name@, dirs@[k as int].path@));
        }
        match version_in_name(dirs[k].name.as_str(), name) {
            Some(version) => {
                let ghost before = r@;
                let ghost e = (version@, dirs@[k as int].path@);
                r.push(Vendored { version, path: dirs[k].path.clone() });
                proof {
                    assert(vendored_view(r@) =~= vendored_view(before).push(e));
                }
            },
            None => {},
        }
    }
    proof {
        assert(ds.take(ds.len() as int) =~= ds);
    }
    r
}

// --- Cargo.lock ------------------------------------------------------------------------------

/// A value of a lock file without the quotes around it.
pub open spec fn unquoted(s: Seq<char>) -> Seq<char> {
    text::trimmed_of(text::trimmed(s), '"')
}

/// The version pinned for `name` by the lines of a lock file. `inside` says
/// whether the lines start in a package block, and `current` is the name in that
/// block so far. A line that opens another table ends the block.
pub open spec fn pinned(
    lines: Seq<Seq<char>>,
    inside: bool,
    current: Option<Seq<char>>,
    name: Seq<char>,
) -> Option<Seq<char>>
    decreases lines.len(),
{
    if lines.len() == 0 {
        None
    } else {
        let line = text::trimmed(lines[0]);
        let rest = lines.drop_first();
        if line == "[[package]]"@ {
            pinned(rest, true, None, name)
        } else if text::starts_with(line, "["@) {
            pinned(rest, false, None, name)
        } else if inside && text::starts_with(line, "name = "@) {
            pinned(rest, true, Some(unquoted(line.skip(7))), name)
        } else if inside && text::starts_with(line, "version = "@) && current == Some(name) {
            Some(unquoted(line.skip(10)))
        } else {
            pinned(rest, inside, current, name)
        }
    }
}

/// A value of a lock file without the quotes around it.
fn unquote(s: &[char]) -> (r: String)
    ensures
        r@ == unquoted(s@),
{
    text::from_chars(text::trim_of(text::trim_white(s), '"'))
}

/// Scrapes the version for the `[[package]]` whose name matches. Cargo.lock is
/// TOML, but the relevant slice is a trivial, stable line grammar.
pub fn parse_lock_version(source: &str, name: &str) -> (r: Option<String>)
    ensures
        text::opt_text(r) == pinned(text::lines(source@), false, None, name@),
{
    let lines = text::lines_of(source);
    let ghost ls = text::lines(source@);
    let mut inside: bool = false;
    let mut current: Option<String> = None;
    let mut k: usize = 0;
    let header = text::to_chars("[[package]]");
    let bracket = text::to_chars("[");
    let name_key = text::to_chars("name = ");
    let version_key = text::to_chars("version = ");
    proof {
        assert(ls.skip(0) =~= ls);
        reveal_strlit("name = ");
        reveal_strlit("version = ");
    }
    while k < lines.len()
        invariant
            k <= lines.len(),
            ls == text::texts(lines@),
            ls == text::lines(source@),
            header@ == "[[package]]"@,
            bracket@ == "["@,
            name_key@ == "name = "@,
            version_key@ == "version = "@,
            "name = "@.len() == 7,
            "version = "@.len() == 10,
            pinned(ls, false, None, name@) == pinned(
                ls.skip(k as int),
                inside,
                text::opt_text(current),
                name@,
            ),
        decreases lines.len() - k,
    {
        let raw = text::to_chars(lines[k].as_str());
        let line = text::trim_white(raw.as_slice());
        let len: usize = line.len();
        proof {
            assert(ls.skip(k as int).drop_first() =~= ls.skip(k + 1));
            assert(ls.skip(k as int)[0] == lines@[k as int]@);
        }
        if text::same_chars(line, header.as_slice()) {
            inside = true;
            current = None;
        } else if text::begins(line, bracket.as_slice()) {
            inside = false;
            current = None;
        } else if inside && text::begins(line, name_key.as_slice()) {
            let rest = slice_subrange(line, 7, len);
            proof {
                assert(rest@ =~= line@.skip(7));
            }
            current = Some(unquote(rest));
        } else if inside && text::begins(line, version_key.as_slice()) {
            let same = match &current {
                Some(c) => text::same_text(c.as_str(), name),
                None => false,
            };
            if same {
                let rest = slice_subrange(line, 10, len);
                proof {
                    assert(rest@ =~= line@.skip(10));
                }
                return Some(unquote(rest));
            }
        }
        k = k + 1;
    }
    None
}

// --- selection -------------------------------------------------------------------------------

/// The directory of the first of `versions` that is `want`.
pub open spec fn dir_of(versions: Seq<(Seq<char>, Seq<char>)>, want: Seq<char>) -> Option<Seq<char>>
    decreases versions.len(),
{
    if versions.len() == 0 {
        None
    } else if versions[0].0 == want {
        Some(versions[0].1)
    } else {
        dir_of(versions.drop_first(), want)
    }
}

/// The position of the highest of `versions`, the last one where several are.
pub open spec fn highest(versions: Seq<(Seq<char>, Seq<char>)>) -> int
    decreases versions.len(),
{
    if versions.len() <= 1 {
        0
    } else {
        let best = highest(versions.drop_last());
        if lower(version_of(versions.last().0), version_of(versions[best].0)) {
            best
        } else {
            versions.len() - 1
        }
    }
}

/// `sorted` with `v` behind all versions that are not lower.
pub open spec fn put_version(sorted: Seq<Seq<char>>, v: Seq<char>) -> Seq<Seq<char>>
    decreases sorted.len(),
{
    if sorted.len() == 0 {
        seq![v]
    } else if lower(version_of(sorted[0]), version_of(v)) {
        seq![v] + sorted
    } else {
        seq![sorted[0]] + put_version(sorted.drop_first(), v)
    }
}

/// The versions from the highest to the lowest; those with the same numbers in
/// their order.
pub open spec fn falling(versions: Seq<(Seq<char>, Seq<char>)>) -> Seq<Seq<char>>
    decreases versions.len(),
{
    if versions.len() == 0 {
        Seq::empty()
    } else {
        put_version(falling(versions.drop_last()), versions.last().0)
    }
}

pub open spec fn absent_text(name: Seq<char>) -> Seq<char> {
    "error: crate `"@ + name
        + "` not found in the cargo registry. Run `cargo fetch` in a project that depends on it first."@
}

pub open spec fn not_vendored_text(
    name: Seq<char>,
    want: Seq<char>,
    versions: Seq<(Seq<char>, Seq<char>)>,
) -> Seq<char> {
    "error: `"@ + name + "@"@ + want + "` not vendored. Available: "@ + text::join(
        falling(versions),
        ", "@,
    )
}

pub open spec fn pin_not_vendored_text(name: Seq<char>, version: Seq<char>) -> Seq<char> {
    "error: Cargo.lock pins `"@ + name + " "@ + version
        + "` but that version is not vendored. Run `cargo fetch`."@
}

pub open spec fn picked_text(name: Seq<char>, count: nat, version: Seq<char>) -> Seq<char> {
    "warning: no Cargo.lock entry for `"@ + name + "`; picked highest of "@ + text::decimal(count)
        + " vendored versions ("@ + version + ")"@
}

/// The chosen directory and the warning, or the error.
pub open spec fn selected(
    name: Seq<char>,
    versions: Seq<(Seq<char>, Seq<char>)>,
    want: Option<Seq<char>>,
    lock: Option<Seq<char>>,
) -> Result<(Seq<char>, Option<Seq<char>>), Seq<char>> {
    if versions.len() == 0 {
        Err(absent_text(name))
    } else if want is Some {
        match dir_of(versions, want->0) {
            Some(dir) => Ok((dir, None)),
            None => Err(not_vendored_text(name, want->0, versions)),
        }
    } else if lock is Some {
        match dir_of(versions, lock->0) {
            Some(dir) => Ok((dir, None)),
            None => Err(pin_not_vendored_text(name, lock->0)),
        }
    } else {
        let (version, dir) = versions[highest(versions)];
        Ok(
            (
                dir,
                if versions.len() > 1 {
                    Some(picked_text(name, versions.len(), version))
                } else {
                    None
                },
            ),
        )
    }
}

pub open spec fn outcome(r: Result<Selection, String>) -> Result<
    (Seq<char>, Option<Seq<char>>),
    Seq<char>,
> {
    match r {
        Ok(s) => Ok((s.path@, text::opt_text(s.warn))),
        Err(e) => Err(e@),
    }
}

/// No version is higher than the highest.
pub proof fn law_highest(versions: Seq<(Seq<char>, Seq<char>)>)
    requires
        versions.len() > 0,
    ensures
        0 <= highest(versions) < versions.len(),
        forall|i: int|
            0 <= i < versions.len() ==> !lower(
                version_of(versions[highest(versions)].0),
                version_of((#[trigger] versions[i]).0),
            ),
    decreases versions.len(),
{
    if versions.len() > 1 {
        let rest = versions.drop_last();
        law_highest(rest);
        let best = highest(rest);
        assert forall|i: int| 0 <= i < versions.len() implies !lower(
            version_of(versions[highest(versions)].0),
            version_of((#[trigger] versions[i]).0),
        ) by {
            if i < rest.len() {
                assert(rest[i] == versions[i]);
                assert(!lower(version_of(rest[best].0), version_of(rest[i].0)));
            }
        }
    }
}

/// The versions are listed from the highest to the lowest, and none is lost or
/// made up.
pub proof fn law_falling(versions: Seq<(Seq<char>, Seq<char>)>)
    ensures
        falling(versions).to_multiset() == versions.map_values(
            |v: (Seq<char>, Seq<char>)| v.0,
        ).to_multiset(),
        forall|i: int, j: int|
            0 <= i < j < falling(versions).len() ==> !lower(
                version_of(#[trigger] falling(versions)[i]),
                version_of(#[trigger] falling(versions)[j]),
            ),
    decreases versions.len(),
{
    let names = versions.map_values(|v: (Seq<char>, Seq<char>)| v.0);
    if versions.len() == 0 {
        assert(names =~= falling(versions));
    } else {
        let rest = versions.drop_last();
        law_falling(rest);
        let old = rest.map_values(|v: (Seq<char>, Seq<char>)| v.0);
        assert(names =~= old.push(versions.last().0));
        vstd::seq_lib::to_multiset_build(old, versions.last().0);
        lemma_put_version(falling(rest), versions.last().0);
    }
}

proof fn lemma_put_version(sorted: Seq<Seq<char>>, v: Seq<char>)
    requires
        forall|i: int, j: int|
            0 <= i < j < sorted.len() ==> !lower(
                version_of(#[trigger] sorted[i]),
                version_of(#[trigger] sorted[j]),
            ),
    ensures
        put_version(sorted, v).to_multiset() == sorted.to_multiset().insert(v),
        put_version(sorted, v).len() == sorted.len() + 1,
        forall|i: int, j: int|
            0 <= i < j < put_version(sorted, v).len() ==> !lower(
                version_of(#[trigger] put_version(sorted, v)[i]),
                version_of(#[trigger] put_version(sorted, v)[j]),
            ),
        forall|i: int|
            0 <= i < put_version(sorted, v).len() ==> (#[trigger] put_version(sorted, v)[i] == v
                || sorted.contains(put_version(sorted, v)[i])),
    decreases sorted.len(),
{
    let r = put_version(sorted, v);
    if sorted.len() == 0 {
        assert(r =~= sorted.push(v));
        vstd::seq_lib::to_multiset_build(sorted, v);
    } else if lower(version_of(sorted[0]), version_of(v)) {
        assert(r =~= sorted.insert(0, v));
        vstd::seq_lib::to_multiset_insert(sorted, 0, v);
        assert forall|i: int, j: int| 0 <= i < j < r.len() implies !lower(
            version_of(#[trigger] r[i]),
            version_of(#[trigger] r[j]),
        ) by {
            if i > 0 {
                assert(!lower(version_of(sorted[i - 1]), version_of(sorted[j - 1])));
            } else if j > 1 {
                assert(!lower(version_of(sorted[0]), version_of(sorted[j - 1])));
            }
        }
        assert forall|i: int| 0 <= i < r.len() implies (#[trigger] r[i] == v || sorted.contains(
            r[i],
        )) by {
            if i > 0 {
                assert(sorted[i - 1] == r[i]);
            }
        }
    } else {
        let t = sorted.drop_first();
        assert forall|i: int, j: int| 0 <= i < j < t.len() implies !lower(
            version_of(#[trigger] t[i]),
            version_of(#[trigger] t[j]),
        ) by {
            assert(!lower(version_of(sorted[i + 1]), version_of(sorted[j + 1])));
        }
        lemma_put_version(t, v);
        let p = put_version(t, v);
        assert(r =~= p.insert(0, sorted[0]));
        vstd::seq_lib::to_multiset_insert(p, 0, sorted[0]);
        assert(sorted =~= t.insert(0, sorted[0]));
        vstd::seq_lib::to_multiset_insert(t, 0, sorted[0]);
        assert(t.to_multiset().insert(v).insert(sorted[0]) =~= t.to_multiset().insert(
            sorted[0],
        ).insert(v));
        assert forall|i: int| 0 <= i < r.len() implies (#[trigger] r[i] == v || sorted.contains(
            r[i],
        )) by {
            if i == 0 {
                assert(sorted[0] == r[0]);
            } else {
                assert(p[i - 1] == r[i]);
                if p[i - 1] != v {
                    let k = choose|k: int| 0 <= k < t.len() && t[k] == p[i - 1];
                    assert(sorted[k + 1] == r[i]);
                }
            }
        }
        assert forall|i: int, j: int| 0 <= i < j < r.len() implies !lower(
            version_of(#[trigger] r[i]),
            version_of(#[trigger] r[j]),
        ) by {
            if i > 0 {
                assert(!lower(version_of(p[i - 1]), version_of(p[j - 1])));
            } else {
                assert(p[j - 1] == r[j]);
                if p[j - 1] != v {
                    let k = choose|k: int| 0 <= k < t.len() && t[k] == p[j - 1];
                    assert(!lower(version_of(sorted[0]), version_of(sorted[k + 1])));
                }
            }
        }
    }
}

/// The directory of the first of `versions` that is `want`.
fn find_dir(versions: &Vec<Vendored>, want: &str) -> (r: Option<String>)
    ensures
        text::opt_text(r) == dir_of(vendored_view(versions@), want@),
{
    let ghost vs = vendored_view(versions@);
    let mut k: usize = 0;
    proof {
        assert(vs.skip(0) =~= vs);
    }
    while k < versions.len()
        invariant
            k <= versions.len(),
            vs == vendored_view(versions@),
            dir_of(vs, want@) == dir_of(vs.skip(k as int), want@),
        decreases versions.len() - k,
    {
        proof {
            assert(vs.skip(k as int).drop_first() =~= vs.skip(k + 1));
            assert(vs.skip(k as int)[0] == (versions@[k as int].version@, versions@[k as int].path@));
        }
        if text::same_text(versions[k].version.as_str(), want) {
            return Some(versions[k].path.clone());
        }
        k = k + 1;
    }
    None
}

/// The versions from the highest to the lowest.
fn list_falling(versions: &Vec<Vendored>) -> (r: Vec<String>)
    ensures
        text::texts(r@) == falling(vendored_view(versions@)),
{
    let ghost vs = vendored_view(versions@);
    let mut r: Vec<String> = Vec::new();
    proof {
        assert(vs.take(0) =~= Seq::empty());
        assert(text::texts(r@) =~= Seq::empty());
    }
    for k in 0..versions.len()
        invariant
            vs == vendored_view(versions@),
            text::texts(r@) == falling(vs.take(k as int)),
    {
        let ghost sorted = text::texts(r@);
        let v = versions[k].version.as_str();
        proof {
            assert(vs.take(k + 1).drop_last() =~= vs.take(k as int));
            assert(vs[k as int].0 == v@);
            assert(sorted.skip(0) =~= sorted);
            assert(sorted.take(0) + put_version(sorted, v@) =~= put_version(sorted, v@));
        }
        let mut i: usize = 0;
        while i < r.len() && !is_lower(r[i].as_str(), v)
            invariant
                i <= r.len(),
                sorted == text::texts(r@),
                put_version(sorted, v@) == sorted.take(i as int) + put_version(
                    sorted.skip(i as int),
                    v@,
                ),
            decreases r.len() - i,
        {
            proof {
                let t = sorted.skip(i as int);
                assert(t[0] == r@[i as int]@);
                assert(t.drop_first() =~= sorted.skip(i + 1));
                assert(sorted.take(i as int) + (seq![t[0]] + put_version(t.drop_first(), v@))
                    =~= sorted.take(i + 1) + put_version(sorted.skip(i + 1), v@));
            }
            i = i + 1;
        }
        proof {
            let t = sorted.skip(i as int);
            if i < r.len() {
                assert(t[0] == r@[i as int]@);
                assert(sorted.take(i as int) + (seq![v@] + t) =~= sorted.insert(i as int, v@));
            } else {
                assert(sorted.take(i as int) + seq![v@] =~= sorted.insert(i as int, v@));
            }
        }
        r.insert(i, v.to_owned());
        proof {
            assert(text::texts(r@) =~= sorted.insert(i as int, v@));
        }
    }
    proof {
        assert(vs.take(vs.len() as int) =~= vs);
    }
    r
}

/// The position of the highest of `versions`.
fn find_highest(versions: &Vec<Vendored>) -> (r: usize)
    requires
        versions.len() > 0,
    ensures
        r == highest(vendored_view(versions@)),
        r < versions.len(),
{
    let ghost vs = vendored_view(versions@);
    let mut best: usize = 0;
    for k in 1..versions.len()
        invariant
            vs == vendored_view(versions@),
            0 < versions.len(),
            best < k,
            best < versions.len(),
            best == highest(vs.take(k as int)),
    {
        proof {
            assert(vs.take(k + 1).drop_last() =~= vs.take(k as int));
            assert(vs[k as int].0 == versions@[k as int].version@);
            assert(vs[best as int].0 == versions@[best as int].version@);
        }
        if !is_lower(versions[k].version.as_str(), versions[best].version.as_str()) {
            best = k;
        }
    }
    proof {
        assert(vs.take(vs.len() as int) =~= vs);
    }
    best
}

/// Version-selection policy. `versions` are the `<name>-<ver>` dirs found in the
/// registry; `want` is an explicit `@version` pin; `lock` is the version pinned
/// by Cargo.lock (only for a bare name).
pub fn select(
    name: &str,
    versions: &Vec<Vendored>,
    want: Option<&str>,
    lock: Option<&str>,
) -> (r: Result<Selection, String>)
    ensures
        outcome(r) == selected(
            name@,
            vendored_view(versions@),
            text::opt_str(want),
            text::opt_str(lock),
        ),
{
    if versions.len() == 0 {
        let mut e = "error: crate `".to_owned();
        e.append(name);
        e.append(
            "` not found in the cargo registry. Run `cargo fetch` in a project that depends on it first.",
        );
        return Err(e);
    }
    // Explicit `name@version`: exact match or list what's available.
    if let Some(v) = want {
        return match find_dir(versions, v) {
            Some(path) => Ok(Selection { path, warn: None }),
            None => {
                let mut e = "error: `".to_owned();
                e.append(name);
                e.append("@");
                e.append(v);
                e.append("` not vendored. Available: ");
                e.append(text::join_strings(&list_falling(versions), ", ").as_str());
                Err(e)
            },
        };
    }
    // Bare name: prefer the version pinned by the nearest Cargo.lock.
    if let Some(v) = lock {
        return match find_dir(versions, v) {
            Some(path) => Ok(Selection { path, warn: None }),
            None => {
                let mut e = "error: Cargo.lock pins `".to_owned();
                e.append(name);
                e.append(" ");
                e.append(v);
                e.append("` but that version is not vendored. Run `cargo fetch`.");
                Err(e)
            },
        };
    }
    // No pin: take the highest version, warn if that was an actual choice.
    let best = find_highest(versions);
    proof {
        assert(vendored_view(versions@)[best as int] == (
            versions@[best as int].version@,
            versions@[best as int].path@,
        ));
    }
    let warn = if versions.len() > 1 {
        let mut w = "warning: no Cargo.lock entry for `".to_owned();
        w.append(name);
        w.append("`; picked highest of ");
        w.append(text::decimal_of(versions.len()).as_str());
        w.append(" vendored versions (");
        w.append(versions[best].version.as_str());
        w.append(")");
        Some(w)
    } else {
        None
    };
    Ok(Selection { path: versions[best].path.clone(), warn })
}

// --- resolution ------------------------------------------------------------------------------

/// `name@version` as the name and the version, at the first `@`.
pub open spec fn spec_parts(spec_text: Seq<char>) -> (Seq<char>, Option<Seq<char>>) {
    let at = text::first_position(spec_text, '@');
    if at < spec_text.len() {
        (spec_text.take(at), Some(spec_text.skip(at + 1)))
    } else {
        (spec_text, None)
    }
}

/// The versions of the crate `name` in all registries.
pub open spec fn all_versions(
    registries: Seq<Vec<RegistryDir>>,
    name: Seq<char>,
) -> Seq<(Seq<char>, Seq<char>)>
    decreases registries.len(),
{
    if registries.len() == 0 {
        Seq::empty()
    } else {
        all_versions(registries.drop_last(), name) + versions_in(
            dirs_view(registries.last()@),
            name,
        )
    }
}

pub open spec fn empty_name_text(spec_text: Seq<char>) -> Seq<char> {
    "error: empty crate name in `"@ + spec_text + "`"@
}

pub open spec fn no_registry_text(home: Seq<char>) -> Seq<char> {
    "error: no cargo registry source dir found under "@ + registry_base_of(home)
        + ". Run `cargo fetch` first, or set CARGO_HOME."@
}

/// The directory of the registries under `$CARGO_HOME`.
pub open spec fn registry_base_of(home: Seq<char>) -> Seq<char> {
    paths::joined(paths::joined(home, "registry"@), "src"@)
}

/// The source of a crate: `registries` are the directories of each index host
/// under `home`, and `lock` is the text of the nearest lock file.
pub open spec fn resolved(
    spec_text: Seq<char>,
    home: Seq<char>,
    registries: Seq<Vec<RegistryDir>>,
    lock: Option<Seq<char>>,
) -> Result<(Seq<char>, Option<Seq<char>>), Seq<char>> {
    let (name, want) = spec_parts(spec_text);
    let pin = match (want, lock) {
        (None, Some(source)) => pinned(text::lines(source), false, None, name),
        _ => None,
    };
    if name.len() == 0 {
        Err(empty_name_text(spec_text))
    } else if registries.len() == 0 {
        Err(no_registry_text(home))
    } else {
        selected(name, all_versions(registries, name), want, pin)
    }
}

/// The directory of the registries under `$CARGO_HOME`.
pub fn registry_base(home: &str) -> (r: String)
    ensures
        r@ == registry_base_of(home@),
{
    paths::join(paths::join(home, "registry").as_str(), "src")
}

/// Where cargo keeps its files: `$CARGO_HOME`, else `$HOME/.cargo`, else
/// `.cargo`.
pub open spec fn home_of(cargo_home: Option<Seq<char>>, home: Option<Seq<char>>) -> Seq<char> {
    match cargo_home {
        Some(h) => h,
        None => match home {
            Some(h) => paths::joined(h, ".cargo"@),
            None => ".cargo"@,
        },
    }
}

/// Where cargo keeps its files, given the variables `CARGO_HOME` and `HOME`.
pub fn cargo_home(own: Option<&str>, home: Option<&str>) -> (r: String)
    ensures
        r@ == home_of(text::opt_str(own), text::opt_str(home)),
{
    match own {
        Some(h) => h.to_owned(),
        None => match home {
            Some(h) => paths::join(h, ".cargo"),
            None => ".cargo".to_owned(),
        },
    }
}

/// `name@version` as the name and the version.
fn split_spec(spec_text: &str) -> (r: (String, Option<String>))
    ensures
        (r.0@, text::opt_text(r.1)) == spec_parts(spec_text@),
{
    let s = text::to_chars(spec_text);
    proof {
        text::lemma_first_position(spec_text@, '@');
    }
    let len: usize = s.len();
    match text::position(s.as_slice(), '@') {
        Some(at) => {
            let name = text::from_chars(slice_subrange(s.as_slice(), 0, at));
            let version = text::from_chars(slice_subrange(s.as_slice(), at + 1, len));
            proof {
                assert(name@ =~= spec_text@.take(at as int));
                assert(version@ =~= spec_text@.skip(at + 1));
            }
            (name, Some(version))
        },
        None => (spec_text.to_owned(), None),
    }
}

/// The versions of the crate `name` in all registries.
fn gather_versions(registries: &Vec<Vec<RegistryDir>>, name: &str) -> (r: Vec<Vendored>)
    ensures
        vendored_view(r@) == all_versions(registries@, name@),
{
    let ghost rs = registries@;
    let mut r: Vec<Vendored> = Vec::new();
    proof {
        assert(rs.take(0) =~= Seq::empty());
        assert(vendored_view(r@) =~= Seq::empty());
    }
    for k in 0..registries.len()
        invariant
            rs == registries@,
            vendored_view(r@) == all_versions(rs.take(k as int), name@),
    {
        proof {
            assert(rs.take(k + 1).drop_last() =~= rs.take(k as int));
        }
        let ghost before = r@;
        let mut more = versions_of(&registries[k], name);
        let ghost added = more@;
        r.append(&mut more);
        proof {
            assert(vendored_view(r@) =~= vendored_view(before) + vendored_view(added));
        }
    }
    proof {
        assert(rs.take(rs.len() as int) =~= rs);
    }
    r
}

/// Resolves a crate spec to its unpacked source root in the cargo registry.
///
/// Spec forms:
/// - `name`: version from the nearest `Cargo.lock`, else the highest version
///   present in the registry (with a warning).
/// - `name@version`: exact `<name>-<version>` dir.
///
/// `registries` are the directories of each index host under `home`, and `lock`
/// is the text of the nearest lock file. Returns a printable error (with a hint)
/// if nothing matches.
pub fn resolve(
    spec_text: &str,
    home: &str,
    registries: &Vec<Vec<RegistryDir>>,
    lock: Option<&str>,
) -> (r: Result<Selection, String>)
    ensures
        outcome(r) == resolved(spec_text@, home@, registries@, text::opt_str(lock)),
{
    let (name, want) = split_spec(spec_text);
    if name.as_str().unicode_len() == 0 {
        let mut e = "error: empty crate name in `".to_owned();
        e.append(spec_text);
        e.append("`");
        return Err(e);
    }
    if registries.len() == 0 {
        let mut e = "error: no cargo registry source dir found under ".to_owned();
        e.append(registry_base(home).as_str());
        e.append(". Run `cargo fetch` first, or set CARGO_HOME.");
        return Err(e);
    }
    let versions = gather_versions(registries, name.as_str());
    // A bare name defers to the nearest Cargo.lock pin; an explicit
    // `name@version` ignores the lock entirely.
    let pin = match (&want, lock) {
        (None, Some(source)) => parse_lock_version(source, name.as_str()),
        _ => None,
    };
    select(name.as_str(), &versions, text::as_opt_str(&want), text::as_opt_str(&pin))
}

// --- what is chosen --------------------------------------------------------------------------

/// Versions are compared by the major number first, then by the minor number, and
/// then by the patch number.
pub proof fn law_versions_compare_by_parts(a: (nat, nat, nat), b: (nat, nat, nat))
    ensures
        a.0 != b.0 ==> (lower(a, b) <==> a.0 < b.0),
        a.0 == b.0 && a.1 != b.1 ==> (lower(a, b) <==> a.1 < b.1),
        a.0 == b.0 && a.1 == b.1 ==> (lower(a, b) <==> a.2 < b.2),
{
}

proof fn lemma_join_lacks(parts: Seq<Seq<char>>, sep: char, c: char)
    requires
        sep != c,
        forall|i: int| 0 <= i < parts.len() ==> !(#[trigger] parts[i]).contains(c),
    ensures
        !text::join(parts, seq![sep]).contains(c),
    decreases parts.len(),
{
    let all = text::join(parts, seq![sep]);
    if parts.len() == 1 {
        assert(!parts[0].contains(c));
    } else if parts.len() > 1 {
        let front = parts.drop_last();
        assert forall|i: int| 0 <= i < front.len() implies !(#[trigger] front[i]).contains(c) by {
            assert(front[i] == parts[i]);
        }
        lemma_join_lacks(front, sep, c);
        let head = text::join(front, seq![sep]);
        let tail = parts[parts.len() - 1];
        assert(!tail.contains(c));
        assert(all =~= head + seq![sep] + tail);
        assert forall|k: int| 0 <= k < all.len() implies all[k] != c by {
            if k < head.len() {
                assert(head.contains(head[k]));
            } else if k > head.len() {
                assert(tail.contains(tail[k - head.len() - 1]));
            }
        }
    }
}

/// A version is read part by part, between dots: its first three parts are its
/// numbers, and one that is missing or no number counts as zero. What follows the
/// first `-` or `+` is ignored.
pub proof fn law_versions_are_read(parts: Seq<Seq<char>>, rest: Seq<char>)
    requires
        parts.len() > 0,
        forall|i: int|
            0 <= i < parts.len() ==> !(#[trigger] parts[i]).contains('.') && !parts[i].contains('-')
                && !parts[i].contains('+'),
        rest.len() == 0 || rest[0] == '-' || rest[0] == '+',
    ensures
        ({
            let numbers = version_of(text::join(parts, seq!['.']) + rest);
            &&& numbers.0 == match text::number(parts[0], u64::MAX as nat) {
                Some(n) => n,
                None => 0,
            }
            &&& parts.len() > 1 ==> numbers.1 == match text::number(parts[1], u64::MAX as nat) {
                Some(n) => n,
                None => 0,
            }
            &&& parts.len() > 2 ==> numbers.2 == match text::number(parts[2], u64::MAX as nat) {
                Some(n) => n,
                None => 0,
            }
            &&& parts.len() <= 1 ==> numbers.1 == 0
            &&& parts.len() <= 2 ==> numbers.2 == 0
        }),
{
    let core = text::join(parts, seq!['.']);
    let v = core + rest;
    lemma_join_lacks(parts, '.', '-');
    lemma_join_lacks(parts, '.', '+');
    text::lemma_join_split(parts, '.');
    text::lemma_first_position(v, '-');
    text::lemma_first_position(v, '+');
    assert forall|k: int| 0 <= k < core.len() implies v[k] != '-' && v[k] != '+' by {
        assert(core.contains(core[k]));
    }
    assert(rest.len() > 0 ==> v[core.len() as int] == rest[0]);
    assert(core_len(v) == core.len());
    assert(v.take(core.len() as int) =~= core);
}

proof fn lemma_versions_in(dirs: Seq<(Seq<char>, Seq<char>)>, name: Seq<char>)
    ensures
        versions_in(dirs, name) == dirs.filter_map(
            |d: (Seq<char>, Seq<char>)|
                if d.0.len() > name.len() + 1 && d.0.take(name.len() as int) == name
                    && d.0[name.len() as int] == '-' && '0' <= d.0[name.len() as int + 1]
                    && d.0[name.len() as int + 1] <= '9' {
                    Some((d.0.skip(name.len() as int + 1), d.1))
                } else {
                    None
                },
        ),
    decreases dirs.len(),
{
    if dirs.len() > 0 {
        lemma_versions_in(dirs.drop_last(), name);
        let d = dirs.last().0;
        let prefix = name + "-"@;
        reveal_strlit("-");
        let n = name.len() as int;
        if text::starts_with(d, prefix) {
            assert(d.subrange(0, n + 1) =~= prefix);
            assert(d.take(n) =~= name) by {
                assert(forall|k: int| 0 <= k < n ==> d[k] == #[trigger] d.subrange(0, n + 1)[k]);
                assert(forall|k: int| 0 <= k < n ==> #[trigger] prefix[k] == name[k]);
            }
            assert(d.subrange(0, n + 1)[n] == prefix[n]);
        }
        if d.len() > n + 1 && d.take(n) == name && d[n] == '-' {
            assert(d.subrange(0, n + 1) =~= prefix) by {
                assert(forall|k: int| 0 <= k < n ==> d[k] == #[trigger] d.take(n)[k]);
            }
        }
        if d.len() > n + 1 {
            assert(d.skip(n + 1)[0] == d[n + 1]);
        }
    }
}

/// The versions of a crate are the directories `<name>-<version>` of all
/// registries, in their order, where the version starts with a digit.
pub proof fn law_versions_are_gathered(registries: Seq<Vec<RegistryDir>>, name: Seq<char>)
    ensures
        all_versions(registries, name) == registries.map_values(
            |dirs: Vec<RegistryDir>|
                dirs@.map_values(|d: RegistryDir| (d.name@, d.path@)).filter_map(
                    |d: (Seq<char>, Seq<char>)|
                        if d.0.len() > name.len() + 1 && d.0.take(name.len() as int) == name
                            && d.0[name.len() as int] == '-' && '0' <= d.0[name.len() as int + 1]
                            && d.0[name.len() as int + 1] <= '9' {
                            Some((d.0.skip(name.len() as int + 1), d.1))
                        } else {
                            None
                        },
                ),
        ).flatten(),
    decreases registries.len(),
{
    let found = |dirs: Vec<RegistryDir>|
        dirs@.map_values(|d: RegistryDir| (d.name@, d.path@)).filter_map(
            |d: (Seq<char>, Seq<char>)|
                if d.0.len() > name.len() + 1 && d.0.take(name.len() as int) == name
                    && d.0[name.len() as int] == '-' && '0' <= d.0[name.len() as int + 1]
                    && d.0[name.len() as int + 1] <= '9' {
                    Some((d.0.skip(name.len() as int + 1), d.1))
                } else {
                    None
                },
        );
    let all = registries.map_values(found);
    if registries.len() == 0 {
        assert(all =~= Seq::empty());
    } else {
        let rest = registries.drop_last();
        law_versions_are_gathered(rest, name);
        lemma_versions_in(dirs_view(registries.last()@), name);
        let last = found(registries.last());
        assert(all =~= rest.map_values(found).push(last));
        rest.map_values(found).lemma_flatten_push(last);
    }
}

proof fn lemma_dir_of(versions: Seq<(Seq<char>, Seq<char>)>, want: Seq<char>)
    ensures
        match dir_of(versions, want) {
            Some(dir) => exists|i: int|
                0 <= i < versions.len() && (#[trigger] versions[i]).0 == want && versions[i].1 == dir
                    && forall|j: int| 0 <= j < i ==> (#[trigger] versions[j]).0 != want,
            None => forall|j: int| 0 <= j < versions.len() ==> (#[trigger] versions[j]).0 != want,
        },
    decreases versions.len(),
{
    if versions.len() > 0 && versions[0].0 != want {
        let rest = versions.drop_first();
        lemma_dir_of(rest, want);
        match dir_of(rest, want) {
            Some(dir) => {
                let i = choose|i: int|
                    0 <= i < rest.len() && (#[trigger] rest[i]).0 == want && rest[i].1 == dir
                        && forall|j: int| 0 <= j < i ==> (#[trigger] rest[j]).0 != want;
                assert(versions[i + 1] == rest[i]);
                assert forall|j: int| 0 <= j < i + 1 implies (#[trigger] versions[j]).0 != want by {
                    if j > 0 {
                        assert(rest[j - 1] == versions[j]);
                    }
                }
            },
            None => {
                assert forall|j: int| 0 <= j < versions.len() implies (#[trigger] versions[j]).0
                    != want by {
                    if j > 0 {
                        assert(rest[j - 1] == versions[j]);
                    }
                }
            },
        }
    }
}

proof fn lemma_highest_last(versions: Seq<(Seq<char>, Seq<char>)>)
    requires
        versions.len() > 0,
    ensures
        forall|i: int|
            highest(versions) < i < versions.len() ==> lower(
                version_of((#[trigger] versions[i]).0),
                version_of(versions[highest(versions)].0),
            ),
    decreases versions.len(),
{
    if versions.len() > 1 {
        let rest = versions.drop_last();
        lemma_highest_last(rest);
        law_highest(rest);
        assert forall|i: int| highest(versions) < i < versions.len() implies lower(
            version_of((#[trigger] versions[i]).0),
            version_of(versions[highest(versions)].0),
        ) by {
            if i < rest.len() {
                assert(rest[i] == versions[i]);
            }
        }
    }
}

/// Which version is chosen: the one that is asked for, else the one that the lock
/// file pins, else the highest one (the last of them where several are), with a
/// warning where there was a choice. What is asked for or pinned and is not there
/// is an error, and so is a crate without versions.
pub proof fn law_selection(
    name: Seq<char>,
    versions: Seq<(Seq<char>, Seq<char>)>,
    want: Option<Seq<char>>,
    lock: Option<Seq<char>>,
)
    ensures
        ({
            let r = selected(name, versions, want, lock);
            let asked = if want is Some {
                want
            } else {
                lock
            };
            &&& versions.len() == 0 ==> r == Err::<(Seq<char>, Option<Seq<char>>), Seq<char>>(
                "error: crate `"@ + name
                    + "` not found in the cargo registry. Run `cargo fetch` in a project that depends on it first."@,
            )
            &&& asked matches Some(v) ==> forall|i: int|
                0 <= i < versions.len() && (#[trigger] versions[i]).0 == v && (forall|j: int|
                    0 <= j < i ==> (#[trigger] versions[j]).0 != v) ==> r == Ok::<
                    (Seq<char>, Option<Seq<char>>),
                    Seq<char>,
                >((versions[i].1, None))
            &&& asked matches Some(v) ==> versions.len() > 0 && (forall|j: int|
                0 <= j < versions.len() ==> (#[trigger] versions[j]).0 != v) ==> r == Err::<
                (Seq<char>, Option<Seq<char>>),
                Seq<char>,
            >(
                if want is Some {
                    "error: `"@ + name + "@"@ + v + "` not vendored. Available: "@ + text::join(
                        falling(versions),
                        ", "@,
                    )
                } else {
                    "error: Cargo.lock pins `"@ + name + " "@ + v
                        + "` but that version is not vendored. Run `cargo fetch`."@
                },
            )
            &&& asked is None && versions.len() > 0 ==> exists|i: int|
                {
                    &&& 0 <= i < versions.len()
                    &&& forall|j: int|
                        0 <= j < versions.len() ==> !lower(
                            version_of(versions[i].0),
                            version_of((#[trigger] versions[j]).0),
                        )
                    &&& forall|j: int|
                        i < j < versions.len() ==> lower(
                            version_of((#[trigger] versions[j]).0),
                            version_of(versions[i].0),
                        )
                    &&& r == Ok::<(Seq<char>, Option<Seq<char>>), Seq<char>>(
                        (
                            (#[trigger] versions[i]).1,
                            if versions.len() == 1 {
                                None
                            } else {
                                Some(
                                    "warning: no Cargo.lock entry for `"@ + name
                                        + "`; picked highest of "@ + text::decimal(versions.len())
                                        + " vendored versions ("@ + versions[i].0 + ")"@,
                                )
                            },
                        ),
                    )
                }
        }),
{
    if versions.len() > 0 {
        law_highest(versions);
        lemma_highest_last(versions);
        if want is Some {
            lemma_dir_of(versions, want->0);
        } else if lock is Some {
            lemma_dir_of(versions, lock->0);
        } else {
            let i = highest(versions);
            assert(versions[i] == versions[highest(versions)]);
        }
    }
}

/// What a crate spec means: `name@version` asks for that version, whatever the
/// lock file says; a bare name for the version that the lock file pins, where it
/// pins one. A name is not empty, and there is a registry.
pub proof fn law_spec_is_split(
    name: Seq<char>,
    version: Seq<char>,
    home: Seq<char>,
    registries: Seq<Vec<RegistryDir>>,
    lock: Option<Seq<char>>,
)
    requires
        !name.contains('@'),
    ensures
        ({
            let all = all_versions(registries, name);
            let spec_text = name + "@"@ + version;
            let none = "error: no cargo registry source dir found under "@ + paths::joined(
                paths::joined(home, "registry"@),
                "src"@,
            ) + ". Run `cargo fetch` first, or set CARGO_HOME."@;
            &&& resolved(spec_text, home, registries, lock) == if name.len() == 0 {
                Err("error: empty crate name in `"@ + spec_text + "`"@)
            } else if registries.len() == 0 {
                Err(none)
            } else {
                selected(name, all, Some(version), None)
            }
            &&& resolved(name, home, registries, lock) == if name.len() == 0 {
                Err("error: empty crate name in `"@ + name + "`"@)
            } else if registries.len() == 0 {
                Err(none)
            } else {
                selected(
                    name,
                    all,
                    None,
                    match lock {
                        Some(source) => pinned(text::lines(source), false, None, name),
                        None => None,
                    },
                )
            }
        }),
{
    reveal_strlit("@");
    let full = name + "@"@ + version;
    assert forall|k: int| 0 <= k < name.len() implies name[k] != '@' by {
        assert(name.contains(name[k]));
    }
    text::lemma_first_position_is(full, '@', name.len() as int);
    text::lemma_first_position_is(name, '@', name.len() as int);
    assert(full.take(name.len() as int) =~= name);
    assert(full.skip(name.len() as int + 1) =~= version);
}

/// Whether the line before which `n` lines stand lies in a package block.
spec fn in_block(lines: Seq<Seq<char>>, n: int) -> bool {
    exists|i: int|
        0 <= i < n && text::trimmed(#[trigger] lines[i]) == "[[package]]"@ && forall|m: int|
            i < m < n ==> !text::starts_with(text::trimmed(#[trigger] lines[m]), "["@)
}

/// Whether `c` is the name in the block before line `n`.
spec fn named(lines: Seq<Seq<char>>, n: int, c: Seq<char>) -> bool {
    exists|j: int|
        0 <= j < n && text::starts_with(text::trimmed(#[trigger] lines[j]), "name = "@)
            && text::trimmed_of(text::trimmed(text::trimmed(lines[j]).skip(7)), '"') == c
            && in_block(lines, j) && forall|m: int|
            j < m < n ==> !text::starts_with(text::trimmed(#[trigger] lines[m]), "["@)
                && !text::starts_with(text::trimmed(lines[m]), "name = "@)
}

/// Whether line `k` pins the version of `name`.
spec fn pins(lines: Seq<Seq<char>>, k: int, name: Seq<char>) -> bool {
    text::starts_with(text::trimmed(lines[k]), "version = "@) && named(lines, k, name)
}

proof fn lemma_block_step(lines: Seq<Seq<char>>, n: int)
    requires
        0 <= n < lines.len(),
    ensures
        in_block(lines, n + 1) <==> text::trimmed(lines[n]) == "[[package]]"@ || (in_block(
            lines,
            n,
        ) && !text::starts_with(text::trimmed(lines[n]), "["@)),
{
    let line = text::trimmed(lines[n]);
    if in_block(lines, n) && !text::starts_with(line, "["@) {
        let i = choose|i: int|
            0 <= i < n && text::trimmed(#[trigger] lines[i]) == "[[package]]"@ && forall|m: int|
                i < m < n ==> !text::starts_with(text::trimmed(#[trigger] lines[m]), "["@);
        assert forall|m: int| i < m < n + 1 implies !text::starts_with(
            text::trimmed(#[trigger] lines[m]),
            "["@,
        ) by {}
    }
    if in_block(lines, n + 1) {
        let i = choose|i: int|
            0 <= i < n + 1 && text::trimmed(#[trigger] lines[i]) == "[[package]]"@ && forall|m: int|
                i < m < n + 1 ==> !text::starts_with(text::trimmed(#[trigger] lines[m]), "["@);
        if i < n {
            assert(!text::starts_with(text::trimmed(lines[n]), "["@));
        }
    }
}

proof fn lemma_named_step(lines: Seq<Seq<char>>, n: int, c: Seq<char>)
    requires
        0 <= n < lines.len(),
    ensures
        named(lines, n + 1, c) <==> {
            let line = text::trimmed(lines[n]);
            ||| text::starts_with(line, "name = "@) && in_block(lines, n) && unquoted(line.skip(7))
                == c
            ||| named(lines, n, c) && !text::starts_with(line, "["@) && !text::starts_with(
                line,
                "name = "@,
            )
        },
{
    let line = text::trimmed(lines[n]);
    if named(lines, n, c) && !text::starts_with(line, "["@) && !text::starts_with(
        line,
        "name = "@,
    ) {
        let j = choose|j: int|
            0 <= j < n && text::starts_with(text::trimmed(#[trigger] lines[j]), "name = "@)
                && text::trimmed_of(text::trimmed(text::trimmed(lines[j]).skip(7)), '"') == c
                && in_block(lines, j) && forall|m: int|
                j < m < n ==> !text::starts_with(text::trimmed(#[trigger] lines[m]), "["@)
                    && !text::starts_with(text::trimmed(lines[m]), "name = "@);
        assert forall|m: int| j < m < n + 1 implies !text::starts_with(
            text::trimmed(#[trigger] lines[m]),
            "["@,
        ) && !text::starts_with(text::trimmed(lines[m]), "name = "@) by {}
    }
    if named(lines, n + 1, c) {
        let j = choose|j: int|
            0 <= j < n + 1 && text::starts_with(text::trimmed(#[trigger] lines[j]), "name = "@)
                && text::trimmed_of(text::trimmed(text::trimmed(lines[j]).skip(7)), '"') == c
                && in_block(lines, j) && forall|m: int|
                j < m < n + 1 ==> !text::starts_with(text::trimmed(#[trigger] lines[m]), "["@)
                    && !text::starts_with(text::trimmed(lines[m]), "name = "@);
        if j < n {
            assert(!text::starts_with(text::trimmed(lines[n]), "["@));
        }
    }
}

proof fn lemma_pinned(
    lines: Seq<Seq<char>>,
    n: int,
    inside: bool,
    current: Option<Seq<char>>,
    name: Seq<char>,
)
    requires
        0 <= n <= lines.len(),
        inside <==> in_block(lines, n),
        forall|c: Seq<char>| #[trigger] named(lines, n, c) <==> current == Some(c),
        current is Some ==> inside,
    ensures
        match pinned(lines.skip(n), inside, current, name) {
            Some(v) => exists|k: int|
                n <= k < lines.len() && #[trigger] pins(lines, k, name) && v == unquoted(
                    text::trimmed(lines[k]).skip(10),
                ) && forall|l: int| n <= l < k ==> !#[trigger] pins(lines, l, name),
            None => forall|l: int| n <= l < lines.len() ==> !#[trigger] pins(lines, l, name),
        },
    decreases lines.len() - n,
{
    if n < lines.len() {
        let line = text::trimmed(lines[n]);
        let s = lines.skip(n);
        assert(s.drop_first() =~= lines.skip(n + 1));
        assert(s[0] == lines[n]);
        reveal_strlit("[[package]]");
        reveal_strlit("[");
        reveal_strlit("name = ");
        reveal_strlit("version = ");
        lemma_block_step(lines, n);
        assert(line == "[[package]]"@ ==> text::starts_with(line, "["@)) by {
            if line == "[[package]]"@ {
                assert(line.subrange(0, 1) =~= "["@);
            }
        }
        assert(!(text::starts_with(line, "["@) && text::starts_with(line, "name = "@))) by {
            if text::starts_with(line, "["@) && text::starts_with(line, "name = "@) {
                assert(line.subrange(0, 1)[0] == '[');
                assert(line.subrange(0, 7)[0] == 'n');
            }
        }
        assert(!(text::starts_with(line, "["@) && text::starts_with(line, "version = "@))) by {
            if text::starts_with(line, "["@) && text::starts_with(line, "version = "@) {
                assert(line.subrange(0, 1)[0] == '[');
                assert(line.subrange(0, 10)[0] == 'v');
            }
        }
        assert(!(text::starts_with(line, "name = "@) && text::starts_with(line, "version = "@)))
            by {
            if text::starts_with(line, "name = "@) && text::starts_with(line, "version = "@) {
                assert(line.subrange(0, 7)[0] == 'n');
                assert(line.subrange(0, 10)[0] == 'v');
            }
        }
        let (inside2, current2): (bool, Option<Seq<char>>) = if line == "[[package]]"@ {
            (true, None)
        } else if text::starts_with(line, "["@) {
            (false, None)
        } else if inside && text::starts_with(line, "name = "@) {
            (true, Some(unquoted(line.skip(7))))
        } else {
            (inside, current)
        };
        assert forall|c: Seq<char>| #[trigger] named(lines, n + 1, c) <==> current2 == Some(c) by {
            lemma_named_step(lines, n, c);
            assert(named(lines, n, c) <==> current == Some(c));
        }
        lemma_pinned(lines, n + 1, inside2, current2, name);
        assert(named(lines, n, name) <==> current == Some(name));
        if inside && text::starts_with(line, "version = "@) && current == Some(name) {
            assert(pins(lines, n, name));
        } else {
            assert(!pins(lines, n, name));
            let p = pinned(lines.skip(n + 1), inside2, current2, name);
            assert(pinned(s, inside, current, name) == p);
            if p is Some {
                let v = p->Some_0;
                let k = choose|k: int|
                    n + 1 <= k < lines.len() && #[trigger] pins(lines, k, name) && v == unquoted(
                        text::trimmed(lines[k]).skip(10),
                    ) && forall|l: int| n + 1 <= l < k ==> !#[trigger] pins(lines, l, name);
                assert(pins(lines, k, name));
            }
        }
    }
}

/// The version that a lock file pins for a name stands in the first line that
/// starts with `version = ` and lies, with the line `name = ` that names the
/// crate before it, in one `[[package]]` block. No other name and no line that
/// opens a table stands between. Quotes and blanks around values do not count.
pub proof fn law_lock_pins_the_version(lines: Seq<Seq<char>>, name: Seq<char>)
    ensures
        ({
            let at = |k: int|
                exists|i: int, j: int|
                    {
                        &&& 0 <= i < j < k
                        &&& text::trimmed(#[trigger] lines[i]) == "[[package]]"@
                        &&& text::starts_with(text::trimmed(#[trigger] lines[j]), "name = "@)
                        &&& text::trimmed_of(
                            text::trimmed(text::trimmed(lines[j]).skip(7)),
                            '"',
                        ) == name
                        &&& text::starts_with(text::trimmed(lines[k]), "version = "@)
                        &&& forall|m: int|
                            i < m < k ==> !text::starts_with(
                                text::trimmed(#[trigger] lines[m]),
                                "["@,
                            )
                        &&& forall|m: int|
                            j < m < k ==> !text::starts_with(
                                text::trimmed(#[trigger] lines[m]),
                                "name = "@,
                            )
                    };
            match pinned(lines, false, None, name) {
                Some(v) => exists|k: int|
                    0 <= k < lines.len() && #[trigger] at(k) && v == text::trimmed_of(
                        text::trimmed(text::trimmed(lines[k]).skip(10)),
                        '"',
                    ) && forall|l: int| 0 <= l < k ==> !#[trigger] at(l),
                None => forall|l: int| 0 <= l < lines.len() ==> !#[trigger] at(l),
            }
        }),
{
    let at = |k: int|
        exists|i: int, j: int|
            {
                &&& 0 <= i < j < k
                &&& text::trimmed(#[trigger] lines[i]) == "[[package]]"@
                &&& text::starts_with(text::trimmed(#[trigger] lines[j]), "name = "@)
                &&& text::trimmed_of(text::trimmed(text::trimmed(lines[j]).skip(7)), '"') == name
                &&& text::starts_with(text::trimmed(lines[k]), "version = "@)
                &&& forall|m: int|
                    i < m < k ==> !text::starts_with(text::trimmed(#[trigger] lines[m]), "["@)
                &&& forall|m: int|
                    j < m < k ==> !text::starts_with(
                        text::trimmed(#[trigger] lines[m]),
                        "name = "@,
                    )
            };
    assert(lines.skip(0) =~= lines);
    lemma_pinned(lines, 0, false, None, name);
    assert forall|k: int| 0 <= k < lines.len() implies (#[trigger] at(k) <==> pins(lines, k, name))
        by {
        lemma_at(lines, k, name);
    }
    if let Some(v) = pinned(lines, false, None, name) {
        let k = choose|k: int|
            0 <= k < lines.len() && #[trigger] pins(lines, k, name) && v == unquoted(
                text::trimmed(lines[k]).skip(10),
            ) && forall|l: int| 0 <= l < k ==> !#[trigger] pins(lines, l, name);
        assert(at(k));
    }
}

proof fn lemma_at(lines: Seq<Seq<char>>, k: int, name: Seq<char>)
    requires
        0 <= k < lines.len(),
    ensures
        pins(lines, k, name) <==> exists|i: int, j: int|
            {
                &&& 0 <= i < j < k
                &&& text::trimmed(#[trigger] lines[i]) == "[[package]]"@
                &&& text::starts_with(text::trimmed(#[trigger] lines[j]), "name = "@)
                &&& text::trimmed_of(text::trimmed(text::trimmed(lines[j]).skip(7)), '"') == name
                &&& text::starts_with(text::trimmed(lines[k]), "version = "@)
                &&& forall|m: int|
                    i < m < k ==> !text::starts_with(text::trimmed(#[trigger] lines[m]), "["@)
                &&& forall|m: int|
                    j < m < k ==> !text::starts_with(
                        text::trimmed(#[trigger] lines[m]),
                        "name = "@,
                    )
            },
{
    reveal_strlit("[");
    reveal_strlit("name = ");
    if pins(lines, k, name) {
        let j = choose|j: int|
            0 <= j < k && text::starts_with(text::trimmed(#[trigger] lines[j]), "name = "@)
                && text::trimmed_of(text::trimmed(text::trimmed(lines[j]).skip(7)), '"') == name
                && in_block(lines, j) && forall|m: int|
                j < m < k ==> !text::starts_with(text::trimmed(#[trigger] lines[m]), "["@)
                    && !text::starts_with(text::trimmed(lines[m]), "name = "@);
        let i = choose|i: int|
            0 <= i < j && text::trimmed(#[trigger] lines[i]) == "[[package]]"@ && forall|m: int|
                i < m < j ==> !text::starts_with(text::trimmed(#[trigger] lines[m]), "["@);
        let line = text::trimmed(lines[j]);
        assert(!text::starts_with(line, "["@)) by {
            if text::starts_with(line, "["@) {
                assert(line.subrange(0, 1)[0] == '[');
                assert(line.subrange(0, 7)[0] == 'n');
            }
        }
        assert forall|m: int| i < m < k implies !text::starts_with(
            text::trimmed(#[trigger] lines[m]),
            "["@,
        ) by {}
        assert(0 <= i < j < k && lines[i] == lines[i] && lines[j] == lines[j]);
    }
}

} // verus!
