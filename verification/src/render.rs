//! Trees of files as brace text.
//!
//! A directory has one of three shapes:
//!   - **ellipsis**:  beyond the depth limit, collapsed to
//!     `{ ... N subdirs, M files (depth cap) }`.
//!   - **inline**:    no subdirs and no per-file detail: `name { a, b, c }`.
//!   - **multi-line**: subdirs present, or detail expands `.rs` items per file.

use vstd::prelude::*;

use crate::parse::{render_str, ParseOptions};
use crate::store::TextMap;
use crate::walk::Node;
use crate::{parse, paths, similar, text, walk};

verus! {

#[derive(Debug)]
pub struct TreeOptions {
    /// Directories this deep and deeper are collapsed.
    pub depth: Option<usize>,
    /// Expand `.rs` files to their items.
    pub detail: bool,
    /// Annotate files with their number of lines, and items with their ranges.
    pub lines: bool,
    /// How many files of a directory are listed, by the directory's path.
    pub caps: Vec<(String, usize)>,
}

impl Default for TreeOptions {
    fn default() -> (r: TreeOptions)
        ensures
            r.depth is None,
            !r.detail,
            !r.lines,
            r.caps@.len() == 0,
    {
        TreeOptions { depth: None, detail: false, lines: false, caps: Vec::new() }
    }
}

// --- what is rendered ----------------------------------------------------------------

pub open spec fn indent_text(depth: nat) -> Seq<char> {
    text::repeated(' ', 2 * depth)
}

/// The number of lines of a file, zero where its text is not there.
pub open spec fn line_count(abs: Seq<char>, texts: Map<Seq<char>, Seq<char>>) -> nat {
    if texts.contains_key(abs) {
        text::lines(texts[abs]).len()
    } else {
        0
    }
}

/// The items of a file, where its text is there and has any.
pub open spec fn file_items(
    abs: Seq<char>,
    lines: bool,
    texts: Map<Seq<char>, Seq<char>>,
) -> Option<Seq<char>> {
    if texts.contains_key(abs) {
        parse::source_summary(texts[abs], lines)
    } else {
        None
    }
}

/// `name`, or `name:lines`.
pub open spec fn label_text(
    n: walk::NodeView,
    lines: bool,
    texts: Map<Seq<char>, Seq<char>>,
) -> Seq<char> {
    match n {
        walk::NodeView::File { name, abs } => if lines {
            name + ":"@ + text::decimal(line_count(abs, texts))
        } else {
            name
        },
        walk::NodeView::Dir { name, .. } => name,
    }
}

pub open spec fn labels(
    files: Seq<walk::NodeView>,
    lines: bool,
    texts: Map<Seq<char>, Seq<char>>,
) -> Seq<Seq<char>> {
    files.map_values(|n: walk::NodeView| label_text(n, lines, texts))
}

/// The files among nodes.
pub open spec fn files_of(children: Seq<walk::NodeView>) -> Seq<walk::NodeView>
    decreases children.len(),
{
    if children.len() == 0 {
        Seq::empty()
    } else {
        let rest = files_of(children.drop_last());
        if children.last() is File {
            rest.push(children.last())
        } else {
            rest
        }
    }
}

/// The cap for the directory `rel`, the first one where there are several.
pub open spec fn cap_for(rel: Seq<char>, caps: Seq<(String, usize)>) -> Option<usize>
    decreases caps.len(),
{
    if caps.len() == 0 {
        None
    } else if caps[0].0@ == text::replaced(rel, '\\', '/') {
        Some(caps[0].1)
    } else {
        cap_for(rel, caps.drop_first())
    }
}

/// The number of files that a cap leaves out.
pub open spec fn left_out(count: nat, cap: Option<usize>) -> nat {
    match cap {
        Some(n) => if count <= n {
            0
        } else {
            (count - n) as nat
        },
        None => 0,
    }
}

pub open spec fn truncation_note(dropped: nat) -> Seq<char> {
    "... "@ + text::decimal(dropped) + " files truncated ..."@
}

pub open spec fn is_rust(name: Seq<char>) -> bool {
    text::ends_with(name, ".rs"@)
}

/// `name {}` or `name { ... N subdirs, M files (depth cap) }`.
pub open spec fn ellipsis_text(
    name: Seq<char>,
    depth: nat,
    children: Seq<walk::NodeView>,
) -> Seq<char> {
    let files = files_of(children).len();
    if children.len() == 0 {
        indent_text(depth) + name + " {}\n"@
    } else {
        indent_text(depth) + name + " { ... "@ + text::decimal((children.len() - files) as nat)
            + " subdirs, "@ + text::decimal(files) + " files (depth cap) }\n"@
    }
}

/// `name { a, b }`, with the note about files left out first.
pub open spec fn inline_text(
    name: Seq<char>,
    depth: nat,
    note: Seq<Seq<char>>,
    files: Seq<walk::NodeView>,
    lines: bool,
    texts: Map<Seq<char>, Seq<char>>,
) -> Seq<char> {
    let parts = note + labels(files, lines, texts);
    if parts.len() == 0 {
        indent_text(depth) + name + " {}\n"@
    } else {
        indent_text(depth) + name + " { "@ + text::join(parts, ", "@) + " }\n"@
    }
}

/// The line of one file: its label and, where asked for, its items.
pub open spec fn file_line(
    n: walk::NodeView,
    depth: nat,
    detail: bool,
    lines: bool,
    texts: Map<Seq<char>, Seq<char>>,
) -> Seq<char> {
    let start = indent_text(depth) + label_text(n, lines, texts);
    match n {
        walk::NodeView::File { name, abs } => if detail && is_rust(name) {
            match file_items(abs, lines, texts) {
                Some(items) => start + " { "@ + items + " }\n"@,
                None => start + "\n"@,
            }
        } else {
            start + "\n"@
        },
        walk::NodeView::Dir { .. } => Seq::empty(),
    }
}

pub open spec fn file_lines(
    files: Seq<walk::NodeView>,
    depth: nat,
    detail: bool,
    lines: bool,
    texts: Map<Seq<char>, Seq<char>>,
) -> Seq<char>
    decreases files.len(),
{
    if files.len() == 0 {
        Seq::empty()
    } else {
        file_lines(files.drop_last(), depth, detail, lines, texts) + file_line(
            files.last(),
            depth,
            detail,
            lines,
            texts,
        )
    }
}

pub open spec fn any_rust(files: Seq<walk::NodeView>) -> bool {
    exists|i: int| 0 <= i < files.len() && is_rust(walk::node_name(#[trigger] files[i]))
}

/// The text of a tree whose top stands at `depth`.
pub open spec fn tree_text(
    n: walk::NodeView,
    depth: nat,
    opts: TreeOptions,
    texts: Map<Seq<char>, Seq<char>>,
) -> Seq<char>
    decreases n,
{
    match n {
        walk::NodeView::File { .. } => indent_text(depth) + label_text(n, opts.lines, texts)
            + "\n"@,
        walk::NodeView::Dir { name, rel, children } => {
            let all = files_of(children);
            let dropped = left_out(all.len(), cap_for(rel, opts.caps@));
            let files = all.skip(dropped as int);
            let note = if dropped == 0 {
                Seq::empty()
            } else {
                seq![truncation_note(dropped)]
            };
            if opts.depth matches Some(d) && depth >= d {
                ellipsis_text(name, depth, children)
            } else if all.len() == children.len() && !(opts.detail && any_rust(files)) {
                inline_text(name, depth, note, files, opts.lines, texts)
            } else {
                indent_text(depth) + name + " {\n"@ + (if dropped == 0 {
                    Seq::empty()
                } else {
                    indent_text(depth + 1) + truncation_note(dropped) + "\n"@
                }) + file_lines(files, depth + 1, opts.detail, opts.lines, texts) + dirs_text(
                    children,
                    depth + 1,
                    opts,
                    texts,
                ) + indent_text(depth) + "}\n"@
            }
        },
    }
}

/// The texts of the directories among nodes.
pub open spec fn dirs_text(
    children: Seq<walk::NodeView>,
    depth: nat,
    opts: TreeOptions,
    texts: Map<Seq<char>, Seq<char>>,
) -> Seq<char>
    decreases children,
{
    if children.len() == 0 {
        Seq::empty()
    } else {
        dirs_text(children.drop_last(), depth, opts, texts) + match children[children.len() - 1] {
            walk::NodeView::File { .. } => Seq::empty(),
            walk::NodeView::Dir { .. } => tree_text(
                children[children.len() - 1],
                depth,
                opts,
                texts,
            ),
        }
    }
}

/// The text of a single file: `name { items }`, `name {}` where a Rust file has
/// none, and the label alone for another file.
pub open spec fn module_text(path: Seq<char>, source: Option<Seq<char>>, lines: bool) -> Seq<char> {
    let name = match paths::file_name_of(path) {
        Some(name) => name,
        None => "?"@,
    };
    let count = match source {
        Some(s) => text::lines(s).len(),
        None => 0,
    };
    let label = if lines {
        name + ":"@ + text::decimal(count)
    } else {
        name
    };
    let items = match source {
        Some(s) => parse::source_summary(s, lines),
        None => None,
    };
    if !is_rust(name) {
        label + "\n"@
    } else {
        match items {
            Some(items) => label + " { "@ + items + " }\n"@,
            None => label + " {}\n"@,
        }
    }
}

// --- rendering -----------------------------------------------------------------------

spec fn refs_view(v: Seq<&Node>) -> Seq<walk::NodeView> {
    v.map_values(|n: &Node| walk::node_view(*n))
}

fn count_lines(abs: &str, texts: &TextMap) -> (r: usize)
    ensures
        r == line_count(abs@, texts@),
{
    match texts.get(abs) {
        Some(t) => text::lines_of(t.as_str()).len(),
        None => 0,
    }
}

fn items_of(abs: &str, lines: bool, texts: &TextMap) -> (r: Option<String>)
    ensures
        text::opt_text(r) == file_items(abs@, lines, texts@),
{
    match texts.get(abs) {
        Some(t) => render_str(t.as_str(), ParseOptions { lines }),
        None => None,
    }
}

fn file_label(node: &Node, lines: bool, texts: &TextMap) -> (r: String)
    ensures
        r@ == label_text(walk::node_view(*node), lines, texts@),
{
    match node {
        Node::File { name, abs } => {
            let mut r = name.clone();
            if lines {
                r.append(":");
                r.append(text::decimal_of(count_lines(abs.as_str(), texts)).as_str());
            }
            r
        },
        Node::Dir { name, .. } => name.clone(),
    }
}

/// The files among nodes.
fn files_among(children: &Vec<Node>) -> (r: Vec<&Node>)
    ensures
        refs_view(r@) == files_of(walk::nodes_view(children@)),
{
    let ghost cs = walk::nodes_view(children@);
    let mut r: Vec<&Node> = Vec::new();
    proof {
        assert(cs.take(0) =~= Seq::empty());
        assert(refs_view(r@) =~= Seq::empty());
    }
    for k in 0..children.len()
        invariant
            cs == walk::nodes_view(children@),
            refs_view(r@) == files_of(cs.take(k as int)),
    {
        proof {
            assert(cs.take(k + 1).drop_last() =~= cs.take(k as int));
            assert(cs[k as int] == walk::node_view(children@[k as int]));
        }
        let ghost before = r@;
        match &children[k] {
            Node::File { .. } => {
                r.push(&children[k]);
                proof {
                    assert(refs_view(r@) =~= refs_view(before).push(cs[k as int]));
                }
            },
            Node::Dir { .. } => {},
        }
    }
    proof {
        assert(cs.take(cs.len() as int) =~= cs);
    }
    r
}

/// The number of files that the caps leave out of the directory `rel`, which
/// has `count` of them.
fn apply_cap(count: usize, rel: &str, caps: &Vec<(String, usize)>) -> (r: usize)
    ensures
        r == left_out(count as nat, cap_for(rel@, caps@)),
        r <= count,
{
    let wanted = text::replace_char(rel, '\\', '/');
    let mut k: usize = 0;
    proof {
        assert(caps@.skip(0) =~= caps@);
    }
    while k < caps.len()
        invariant
            k <= caps.len(),
            wanted@ == text::replaced(rel@, '\\', '/'),
            cap_for(rel@, caps@) == cap_for(rel@, caps@.skip(k as int)),
        decreases caps.len() - k,
    {
        proof {
            assert(caps@.skip(k as int).drop_first() =~= caps@.skip(k + 1));
        }
        if text::same_text(caps[k].0.as_str(), wanted.as_str()) {
            let n: usize = caps[k].1;
            return if count <= n {
                0
            } else {
                count - n
            };
        }
        k = k + 1;
    }
    0
}

fn render_ellipsis(
    name: &str,
    prefix: &str,
    children: &Vec<Node>,
    out: &mut String,
    Ghost(depth): Ghost<nat>,
)
    requires
        prefix@ == indent_text(depth),
    ensures
        final(out)@ == old(out)@ + ellipsis_text(name@, depth, walk::nodes_view(children@)),
{
    let files = files_among(children).len();
    proof {
        lemma_files_count(walk::nodes_view(children@));
    }
    let ghost before = out@;
    out.append(prefix);
    out.append(name);
    if children.len() == 0 {
        out.append(" {}\n");
    } else {
        out.append(" { ... ");
        out.append(text::decimal_of(children.len() - files).as_str());
        out.append(" subdirs, ");
        out.append(text::decimal_of(files).as_str());
        out.append(" files (depth cap) }\n");
    }
    proof {
        assert(out@ =~= before + ellipsis_text(name@, depth, walk::nodes_view(children@)));
    }
}

/// `... N files truncated ...`.
fn note_text(dropped: usize) -> (r: String)
    ensures
        r@ == truncation_note(dropped as nat),
{
    let mut r = "... ".to_owned();
    r.append(text::decimal_of(dropped).as_str());
    r.append(" files truncated ...");
    r
}

fn render_inline(
    name: &str,
    prefix: &str,
    dropped: usize,
    files: &Vec<&Node>,
    lines: bool,
    texts: &TextMap,
    out: &mut String,
    Ghost(depth): Ghost<nat>,
)
    requires
        prefix@ == indent_text(depth),
        dropped <= files.len(),
    ensures
        final(out)@ == old(out)@ + inline_text(
            name@,
            depth,
            if dropped == 0 {
                Seq::empty()
            } else {
                seq![truncation_note(dropped as nat)]
            },
            refs_view(files@).skip(dropped as int),
            lines,
            texts@,
        ),
{
    let ghost note: Seq<Seq<char>> = if dropped == 0 {
        Seq::empty()
    } else {
        seq![truncation_note(dropped as nat)]
    };
    let ghost fs = refs_view(files@).skip(dropped as int);
    let mut parts: Vec<String> = Vec::new();
    if dropped > 0 {
        parts.push(note_text(dropped));
    }
    let ghost all = labels(fs, lines, texts@);
    proof {
        assert(text::texts(parts@) =~= note + all.take(0));
    }
    for k in dropped..files.len()
        invariant
            dropped <= files.len(),
            fs == refs_view(files@).skip(dropped as int),
            all == labels(fs, lines, texts@),
            text::texts(parts@) == note + all.take(k - dropped),
    {
        let ghost before = parts@;
        proof {
            assert(fs[k - dropped] == walk::node_view(*files@[k as int]));
        }
        parts.push(file_label(files[k], lines, texts));
        proof {
            assert(text::texts(parts@) =~= text::texts(before).push(all[k - dropped]));
            assert(all.take(k + 1 - dropped) =~= all.take(k - dropped).push(all[k - dropped]));
        }
    }
    proof {
        assert(all.take(all.len() as int) =~= all);
    }
    let ghost before = out@;
    out.append(prefix);
    out.append(name);
    if parts.len() == 0 {
        out.append(" {}\n");
    } else {
        out.append(" { ");
        out.append(text::join_strings(&parts, ", ").as_str());
        out.append(" }\n");
    }
    proof {
        assert(out@ =~= before + inline_text(name@, depth, note, fs, lines, texts@));
    }
}

fn render_file_in_multiline(
    node: &Node,
    inner: &str,
    opts: &TreeOptions,
    texts: &TextMap,
    out: &mut String,
    Ghost(depth): Ghost<nat>,
)
    requires
        inner@ == indent_text(depth),
    ensures
        final(out)@ == old(out)@ + file_line(
            walk::node_view(*node),
            depth,
            opts.detail,
            opts.lines,
            texts@,
        ),
{
    let ghost before = out@;
    match node {
        Node::Dir { .. } => {},
        Node::File { name, abs } => {
            out.append(inner);
            out.append(file_label(node, opts.lines, texts).as_str());
            if opts.detail && text::text_ends(name.as_str(), ".rs") {
                match items_of(abs.as_str(), opts.lines, texts) {
                    Some(items) => {
                        out.append(" { ");
                        out.append(items.as_str());
                        out.append(" }\n");
                    },
                    None => {
                        out.append("\n");
                    },
                }
            } else {
                out.append("\n");
            }
        },
    }
    proof {
        assert(out@ =~= before + file_line(
            walk::node_view(*node),
            depth,
            opts.detail,
            opts.lines,
            texts@,
        ));
    }
}

/// Whether a Rust file is among the nodes from position `from` on.
fn has_rust(files: &Vec<&Node>, from: usize) -> (r: bool)
    requires
        from <= files.len(),
    ensures
        r == any_rust(refs_view(files@).skip(from as int)),
{
    let ghost fs = refs_view(files@).skip(from as int);
    for k in from..files.len()
        invariant
            from <= files.len(),
            fs == refs_view(files@).skip(from as int),
            forall|j: int| 0 <= j < k - from ==> !is_rust(walk::node_name(#[trigger] fs[j])),
    {
        proof {
            assert(fs[k - from] == walk::node_view(*files@[k as int]));
        }
        if text::text_ends(files[k].name(), ".rs") {
            return true;
        }
    }
    false
}

fn render_multiline(
    name: &str,
    prefix: &str,
    inner: &str,
    dropped: usize,
    files: &Vec<&Node>,
    opts: &TreeOptions,
    texts: &TextMap,
    out: &mut String,
    Ghost(depth): Ghost<nat>,
)
    requires
        prefix@ == indent_text(depth),
        inner@ == indent_text(depth + 1),
        dropped <= files.len(),
    ensures
        final(out)@ == old(out)@ + (indent_text(depth) + name@ + " {\n"@ + (if dropped == 0 {
            Seq::empty()
        } else {
            indent_text(depth + 1) + truncation_note(dropped as nat) + "\n"@
        }) + file_lines(
            refs_view(files@).skip(dropped as int),
            depth + 1,
            opts.detail,
            opts.lines,
            texts@,
        )),
{
    let ghost before = out@;
    let ghost fs = refs_view(files@).skip(dropped as int);
    out.append(prefix);
    out.append(name);
    out.append(" {\n");
    if dropped > 0 {
        out.append(inner);
        out.append(note_text(dropped).as_str());
        out.append("\n");
    }
    let ghost head = out@;
    proof {
        assert(fs.take(0) =~= Seq::empty());
        assert(head + Seq::<char>::empty() =~= head);
    }
    for k in dropped..files.len()
        invariant
            inner@ == indent_text(depth + 1),
            dropped <= files.len(),
            fs == refs_view(files@).skip(dropped as int),
            out@ == head + file_lines(
                fs.take(k - dropped),
                depth + 1,
                opts.detail,
                opts.lines,
                texts@,
            ),
    {
        proof {
            assert(fs.take(k + 1 - dropped).drop_last() =~= fs.take(k - dropped));
            assert(fs[k - dropped] == walk::node_view(*files@[k as int]));
        }
        render_file_in_multiline(files[k], inner, opts, texts, out, Ghost(depth + 1));
        proof {
            let now = file_lines(
                fs.take(k + 1 - dropped),
                depth + 1,
                opts.detail,
                opts.lines,
                texts@,
            );
            assert(out@ =~= head + now);
        }
    }
    proof {
        assert(fs.take(fs.len() as int) =~= fs);
        let note: Seq<char> = if dropped == 0 {
            Seq::empty()
        } else {
            indent_text(depth + 1) + truncation_note(dropped as nat) + "\n"@
        };
        assert(head =~= before + (indent_text(depth) + name@ + " {\n"@ + note));
        assert(out@ =~= before + (indent_text(depth) + name@ + " {\n"@ + note + file_lines(
            fs,
            depth + 1,
            opts.detail,
            opts.lines,
            texts@,
        )));
    }
}

/// Appends the tree below `node`. `prefix` is its indentation, and `left` the
/// number of levels from it to the depth limit.
fn render_node(
    node: &Node,
    prefix: &str,
    left: Option<usize>,
    opts: &TreeOptions,
    texts: &TextMap,
    out: &mut String,
    Ghost(depth): Ghost<nat>,
)
    requires
        prefix@ == indent_text(depth),
        match (opts.depth, left) {
            (None, None) => true,
            (Some(d), Some(l)) => l == if depth >= d {
                0
            } else {
                d - depth
            },
            _ => false,
        },
    ensures
        final(out)@ == old(out)@ + tree_text(walk::node_view(*node), depth, *opts, texts@),
    decreases node,
{
    let ghost before = out@;
    let ghost whole = tree_text(walk::node_view(*node), depth, *opts, texts@);
    match node {
        Node::File { .. } => {
            out.append(prefix);
            out.append(file_label(node, opts.lines, texts).as_str());
            out.append("\n");
            proof {
                assert(out@ =~= before + whole);
            }
        },
        Node::Dir { name, rel, children } => {
            if let Some(l) = left {
                if l == 0 {
                    render_ellipsis(name.as_str(), prefix, children, out, Ghost(depth));
                    return;
                }
            }
            let files = files_among(children);
            let ghost cs = walk::nodes_view(children@);
            let dropped = apply_cap(files.len(), rel.as_str(), &opts.caps);
            if files.len() == children.len() && !(opts.detail && has_rust(&files, dropped)) {
                render_inline(
                    name.as_str(),
                    prefix,
                    dropped,
                    &files,
                    opts.lines,
                    texts,
                    out,
                    Ghost(depth),
                );
                return;
            }
            let mut inner = prefix.to_owned();
            inner.append("  ");
            proof {
                reveal_strlit("  ");
                assert(inner@ =~= indent_text(depth + 1));
            }
            render_multiline(
                name.as_str(),
                prefix,
                inner.as_str(),
                dropped,
                &files,
                opts,
                texts,
                out,
                Ghost(depth),
            );
            let ghost head = out@;
            let below: Option<usize> = match left {
                Some(l) => Some(l - 1),
                None => None,
            };
            proof {
                assert(cs.take(0) =~= Seq::empty());
                assert(head + Seq::<char>::empty() =~= head);
            }
            for k in 0..children.len()
                invariant
                    node == (Node::Dir { name: *name, rel: *rel, children: *children }),
                    cs == walk::nodes_view(children@),
                    inner@ == indent_text(depth + 1),
                    match (opts.depth, below) {
                        (None, None) => true,
                        (Some(d), Some(l)) => l == if depth + 1 >= d {
                            0
                        } else {
                            d - (depth + 1)
                        },
                        _ => false,
                    },
                    out@ == head + dirs_text(cs.take(k as int), depth + 1, *opts, texts@),
            {
                let ghost prev = dirs_text(cs.take(k as int), depth + 1, *opts, texts@);
                proof {
                    assert(cs.take(k + 1).drop_last() =~= cs.take(k as int));
                    assert(cs[k as int] == walk::node_view(children@[k as int]));
                }
                match &children[k] {
                    Node::Dir { .. } => {
                        proof {
                            assert(decreases_to!(*node => node->children));
                            assert(decreases_to!(node->children@ => children@[k as int]));
                        }
                        render_node(
                            &children[k],
                            inner.as_str(),
                            below,
                            opts,
                            texts,
                            out,
                            Ghost(depth + 1),
                        );
                    },
                    Node::File { .. } => {},
                }
                proof {
                    let now = dirs_text(cs.take(k + 1), depth + 1, *opts, texts@);
                    assert(out@ =~= head + now);
                }
            }
            out.append(prefix);
            out.append("}\n");
            proof {
                assert(cs.take(cs.len() as int) =~= cs);
                lemma_files_count(cs);
                assert(out@ =~= before + whole);
            }
        },
    }
}

/// Renders a tree. `texts` holds the contents of its files by their absolute
/// paths; a file that is not there counts as unreadable.
pub fn tree(node: &Node, opts: &TreeOptions, texts: &TextMap) -> (r: String)
    ensures
        r@ == tree_text(walk::node_view(*node), 0, *opts, texts@),
{
    let mut out = String::new();
    let prefix = String::new();
    proof {
        assert(prefix@ =~= indent_text(0));
        assert(out@ =~= Seq::empty());
    }
    render_node(node, prefix.as_str(), opts.depth, opts, texts, &mut out, Ghost(0));
    proof {
        assert(out@ =~= tree_text(walk::node_view(*node), 0, *opts, texts@));
    }
    out
}

/// Whether the text of a file is read: always where lines are counted, and for
/// Rust files where their items are shown.
pub open spec fn is_read(name: Seq<char>, opts: TreeOptions) -> bool {
    opts.lines || (opts.detail && is_rust(name))
}

/// The files of a tree whose texts are read, in its order.
pub open spec fn read_files(n: walk::NodeView, opts: TreeOptions) -> Seq<Seq<char>>
    decreases n,
{
    match n {
        walk::NodeView::File { name, abs } => if is_read(name, opts) {
            seq![abs]
        } else {
            Seq::empty()
        },
        walk::NodeView::Dir { children, .. } => read_among(children, opts),
    }
}

pub open spec fn read_among(children: Seq<walk::NodeView>, opts: TreeOptions) -> Seq<Seq<char>>
    decreases children,
{
    if children.len() == 0 {
        Seq::empty()
    } else {
        read_among(children.drop_last(), opts) + read_files(children[children.len() - 1], opts)
    }
}

/// Appends the files of a tree whose texts its rendering reads.
pub fn files_to_read(node: &Node, opts: &TreeOptions, out: &mut Vec<String>)
    ensures
        text::texts(final(out)@) == text::texts(old(out)@) + read_files(
            walk::node_view(*node),
            *opts,
        ),
    decreases node,
{
    let ghost before = text::texts(out@);
    match node {
        Node::Dir { children, .. } => {
            let ghost cs = walk::nodes_view(children@);
            proof {
                assert(cs.take(0) =~= Seq::empty());
                assert(before + Seq::<Seq<char>>::empty() =~= before);
            }
            for k in 0..children.len()
                invariant
                    node is Dir,
                    node->children == *children,
                    cs == walk::nodes_view(children@),
                    text::texts(out@) == before + read_among(cs.take(k as int), *opts),
            {
                proof {
                    assert(cs.take(k + 1).drop_last() =~= cs.take(k as int));
                    assert(cs[k as int] == walk::node_view(children@[k as int]));
                    assert(decreases_to!(*node => node->children));
                    assert(decreases_to!(node->children@ => children@[k as int]));
                }
                files_to_read(&children[k], opts, out);
                proof {
                    assert(text::texts(out@) =~= before + read_among(cs.take(k + 1), *opts));
                }
            }
            proof {
                assert(cs.take(cs.len() as int) =~= cs);
            }
        },
        Node::File { name, abs } => {
            if opts.lines || (opts.detail && text::text_ends(name.as_str(), ".rs")) {
                let ghost prev = out@;
                out.push(abs.clone());
                proof {
                    assert(text::texts(out@) =~= text::texts(prev) + seq![abs@]);
                }
            } else {
                proof {
                    assert(before + Seq::<Seq<char>>::empty() =~= before);
                }
            }
        },
    }
}

/// Renders a single file as `name { items }` (or `name {}` when it has none or
/// cannot be parsed), and a file that is no Rust as its label. `source` is its
/// text, where it can be read.
pub fn file_module(path: &str, source: Option<&str>, lines: bool) -> (r: String)
    ensures
        r@ == module_text(path@, text::opt_str(source), lines),
{
    let name = match paths::file_name(path) {
        Some(name) => name,
        None => "?".to_owned(),
    };
    let mut r = name.clone();
    if lines {
        let count = match source {
            Some(s) => text::lines_of(s).len(),
            None => 0,
        };
        r.append(":");
        r.append(text::decimal_of(count).as_str());
    }
    if !text::text_ends(name.as_str(), ".rs") {
        r.append("\n");
        return r;
    }
    let items = match source {
        Some(s) => render_str(s, ParseOptions { lines }),
        None => None,
    };
    match items {
        Some(items) => {
            r.append(" { ");
            r.append(items.as_str());
            r.append(" }\n");
        },
        None => {
            r.append(" {}\n");
        },
    }
    r
}

proof fn lemma_files_count(children: Seq<walk::NodeView>)
    ensures
        files_of(children).len() <= children.len(),
    decreases children.len(),
{
    if children.len() > 0 {
        lemma_files_count(children.drop_last());
    }
}

// --- what a rendering shows ----------------------------------------------------------

/// A cap keeps the last files of a directory, at most as many as it says, and
/// leaves out the others.
pub proof fn law_cap_keeps_the_tail(files: Seq<walk::NodeView>, cap: usize)
    ensures
        files.skip(left_out(files.len(), Some(cap)) as int).len() == if files.len() <= cap {
            files.len()
        } else {
            cap as nat
        },
        files.take(left_out(files.len(), Some(cap)) as int) + files.skip(
            left_out(files.len(), Some(cap)) as int,
        ) == files,
{
    let n = left_out(files.len(), Some(cap)) as int;
    assert(files.take(n) + files.skip(n) =~= files);
}

/// The number of levels of directories in a tree.
pub open spec fn levels(n: walk::NodeView) -> nat
    decreases n,
{
    match n {
        walk::NodeView::File { .. } => 0,
        walk::NodeView::Dir { children, .. } => 1 + most_levels(children),
    }
}

pub open spec fn most_levels(children: Seq<walk::NodeView>) -> nat
    decreases children,
{
    if children.len() == 0 {
        0
    } else {
        let rest = most_levels(children.drop_last());
        let last = levels(children[children.len() - 1]);
        if last > rest {
            last
        } else {
            rest
        }
    }
}

/// The options without a depth limit.
pub open spec fn unlimited(opts: TreeOptions) -> TreeOptions {
    TreeOptions { depth: None, detail: opts.detail, lines: opts.lines, caps: opts.caps }
}

/// A depth limit that is not below the number of levels of a tree changes
/// nothing.
pub proof fn law_deep_limit_hides_nothing(
    n: walk::NodeView,
    depth: nat,
    opts: TreeOptions,
    texts: Map<Seq<char>, Seq<char>>,
)
    requires
        opts.depth matches Some(d) ==> depth + levels(n) <= d,
    ensures
        tree_text(n, depth, opts, texts) == tree_text(n, depth, unlimited(opts), texts),
    decreases n,
{
    if let walk::NodeView::Dir { name, rel, children } = n {
        assert(decreases_to!(n => n->children));
        lemma_deep_limit(children, depth + 1, opts, texts);
    }
}

proof fn lemma_deep_limit(
    children: Seq<walk::NodeView>,
    depth: nat,
    opts: TreeOptions,
    texts: Map<Seq<char>, Seq<char>>,
)
    requires
        opts.depth matches Some(d) ==> depth + most_levels(children) <= d,
    ensures
        dirs_text(children, depth, opts, texts) == dirs_text(
            children,
            depth,
            unlimited(opts),
            texts,
        ),
    decreases children,
{
    if children.len() > 0 {
        lemma_deep_limit(children.drop_last(), depth, opts, texts);
        assert(decreases_to!(children => children[children.len() - 1]));
        law_deep_limit_hides_nothing(children[children.len() - 1], depth, opts, texts);
    }
}

proof fn lemma_files_of(children: Seq<walk::NodeView>, i: int) -> (k: int)
    requires
        0 <= i < children.len(),
        children[i] is File,
    ensures
        0 <= k < files_of(children).len(),
        files_of(children)[k] == children[i],
    decreases children.len(),
{
    let rest = children.drop_last();
    if i < rest.len() {
        lemma_files_of(rest, i)
    } else {
        files_of(rest).len() as int
    }
}

proof fn lemma_label_shows(
    n: walk::NodeView,
    lines: bool,
    texts: Map<Seq<char>, Seq<char>>,
)
    ensures
        text::has_text(label_text(n, lines, texts), walk::node_name(n)),
{
    let name = walk::node_name(n);
    let none = Seq::<char>::empty();
    let label = label_text(n, lines, texts);
    text::lemma_has_text_self(name);
    let rest = label.skip(name.len() as int);
    text::lemma_has_text_in(none, name, rest, name);
    assert(none + name + rest =~= label);
}

proof fn lemma_file_lines_show(
    files: Seq<walk::NodeView>,
    depth: nat,
    detail: bool,
    lines: bool,
    texts: Map<Seq<char>, Seq<char>>,
    k: int,
)
    requires
        0 <= k < files.len(),
        files[k] is File,
    ensures
        text::has_text(
            file_lines(files, depth, detail, lines, texts),
            walk::node_name(files[k]),
        ),
    decreases files.len(),
{
    let name = walk::node_name(files[k]);
    let none = Seq::<char>::empty();
    let before = file_lines(files.drop_last(), depth, detail, lines, texts);
    let line = file_line(files.last(), depth, detail, lines, texts);
    if k < files.len() - 1 {
        lemma_file_lines_show(files.drop_last(), depth, detail, lines, texts, k);
        text::lemma_has_text_in(none, before, line, name);
        assert(none + before + line =~= before + line);
    } else {
        let start = indent_text(depth);
        let label = label_text(files[k], lines, texts);
        lemma_label_shows(files[k], lines, texts);
        let rest = line.skip((start + label).len() as int);
        assert(line =~= start + label + rest);
        text::lemma_has_text_in(before + start, label, rest, name);
        assert(before + start + label + rest =~= before + line);
    }
}

proof fn lemma_dirs_show(
    children: Seq<walk::NodeView>,
    depth: nat,
    opts: TreeOptions,
    texts: Map<Seq<char>, Seq<char>>,
    i: int,
    x: Seq<char>,
)
    requires
        0 <= i < children.len(),
        children[i] is Dir,
        text::has_text(tree_text(children[i], depth, opts, texts), x),
    ensures
        text::has_text(dirs_text(children, depth, opts, texts), x),
    decreases children.len(),
{
    let none = Seq::<char>::empty();
    let before = dirs_text(children.drop_last(), depth, opts, texts);
    let whole = dirs_text(children, depth, opts, texts);
    if i < children.len() - 1 {
        lemma_dirs_show(children.drop_last(), depth, opts, texts, i, x);
        let rest = whole.skip(before.len() as int);
        text::lemma_has_text_in(none, before, rest, x);
        assert(none + before + rest =~= whole);
    } else {
        let last = tree_text(children[i], depth, opts, texts);
        text::lemma_has_text_in(before, last, none, x);
        assert(before + last + none =~= whole);
    }
}

/// Without a depth limit and caps, the rendering of a tree shows the name of
/// every file that the tree holds.
pub proof fn law_every_file_is_shown(
    n: walk::NodeView,
    depth: nat,
    opts: TreeOptions,
    texts: Map<Seq<char>, Seq<char>>,
    path: Seq<Seq<char>>,
)
    requires
        opts.depth is None,
        opts.caps@.len() == 0,
        walk::holds_file(n, path),
    ensures
        text::has_text(tree_text(n, depth, opts, texts), path.last()),
    decreases path.len(),
{
    let children = n->children;
    let name = walk::node_name(n);
    let whole = tree_text(n, depth, opts, texts);
    let x = path.last();
    let i = choose|i: int|
        0 <= i < children.len() && match #[trigger] children[i] {
            walk::NodeView::File { name, .. } => path.len() == 1 && name == path[0],
            walk::NodeView::Dir { name, .. } => path.len() > 1 && name == path[0]
                && walk::holds_file(children[i], path.drop_first()),
        };
    let all = files_of(children);
    let files = all.skip(0);
    assert(files =~= all);
    let head = indent_text(depth) + name + " {\n"@;
    let body = file_lines(files, depth + 1, opts.detail, opts.lines, texts);
    let dirs = dirs_text(children, depth + 1, opts, texts);
    let tail = indent_text(depth) + "}\n"@;
    let inline = all.len() == children.len() && !(opts.detail && any_rust(files));
    if !inline {
        assert(whole =~= head + body + dirs + tail);
    }
    if children[i] is File {
        let k = lemma_files_of(children, i);
        if inline {
            let parts = labels(files, opts.lines, texts);
            assert(Seq::<Seq<char>>::empty() + parts =~= parts);
            lemma_label_shows(files[k], opts.lines, texts);
            text::lemma_has_text_join(parts, ", "@, k);
            lemma_part_of_part(text::join(parts, ", "@), parts[k], x);
            let start = indent_text(depth) + name + " { "@;
            text::lemma_has_text_in(start, text::join(parts, ", "@), " }\n"@, x);
        } else {
            lemma_file_lines_show(files, depth + 1, opts.detail, opts.lines, texts, k);
            text::lemma_has_text_in(head, body, dirs + tail, x);
            assert(head + body + (dirs + tail) =~= whole);
        }
    } else {
        lemma_all_files(children, i);
        assert(!inline);
        law_every_file_is_shown(children[i], depth + 1, opts, texts, path.drop_first());
        assert(path.drop_first().last() == x);
        lemma_dirs_show(children, depth + 1, opts, texts, i, x);
        text::lemma_has_text_in(head + body, dirs, tail, x);
    }
}

/// What stands in a part of a text stands in the text.
proof fn lemma_part_of_part(whole: Seq<char>, part: Seq<char>, x: Seq<char>)
    requires
        text::has_text(whole, part),
        text::has_text(part, x),
    ensures
        text::has_text(whole, x),
{
    let i = choose|i: int| text::occurs_at(whole, part, i);
    let front = whole.take(i);
    let back = whole.skip(i + part.len());
    text::lemma_has_text_in(front, part, back, x);
    assert(front + part + back =~= whole);
}

/// Where there is a directory, not all children are files.
proof fn lemma_all_files(children: Seq<walk::NodeView>, i: int)
    requires
        0 <= i < children.len(),
        children[i] is Dir,
    ensures
        files_of(children).len() < children.len(),
    decreases children.len(),
{
    lemma_files_count(children.drop_last());
    if i < children.len() - 1 {
        lemma_all_files(children.drop_last(), i);
    }
}

/// Whether two stores hold the same text of a file, or both none.
pub open spec fn same_text_of(
    a: Map<Seq<char>, Seq<char>>,
    b: Map<Seq<char>, Seq<char>>,
    abs: Seq<char>,
) -> bool {
    a.contains_key(abs) == b.contains_key(abs) && (a.contains_key(abs) ==> a[abs] == b[abs])
}

/// Whether two stores agree on the files of a tree that are read.
pub open spec fn agree_on(
    a: Map<Seq<char>, Seq<char>>,
    b: Map<Seq<char>, Seq<char>>,
    files: Seq<Seq<char>>,
) -> bool {
    forall|i: int| 0 <= i < files.len() ==> same_text_of(a, b, #[trigger] files[i])
}

/// A rendering depends on no text but those of the files to read.
pub proof fn law_texts_read_suffice(
    n: walk::NodeView,
    depth: nat,
    opts: TreeOptions,
    a: Map<Seq<char>, Seq<char>>,
    b: Map<Seq<char>, Seq<char>>,
)
    requires
        agree_on(a, b, read_files(n, opts)),
    ensures
        tree_text(n, depth, opts, a) == tree_text(n, depth, opts, b),
    decreases n,
{
    match n {
        walk::NodeView::File { name, abs } => {
            if opts.lines {
                assert(same_text_of(a, b, read_files(n, opts)[0]));
            }
        },
        walk::NodeView::Dir { name, rel, children } => {
            assert(decreases_to!(n => n->children));
            lemma_dirs_read(children, depth + 1, opts, a, b);
            let all = files_of(children);
            let dropped = left_out(all.len(), cap_for(rel, opts.caps@));
            let files = all.skip(dropped as int);
            assert forall|k: int| 0 <= k < files.len() implies reads_alike(
                #[trigger] files[k],
                opts,
                a,
                b,
            ) by {
                lemma_files_read(children, opts, a, b, dropped + k);
            }
            assert(labels(files, opts.lines, a) =~= labels(files, opts.lines, b)) by {
                assert forall|k: int| 0 <= k < files.len() implies label_text(
                    #[trigger] files[k],
                    opts.lines,
                    a,
                ) == label_text(files[k], opts.lines, b) by {
                    assert(reads_alike(files[k], opts, a, b));
                }
            }
            lemma_lines_read(files, depth + 1, opts, a, b);
        },
    }
}

/// Whether a file has the same text in two stores, if it is read.
spec fn reads_alike(
    n: walk::NodeView,
    opts: TreeOptions,
    a: Map<Seq<char>, Seq<char>>,
    b: Map<Seq<char>, Seq<char>>,
) -> bool {
    n matches walk::NodeView::File { name, abs } ==> is_read(name, opts) ==> same_text_of(a, b, abs)
}

proof fn lemma_files_read(
    children: Seq<walk::NodeView>,
    opts: TreeOptions,
    a: Map<Seq<char>, Seq<char>>,
    b: Map<Seq<char>, Seq<char>>,
    k: int,
)
    requires
        agree_on(a, b, read_among(children, opts)),
        0 <= k < files_of(children).len(),
    ensures
        reads_alike(files_of(children)[k], opts, a, b),
    decreases children.len(),
{
    let rest = children.drop_last();
    lemma_agree_front(children, opts, a, b);
    if k < files_of(rest).len() {
        lemma_files_read(rest, opts, a, b, k);
    } else {
        let last = children[children.len() - 1];
        assert(read_files(last, opts).len() > 0 ==> same_text_of(
            a,
            b,
            read_files(last, opts)[0],
        ));
    }
}

/// Stores that agree on the files of all children agree on those of the first
/// ones and on those of the last one.
proof fn lemma_agree_front(
    children: Seq<walk::NodeView>,
    opts: TreeOptions,
    a: Map<Seq<char>, Seq<char>>,
    b: Map<Seq<char>, Seq<char>>,
)
    requires
        children.len() > 0,
        agree_on(a, b, read_among(children, opts)),
    ensures
        agree_on(a, b, read_among(children.drop_last(), opts)),
        agree_on(a, b, read_files(children[children.len() - 1], opts)),
{
    let x = read_among(children.drop_last(), opts);
    let y = read_files(children[children.len() - 1], opts);
    let all = read_among(children, opts);
    assert forall|i: int| 0 <= i < x.len() implies same_text_of(a, b, #[trigger] x[i]) by {
        assert(all[i] == x[i]);
    }
    assert forall|i: int| 0 <= i < y.len() implies same_text_of(a, b, #[trigger] y[i]) by {
        assert(all[x.len() + i] == y[i]);
    }
}

proof fn lemma_lines_read(
    files: Seq<walk::NodeView>,
    depth: nat,
    opts: TreeOptions,
    a: Map<Seq<char>, Seq<char>>,
    b: Map<Seq<char>, Seq<char>>,
)
    requires
        forall|k: int| 0 <= k < files.len() ==> reads_alike(#[trigger] files[k], opts, a, b),
    ensures
        file_lines(files, depth, opts.detail, opts.lines, a) == file_lines(
            files,
            depth,
            opts.detail,
            opts.lines,
            b,
        ),
    decreases files.len(),
{
    if files.len() > 0 {
        let rest = files.drop_last();
        assert forall|k: int| 0 <= k < rest.len() implies reads_alike(
            #[trigger] rest[k],
            opts,
            a,
            b,
        ) by {
            assert(rest[k] == files[k]);
        }
        lemma_lines_read(rest, depth, opts, a, b);
        assert(reads_alike(files[files.len() - 1], opts, a, b));
    }
}

proof fn lemma_dirs_read(
    children: Seq<walk::NodeView>,
    depth: nat,
    opts: TreeOptions,
    a: Map<Seq<char>, Seq<char>>,
    b: Map<Seq<char>, Seq<char>>,
)
    requires
        agree_on(a, b, read_among(children, opts)),
    ensures
        dirs_text(children, depth, opts, a) == dirs_text(children, depth, opts, b),
    decreases children,
{
    if children.len() > 0 {
        lemma_agree_front(children, opts, a, b);
        lemma_dirs_read(children.drop_last(), depth, opts, a, b);
        assert(decreases_to!(children => children[children.len() - 1]));
        law_texts_read_suffice(children[children.len() - 1], depth, opts, a, b);
    }
}

// --- how a directory is written --------------------------------------------------------

proof fn lemma_files_filtered(children: Seq<walk::NodeView>)
    ensures
        files_of(children) == children.filter(|c: walk::NodeView| c is File),
        children.filter(|c: walk::NodeView| c is Dir).len() + files_of(children).len()
            == children.len(),
    decreases children.len(),
{
    reveal(Seq::filter);
    if children.len() > 0 {
        lemma_files_filtered(children.drop_last());
    }
}

proof fn lemma_dirs_glued(
    children: Seq<walk::NodeView>,
    depth: nat,
    opts: TreeOptions,
    texts: Map<Seq<char>, Seq<char>>,
)
    ensures
        dirs_text(children, depth, opts, texts) == similar::glued(
            children.filter(|c: walk::NodeView| c is Dir).map_values(
                |c: walk::NodeView| tree_text(c, depth, opts, texts),
            ),
        ),
    decreases children.len(),
{
    reveal(Seq::filter);
    let is_dir = |c: walk::NodeView| c is Dir;
    let written = |c: walk::NodeView| tree_text(c, depth, opts, texts);
    let dirs = children.filter(is_dir);
    if children.len() == 0 {
        assert(dirs.map_values(written) =~= Seq::empty());
    } else {
        let rest = children.drop_last();
        lemma_dirs_glued(rest, depth, opts, texts);
        let last = children.last();
        let before = rest.filter(is_dir).map_values(written);
        if last is Dir {
            assert(dirs.map_values(written) =~= before.push(written(last)));
            assert(before.push(written(last)).drop_last() =~= before);
        } else {
            assert(dirs =~= rest.filter(is_dir));
            assert(dirs_text(rest, depth, opts, texts) + Seq::<char>::empty() =~= dirs_text(
                rest,
                depth,
                opts,
                texts,
            ));
        }
    }
}

proof fn lemma_files_glued(
    files: Seq<walk::NodeView>,
    depth: nat,
    detail: bool,
    lines: bool,
    texts: Map<Seq<char>, Seq<char>>,
)
    ensures
        file_lines(files, depth, detail, lines, texts) == similar::glued(
            files.map_values(|c: walk::NodeView| file_line(c, depth, detail, lines, texts)),
        ),
    decreases files.len(),
{
    let written = |c: walk::NodeView| file_line(c, depth, detail, lines, texts);
    if files.len() == 0 {
        assert(files.map_values(written) =~= Seq::empty());
    } else {
        let rest = files.drop_last();
        lemma_files_glued(rest, depth, detail, lines, texts);
        assert(files.map_values(written) =~= rest.map_values(written).push(written(files.last())));
        assert(rest.map_values(written).push(written(files.last())).drop_last()
            =~= rest.map_values(written));
    }
}

proof fn lemma_cap_for(rel: Seq<char>, caps: Seq<(String, usize)>, i: int)
    requires
        0 <= i <= caps.len(),
        forall|j: int| 0 <= j < i ==> (#[trigger] caps[j]).0@ != text::replaced(rel, '\\', '/'),
        i < caps.len() ==> caps[i].0@ == text::replaced(rel, '\\', '/'),
    ensures
        cap_for(rel, caps) == if i < caps.len() {
            Some(caps[i].1)
        } else {
            None
        },
    decreases caps.len(),
{
    if caps.len() > 0 && i > 0 {
        assert(caps[0].0@ != text::replaced(rel, '\\', '/'));
        let rest = caps.drop_first();
        assert forall|j: int| 0 <= j < i - 1 implies (#[trigger] rest[j]).0@ != text::replaced(
            rel,
            '\\',
            '/',
        ) by {
            assert(rest[j] == caps[j + 1]);
        }
        lemma_cap_for(rel, rest, i - 1);
    }
}

/// At the depth limit, only the numbers of its subdirectories and files are
/// written of a directory; `{}` where it is empty.
pub proof fn law_depth_limit_counts(
    name: Seq<char>,
    rel: Seq<char>,
    children: Seq<walk::NodeView>,
    depth: nat,
    opts: TreeOptions,
    texts: Map<Seq<char>, Seq<char>>,
)
    requires
        opts.depth matches Some(d) && depth >= d,
    ensures
        tree_text(walk::NodeView::Dir { name, rel, children }, depth, opts, texts)
            == text::repeated(' ', 2 * depth) + name + (if children.len() == 0 {
            " {}\n"@
        } else {
            " { ... "@ + text::decimal(
                children.filter(|c: walk::NodeView| c is Dir).len(),
            ) + " subdirs, "@ + text::decimal(
                children.filter(|c: walk::NodeView| c is File).len(),
            ) + " files (depth cap) }\n"@
        }),
{
    lemma_files_filtered(children);
    let r = tree_text(walk::NodeView::Dir { name, rel, children }, depth, opts, texts);
    let files = children.filter(|c: walk::NodeView| c is File);
    let dirs = children.filter(|c: walk::NodeView| c is Dir);
    if children.len() > 0 {
        assert(r =~= text::repeated(' ', 2 * depth) + name + (" { ... "@ + text::decimal(
            dirs.len(),
        ) + " subdirs, "@ + text::decimal(files.len()) + " files (depth cap) }\n"@));
    }
}

/// A directory without subdirectories, no Rust file of which is expanded, is
/// written in one line: its files, or the last ones where its first cap says so,
/// behind a note of how many are left out. They are written `name:lines` where
/// lines are asked for.
pub proof fn law_plain_directory_is_written(
    name: Seq<char>,
    rel: Seq<char>,
    children: Seq<walk::NodeView>,
    depth: nat,
    opts: TreeOptions,
    texts: Map<Seq<char>, Seq<char>>,
    i: int,
    dropped: nat,
)
    requires
        0 <= i <= opts.caps@.len(),
        forall|j: int|
            0 <= j < i ==> (#[trigger] opts.caps@[j]).0@ != text::replaced(rel, '\\', '/'),
        i < opts.caps@.len() ==> opts.caps@[i].0@ == text::replaced(rel, '\\', '/'),
        dropped == ({
            let n = children.filter(|c: walk::NodeView| c is File).len();
            if i < opts.caps@.len() && n > opts.caps@[i].1 {
                n - opts.caps@[i].1
            } else {
                0
            }
        }),
        opts.depth matches Some(d) ==> depth < d,
    ensures
        ({
            let r = tree_text(walk::NodeView::Dir { name, rel, children }, depth, opts, texts);
            let kept = children.filter(|c: walk::NodeView| c is File).skip(dropped as int);
            let margin = text::repeated(' ', 2 * depth);
            let label = |c: walk::NodeView|
                match c {
                    walk::NodeView::File { name, abs } => if opts.lines {
                        name + ":"@ + text::decimal(
                            if texts.contains_key(abs) {
                                text::lines(texts[abs]).len()
                            } else {
                                0
                            },
                        )
                    } else {
                        name
                    },
                    walk::NodeView::Dir { name, .. } => name,
                };
            let expanded = opts.detail && exists|k: int|
                0 <= k < kept.len() && text::ends_with(
                    walk::node_name(#[trigger] kept[k]),
                    ".rs"@,
                );
            let parts = (if dropped == 0 {
                Seq::empty()
            } else {
                seq!["... "@ + text::decimal(dropped) + " files truncated ..."@]
            }) + kept.map_values(label);
            children.filter(|c: walk::NodeView| c is Dir).len() == 0 && !expanded ==> r == margin
                + name + (if parts.len() == 0 {
                " {}\n"@
            } else {
                " { "@ + text::join(parts, ", "@) + " }\n"@
            })
        }),
{
    let files = children.filter(|c: walk::NodeView| c is File);
    let kept = files.skip(dropped as int);
    lemma_files_filtered(children);
    lemma_cap_for(rel, opts.caps@, i);
    assert(left_out(files.len(), cap_for(rel, opts.caps@)) == dropped);
    let label = |c: walk::NodeView|
        match c {
            walk::NodeView::File { name, abs } => if opts.lines {
                name + ":"@ + text::decimal(
                    if texts.contains_key(abs) {
                        text::lines(texts[abs]).len()
                    } else {
                        0
                    },
                )
            } else {
                name
            },
            walk::NodeView::Dir { name, .. } => name,
        };
    assert(kept.map_values(label) =~= labels(kept, opts.lines, texts));
    let note = if dropped == 0 {
        Seq::empty()
    } else {
        seq![truncation_note(dropped)]
    };
    let parts = note + labels(kept, opts.lines, texts);
    let margin = text::repeated(' ', 2 * depth);
    let start = margin + name;
    assert(start + " { "@ + text::join(parts, ", "@) + " }\n"@ =~= start + (" { "@ + text::join(
        parts,
        ", "@,
    ) + " }\n"@));
}

/// A directory with subdirectories, or with a Rust file that is expanded, is
/// written in several lines: the files that are kept, each in a line of its own, a
/// Rust file with its items where detail is asked for; and then the
/// subdirectories, in their order, one level deeper.
pub proof fn law_nested_directory_is_written(
    name: Seq<char>,
    rel: Seq<char>,
    children: Seq<walk::NodeView>,
    depth: nat,
    opts: TreeOptions,
    texts: Map<Seq<char>, Seq<char>>,
    i: int,
    dropped: nat,
)
    requires
        0 <= i <= opts.caps@.len(),
        forall|j: int|
            0 <= j < i ==> (#[trigger] opts.caps@[j]).0@ != text::replaced(rel, '\\', '/'),
        i < opts.caps@.len() ==> opts.caps@[i].0@ == text::replaced(rel, '\\', '/'),
        dropped == ({
            let n = children.filter(|c: walk::NodeView| c is File).len();
            if i < opts.caps@.len() && n > opts.caps@[i].1 {
                n - opts.caps@[i].1
            } else {
                0
            }
        }),
        opts.depth matches Some(d) ==> depth < d,
    ensures
        ({
            let r = tree_text(walk::NodeView::Dir { name, rel, children }, depth, opts, texts);
            let kept = children.filter(|c: walk::NodeView| c is File).skip(dropped as int);
            let dirs = children.filter(|c: walk::NodeView| c is Dir);
            let margin = text::repeated(' ', 2 * depth);
            let inner = text::repeated(' ', 2 * (depth + 1));
            let label = |c: walk::NodeView|
                match c {
                    walk::NodeView::File { name, abs } => if opts.lines {
                        name + ":"@ + text::decimal(
                            if texts.contains_key(abs) {
                                text::lines(texts[abs]).len()
                            } else {
                                0
                            },
                        )
                    } else {
                        name
                    },
                    walk::NodeView::Dir { name, .. } => name,
                };
            let line = |c: walk::NodeView|
                match c {
                    walk::NodeView::File { name, abs } => inner + label(c) + (if opts.detail
                        && text::ends_with(name, ".rs"@) && texts.contains_key(abs)
                        && parse::source_summary(texts[abs], opts.lines) is Some {
                        " { "@ + parse::source_summary(texts[abs], opts.lines)->Some_0 + " }\n"@
                    } else {
                        "\n"@
                    }),
                    walk::NodeView::Dir { .. } => Seq::empty(),
                };
            let expanded = opts.detail && exists|k: int|
                0 <= k < kept.len() && text::ends_with(
                    walk::node_name(#[trigger] kept[k]),
                    ".rs"@,
                );
            dirs.len() > 0 || expanded ==> r == margin + name + " {\n"@ + (if dropped == 0 {
                Seq::empty()
            } else {
                inner + ("... "@ + text::decimal(dropped) + " files truncated ..."@) + "\n"@
            }) + similar::glued(kept.map_values(line)) + similar::glued(
                dirs.map_values(|c: walk::NodeView| tree_text(c, depth + 1, opts, texts)),
            ) + margin + "}\n"@
        }),
{
    let files = children.filter(|c: walk::NodeView| c is File);
    let kept = files.skip(dropped as int);
    lemma_files_filtered(children);
    lemma_dirs_glued(children, depth + 1, opts, texts);
    lemma_cap_for(rel, opts.caps@, i);
    assert(left_out(files.len(), cap_for(rel, opts.caps@)) == dropped);
    lemma_files_glued(kept, depth + 1, opts.detail, opts.lines, texts);
    let inner = text::repeated(' ', 2 * (depth + 1));
    let label = |c: walk::NodeView|
        match c {
            walk::NodeView::File { name, abs } => if opts.lines {
                name + ":"@ + text::decimal(
                    if texts.contains_key(abs) {
                        text::lines(texts[abs]).len()
                    } else {
                        0
                    },
                )
            } else {
                name
            },
            walk::NodeView::Dir { name, .. } => name,
        };
    let line = |c: walk::NodeView|
        match c {
            walk::NodeView::File { name, abs } => inner + label(c) + (if opts.detail
                && text::ends_with(name, ".rs"@) && texts.contains_key(abs)
                && parse::source_summary(texts[abs], opts.lines) is Some {
                " { "@ + parse::source_summary(texts[abs], opts.lines)->Some_0 + " }\n"@
            } else {
                "\n"@
            }),
            walk::NodeView::Dir { .. } => Seq::empty(),
        };
    let written = |c: walk::NodeView| file_line(c, depth + 1, opts.detail, opts.lines, texts);
    assert forall|c: walk::NodeView| #[trigger] line(c) == written(c) by {
        if let walk::NodeView::File { name, abs } = c {
            let start = inner + label(c);
            assert(label(c) == label_text(c, opts.lines, texts));
            if let Some(items) = parse::source_summary(texts[abs], opts.lines) {
                assert(start + " { "@ + items + " }\n"@ =~= start + (" { "@ + items + " }\n"@));
            }
        }
    }
    assert(kept.map_values(line) =~= kept.map_values(written)) by {
        assert forall|k: int| 0 <= k < kept.len() implies kept.map_values(line)[k]
            == kept.map_values(written)[k] by {
            assert(line(kept[k]) == written(kept[k]));
        }
    }
}

/// How a single file is written: a Rust file with its items, or with `{}` where it
/// has none or cannot be read; another file by its name alone. Its number of lines
/// follows the name where lines are asked for.
pub proof fn law_module_is_written(path: Seq<char>, source: Seq<char>, name: Seq<char>, lines: bool)
    requires
        paths::file_name_of(path) == Some(name),
    ensures
        ({
            let label = if lines {
                name + ":"@ + text::decimal(text::lines(source).len())
            } else {
                name
            };
            &&& !text::ends_with(name, ".rs"@) ==> module_text(path, Some(source), lines) == label
                + "\n"@
            &&& text::ends_with(name, ".rs"@) ==> module_text(path, Some(source), lines) == label
                + match parse::source_summary(source, lines) {
                Some(items) => " { "@ + items + " }\n"@,
                None => " {}\n"@,
            }
            &&& text::ends_with(name, ".rs"@) && !lines ==> module_text(path, None, lines) == name
                + " {}\n"@
        }),
{
    let label = if lines {
        name + ":"@ + text::decimal(text::lines(source).len())
    } else {
        name
    };
    if let Some(items) = parse::source_summary(source, lines) {
        assert(label + " { "@ + items + " }\n"@ =~= label + (" { "@ + items + " }\n"@));
    }
}

} // verus!
