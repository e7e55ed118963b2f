use rmap::render::{file_module, files_to_read, tree, TreeOptions};
use rmap::store::TextMap;
use rmap::walk::Node;

fn dir(name: &str, rel: &str, children: Vec<Node>) -> Node {
    Node::Dir {
        name: name.into(),
        rel: rel.into(),
        children,
    }
}
fn file(name: &str, _rel: &str) -> Node {
    Node::File {
        name: name.into(),
        abs: "/dev/null".into(),
    }
}

fn opts() -> TreeOptions {
    TreeOptions::default()
}

fn none() -> TextMap {
    TextMap::new()
}

#[test]
fn empty_dir_renders_empty_braces() {
    let n = dir("root", "", vec![]);
    assert_eq!(tree(&n, &opts(), &none()), "root {}\n");
}

#[test]
fn pure_file_dir_collapses_to_inline() {
    let n = dir(
        "pkg",
        "pkg",
        vec![file("a.rs", "pkg/a.rs"), file("b.rs", "pkg/b.rs")],
    );
    assert_eq!(tree(&n, &opts(), &none()), "pkg { a.rs, b.rs }\n");
}

#[test]
fn nested_dirs_render_multiline() {
    let n = dir(
        "root",
        "",
        vec![
            file("top.md", "top.md"),
            dir("sub", "sub", vec![file("x.rs", "sub/x.rs")]),
        ],
    );
    assert_eq!(
        tree(&n, &opts(), &none()),
        "root {\n  top.md\n  sub { x.rs }\n}\n"
    );
}

#[test]
fn depth_cap_collapses_to_ellipsis() {
    let n = dir(
        "root",
        "",
        vec![dir(
            "sub",
            "sub",
            vec![file("x.rs", "sub/x.rs"), file("y.rs", "sub/y.rs")],
        )],
    );
    let opts = TreeOptions {
        depth: Some(1),
        ..Default::default()
    };
    let s = tree(&n, &opts, &none());
    assert!(
        s.contains("sub { ... 0 subdirs, 2 files (depth cap) }"),
        "{s}"
    );
}

#[test]
fn cap_truncates_files_keeping_tail() {
    let n = dir(
        "sessions",
        "docs/sessions",
        vec![
            file("a.md", "docs/sessions/a.md"),
            file("b.md", "docs/sessions/b.md"),
            file("c.md", "docs/sessions/c.md"),
            file("d.md", "docs/sessions/d.md"),
        ],
    );
    let opts = TreeOptions {
        caps: vec![("docs/sessions".into(), 2)],
        ..Default::default()
    };
    let s = tree(&n, &opts, &none());
    assert_eq!(s, "sessions { ... 2 files truncated ..., c.md, d.md }\n");
}

#[test]
fn cap_only_matches_exact_relpath() {
    let n = dir(
        "sub",
        "other/sub",
        vec![
            file("a.md", "other/sub/a.md"),
            file("b.md", "other/sub/b.md"),
        ],
    );
    let opts = TreeOptions {
        caps: vec![("docs/sessions".into(), 1)],
        ..Default::default()
    };
    let s = tree(&n, &opts, &none());
    assert_eq!(s, "sub { a.md, b.md }\n");
}

fn at(name: &str, abs: &str) -> Node {
    Node::File {
        name: name.into(),
        abs: abs.into(),
    }
}

#[test]
fn detail_expands_rust_files_alone() {
    let n = dir(
        "root",
        "",
        vec![at("a.rs", "/r/a.rs"), at("b.md", "/r/b.md"), at("c.rs", "/r/c.rs")],
    );
    let mut texts = TextMap::new();
    texts.insert("/r/a.rs".into(), "struct A;\nfn b() {}\n".into());
    texts.insert("/r/b.md".into(), "# b\n".into());
    let detailed = TreeOptions {
        detail: true,
        ..Default::default()
    };
    assert_eq!(
        tree(&n, &detailed, &texts),
        "root {\n  a.rs { struct A, fn b }\n  b.md\n  c.rs\n}\n"
    );
    let lined = TreeOptions {
        detail: true,
        lines: true,
        ..Default::default()
    };
    assert_eq!(
        tree(&n, &lined, &texts),
        "root {\n  a.rs:2 { struct A:1-1, fn b:2-2 }\n  b.md:1\n  c.rs:0\n}\n"
    );
    let counted = TreeOptions {
        lines: true,
        ..Default::default()
    };
    assert_eq!(
        tree(&n, &counted, &texts),
        "root { a.rs:2, b.md:1, c.rs:0 }\n"
    );
}

#[test]
fn a_cap_in_a_multiline_dir_has_a_line_of_its_own() {
    let n = dir(
        "d",
        "d",
        vec![dir("e", "d/e", vec![]), file("a", ""), file("b", "")],
    );
    let opts = TreeOptions {
        caps: vec![("d".into(), 0), ("d".into(), 1)],
        ..Default::default()
    };
    assert_eq!(
        tree(&n, &opts, &none()),
        "d {\n  ... 2 files truncated ...\n  e {}\n}\n"
    );
}

#[test]
fn depth_zero_collapses_the_top() {
    let opts = TreeOptions {
        depth: Some(0),
        ..Default::default()
    };
    assert_eq!(tree(&dir("r", "", vec![]), &opts, &none()), "r {}\n");
    assert_eq!(
        tree(&dir("r", "", vec![file("a", "")]), &opts, &none()),
        "r { ... 0 subdirs, 1 files (depth cap) }\n"
    );
    assert_eq!(tree(&file("a", ""), &opts, &none()), "a\n");
}

#[test]
fn a_single_file_is_a_module() {
    assert_eq!(
        file_module("src/a.rs", Some("struct A;\n"), false),
        "a.rs { struct A }\n"
    );
    assert_eq!(
        file_module("src/a.rs", Some("struct A;\n\n"), true),
        "a.rs:2 { struct A:1-1 }\n"
    );
    assert_eq!(file_module("src/a.rs", Some("fn {"), false), "a.rs {}\n");
    assert_eq!(file_module("src/a.rs", None, true), "a.rs:0 {}\n");
    assert_eq!(file_module("README.md", Some("a\nb"), true), "README.md:2\n");
    assert_eq!(file_module("..", None, false), "?\n");
}

#[test]
fn only_what_is_rendered_is_read() {
    let n = dir(
        "root",
        "",
        vec![
            dir("s", "s", vec![at("x.rs", "/r/s/x.rs"), at("y.md", "/r/s/y.md")]),
            at("a.rs", "/r/a.rs"),
        ],
    );
    let wanted = |opts: TreeOptions| {
        let mut out = Vec::new();
        files_to_read(&n, &opts, &mut out);
        out
    };
    assert_eq!(wanted(opts()), Vec::<String>::new());
    let detail = TreeOptions {
        detail: true,
        ..Default::default()
    };
    assert_eq!(wanted(detail), vec!["/r/s/x.rs", "/r/a.rs"]);
    let lines = TreeOptions {
        lines: true,
        ..Default::default()
    };
    assert_eq!(wanted(lines), vec!["/r/s/x.rs", "/r/s/y.md", "/r/a.rs"]);
}

#[test]
fn a_limit_below_the_last_level_hides_nothing() {
    let n = dir(
        "root",
        "",
        vec![dir("s", "s", vec![file("x", "")]), file("a", "")],
    );
    let deep = TreeOptions {
        depth: Some(2),
        ..Default::default()
    };
    assert_eq!(tree(&n, &deep, &none()), tree(&n, &opts(), &none()));
    let shallow = TreeOptions {
        depth: Some(1),
        ..Default::default()
    };
    assert_ne!(tree(&n, &shallow, &none()), tree(&n, &opts(), &none()));
}
