use rmap::deps::{
    build_from_repo, detect_crate_root, flatten_use, path_under, paths_to_probe, render_all,
    render_focus, run, short_name, DepsOptions, Graph, Mode,
};
use rmap::modtree::Disk;
use rmap::names::{EdgeMap, NameSet};
use rmap::syntax::{parse_source, Decl};

const REPO: &str = "/repo";

/// What `repo` asks for, with the files `files` and no other on the disk.
fn disk(repo: &str, files: &[(&str, &str)]) -> Disk {
    let mut disk = Disk::new();
    loop {
        let wanted = paths_to_probe(&disk, repo);
        if wanted.is_empty() {
            return disk;
        }
        for path in wanted {
            let found = files.iter().find(|(rel, _)| format!("{repo}/{rel}") == path);
            match found {
                Some((_, source)) => disk.record_file(path.clone(), path, Some(source)),
                None => disk.record_nothing(path),
            }
        }
    }
}

fn forward(external: bool) -> DepsOptions {
    DepsOptions {
        focus: None,
        mode: Mode::Forward,
        include_external: external,
        scope: None,
    }
}

fn deps(files: &[(&str, &str)], opts: &DepsOptions) -> String {
    run(&disk(REPO, files), REPO, REPO, opts).unwrap_or_else(|message| message)
}

#[test]
fn flatten_use_handles_groups_and_globs() {
    let src = "use a::{b::c, d::*, e as f};";
    let parsed = parse_source(src).unwrap();
    let mut paths = Vec::new();
    for item in &parsed {
        if let Decl::Use(u) = item {
            flatten_use(u, &Vec::new(), &mut paths);
        }
    }
    let joined: Vec<String> = paths.iter().map(|p| p.join("::")).collect();
    assert!(joined.contains(&"a::b::c".to_string()));
    assert!(joined.contains(&"a::d".to_string()), "{:?}", joined);
    assert!(joined.contains(&"a::e".to_string()));
}

#[test]
fn resolves_crate_self_super_external() {
    let out = deps(
        &[
            (
                "src/main.rs",
                "mod a; mod b; use crate::a::Foo; use std::io;",
            ),
            (
                "src/a.rs",
                "use crate::b::Bar; use super::b::Baz; use self::sub::X; mod sub { pub struct X; }",
            ),
            ("src/b.rs", "pub struct Bar; pub struct Baz;"),
        ],
        &forward(true),
    );
    assert!(out.contains("src/a.rs"), "{out}");
    assert!(out.contains("src/b.rs"), "{out}");
    let main_line = out.lines().find(|l| l.starts_with("src/main.rs")).unwrap();
    assert!(main_line.contains("std"), "{main_line}");
    assert!(main_line.contains("a"), "{main_line}");
    assert_eq!(
        out,
        "src/a.rs    -> b\nsrc/b.rs    -> -\nsrc/main.rs -> a, std\n"
    );
}

#[test]
fn reverse_mode_lists_callers() {
    let opts = DepsOptions {
        focus: None,
        mode: Mode::Reverse,
        include_external: false,
        scope: None,
    };
    let out = deps(
        &[
            ("src/main.rs", "mod a; mod b; use crate::a::X;"),
            ("src/a.rs", "use crate::b::Y; pub struct X;"),
            ("src/b.rs", "pub struct Y;"),
        ],
        &opts,
    );
    let b_line = out.lines().find(|l| l.starts_with("src/b.rs")).unwrap();
    assert!(b_line.contains("a"), "{b_line}");
    assert_eq!(
        out,
        "src/a.rs    <- main\nsrc/b.rs    <- a\nsrc/main.rs <- -\n"
    );
}

#[test]
fn focus_mode_shows_in_out_ext() {
    let opts = DepsOptions {
        focus: Some("/repo/src/a.rs".into()),
        mode: Mode::Forward,
        include_external: true,
        scope: None,
    };
    let out = deps(
        &[
            ("src/main.rs", "mod a; mod b; use crate::a::X;"),
            ("src/a.rs", "use crate::b::Y; use std::io; pub struct X;"),
            ("src/b.rs", "pub struct Y;"),
        ],
        &opts,
    );
    assert!(out.contains("out: src/b.rs"), "{out}");
    assert!(out.contains("in:  src/main.rs"), "{out}");
    assert!(out.contains("ext: std"), "{out}");
    assert_eq!(
        out,
        "src/a.rs\n  out: src/b.rs\n  in:  src/main.rs\n  ext: std\n"
    );
}

#[test]
fn no_crate_root_returns_message() {
    let out = deps(&[], &forward(false));
    assert!(out.contains("no crate root"), "{out}");
    assert_eq!(
        out,
        "no crate root found (looked for /repo/src/main.rs and /repo/src/lib.rs)\n"
    );
}

#[test]
fn handles_mod_dot_rs_layout() {
    let out = deps(
        &[
            ("src/main.rs", "mod a;"),
            ("src/a/mod.rs", "mod b; use crate::a::b::X;"),
            ("src/a/b.rs", "pub struct X;"),
        ],
        &forward(false),
    );
    let a_line = out.lines().find(|l| l.starts_with("src/a/mod.rs")).unwrap();
    assert!(a_line.contains("b"), "{a_line}");
}

#[test]
fn scope_filters_to_subtree() {
    let opts = DepsOptions {
        focus: None,
        mode: Mode::Forward,
        include_external: false,
        scope: Some("src/a.rs".into()),
    };
    let files = [
        (
            "Cargo.toml",
            "[package]\nname = \"x\"\nversion = \"0.1.0\"\nedition = \"2021\"\n",
        ),
        ("src/main.rs", "mod a; mod b;"),
        ("src/a.rs", "pub struct A;"),
        ("src/b.rs", "use crate::a::A;"),
    ];
    let out = deps(&files, &opts);
    assert!(out.contains("src/a.rs"), "{out}");
    assert!(!out.contains("src/main.rs"), "{out}");
    assert!(!out.contains("src/b.rs"), "{out}");
    let elsewhere = DepsOptions {
        scope: Some("lib".into()),
        ..opts
    };
    assert_eq!(deps(&files, &elsewhere), "no files under scope `lib`\n");
}

#[test]
fn path_under_segment_aligned() {
    assert!(path_under("src/domain/x.rs", "src/domain"));
    assert!(path_under("src/domain", "src/domain"));
    assert!(!path_under("src/domain_other/x.rs", "src/domain"));
    assert!(path_under("src/domain/x.rs", "src/domain/"));
}

#[test]
fn the_main_file_is_preferred_as_root() {
    let d = disk(REPO, &[("src/main.rs", ""), ("src/lib.rs", "")]);
    assert_eq!(detect_crate_root(&d, REPO).as_deref(), Some("src/main.rs"));
    let d = disk(REPO, &[("src/lib.rs", "")]);
    assert_eq!(detect_crate_root(&d, REPO).as_deref(), Some("src/lib.rs"));
    let d = disk(REPO, &[]);
    assert!(detect_crate_root(&d, REPO).is_none());
    assert!(build_from_repo(&d, REPO).is_none());
}

fn members(s: &NameSet) -> Vec<String> {
    (0..s.len()).map(|i| s.at(i).clone()).collect()
}

fn edges(e: &EdgeMap) -> Vec<(String, Vec<String>)> {
    (0..e.len())
        .map(|i| (e.key(i).clone(), members(e.set(i))))
        .collect()
}

fn edge(a: &str, b: &[&str]) -> (String, Vec<String>) {
    (a.to_string(), b.iter().map(|s| s.to_string()).collect())
}

#[test]
fn the_graph_has_module_and_import_edges() {
    let d = disk(
        REPO,
        &[
            ("src/lib.rs", "mod a; mod gone; mod inl { use super::a::X; mod deep; }"),
            ("src/a.rs", "mod c; use super::super::Y; use super::Z; use self::c::*; use a::b;"),
            ("src/a/c.rs", "use super::V; use crate::a::c::W; use crate::nowhere::X;"),
            ("src/deep.rs", "fn {"),
        ],
    );
    let g = build_from_repo(&d, REPO).unwrap();
    assert_eq!(
        members(&g.files),
        vec!["src/a.rs", "src/a/c.rs", "src/deep.rs", "src/lib.rs"]
    );
    assert_eq!(
        edges(&g.mod_edges),
        vec![
            edge("src/a.rs", &["src/a/c.rs"]),
            edge("src/lib.rs", &["src/a.rs", "src/deep.rs"]),
        ]
    );
    assert_eq!(
        edges(&g.out_internal),
        vec![
            edge("src/a.rs", &["src/a/c.rs", "src/lib.rs"]),
            edge("src/a/c.rs", &["src/a.rs", "src/lib.rs"]),
            edge("src/lib.rs", &["src/a.rs"]),
        ]
    );
    assert_eq!(edges(&g.out_external), vec![edge("src/a.rs", &["a"])]);
}

#[test]
fn more_of_the_disk_changes_nothing_once_all_is_probed() {
    let files = [("src/main.rs", "mod a;"), ("src/a.rs", "use crate::X;")];
    let mut d = disk(REPO, &files);
    let before = edges(&build_from_repo(&d, REPO).unwrap().out_internal);
    d.record_file("/repo/src/b.rs".into(), "/repo/src/b.rs".into(), Some("use crate::a::Y;"));
    assert!(paths_to_probe(&d, REPO).is_empty());
    assert_eq!(edges(&build_from_repo(&d, REPO).unwrap().out_internal), before);
}

#[test]
fn a_file_that_leads_to_itself_is_read_once() {
    let mut d = Disk::new();
    d.record_file("/repo/src/main.rs".into(), "/repo/src/main.rs".into(), Some("mod a;"));
    d.record_file("/repo/src/a.rs".into(), "/repo/src/main.rs".into(), Some("mod a;"));
    assert!(paths_to_probe(&d, REPO).is_empty());
    let g = build_from_repo(&d, REPO).unwrap();
    assert_eq!(members(&g.files), vec!["src/main.rs"]);
}

fn graph(internal: &[(&str, &str)], external: &[(&str, &str)], files: &[&str]) -> Graph {
    let mut g = Graph::default();
    for f in files {
        g.files.insert(f.to_string());
    }
    for (a, b) in internal {
        g.out_internal.add(a.to_string(), b.to_string());
    }
    for (a, b) in external {
        g.out_external.add(a.to_string(), b.to_string());
    }
    g
}

#[test]
fn reverse_rows_mirror_forward_rows() {
    let g = graph(
        &[("x.rs", "z.rs"), ("y.rs", "z.rs"), ("x.rs", "y.rs")],
        &[("x.rs", "std")],
        &["x.rs", "y.rs", "z.rs"],
    );
    assert_eq!(
        render_all(&g, Mode::Forward, false, None),
        "x.rs -> y, z\ny.rs -> z\nz.rs -> -\n"
    );
    assert_eq!(
        render_all(&g, Mode::Reverse, true, None),
        "x.rs <- -\ny.rs <- x\nz.rs <- x, y\n"
    );
    assert_eq!(
        render_all(&g, Mode::Reverse, false, Some("z.rs/")),
        "z.rs <- x, y\n"
    );
    assert_eq!(render_all(&Graph::default(), Mode::Forward, false, None), "");
}

#[test]
fn a_focus_lists_both_sides() {
    let g = graph(&[("x.rs", "z.rs"), ("y.rs", "z.rs")], &[], &["x.rs", "y.rs", "z.rs"]);
    assert_eq!(
        render_focus(&g, "z.rs", true),
        "z.rs\n  out: -\n  in:  x.rs, y.rs\n  ext: -\n"
    );
    assert_eq!(
        render_focus(&g, "x.rs", false),
        "x.rs\n  out: z.rs\n  in:  -\n"
    );
    assert_eq!(
        render_focus(&g, "w.rs", false),
        "file `w.rs` not in module tree\n"
    );
}

#[test]
fn a_short_name_is_the_file_stem() {
    assert_eq!(short_name("src/a/mod.rs"), "mod");
    assert_eq!(short_name(".."), "..");
    assert_eq!(short_name("src/a.b.rs"), "a.b");
}

#[test]
fn a_focused_file_without_imports_has_a_dash() {
    let g = graph(
        &[("src/refs.rs", "src/walk.rs"), ("src/render.rs", "src/walk.rs")],
        &[],
        &["src/refs.rs", "src/render.rs", "src/walk.rs"],
    );
    assert_eq!(
        render_focus(&g, "src/walk.rs", false),
        "src/walk.rs\n  out: -\n  in:  src/refs.rs, src/render.rs\n"
    );
}

#[test]
fn edges_join_files_of_the_graph() {
    let d = disk(
        REPO,
        &[
            ("src/lib.rs", "mod a; use crate::a::X; use std::fmt;"),
            ("src/a.rs", "use super::Y; use serde::Z;"),
        ],
    );
    let g = build_from_repo(&d, REPO).unwrap();
    let files = members(&g.files);
    for (a, set) in edges(&g.out_internal).into_iter().chain(edges(&g.mod_edges)) {
        assert!(files.contains(&a));
        assert!(set.iter().all(|b| files.contains(b)));
    }
    assert_eq!(
        edges(&g.out_external),
        vec![edge("src/a.rs", &["serde"]), edge("src/lib.rs", &["std"])]
    );
}

#[test]
fn what_is_not_there_is_an_error() {
    let files = [("src/lib.rs", "mod a;"), ("src/a.rs", "")];
    assert_eq!(
        run(&disk(REPO, &[]), REPO, ".", &forward(false)),
        Err("no crate root found (looked for ./src/main.rs and ./src/lib.rs)\n".to_string())
    );
    let mut opts = forward(false);
    opts.focus = Some(format!("{REPO}/src/b.rs"));
    assert_eq!(
        run(&disk(REPO, &files), REPO, REPO, &opts),
        Err("file `src/b.rs` not in module tree\n".to_string())
    );
    opts.focus = Some(format!("{REPO}/src/a.rs"));
    assert_eq!(
        run(&disk(REPO, &files), REPO, REPO, &opts),
        Ok("src/a.rs\n  out: -\n  in:  -\n".to_string())
    );
}
