use rmap::walk::{
    enumerate, ext_matches, find_dirs_matching_suffix, is_skipped, list_paths, Filter, Node,
};

fn strings(v: &[&str]) -> Vec<String> {
    v.iter().map(|s| s.to_string()).collect()
}

#[test]
fn ext_matches_empty_allowlist_passes_everything() {
    assert!(ext_matches("a/b.rs", &vec![]));
    assert!(ext_matches("anything", &vec![]));
}

#[test]
fn ext_matches_filters_by_extension_case_insensitive() {
    let allow = vec!["rs".to_string(), "md".to_string()];
    assert!(ext_matches("src/a.rs", &allow));
    assert!(ext_matches("docs/x.MD", &allow));
    assert!(!ext_matches("Cargo.toml", &allow));
    assert!(!ext_matches("README", &allow));
}

#[test]
fn the_extension_is_that_of_the_file_name() {
    let allow = strings(&["rs", "gitignore"]);
    assert!(!ext_matches("a.rs/b", &allow));
    assert!(ext_matches(".gitignore", &allow));
    assert!(ext_matches("a/.gitignore", &allow));
}

fn show(n: &Node, depth: usize, out: &mut Vec<String>) {
    match n {
        Node::Dir { name, rel, children } => {
            out.push(format!("{depth} {name}/ [{rel}]"));
            for c in children {
                show(c, depth + 1, out);
            }
        }
        Node::File { name, abs } => out.push(format!("{depth} {name} [{abs}]")),
    }
}

#[test]
fn the_tree_has_directories_first_and_is_sorted() {
    let found = strings(&[
        "/r/z.rs",
        "/r/src/b.rs",
        "/r/src/a/c.rs",
        "/r/src/a.rs",
        "/r/a.md",
        "/other/x.rs",
        "/r",
        "/r/docs/x.md",
    ]);
    let n = enumerate("/r", &found, true, &Filter::default());
    let mut out = Vec::new();
    show(&n, 0, &mut out);
    assert_eq!(
        out,
        strings(&[
            "0 r/ []",
            "1 docs/ [docs]",
            "2 x.md [/r/docs/x.md]",
            "1 src/ [src]",
            "2 a/ [src/a]",
            "3 c.rs [/r/src/a/c.rs]",
            "2 a.rs [/r/src/a.rs]",
            "2 b.rs [/r/src/b.rs]",
            "1 a.md [/r/a.md]",
            "1 z.rs [/r/z.rs]",
        ])
    );
    assert_eq!(n.name(), "r");
}

#[test]
fn a_filter_drops_paths() {
    let found = strings(&["/r/src/a.rs", "/r/tests/b.rs", "/r/src/c.md"]);
    let filter = Filter {
        exclude: strings(&["tests"]),
        ext: strings(&["RS"]),
    };
    let n = enumerate("/r", &found, true, &filter);
    let mut out = Vec::new();
    show(&n, 0, &mut out);
    assert_eq!(
        out,
        strings(&["0 r/ []", "1 src/ [src]", "2 a.rs [/r/src/a.rs]"])
    );
}

#[test]
fn the_root_of_the_file_system_is_a_dot() {
    assert_eq!(enumerate("/", &strings(&["/a"]), true, &Filter::default()).name(), ".");
}

#[test]
fn paths_are_seen_from_the_root() {
    assert_eq!(
        list_paths("/r", &strings(&["/r/a\\b", "/r", "/q/x", "/r//c/./d/"]), true),
        strings(&["a/b", "c/./d"])
    );
}

#[test]
fn directories_are_found_by_a_suffix() {
    let rels = strings(&["src/domain/hull/a.rs", "lib/hull/b.rs", "src/domain/x.rs", "y"]);
    assert_eq!(
        find_dirs_matching_suffix(".", &rels, "/hull/"),
        strings(&["./lib/hull", "./src/domain/hull"])
    );
    assert_eq!(
        find_dirs_matching_suffix("r", &rels, "domain"),
        strings(&["r/src/domain"])
    );
    assert_eq!(find_dirs_matching_suffix(".", &rels, "ull"), strings(&[]));
    assert_eq!(find_dirs_matching_suffix(".", &rels, "src"), strings(&["./src"]));
}

#[test]
fn version_control_data_is_told_by_name() {
    for inside in [true, false] {
        assert!(is_skipped(".git", inside));
        assert!(is_skipped(".hg", inside));
        assert!(is_skipped(".svn", inside));
        assert!(!is_skipped("git", inside));
        assert!(!is_skipped(".github", inside));
    }
}

#[test]
fn outside_a_work_tree_more_is_skipped() {
    for name in ["target", "node_modules", ".DS_Store", "tmp", "dist"] {
        assert!(is_skipped(name, false));
        assert!(!is_skipped(name, true));
    }
    assert!(!is_skipped("targets", false));
    let found = strings(&[
        "/r/target/x",
        "/r/a/node_modules/b.js",
        "/r/.DS_Store",
        "/r/a/tmp/c",
        "/r/dist/d",
        "/r/.git/config",
        "/r/src/target.rs",
    ]);
    assert_eq!(list_paths("/r", &found, false), strings(&["src/target.rs"]));
    assert_eq!(
        list_paths("/r", &found, true),
        strings(&[
            "target/x",
            "a/node_modules/b.js",
            ".DS_Store",
            "a/tmp/c",
            "dist/d",
            "src/target.rs",
        ])
    );
    let n = enumerate("/r", &found, false, &Filter::default());
    let mut out = Vec::new();
    show(&n, 0, &mut out);
    assert_eq!(
        out,
        strings(&["0 r/ []", "1 src/ [src]", "2 target.rs [/r/src/target.rs]"])
    );
}

#[test]
fn names_are_skipped_as_they_stand_on_disk() {
    // A backslash can stand in a file name.
    let found = strings(&["/r/x\\.git", "/r/y\\target/z", "/r/.git/x", "/r/w/target"]);
    assert_eq!(list_paths("/r", &found, true), strings(&["x/.git", "y/target/z", "w/target"]));
    assert_eq!(list_paths("/r", &found, false), strings(&["x/.git", "y/target/z"]));
}

fn absolute(n: &Node, way: &str, out: &mut Vec<String>) {
    match n {
        Node::Dir { rel, children, .. } => {
            assert_eq!(rel, way);
            for c in children {
                let below = if way.is_empty() {
                    c.name().to_string()
                } else {
                    format!("{way}/{}", c.name())
                };
                absolute(c, &below, out);
            }
        }
        Node::File { abs, .. } => {
            assert_eq!(*abs, format!("/r/{way}"));
            out.push(abs.clone());
        }
    }
}

#[test]
fn absolute_paths_are_kept() {
    let found = strings(&["/r/b/c/d.rs", "/r/a.rs", "/r/b/e.rs", "/r/a.rs", "/r/b//e.rs"]);
    let n = enumerate("/r", &found, true, &Filter::default());
    let mut out = Vec::new();
    absolute(&n, "", &mut out);
    out.sort();
    assert_eq!(
        out,
        strings(&["/r/a.rs", "/r/a.rs", "/r/b/c/d.rs", "/r/b/e.rs", "/r/b/e.rs"])
    );
}
