use rmap::deps::{paths_to_probe, Graph};
use rmap::graph::{
    build_adjacency, cluster_key, collect_reachable, dup_stems, mermaid_id, render_brace,
    render_mermaid, run, short_label, short_label_disambig, Direction, GraphOptions,
};
use rmap::modtree::Disk;
use rmap::names::{EdgeMap, NameSet};

fn graph_from(edges: &[(&str, &str)], files: &[&str]) -> Graph {
    let mut g = Graph::default();
    for f in files {
        g.files.insert((*f).to_string());
    }
    for (a, b) in edges {
        g.files.insert((*a).to_string());
        g.files.insert((*b).to_string());
        g.out_internal.add((*a).to_string(), (*b).to_string());
    }
    g
}

#[test]
fn brace_walks_forward_only_reachable() {
    let g = graph_from(
        &[("a", "b"), ("a", "c"), ("b", "d"), ("orphan", "x")],
        &["a", "b", "c", "d", "orphan", "x"],
    );
    let adj = build_adjacency(&g, Direction::Forward, false);
    let out = render_brace("a", &adj, None);
    assert_eq!(out.trim(), "a { b { d }, c }");
    assert!(!out.contains("orphan"));
}

#[test]
fn brace_marks_cycle_with_tilde() {
    let g = graph_from(&[("a", "b"), ("b", "a")], &["a", "b"]);
    let adj = build_adjacency(&g, Direction::Forward, false);
    let out = render_brace("a", &adj, None);
    assert!(out.contains("a~"), "{out}");
}

#[test]
fn brace_marks_revisit_with_star() {
    let g = graph_from(
        &[("a", "b"), ("a", "c"), ("b", "d"), ("c", "d")],
        &["a", "b", "c", "d"],
    );
    let adj = build_adjacency(&g, Direction::Forward, false);
    let out = render_brace("a", &adj, None);
    assert!(out.contains("d*"), "{out}");
}

#[test]
fn brace_depth_limit_uses_ellipsis() {
    let g = graph_from(&[("a", "b"), ("b", "c"), ("c", "d")], &["a", "b", "c", "d"]);
    let adj = build_adjacency(&g, Direction::Forward, false);
    let out = render_brace("a", &adj, Some(1));
    assert!(out.contains("b {…}"), "{out}");
    assert!(!out.contains("c"), "{out}");
}

#[test]
fn reverse_walks_callers() {
    let g = graph_from(
        &[("main", "a"), ("main", "b"), ("a", "util"), ("b", "util")],
        &["main", "a", "b", "util"],
    );
    let adj = build_adjacency(&g, Direction::Reverse, false);
    let out = render_brace("util", &adj, None);
    assert!(out.contains("util"));
    assert!(out.contains("a"));
    assert!(out.contains("b"));
    assert!(out.contains("main"));
}

#[test]
fn mermaid_dedupes_node_declarations() {
    let g = graph_from(&[("a", "b"), ("a", "c"), ("c", "b")], &["a", "b", "c"]);
    let adj = build_adjacency(&g, Direction::Forward, false);
    let out = render_mermaid("a", &adj, None, false, 1);
    assert!(out.starts_with("graph TD\n"), "{out}");
    assert_eq!(out.matches("b[\"b\"]").count(), 1, "{out}");
    assert!(out.contains("a --> b"));
    assert!(out.contains("a --> c"));
    assert!(out.contains("c --> b"));
}

#[test]
fn ext_nodes_included_when_flag_set() {
    let mut g = graph_from(&[], &["a"]);
    g.out_external.add("a".to_string(), "std".to_string());
    let adj = build_adjacency(&g, Direction::Forward, true);
    let out = render_brace("a", &adj, None);
    assert!(out.contains("ext:std"), "{out}");
}

#[test]
fn ext_nodes_skipped_by_default() {
    let mut g = graph_from(&[], &["a"]);
    g.out_external.add("a".to_string(), "std".to_string());
    let adj = build_adjacency(&g, Direction::Forward, false);
    let out = render_brace("a", &adj, None);
    assert!(!out.contains("ext:std"), "{out}");
}

#[test]
fn mermaid_disambiguates_colliding_stems() {
    let g = graph_from(
        &[
            ("src/main.rs", "src/econ/balance.rs"),
            ("src/main.rs", "src/fleet/balance.rs"),
        ],
        &["src/main.rs", "src/econ/balance.rs", "src/fleet/balance.rs"],
    );
    let adj = build_adjacency(&g, Direction::Forward, false);
    let out = render_mermaid("src/main.rs", &adj, None, false, 1);
    assert!(out.contains("\"econ/balance\""), "{out}");
    assert!(out.contains("\"fleet/balance\""), "{out}");
    assert!(!out.contains("[\"balance\"]"), "{out}");
}

#[test]
fn mermaid_cluster_groups_by_top_level_dir() {
    let g = graph_from(
        &[
            ("src/main.rs", "src/engine/mod.rs"),
            ("src/main.rs", "src/ui/app.rs"),
            ("src/engine/mod.rs", "src/ui/app.rs"),
        ],
        &["src/main.rs", "src/engine/mod.rs", "src/ui/app.rs"],
    );
    let adj = build_adjacency(&g, Direction::Forward, false);
    let out = render_mermaid("src/main.rs", &adj, None, true, 1);
    assert!(out.contains("subgraph engine"), "{out}");
    assert!(out.contains("subgraph ui"), "{out}");
    assert!(!out.contains("subgraph src"), "{out}");
    assert!(out.contains("end\n"), "{out}");
}

#[test]
fn cluster_key_classifies_paths() {
    assert_eq!(cluster_key("src/domain/econ/mod.rs", 1), "domain");
    assert_eq!(cluster_key("src/main.rs", 1), "");
    assert_eq!(cluster_key("src/walk.rs", 1), "");
    assert_eq!(cluster_key("ext:syn", 1), "");
    assert_eq!(cluster_key("crates/foo/src/lib.rs", 1), "crates");
}

#[test]
fn cluster_key_respects_depth() {
    assert_eq!(cluster_key("src/domain/econ/mod.rs", 2), "domain/econ");
    assert_eq!(cluster_key("src/domain/econ/balance.rs", 2), "domain/econ");
    assert_eq!(cluster_key("src/domain/empire.rs", 2), "domain");
    assert_eq!(cluster_key("src/domain/econ/mod.rs", 3), "domain/econ");
    assert_eq!(cluster_key("src/domain/econ/mod.rs", 0), "");
}

#[test]
fn mermaid_cluster_depth_2_splits_domain() {
    let g = graph_from(
        &[
            ("src/main.rs", "src/domain/econ/mod.rs"),
            ("src/main.rs", "src/domain/fleet/mod.rs"),
        ],
        &[
            "src/main.rs",
            "src/domain/econ/mod.rs",
            "src/domain/fleet/mod.rs",
        ],
    );
    let adj = build_adjacency(&g, Direction::Forward, false);
    let out = render_mermaid("src/main.rs", &adj, None, true, 2);
    assert!(out.contains("subgraph "), "{out}");
    assert!(out.contains("[domain/econ]"), "{out}");
    assert!(out.contains("[domain/fleet]"), "{out}");
    assert!(!out.contains("[domain]\n"), "{out}");
}

#[test]
fn short_label_disambiguates_mod_files() {
    assert_eq!(short_label("src/foo/mod.rs"), "foo/mod");
    assert_eq!(short_label("src/lib.rs"), "src/lib");
    assert_eq!(short_label("src/walk.rs"), "walk");
    assert_eq!(short_label("ext:syn"), "ext:syn");
}

fn edges(list: &[(&str, &str)]) -> EdgeMap {
    let mut e = EdgeMap::new();
    for (a, b) in list {
        e.add(a.to_string(), b.to_string());
    }
    e
}

fn members(s: &NameSet) -> Vec<String> {
    (0..s.len()).map(|i| s.at(i).clone()).collect()
}

#[test]
fn reverse_edges_are_turned_forward_edges() {
    let mut g = graph_from(&[("a", "b"), ("b", "c")], &["a", "b", "c"]);
    g.mod_edges.add("a".into(), "c".into());
    g.out_external.add("a".into(), "std".into());
    let fwd = build_adjacency(&g, Direction::Forward, true);
    let rev = build_adjacency(&g, Direction::Reverse, true);
    let of = |e: &EdgeMap, k: &str| members(e.get(k).unwrap());
    assert_eq!(of(&fwd, "a"), vec!["b", "c", "ext:std"]);
    assert_eq!(of(&fwd, "b"), vec!["c"]);
    assert_eq!(of(&fwd, "c"), Vec::<String>::new());
    assert_eq!(of(&rev, "a"), Vec::<String>::new());
    assert_eq!(of(&rev, "b"), vec!["a"]);
    assert_eq!(of(&rev, "c"), vec!["a", "b"]);
    assert!(rev.get("ext:std").is_none());
}

#[test]
fn reachable_nodes_are_within_the_limit() {
    let adj = edges(&[("a", "b"), ("b", "c"), ("c", "a"), ("x", "a")]);
    let all = collect_reachable("a", &adj, None);
    assert_eq!(members(&all.nodes), vec!["a", "b", "c"]);
    assert_eq!(members(&all.opened), vec!["a", "b", "c"]);
    let one = collect_reachable("a", &adj, Some(1));
    assert_eq!(members(&one.nodes), vec!["a", "b"]);
    assert_eq!(members(&one.opened), vec!["a"]);
    let zero = collect_reachable("a", &adj, Some(0));
    assert_eq!(members(&zero.nodes), vec!["a"]);
    assert_eq!(members(&zero.opened), Vec::<String>::new());
}

#[test]
fn a_shorter_way_opens_a_node() {
    // `d` is three steps off by `b` and `c`, and one step off directly.
    let adj = edges(&[("a", "b"), ("b", "c"), ("c", "d"), ("a", "d"), ("d", "e")]);
    assert_eq!(
        render_mermaid("a", &adj, Some(2), false, 1),
        "graph TD\n  a[\"a\"]\n  b[\"b\"]\n  c[\"c\"]\n  d[\"d\"]\n  e[\"e\"]\n  \
         a --> b\n  a --> d\n  b --> c\n  d --> e\n"
    );
    assert_eq!(
        render_brace("a", &adj, Some(3)),
        "a { b { c { d { e } } }, d* }\n"
    );
}

#[test]
fn braces_nest_and_mark() {
    let adj = edges(&[("a", "a"), ("a", "b"), ("b", "a"), ("b", "c"), ("a", "c")]);
    assert_eq!(render_brace("a", &adj, None), "a { a~, b { a~, c }, c* }\n");
    assert_eq!(render_brace("q", &adj, None), "q\n");
    assert_eq!(render_brace("a", &adj, Some(0)), "a {…}\n");
}

#[test]
fn equal_labels_get_their_directory() {
    let mut nodes = NameSet::new();
    for n in ["src/a/x.rs", "src/b/x.rs", "src/y.rs", "x.rs"] {
        nodes.insert(n.to_string());
    }
    let dups = dup_stems(&nodes);
    assert_eq!(members(&dups), vec!["x"]);
    assert_eq!(short_label_disambig("src/a/x.rs", &dups), "a/x");
    assert_eq!(short_label_disambig("x.rs", &dups), "x");
    assert_eq!(short_label_disambig("src/y.rs", &dups), "y");
}

#[test]
fn ids_hold_plain_characters() {
    assert_eq!(mermaid_id("src/a-b.rs"), "src_a_b_rs");
    assert_eq!(mermaid_id("Ab9_"), "Ab9_");
    assert_eq!(mermaid_id("9a"), "n9a");
    assert_eq!(mermaid_id(""), "");
}

#[test]
fn clusters_come_after_the_root_group() {
    let adj = edges(&[("src/main.rs", "src/a/x.rs"), ("src/main.rs", "ext:std")]);
    assert_eq!(
        render_mermaid("src/main.rs", &adj, None, true, 1),
        "graph TD\n  ext_std[\"ext:std\"]\n  src_main_rs[\"src/main\"]\n  subgraph a [a]\n    \
         src_a_x_rs[\"x\"]\n  end\n  src_main_rs --> ext_std\n  src_main_rs --> src_a_x_rs\n"
    );
}

fn opts(entry: Option<&str>) -> GraphOptions {
    GraphOptions {
        entry: entry.map(|e| e.to_string()),
        direction: Direction::Forward,
        mermaid: false,
        mermaid_cluster: false,
        cluster_depth: 1,
        depth: None,
        include_external: false,
    }
}

fn disk(files: &[(&str, &str)]) -> Disk {
    let mut disk = Disk::new();
    loop {
        let wanted = paths_to_probe(&disk, "/repo");
        if wanted.is_empty() {
            return disk;
        }
        for path in wanted {
            match files.iter().find(|(p, _)| *p == path) {
                Some((_, source)) => disk.record_file(path.clone(), path, Some(source)),
                None => disk.record_nothing(path),
            }
        }
    }
}

#[test]
fn entries_are_tried_as_given_and_from_the_repo() {
    let d = disk(&[
        ("/repo/src/main.rs", "mod a; mod b;"),
        ("/repo/src/a.rs", "use crate::b::X;"),
        ("/repo/src/b.rs", ""),
    ]);
    let ok = |t: &str| Ok(t.to_string());
    let err = |t: &str| Err(t.to_string());
    assert_eq!(
        run(&d, "/repo", ".", None, &opts(None)),
        ok("src/main { a { b }, b* }\n")
    );
    assert_eq!(
        run(&d, "/repo", ".", None, &opts(Some("./src/a.rs"))),
        ok("a { b }\n")
    );
    assert_eq!(
        run(&d, "/repo", ".", Some("/repo/src/a.rs"), &opts(Some("../src/a.rs"))),
        ok("a { b }\n")
    );
    assert_eq!(
        run(&d, "/repo", ".", Some("/repo/x.rs"), &opts(Some("../x.rs"))),
        err("entry `../x.rs` not found in graph. Tried: ../x.rs, x.rs\n")
    );
    assert_eq!(
        run(&d, "/repo", ".", None, &opts(Some("x.rs"))),
        err("entry `x.rs` not found in graph. Tried: x.rs\n")
    );
    let mut o = opts(None);
    o.mermaid = true;
    o.direction = Direction::Reverse;
    o.entry = Some("src/b.rs".into());
    assert_eq!(
        run(&d, "/repo", ".", None, &o),
        ok(
            "graph TD\n  src_a_rs[\"a\"]\n  src_b_rs[\"b\"]\n  src_main_rs[\"src/main\"]\n  \
             src_a_rs --> src_main_rs\n  src_b_rs --> src_a_rs\n  src_b_rs --> src_main_rs\n"
        )
    );
    assert_eq!(
        run(&disk(&[]), "/repo", ".", None, &opts(None)),
        err("no crate root found (looked for ./src/main.rs and ./src/lib.rs)\n")
    );
}

#[test]
fn a_depth_limit_marks_revisits_and_cycles_as_before() {
    let main = "src/main.rs";
    let mut list = vec![];
    for f in ["deps", "graph", "parse", "refs", "render", "walk"] {
        list.push((main.to_string(), format!("src/{f}.rs")));
    }
    for (a, b) in [("graph", "deps"), ("refs", "walk"), ("render", "parse"), ("render", "walk")] {
        list.push((format!("src/{a}.rs"), format!("src/{b}.rs")));
    }
    let mut adj = EdgeMap::new();
    for (a, b) in list {
        adj.add(a, b);
    }
    assert_eq!(
        render_brace(main, &adj, Some(2)),
        "src/main { deps, graph { deps* }, parse, refs { walk }, render { parse*, walk* }, walk* }\n"
    );
}

#[test]
fn without_a_limit_a_brace_tree_shows_all_that_is_reached() {
    let adj = edges(&[("a", "b"), ("b", "c"), ("c", "a"), ("c", "d"), ("x", "d")]);
    let out = render_brace("a", &adj, None);
    let reached = collect_reachable("a", &adj, None);
    for n in members(&reached.nodes) {
        assert!(out.contains(&n), "{out}");
    }
    assert!(!out.contains('x'));
    assert_eq!(out, "a { b { c { a~, d } } }\n");
}

#[test]
fn a_depth_limit_counts_the_shortest_way() {
    let adj = edges(&[("a", "b"), ("a", "c"), ("b", "c"), ("c", "d"), ("d", "e")]);
    assert_eq!(render_brace("a", &adj, Some(2)), "a { b { c { d {…} } }, c* }\n");
    let adj = edges(&[("a", "b"), ("a", "c"), ("b", "c"), ("c", "d")]);
    assert_eq!(render_brace("a", &adj, Some(2)), "a { b { c { d } }, c* }\n");
    assert_eq!(render_brace("a", &adj, Some(1)), "a { b {…}, c {…} }\n");
    let reached = collect_reachable("a", &adj, Some(2));
    let out = render_brace("a", &adj, Some(2));
    for n in members(&reached.nodes) {
        assert!(out.contains(&n), "{out}");
    }
}

#[test]
fn a_brace_tree_has_one_label_more_than_edges() {
    let adj = edges(&[
        ("p", "q"), ("p", "r"), ("q", "r"), ("q", "p"), ("r", "s"), ("s", "q"), ("s", "s"),
    ]);
    let out = render_brace("p", &adj, None);
    assert_eq!(out, "p { q { p~, r { s { q~, s~ } } }, r* }\n");
    let labels = out.chars().filter(|c| c.is_alphabetic()).count();
    assert_eq!(labels, 8);
    for n in ["p", "q", "r", "s"] {
        let unmarked = out
            .split(&[' ', ',', '{', '}', '\n'][..])
            .filter(|l| *l == n)
            .count();
        assert_eq!(unmarked, 1);
    }
    assert!(!out.contains('…'));
}

#[test]
fn clustering_only_regroups() {
    let adj = edges(&[
        ("src/main.rs", "src/a/x.rs"),
        ("src/main.rs", "src/b/c/y.rs"),
        ("src/a/x.rs", "src/b/z.rs"),
        ("src/b/z.rs", "ext:std"),
    ]);
    let lines = |text: String, arrow: bool| {
        let mut kept: Vec<String> = text
            .lines()
            .map(|l| l.trim().to_string())
            .filter(|l| !l.starts_with("subgraph") && l != "end" && l.contains("-->") == arrow)
            .collect();
        if !arrow {
            kept.sort();
        }
        kept
    };
    let plain = || render_mermaid("src/main.rs", &adj, None, false, 2);
    let grouped = || render_mermaid("src/main.rs", &adj, None, true, 2);
    assert_ne!(plain(), grouped());
    assert_eq!(lines(plain(), false), lines(grouped(), false));
    assert_eq!(lines(plain(), true), lines(grouped(), true));
    assert!(grouped().contains("  subgraph b_c [b/c]\n    src_b_c_y_rs[\"y\"]\n  end\n"));
}

#[test]
fn a_cluster_key_grows_with_the_depth() {
    let key = |d: usize| cluster_key("src/a/b/c/x.rs", d);
    assert_eq!((0..5).map(key).collect::<Vec<_>>(), vec!["", "a", "a/b", "a/b/c", "a/b/c"]);
    for d in 0..4 {
        assert_eq!(cluster_key("src/main.rs", d), "");
        assert_eq!(cluster_key("x.rs", d), "");
        assert_eq!(cluster_key("ext:a/b", d), "");
        assert_eq!(cluster_key("lib/a/x.rs", d), cluster_key("lib/a/y.rs", d));
    }
    assert_eq!(cluster_key("lib/a/x.rs", 1), "lib");
}

#[test]
fn clusters_imply_a_mermaid_block() {
    let d = disk(&[("/repo/src/main.rs", "mod a;"), ("/repo/src/a.rs", "")]);
    let mut o = opts(None);
    o.mermaid_cluster = true;
    let alone = run(&d, "/repo", ".", None, &o);
    assert!(alone.as_ref().unwrap().starts_with("graph TD\n"));
    o.mermaid = true;
    assert_eq!(run(&d, "/repo", ".", None, &o), alone);
}
