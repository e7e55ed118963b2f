use rmap::cli::{
    looks_like_path, parse_cap, refs_mode, resolve_deps_target, resolve_module_path, tree_caps,
    tree_depth, PathFacts,
};
use rmap::refs::Mode;

fn strings(v: &[&str]) -> Vec<String> {
    v.iter().map(|s| s.to_string()).collect()
}

#[test]
fn detail_limits_the_depth() {
    assert_eq!(tree_depth(true, None), Some(4));
    assert_eq!(tree_depth(true, Some(9)), Some(9));
    assert_eq!(tree_depth(false, None), None);
    assert_eq!(tree_depth(false, Some(2)), Some(2));
}

#[test]
fn sessions_are_capped_by_default() {
    assert_eq!(
        tree_caps(vec![], false),
        vec![("docs/sessions".to_string(), 10)]
    );
    assert_eq!(tree_caps(vec![], true), vec![]);
    assert_eq!(
        tree_caps(vec![("src".to_string(), 2)], false),
        vec![("src".to_string(), 2), ("docs/sessions".to_string(), 10)]
    );
    assert_eq!(
        tree_caps(vec![("src".to_string(), 2)], true),
        vec![("src".to_string(), 2)]
    );
}

#[test]
fn a_cap_is_a_prefix_and_a_number() {
    assert_eq!(parse_cap("docs=3"), Ok(("docs".to_string(), 3)));
    assert_eq!(parse_cap("a=b=+4"), Ok(("a=b".to_string(), 4)));
    assert_eq!(
        parse_cap("docs"),
        Err("expected `PREFIX=N`, got `docs`".to_string())
    );
    assert_eq!(
        parse_cap("docs=-1"),
        Err("N must be a non-negative integer, got `-1`".to_string())
    );
    assert_eq!(
        parse_cap("docs="),
        Err("N must be a non-negative integer, got ``".to_string())
    );
    assert!(parse_cap("d=99999999999999999999999").is_err());
}

#[test]
fn paths_are_not_identifiers() {
    assert!(looks_like_path("src/b"));
    assert!(looks_like_path("b.rs"));
    assert!(!looks_like_path("Foo::bar"));
}

#[test]
fn definitions_win_over_uses() {
    assert!(matches!(refs_mode(true, true), Mode::DefsOnly));
    assert!(matches!(refs_mode(false, true), Mode::UsesOnly));
    assert!(matches!(refs_mode(false, false), Mode::Both));
}

#[test]
fn a_module_is_meant_by_a_unique_suffix() {
    let rels = strings(&["src/domain/hull/a.rs", "lib/hull/b.rs", "src/walk.rs"]);
    assert_eq!(resolve_module_path("x", true, &rels), Ok("x".to_string()));
    assert_eq!(
        resolve_module_path("domain/hull/", false, &rels),
        Ok("./src/domain/hull".to_string())
    );
    assert_eq!(
        resolve_module_path("domain\\hull", false, &rels),
        Ok("./src/domain/hull".to_string())
    );
    assert_eq!(
        resolve_module_path("//", false, &rels),
        Err("error: `//` does not exist".to_string())
    );
    assert_eq!(
        resolve_module_path("/x/", false, &rels),
        Err("error: `/x/` does not exist and no directory ending in `x` was found".to_string())
    );
    assert_eq!(
        resolve_module_path("hull", false, &rels),
        Err(
            "error: `hull` is ambiguous — 2 candidates:\n  ./lib/hull\n  ./src/domain/hull\n\
             Use the full path to disambiguate."
                .to_string()
        )
    );
}

fn facts(path: &str, abs: &str, is_file: bool, has_manifest: bool) -> PathFacts {
    PathFacts {
        path: path.into(),
        is_file,
        abs: abs.into(),
        has_manifest,
        repo: "/repo".into(),
        canon_repo: "/repo".into(),
    }
}

#[test]
fn a_path_selects_a_repository_and_a_scope() {
    let t = resolve_deps_target(&facts("src/a.rs", "/repo/src/a.rs", true, false));
    assert_eq!(
        (t.repo.as_str(), t.focus.as_deref(), t.scope.as_deref()),
        ("/repo", Some("src/a.rs"), None)
    );
    let t = resolve_deps_target(&facts(".", "/repo", false, true));
    assert_eq!(
        (t.repo.as_str(), t.focus.as_deref(), t.scope.as_deref()),
        (".", None, None)
    );
    let t = resolve_deps_target(&facts("src/sub", "/repo/src/sub", false, false));
    assert_eq!(
        (t.repo.as_str(), t.focus.as_deref(), t.scope.as_deref()),
        ("/repo", None, Some("src/sub"))
    );
    let t = resolve_deps_target(&facts("x", "/repo", false, false));
    assert_eq!(t.scope, None);
    let t = resolve_deps_target(&facts("x", "/elsewhere", false, false));
    assert_eq!(t.scope, None);
}
