use rmap::krate::{
    cargo_home, cmp_semver, parse_lock_version, parse_ver, registry_base, resolve, select,
    versions_of, RegistryDir, Vendored,
};
use std::cmp::Ordering;

#[test]
fn parse_lock_version_finds_matching_package() {
    let lock = r#"
[[package]]
name = "serde"
version = "1.0.210"
source = "registry+https://github.com/rust-lang/crates.io-index"

[[package]]
name = "tokio"
version = "1.40.0"
"#;
    assert_eq!(parse_lock_version(lock, "serde").as_deref(), Some("1.0.210"));
    assert_eq!(parse_lock_version(lock, "tokio").as_deref(), Some("1.40.0"));
    assert_eq!(parse_lock_version(lock, "absent"), None);
}

#[test]
fn parse_lock_version_ignores_name_in_other_fields() {
    let lock = r#"
[[package]]
name = "serde_json"
version = "1.0.128"
dependencies = [
 "serde",
]
"#;
    assert_eq!(parse_lock_version(lock, "serde"), None);
    assert_eq!(
        parse_lock_version(lock, "serde_json").as_deref(),
        Some("1.0.128")
    );
}

#[test]
fn semver_ordering_numeric_not_lexical() {
    assert_eq!(cmp_semver("1.0.10", "1.0.9"), Ordering::Greater);
    assert_eq!(cmp_semver("0.34.3", "0.4.0"), Ordering::Greater);
    assert_eq!(cmp_semver("2.0.0", "10.0.0"), Ordering::Less);
    assert_eq!(cmp_semver("1.0.0", "1.0.0"), Ordering::Equal);
}

#[test]
fn parse_ver_strips_prerelease_and_build() {
    assert_eq!(parse_ver("1.2.3-rc.1"), (1, 2, 3));
    assert_eq!(parse_ver("0.38.0+1.3.281"), (0, 38, 0));
    assert_eq!(parse_ver("1.0"), (1, 0, 0));
}

fn vers(specs: &[&str]) -> Vec<Vendored> {
    specs
        .iter()
        .map(|v| Vendored {
            version: v.to_string(),
            path: format!("/reg/crate-{v}"),
        })
        .collect()
}

#[test]
fn select_empty_is_error() {
    assert!(select("x", &vec![], None, None).is_err());
}

#[test]
fn select_exact_version_match() {
    let v = vers(&["1.0.0", "1.2.0"]);
    let s = select("x", &v, Some("1.0.0"), None).unwrap();
    assert_eq!(s.path, "/reg/crate-1.0.0");
    assert!(s.warn.is_none());
}

#[test]
fn select_exact_version_missing_lists_available_desc() {
    let v = vers(&["1.0.0", "1.2.0"]);
    let err = select("x", &v, Some("9.9.9"), None).unwrap_err();
    assert!(err.contains("not vendored"));
    assert!(err.contains("1.2.0, 1.0.0"), "got: {err}");
}

#[test]
fn select_lock_pin_wins_over_highest() {
    let v = vers(&["1.0.0", "2.0.0"]);
    let s = select("x", &v, None, Some("1.0.0")).unwrap();
    assert_eq!(s.path, "/reg/crate-1.0.0");
    assert!(s.warn.is_none());
}

#[test]
fn select_lock_pin_not_vendored_is_error() {
    let v = vers(&["1.0.0"]);
    let err = select("x", &v, None, Some("3.0.0")).unwrap_err();
    assert!(err.contains("Cargo.lock pins"));
}

#[test]
fn select_no_pin_single_version_no_warning() {
    let v = vers(&["0.9.0"]);
    let s = select("x", &v, None, None).unwrap();
    assert_eq!(s.path, "/reg/crate-0.9.0");
    assert!(s.warn.is_none());
}

#[test]
fn select_no_pin_multi_version_picks_highest_and_warns() {
    let v = vers(&["0.6.21", "1.0.0"]);
    let s = select("x", &v, None, None).unwrap();
    assert_eq!(s.path, "/reg/crate-1.0.0");
    let w = s.warn.expect("expected a warning");
    assert!(w.contains("1.0.0") && w.contains("highest"));
}

fn dirs(list: &[&str]) -> Vec<RegistryDir> {
    list.iter()
        .map(|d| RegistryDir {
            name: d.to_string(),
            path: format!("/reg/{d}"),
        })
        .collect()
}

#[test]
fn versions_of_matches_exact_name_not_same_prefix() {
    let root = dirs(&[
        "serde-1.0.0",
        "serde-1.0.228",
        "serde_json-1.0.1",
        "serde-derive-1.0.0",
        "serde-notaversion",
    ]);
    let mut got: Vec<String> = versions_of(&root, "serde")
        .into_iter()
        .map(|v| v.version)
        .collect();
    got.sort();
    assert_eq!(got, vec!["1.0.0".to_string(), "1.0.228".to_string()]);
}

#[test]
fn odd_versions_read_as_zeros() {
    assert_eq!(parse_ver(""), (0, 0, 0));
    assert_eq!(parse_ver("x.2.y"), (0, 2, 0));
    assert_eq!(parse_ver("1.2.3.4"), (1, 2, 3));
    assert_eq!(parse_ver("+7"), (0, 0, 0));
    assert_eq!(parse_ver("18446744073709551615.18446744073709551616"), (u64::MAX, 0, 0));
}

#[test]
fn errors_and_warnings_are_worded() {
    assert_eq!(
        select("x", &vec![], None, None).unwrap_err(),
        "error: crate `x` not found in the cargo registry. Run `cargo fetch` in a project that \
         depends on it first."
    );
    assert_eq!(
        select("x", &vers(&["0.9.0", "0.10.0", "0.9.0-a"]), Some("1"), None).unwrap_err(),
        "error: `x@1` not vendored. Available: 0.10.0, 0.9.0, 0.9.0-a"
    );
    assert_eq!(
        select("x", &vers(&["1.0.0"]), None, Some("3")).unwrap_err(),
        "error: Cargo.lock pins `x 3` but that version is not vendored. Run `cargo fetch`."
    );
    let s = select("x", &vers(&["1.0.0", "1.0.0-a"]), None, None).unwrap();
    // Of equals the last is taken.
    assert_eq!(s.path, "/reg/crate-1.0.0-a");
    assert_eq!(
        s.warn.as_deref(),
        Some(
            "warning: no Cargo.lock entry for `x`; picked highest of 2 vendored versions (1.0.0-a)"
        )
    );
}

#[test]
fn a_spec_is_resolved_over_all_registries() {
    let regs = vec![dirs(&["a-1.0.0", "b-2.0.0"]), dirs(&["a-1.1.0"])];
    let lock = "[[package]]\nname = \"a\"\nversion = \"1.0.0\"\n";
    let path = |spec: &str, lock: Option<&str>| resolve(spec, "/h", &regs, lock).map(|s| s.path);
    assert_eq!(path("a", Some(lock)), Ok("/reg/a-1.0.0".to_string()));
    assert_eq!(path("a", None), Ok("/reg/a-1.1.0".to_string()));
    assert_eq!(path("a@1.1.0", Some(lock)), Ok("/reg/a-1.1.0".to_string()));
    assert_eq!(path("b", Some(lock)), Ok("/reg/b-2.0.0".to_string()));
    assert_eq!(
        path("@1", None),
        Err("error: empty crate name in `@1`".to_string())
    );
    assert_eq!(
        resolve("a", "/h", &vec![], None).map(|s| s.path),
        Err(
            "error: no cargo registry source dir found under /h/registry/src. Run `cargo fetch` \
             first, or set CARGO_HOME."
                .to_string()
        )
    );
}

#[test]
fn the_registry_lies_in_the_cargo_home() {
    assert_eq!(cargo_home(Some("/c"), Some("/h")), "/c");
    assert_eq!(cargo_home(None, Some("/h")), "/h/.cargo");
    assert_eq!(cargo_home(None, None), ".cargo");
    assert_eq!(registry_base("/c"), "/c/registry/src");
}

#[test]
fn only_package_blocks_pin_a_version() {
    let unused = "[[patch.unused]]\nname = \"foo\"\nversion = \"9.9.9\"\n";
    assert_eq!(parse_lock_version(unused, "foo"), None);
    let both = format!("{unused}\n[[package]]\nname = \"foo\"\nversion = \"1.2.3\"\n");
    assert_eq!(parse_lock_version(&both, "foo"), Some("1.2.3".to_string()));
    let cut = "[[package]]\nname = \"foo\"\n[metadata]\nversion = \"4\"\n";
    assert_eq!(parse_lock_version(cut, "foo"), None);
}
