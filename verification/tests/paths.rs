use rmap::names::{EdgeMap, NameSet};
use rmap::paths::{
    component_names, extension, file_name, file_stem, join, list_upward, parent, rel_to, stem,
    strip_prefix,
};
use rmap::store::{NameMap, TextMap};
use std::path::{Path, PathBuf};

const SAMPLES: [&str; 24] = [
    "",
    "/",
    "//",
    ".",
    "..",
    "./a",
    "a",
    "a/",
    "a//b",
    "a/./b",
    "a/../b",
    "a/b/.",
    "a/b/..",
    "/a",
    "/a/b.rs",
    "/a/b.c.rs",
    ".git",
    "a/.git",
    "a/b.",
    "./",
    "./.",
    "../x",
    "/..",
    "a/b/c/d",
];

fn text(p: Option<&Path>) -> Option<String> {
    p.map(|p| p.to_str().unwrap().to_string())
}

#[test]
fn paths_read_as_in_std() {
    for s in SAMPLES {
        let p = Path::new(s);
        let name = p.file_name().map(|n| n.to_str().unwrap().to_string());
        assert_eq!(file_name(s), name, "{s}");
        assert_eq!(
            file_stem(s),
            p.file_stem().map(|n| n.to_str().unwrap().to_string()),
            "{s}"
        );
        if let Some(n) = name {
            assert_eq!(
                extension(&n),
                p.extension().map(|n| n.to_str().unwrap().to_string()),
                "{s}"
            );
            assert_eq!(stem(&n), file_stem(s).unwrap(), "{s}");
        }
        assert_eq!(parent(s), text(p.parent()), "{s}");
        for t in SAMPLES {
            assert_eq!(
                join(s, t),
                PathBuf::from(s).join(t).to_str().unwrap(),
                "{s} {t}"
            );
            assert_eq!(
                strip_prefix(s, t),
                text(p.strip_prefix(t).ok()),
                "{s} {t}"
            );
        }
        let normal: Vec<String> = p
            .components()
            .map(|c| c.as_os_str().to_str().unwrap().to_string())
            .collect();
        assert_eq!(component_names(s), normal, "{s}");
    }
}

#[test]
fn a_path_outside_stays_whole() {
    assert_eq!(rel_to("/r/a\\b", "/r"), "a/b");
    assert_eq!(rel_to("/q/a\\b", "/r"), "/q/a/b");
}

#[test]
fn directories_upward_end_at_the_root() {
    assert_eq!(list_upward("/a/b"), vec!["/a/b", "/a", "/"]);
    assert_eq!(list_upward("a"), vec!["a", ""]);
}

#[test]
fn joining_undoes_stripping() {
    let rel = strip_prefix("/repo/src/a.rs", "/repo").unwrap();
    assert_eq!(rel, "src/a.rs");
    assert_eq!(join("/repo", &rel), "/repo/src/a.rs");
}

#[test]
fn names_are_kept_in_order() {
    let mut s = NameSet::new();
    assert!(s.is_empty());
    assert!(s.insert("b".into()));
    assert!(s.insert("a".into()));
    assert!(!s.insert("b".into()));
    assert_eq!(s.len(), 2);
    assert_eq!((s.at(0).as_str(), s.at(1).as_str()), ("a", "b"));
    assert!(s.contains("a") && !s.contains("c"));
    let mut e = EdgeMap::new();
    e.touch("k".into());
    e.add("j".into(), "x".into());
    assert_eq!((e.len(), e.key(0).as_str(), e.key(1).as_str()), (2, "j", "k"));
    assert!(e.get("k").unwrap().is_empty());
    assert!(e.get("z").is_none());
}

#[test]
fn maps_keep_the_last_value() {
    let mut m: NameMap<u8> = NameMap::new();
    assert_eq!(m.insert("b".into(), 1), None);
    assert_eq!(m.insert("a".into(), 2), None);
    assert_eq!(m.insert("b".into(), 3), Some(1));
    assert_eq!((m.len(), m.key(0).as_str(), *m.value(1)), (2, "a", 3));
    assert_eq!(m.get("c"), None);
    let mut t = TextMap::new();
    t.insert("a".into(), "x".into());
    t.insert("a".into(), "y".into());
    assert_eq!(t.get("a").map(|s| s.as_str()), Some("y"));
    assert_eq!(t.get("b"), None);
}
