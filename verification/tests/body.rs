use rmap::body::{run, scan_src, split_name, BodyOptions, Match};
use rmap::refs::{collect_defs, SourceFile};
use rmap::syntax::parse_source;

fn find(src: &str, target: &str, kind: Option<&str>) -> Vec<Match> {
    let (type_filter, name) = split_name(target);
    let mut out = Vec::new();
    scan_src(src, "x.rs", &name, type_filter.as_deref(), &mut out);
    if let Some(k) = kind {
        out.retain(|m| m.kind == k);
    }
    out
}

#[test]
fn finds_fn() {
    let src = "pub fn foo() -> u32 {\n    42\n}\n";
    let ms = find(src, "foo", None);
    assert_eq!(ms.len(), 1);
    assert_eq!(ms[0].kind, "fn");
    assert_eq!(ms[0].start, 1);
    assert_eq!(ms[0].end, 3);
}

#[test]
fn impl_method_via_double_colon() {
    let src = "\
pub struct Foo;
impl Foo {
    pub fn bar(&self) -> u32 { 1 }
    pub fn baz(&self) -> u32 { 2 }
}
";
    let ms = find(src, "Foo::bar", None);
    assert_eq!(ms.len(), 1);
    assert_eq!(ms[0].kind, "method");
    assert_eq!(ms[0].name, "Foo::bar");
}

#[test]
fn struct_span_includes_braces() {
    let src = "pub struct S {\n    pub a: u32,\n}\n";
    let ms = find(src, "S", None);
    assert_eq!(ms.len(), 1);
    assert_eq!(ms[0].kind, "struct");
    assert_eq!(ms[0].start, 1);
    assert_eq!(ms[0].end, 3);
}

#[test]
fn kind_filter() {
    let src = "pub fn x() {}\npub struct X;\n";
    let ms = find(src, "x", Some("fn"));
    assert_eq!(ms.len(), 1);
    assert_eq!(ms[0].kind, "fn");
}

#[test]
fn impl_block_by_type_name() {
    let src = "pub struct Foo;\nimpl Foo {\n    fn a(&self) {}\n}\n";
    let ms = find(src, "Foo", Some("impl"));
    assert_eq!(ms.len(), 1);
    assert_eq!(ms[0].kind, "impl");
    assert_eq!(ms[0].name, "Foo");
    assert_eq!(ms[0].start, 2);
    assert_eq!(ms[0].end, 4);
}

#[test]
fn nested_mod() {
    let src = "mod inner {\n    pub fn deep() {}\n}\n";
    let ms = find(src, "deep", None);
    assert_eq!(ms.len(), 1);
    assert_eq!(ms[0].kind, "fn");
    assert_eq!(ms[0].start, 2);
}

fn source(rel: &str, text: &str) -> SourceFile {
    SourceFile {
        rel: rel.into(),
        text: Some(text.into()),
        uses: vec![],
    }
}

fn opts(name: &str, kind: Option<&str>) -> BodyOptions {
    BodyOptions {
        name: name.into(),
        kind: kind.map(|k| k.into()),
    }
}

#[test]
fn names_split_at_the_last_separator() {
    let of = |s: &str| split_name(s);
    assert_eq!(of("foo"), (None, "foo".to_string()));
    assert_eq!(of("Foo::bar"), (Some("Foo".into()), "bar".into()));
    assert_eq!(of("a::Foo::bar"), (Some("a::Foo".into()), "bar".into()));
    assert_eq!(of("::bar"), (None, "::bar".into()));
    assert_eq!(of("Foo::"), (None, "Foo::".into()));
    assert_eq!(of("a:::b"), (Some("a:".into()), "b".into()));
    assert_eq!(of(""), (None, "".into()));
}

#[test]
fn every_kind_is_found() {
    let src = "
fn x() {} struct x; enum x {} union x { a: u8 } const x: u8 = 1; static x: u8 = 1; type x = u8;
macro_rules! x { () => {} } trait x { fn x(); const x: u8; }
impl x { fn x() {} const x: u8 = 1; type x = u8; }
impl T for [u8] { fn x() {} }
";
    let kinds: Vec<(&str, String)> = find(src, "x", None)
        .into_iter()
        .map(|m| (m.kind, m.name))
        .collect();
    let want: Vec<(&str, String)> = [
        ("fn", "x"),
        ("struct", "x"),
        ("enum", "x"),
        ("union", "x"),
        ("const", "x"),
        ("static", "x"),
        ("type", "x"),
        ("macro", "x"),
        ("trait", "x"),
        ("method", "x::x"),
        ("impl", "x"),
        ("method", "x::x"),
        ("const", "x::x"),
        ("type", "x::x"),
        ("method", "x"),
    ]
    .iter()
    .map(|(k, n)| (*k, n.to_string()))
    .collect();
    assert_eq!(kinds, want);
}

#[test]
fn a_trait_impl_is_found_by_either_name() {
    let src = "impl std::fmt::Debug for Foo {}";
    for target in ["Debug", "Debug for Foo"] {
        let ms = find(src, target, None);
        assert_eq!(ms.len(), 1);
        assert_eq!(ms[0].name, "Debug for Foo");
    }
    assert!(find(src, "Foo", None).is_empty());
    assert!(find(src, "Foo::Debug", None).is_empty());
}

#[test]
fn a_trait_method_is_scoped_by_the_trait() {
    let src = "trait T { fn m(); } trait U { fn m(); }";
    let ms = find(src, "U::m", None);
    assert_eq!(ms.len(), 1);
    assert_eq!(ms[0].name, "U::m");
}

#[test]
fn bodies_are_printed_with_headers() {
    let files = vec![
        source("a.rs", "struct A;\nfn f() {\n    1\n}\n"),
        source("b.rs", "// x\nfn f() {}\n"),
        SourceFile {
            rel: "c.rs".into(),
            text: None,
            uses: vec![],
        },
    ];
    assert_eq!(
        run(&files, &opts("f", None)),
        "// a.rs:2-4 fn f\nfn f() {\n    1\n}\n\n// b.rs:2-2 fn f\nfn f() {}\n"
    );
    assert_eq!(
        run(&files, &opts("A", Some("struct"))),
        "// a.rs:1-1 struct A\nstruct A;\n"
    );
}

#[test]
fn a_missing_symbol_has_suggestions() {
    let files = vec![source("a.rs", "fn banner() {}\n")];
    assert_eq!(
        run(&files, &opts("bannr", None)),
        "no symbol `bannr` found\ndid you mean: banner?\n"
    );
    assert_eq!(
        run(&files, &opts("T::bannr", Some("fn"))),
        "no symbol `T::bannr` found\ndid you mean: banner?\n"
    );
    assert_eq!(
        run(&files, &opts("zzz", None)),
        "no symbol `zzz` found\n"
    );
}

#[test]
fn a_file_that_does_not_parse_has_no_match() {
    assert!(find("fn x( {", "x", None).is_empty());
}

#[test]
fn a_type_narrows_and_a_kind_filters() {
    let src = "struct A; impl A { fn m() {} } struct B; impl B { fn m() {} } fn m() {}";
    let all: Vec<String> = find(src, "m", None).into_iter().map(|m| m.name).collect();
    assert_eq!(all, vec!["A::m", "B::m", "m"]);
    for owner in ["A", "B"] {
        let own = find(src, &format!("{owner}::m"), None);
        assert_eq!(own.len(), 1);
        assert!(all.contains(&own[0].name));
    }
    let methods = find(src, "m", Some("method"));
    assert_eq!(methods.len(), 2);
    let files = vec![source("a.rs", src)];
    assert!(run(&files, &opts("m", Some("fn"))).starts_with("// a.rs:1-1 fn m\n"));
    assert_eq!(
        run(&files, &opts("m", Some("enum"))),
        "no symbol `m` found\n"
    );
}

#[test]
fn what_is_listed_as_defined_has_a_body() {
    let src = "trait T { fn x(); } impl T for U { fn x() {} } mod m { const x: u8 = 1; }";
    let mut defs = Vec::new();
    collect_defs(&parse_source(src).unwrap(), "x", &mut defs);
    let kinds: Vec<&str> = find(src, "x", None).iter().map(|m| m.kind).collect();
    assert_eq!(defs.len(), 3);
    assert!(defs.iter().all(|d| kinds.contains(&d.kind)));
}
