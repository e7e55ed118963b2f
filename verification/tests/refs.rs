use rmap::names::NameSet;
use rmap::refs::{
    collect_def_locs, collect_rs_files, display_rel, gather, render_excerpt, run, scan_items,
    FileRef, Hit, Mode, RefsOptions, SearchRoot, SourceFile, UseKind, UseSite,
};
use rmap::similar::{levenshtein, score, score_parts, suggest, tokenize};
use rmap::syntax::{collect_idents, parse_source, Name};
use rmap::walk::Node;

use proc_macro2::Ident;
use syn::visit::{self, Visit};
use syn::{
    Expr, ExprCall, ExprMethodCall, ExprPath, ExprStruct, ItemImpl, Macro, Pat, PatPath,
    PatStruct, PatTupleStruct, TraitBound, TypePath, UseName, UseRename,
};

struct Sites(Vec<UseSite>);

impl Sites {
    fn ident(&mut self, kind: UseKind, i: &Ident) {
        let at = i.span().start();
        self.0.push(UseSite {
            kind,
            name: Name {
                text: i.to_string(),
                line: at.line,
                col: at.column + 1,
            },
        });
    }

    fn path(&mut self, kind: UseKind, p: &syn::Path) {
        if let Some(s) = p.segments.last() {
            self.ident(kind, &s.ident);
        }
    }
}

impl<'ast> Visit<'ast> for Sites {
    fn visit_expr_call(&mut self, c: &'ast ExprCall) {
        if let Expr::Path(p) = &*c.func {
            self.path(UseKind::Call, &p.path);
            self.visit_path(&p.path);
            for arg in &c.args {
                self.visit_expr(arg);
            }
            return;
        }
        visit::visit_expr_call(self, c);
    }

    fn visit_expr_method_call(&mut self, m: &'ast ExprMethodCall) {
        self.ident(UseKind::Method, &m.method);
        visit::visit_expr_method_call(self, m);
    }

    fn visit_expr_struct(&mut self, s: &'ast ExprStruct) {
        self.path(UseKind::StructLit, &s.path);
        for f in &s.fields {
            self.visit_expr(&f.expr);
        }
        if let Some(rest) = &s.rest {
            self.visit_expr(rest);
        }
    }

    fn visit_expr_path(&mut self, e: &'ast ExprPath) {
        self.path(UseKind::Path, &e.path);
        visit::visit_expr_path(self, e);
    }

    fn visit_type_path(&mut self, t: &'ast TypePath) {
        self.path(UseKind::Type, &t.path);
        visit::visit_type_path(self, t);
    }

    fn visit_trait_bound(&mut self, b: &'ast TraitBound) {
        self.path(UseKind::Type, &b.path);
        visit::visit_trait_bound(self, b);
    }

    fn visit_macro(&mut self, m: &'ast Macro) {
        self.path(UseKind::Macro, &m.path);
    }

    fn visit_use_name(&mut self, u: &'ast UseName) {
        self.ident(UseKind::Import, &u.ident);
    }

    fn visit_use_rename(&mut self, u: &'ast UseRename) {
        self.ident(UseKind::Import, &u.ident);
    }

    fn visit_pat(&mut self, p: &'ast Pat) {
        match p {
            Pat::Path(PatPath { path, .. }) => self.path(UseKind::Pat, path),
            Pat::Struct(PatStruct { path, fields, .. }) => {
                self.path(UseKind::Pat, path);
                for f in fields {
                    self.visit_pat(&f.pat);
                }
                return;
            }
            Pat::TupleStruct(PatTupleStruct { path, elems, .. }) => {
                self.path(UseKind::Pat, path);
                for e in elems {
                    self.visit_pat(e);
                }
                return;
            }
            _ => {}
        }
        visit::visit_pat(self, p);
    }

    fn visit_item_impl(&mut self, imp: &'ast ItemImpl) {
        self.visit_generics(&imp.generics);
        self.visit_type(&imp.self_ty);
        if let Some((_, path, _)) = &imp.trait_ {
            self.path(UseKind::Type, path);
            self.visit_path(path);
        }
        for ii in &imp.items {
            self.visit_impl_item(ii);
        }
    }
}

fn sites(src: &str) -> Vec<UseSite> {
    let mut v = Sites(Vec::new());
    if let Ok(file) = syn::parse_file(src) {
        v.visit_file(&file);
    }
    v.0
}

fn scan(src: &str, target: &str, mode: Mode) -> Vec<Hit> {
    let items = parse_source(src).unwrap();
    let mut hits = Vec::new();
    scan_items(&items, &sites(src), "x.rs", target, mode, &mut hits);
    hits
}

fn names(list: &[&str]) -> NameSet {
    let mut s = NameSet::new();
    for x in list {
        s.insert(x.to_string());
    }
    s
}

#[test]
fn finds_fn_def_and_call() {
    let src = "fn foo() {} fn bar() { foo(); }";
    let h = scan(src, "foo", Mode::Both);
    let kinds: Vec<_> = h.iter().map(|x| (x.role, x.kind)).collect();
    assert!(kinds.contains(&("def", "fn")));
    assert!(kinds.contains(&("use", "call")));
}

#[test]
fn finds_method_call_and_def() {
    let src = "struct S; impl S { fn ping(&self) {} } fn x(s: S) { s.ping(); }";
    let h = scan(src, "ping", Mode::Both);
    let kinds: Vec<_> = h.iter().map(|x| (x.role, x.kind)).collect();
    assert!(kinds.contains(&("def", "method")));
    assert!(kinds.contains(&("use", "method")));
}

#[test]
fn finds_struct_def_lit_type_and_pat() {
    let src = r#"
            struct Foo { x: u32 }
            fn a() -> Foo { Foo { x: 1 } }
            fn b(f: Foo) { let Foo { x } = f; let _ = x; }
        "#;
    let h = scan(src, "Foo", Mode::Both);
    let kinds: Vec<_> = h.iter().map(|x| x.kind).collect();
    assert!(kinds.contains(&"struct"));
    assert!(kinds.contains(&"struct-lit"));
    assert!(kinds.contains(&"type"));
    assert!(kinds.contains(&"pat"));
}

#[test]
fn finds_use_import() {
    let src = "use crate::foo::bar; fn x() { bar(); }";
    let h = scan(src, "bar", Mode::Both);
    let kinds: Vec<_> = h.iter().map(|x| x.kind).collect();
    assert!(kinds.contains(&"import"));
    assert!(kinds.contains(&"call"));
}

#[test]
fn finds_macro_invocation() {
    let src = r#"fn x() { println!("hi"); }"#;
    let h = scan(src, "println", Mode::Both);
    assert!(h.iter().any(|x| x.kind == "macro" && x.role == "use"));
}

#[test]
fn defs_only_excludes_uses() {
    let src = "fn foo() {} fn bar() { foo(); }";
    let h = scan(src, "foo", Mode::DefsOnly);
    assert!(h.iter().all(|x| x.role == "def"));
    assert_eq!(h.len(), 1);
}

#[test]
fn uses_only_excludes_defs_and_does_not_double_count_def_ident() {
    let src = "fn foo() {} fn bar() { foo(); foo(); }";
    let h = scan(src, "foo", Mode::UsesOnly);
    assert!(h.iter().all(|x| x.role == "use"));
    assert_eq!(h.len(), 2);
}

#[test]
fn no_hits_returns_empty() {
    let src = "fn foo() {}";
    let h = scan(src, "nonexistent", Mode::Both);
    assert!(h.is_empty());
}

#[test]
fn tokenize_splits_snake_and_camel() {
    assert_eq!(tokenize("render_HUDBar"), vec!["render", "hud", "bar"]);
    assert_eq!(tokenize("draw_banner"), vec!["draw", "banner"]);
    assert_eq!(tokenize("MyXMLParser"), vec!["my", "xml", "parser"]);
}

#[test]
fn suggest_finds_substring_token() {
    let s = names(&["render_banner", "draw_hud", "status_bar", "totally_unrelated"]);
    let out = suggest("banner", &s, 5);
    assert!(out.contains(&"render_banner".to_string()));
    assert_eq!(out[0], "render_banner");
}

#[test]
fn suggest_levenshtein_close() {
    let s = names(&["bannar", "banister", "x"]);
    let out = suggest("banner", &s, 5);
    assert!(out.contains(&"bannar".to_string()));
}

#[test]
fn suggest_floor_excludes_garbage() {
    let s = names(&["xyz", "qqq", "zzzzzz"]);
    let out = suggest("banner", &s, 5);
    assert!(out.is_empty());
}

#[test]
fn suggest_gates_short_lev_noise() {
    let s = names(&["Bar", "Lander", "Namer", "banner", "banners"]);
    let out = suggest("baner", &s, 5);
    assert!(!out.contains(&"Bar".to_string()));
    assert!(!out.contains(&"Lander".to_string()));
    assert!(!out.contains(&"Namer".to_string()));
    assert!(out.contains(&"banner".to_string()));
    assert_eq!(out[0], "banner");
}

#[test]
fn suggest_prefix_boost() {
    let s = names(&["banner_h", "BANNER_CAP", "unrelated_banner_thing"]);
    let out = suggest("banner", &s, 5);
    let idx_prefix = out.iter().position(|x| x == "banner_h");
    let idx_mid = out.iter().position(|x| x == "unrelated_banner_thing");
    assert!(idx_prefix.is_some());
    if let (Some(p), Some(m)) = (idx_prefix, idx_mid) {
        assert!(p < m, "prefix={p}, mid={m}, out={out:?}");
    }
}

#[test]
fn matches_last_path_segment_only() {
    let src = "use a::b::Target; fn x() -> a::b::Target { unimplemented!() }";
    let h = scan(src, "Target", Mode::Both);
    assert!(h.iter().any(|x| x.kind == "import"));
    assert!(h.iter().any(|x| x.kind == "type"));
}

fn lines(h: &[Hit]) -> Vec<String> {
    h.iter()
        .map(|h| format!("{}:{} {} {} {}", h.line, h.col, h.role, h.kind, h.name))
        .collect()
}

#[test]
fn every_definition_kind_is_found() {
    let src = "\
fn x() {}
struct x;
enum x {}
union x { a: u8 }
const x: u8 = 1;
static x: u8 = 1;
type x = u8;
macro_rules! x { () => {} }
trait T { fn x(); const x: u8; }
impl S { fn x() {} const x: u8 = 1; type x = u8; }
mod m { fn x() {} }
trait x { fn x(); }
";
    let h = scan(src, "x", Mode::DefsOnly);
    assert_eq!(
        lines(&h),
        vec![
            "1:4 def fn x",
            "2:8 def struct x",
            "3:6 def enum x",
            "4:7 def union x",
            "5:7 def const x",
            "6:8 def static x",
            "7:6 def type x",
            "8:14 def macro x",
            "9:14 def method x",
            "10:13 def method x",
            "10:26 def const x",
            "10:42 def type x",
            "11:12 def fn x",
            "12:7 def trait x",
        ]
    );
    let mut found: Vec<(usize, usize)> = h.iter().map(|h| (h.line, h.col)).collect();
    let mut locs = collect_def_locs(&parse_source(src).unwrap(), "x");
    found.sort();
    locs.sort();
    assert_eq!(locs, found);
}

#[test]
fn both_modes_together_are_the_two_apart() {
    let src = "struct Foo; impl Foo { fn new() -> Foo { Foo } } fn f(x: &Foo) { Foo::new(); }";
    let mut apart = lines(&scan(src, "Foo", Mode::DefsOnly));
    apart.extend(lines(&scan(src, "Foo", Mode::UsesOnly)));
    apart.sort();
    let mut both = lines(&scan(src, "Foo", Mode::Both));
    both.sort();
    assert_eq!(both, apart);
    assert_eq!(
        lines(&scan(src, "Foo", Mode::UsesOnly)),
        vec![
            "1:18 use type Foo",
            "1:36 use type Foo",
            "1:42 use path Foo",
            "1:59 use type Foo",
        ]
    );
}

#[test]
fn a_use_at_a_definition_is_no_hit() {
    let items = parse_source("fn foo() {}").unwrap();
    let uses = vec![
        UseSite {
            kind: UseKind::Path,
            name: Name {
                text: "foo".into(),
                line: 1,
                col: 4,
            },
        },
        UseSite {
            kind: UseKind::Path,
            name: Name {
                text: "foo".into(),
                line: 1,
                col: 5,
            },
        },
    ];
    let mut hits = Vec::new();
    scan_items(&items, &uses, "x.rs", "foo", Mode::UsesOnly, &mut hits);
    assert_eq!(lines(&hits), vec!["1:5 use path foo"]);
}

fn source(rel: &str, text: &str) -> SourceFile {
    SourceFile {
        rel: rel.into(),
        text: Some(text.into()),
        uses: sites(text),
    }
}

fn opts(name: &str, mode: Mode, excerpt: Option<usize>) -> RefsOptions {
    RefsOptions {
        name: name.into(),
        mode,
        excerpt,
    }
}

#[test]
fn hits_are_printed_in_order() {
    let files = vec![
        source("b.rs", "fn g() { f(); }\n"),
        source("a.rs", "\nfn f() {}\n"),
    ];
    assert_eq!(
        run(&files, &opts("f", Mode::Both, None)),
        "a.rs:2:4 def fn f\nb.rs:1:10 use call f\n"
    );
    assert_eq!(
        run(&files, &opts("f", Mode::Both, Some(1))),
        "a.rs:2:4 def fn f\n    1 | \n  > 2 | fn f() {}\nb.rs:1:10 use call f\n  > 1 | fn g() { f(); }\n"
    );
}

#[test]
fn a_typo_has_suggestions() {
    let files = vec![source("walk.rs", "struct Filter; fn f(filter: Filter) {}")];
    assert_eq!(
        run(&files, &opts("Filtr", Mode::Both, None)),
        "no hits for `Filtr`\ndid you mean: Filter, filter?\n"
    );
    assert_eq!(
        run(&files, &opts("zzzz", Mode::Both, None)),
        "no hits for `zzzz`\n"
    );
    assert_eq!(
        run(&vec![], &opts("zzzz", Mode::Both, None)),
        "no hits for `zzzz`\n"
    );
}

#[test]
fn files_that_do_not_parse_have_no_hits() {
    let files = vec![
        source("a.rs", "fn foo( {"),
        SourceFile {
            rel: "b.rs".into(),
            text: None,
            uses: vec![],
        },
    ];
    assert_eq!(
        run(&files, &opts("foo", Mode::Both, None)),
        "no hits for `foo`\n"
    );
}

#[test]
fn an_excerpt_pads_line_numbers() {
    let text: Vec<String> = (1..=12).map(|n| format!("l{n}")).collect();
    let mut out = String::from("x\n");
    render_excerpt(&mut out, &text, 9, 1);
    assert_eq!(out, "x\n     8 | l8\n  >  9 | l9\n    10 | l10\n");
    let mut top = String::new();
    render_excerpt(&mut top, &text, 1, 3);
    assert_eq!(top, "  > 1 | l1\n    2 | l2\n    3 | l3\n    4 | l4\n");
    let mut zero = String::new();
    render_excerpt(&mut zero, &text, 12, 0);
    assert_eq!(zero, "  > 12 | l12\n");
    let mut none = String::new();
    render_excerpt(&mut none, &vec![], 1, 1);
    assert_eq!(none, "");
    let mut past = String::new();
    render_excerpt(&mut past, &text, 14, 1);
    assert_eq!(past, "");
}

#[test]
fn edit_distances() {
    let d = |a: &str, b: &str| {
        let a: Vec<char> = a.chars().collect();
        let b: Vec<char> = b.chars().collect();
        levenshtein(&a, &b)
    };
    assert_eq!(d("kitten", "sitting"), 3);
    assert_eq!(d("", "abc"), 3);
    assert_eq!(d("abc", ""), 3);
    assert_eq!(d("flaw", "lawn"), 2);
    assert_eq!(d("lawn", "flaw"), 2);
    assert_eq!(d("same", "same"), 0);
}

#[test]
fn scores_are_exact() {
    assert_eq!(score("Foo", "foo"), 10_000);
    assert_eq!(score("baner", "banner"), 160 + 75 + 20 + 60);
    assert_eq!(score("banner", "render_banner"), 200 + 100 + 90 + 24);
    assert_eq!(score("baner", "Bar"), 0);
    assert_eq!(score("", "abc"), 0);
}

#[test]
fn names_in_capitals_score_as_their_small_letters() {
    assert_eq!(score("ÄRGER", "ärger"), 10_000);
    assert_eq!(tokenize("GrößeÄNDERN"), vec!["größe", "ändern"]);
    assert_eq!(tokenize("__a__"), vec!["a"]);
    assert_eq!(tokenize(""), Vec::<String>::new());
}

#[test]
fn shared_parts_count_once_each() {
    let list = |v: &[&str]| -> Vec<String> { v.iter().map(|s| s.to_string()).collect() };
    // no pair in common, one part in common, no common prefix, distance 3 of 3
    assert_eq!(score_parts("abc", "xyz", &list(&["p"]), &list(&["p"])), 100);
    assert_eq!(score_parts("abc", "xyz", &list(&["p"]), &list(&["q"])), 0);
}

#[test]
fn the_overlap_rounds_as_a_double_does() {
    // 29 of 100 pairs: twice that is 58 in exact arithmetic, but the quotient rounds down.
    let letters: Vec<char> = ('\u{100}'..'\u{200}').collect();
    let a: String = letters[..66].iter().collect();
    let b: String = letters[36..101].iter().collect();
    let jacc = 29.0f64 / 100.0f64;
    assert_eq!((jacc * 200.0) as u128, 57);
    let shared = vec!["t".to_string()];
    let base = 100 + (132 - 66) * 4;
    assert_eq!(score_parts(&a, &b, &shared, &shared), base + 57);
}

#[test]
fn suggestions_are_cut_and_ordered_by_score() {
    let s = names(&["banner", "banner_a", "banner_b", "banner_c", "b"]);
    assert_eq!(suggest("banner", &s, 2), vec!["banner_a", "banner_b"]);
    assert_eq!(
        suggest("banner_a", &s, 9),
        vec!["banner", "banner_b", "banner_c"]
    );
    assert_eq!(suggest("banner", &s, 0), Vec::<String>::new());
}

#[test]
fn identifiers_come_from_all_tokens() {
    let mut out = NameSet::new();
    collect_idents("fn a() { m!(b [c { d }]); \"e\"; } // f", &mut out);
    let got: Vec<&str> = (0..out.len()).map(|i| out.at(i).as_str()).collect();
    assert_eq!(got, vec!["a", "b", "c", "d", "fn", "m"]);
    collect_idents("unbalanced ( x", &mut out);
    assert_eq!(out.len(), 6);
}

fn file(name: &str, abs: &str) -> Node {
    Node::File {
        name: name.into(),
        abs: abs.into(),
    }
}

fn pairs(v: &[FileRef]) -> Vec<(String, String)> {
    v.iter().map(|f| (f.abs.clone(), f.rel.clone())).collect()
}

fn pair(a: &str, b: &str) -> (String, String) {
    (a.to_string(), b.to_string())
}

#[test]
fn paths_are_shown_from_the_working_directory() {
    assert_eq!(display_rel("/r/src/a.rs", Some("/r")), "src/a.rs");
    assert_eq!(display_rel("/r/src/a.rs", Some("/q")), "/r/src/a.rs");
    assert_eq!(display_rel("/r/src\\a.rs", None), "/r/src/a.rs");
}

#[test]
fn rust_files_are_gathered_in_order() {
    let tree = Node::Dir {
        name: "r".into(),
        rel: "".into(),
        children: vec![
            Node::Dir {
                name: "s".into(),
                rel: "s".into(),
                children: vec![file("b.rs", "/r/s/b.rs"), file("c.md", "/r/s/c.md")],
            },
            file("a.rs", "/r/a.rs"),
        ],
    };
    let mut out = Vec::new();
    collect_rs_files(&tree, Some("/r"), &mut out);
    assert_eq!(
        pairs(&out),
        vec![pair("/r/s/b.rs", "s/b.rs"), pair("/r/a.rs", "a.rs")]
    );
    let roots = vec![
        SearchRoot::File {
            path: "x.rs".into(),
            abs: "/q/x.rs".into(),
        },
        SearchRoot::File {
            path: "x.md".into(),
            abs: "/q/x.md".into(),
        },
        SearchRoot::Tree(tree),
    ];
    let got = gather(&roots, Some("/r")).unwrap();
    assert_eq!(
        pairs(&got),
        vec![
            pair("/q/x.rs", "/q/x.rs"),
            pair("/r/s/b.rs", "s/b.rs"),
            pair("/r/a.rs", "a.rs"),
        ]
    );
    let failed = gather(&vec![SearchRoot::Failed("no such path".into())], None);
    assert_eq!(failed.err(), Some("no such path".to_string()));
}

#[test]
fn overlapping_places_are_searched_once() {
    let roots = vec![
        SearchRoot::File {
            path: "/r/a.rs".into(),
            abs: "/r/a.rs".into(),
        },
        SearchRoot::Tree(Node::Dir {
            name: "r".into(),
            rel: "".into(),
            children: vec![file("a.rs", "/r/a.rs"), file("b.rs", "/r/b.rs")],
        }),
    ];
    let got = gather(&roots, None).unwrap();
    assert_eq!(
        pairs(&got),
        vec![pair("/r/a.rs", "/r/a.rs"), pair("/r/b.rs", "/r/b.rs")]
    );
}

#[test]
fn names_joined_by_a_mark_have_the_tokens_of_both() {
    for (a, b) in [("renderHud", "BAR"), ("", "x"), ("a__b", "HTTPServer2")] {
        let mut both = tokenize(a);
        both.extend(tokenize(b));
        assert_eq!(tokenize(&format!("{a}_{b}")), both);
    }
}

#[test]
fn tokens_make_up_an_ascii_name() {
    for name in ["render_HUDBar", "__a__B_", "parseHTTPRequest2", "", "X9y_Z"] {
        let tokens = tokenize(name);
        assert!(tokens.iter().all(|t| !t.is_empty() && !t.contains('_')));
        assert_eq!(
            tokens.concat(),
            name.replace('_', "").to_ascii_lowercase()
        );
    }
    assert_eq!(tokenize("Größe_Maß"), vec!["größe", "maß"]);
    for name in ["İ__ΣΑΣ_ǅ", "_ẞ_", "日本_語"] {
        assert!(tokenize(name).iter().all(|t| !t.is_empty() && !t.contains('_')));
    }
    assert_eq!(tokenize("__"), Vec::<String>::new());
}

#[test]
fn no_detour_is_shorter() {
    let words = ["", "kitten", "sitting", "mitten", "smitten", "étage"];
    let chars = |w: &str| w.chars().collect::<Vec<char>>();
    let far = |a: &str, b: &str| levenshtein(&chars(a), &chars(b));
    for a in words {
        for b in words {
            let (n, m) = (chars(a).len(), chars(b).len());
            assert!(n.abs_diff(m) <= far(a, b) && far(a, b) <= n.max(m));
            assert_eq!(far(a, b) == 0, a == b);
            assert_eq!(far(a, b), far(b, a));
            for c in words {
                assert!(far(a, c) <= far(a, b) + far(b, c));
            }
        }
    }
    assert_eq!(far("kitten", "sitting"), 3);
}

#[test]
fn only_the_last_segment_of_an_import_counts() {
    let src = "use a::b::c; use a::{d, e as f}; fn m() {}";
    assert_eq!(scan(src, "a", Mode::UsesOnly).len(), 0);
    assert_eq!(scan(src, "b", Mode::UsesOnly).len(), 0);
    for name in ["c", "d", "e"] {
        assert_eq!(scan(src, name, Mode::UsesOnly).len(), 1);
    }
}

#[test]
fn the_arguments_of_an_impl_header_are_uses() {
    let src = "impl<T: Bound> From<Arg<T>> for Own<Inner> { fn f() { g::<Turbo>() } }";
    for name in ["Bound", "From", "Arg", "Own", "Inner", "Turbo"] {
        assert_eq!(scan(src, name, Mode::UsesOnly).len(), 1, "{name}");
    }
}
