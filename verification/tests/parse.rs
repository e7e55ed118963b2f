use rmap::parse::{render_str, ParseOptions};

fn render(src: &str) -> String {
    render_str(src, ParseOptions::default()).unwrap_or_default()
}

#[test]
fn struct_with_inherent_methods_merges_into_braces() {
    let src = r#"
            pub struct Foo;
            impl Foo {
                pub fn new() -> Self { Foo }
                pub fn run(&self) {}
            }
        "#;
    assert_eq!(render(src), "struct Foo { fn new, fn run }");
}

#[test]
fn enum_and_const_emit() {
    let src = "pub enum E { A, B } pub const N: u32 = 1;";
    assert_eq!(render(src), "enum E, const N");
}

#[test]
fn trait_impl_kept_separate_from_inherent_impl() {
    let src = r#"
            pub struct Foo;
            impl Foo { pub fn a(&self) {} }
            impl std::fmt::Debug for Foo {
                fn fmt(&self, _: &mut std::fmt::Formatter) -> std::fmt::Result { Ok(()) }
            }
        "#;
    assert_eq!(
        render(src),
        "struct Foo { fn a }, impl Debug for Foo { fn fmt }"
    );
}

#[test]
fn lines_annotates_every_symbol() {
    let src = "\
pub struct S;
pub enum E { A }
pub const N: u32 = 1;
pub fn f() {}
impl S { pub fn m(&self) {} }
";
    let opts = ParseOptions { lines: true };
    let out = render_str(src, opts).unwrap();
    assert!(out.contains("struct S:1-1"), "{out}");
    assert!(out.contains("enum E:2-2"), "{out}");
    assert!(out.contains("const N:3-3"), "{out}");
    assert!(out.contains("fn f:4-4"), "{out}");
    assert!(out.contains("fn m:5-5"), "{out}");
}

#[test]
fn lines_annotates_trait_and_impl_headers() {
    let src = "\
pub trait T { fn a(&self); }
impl std::fmt::Debug for u32 {
    fn fmt(&self, _: &mut std::fmt::Formatter) -> std::fmt::Result { Ok(()) }
}
";
    let opts = ParseOptions { lines: true };
    let out = render_str(src, opts).unwrap();
    assert!(out.contains("trait T:1-1"), "{out}");
    assert!(out.contains("impl Debug for u32:2-4"), "{out}");
}

#[test]
fn invalid_rust_returns_none() {
    assert!(render_str("not rust at all {", ParseOptions::default()).is_none());
}

#[test]
fn empty_file_returns_none() {
    assert!(render_str("", ParseOptions::default()).is_none());
}

#[test]
fn every_kind_of_item_has_its_word() {
    let src = "
struct A;
enum B {}
union C { x: u32 }
trait D { const K: u32; type T; fn f(); }
fn e() {}
type F = u32;
const G: u32 = 1;
static H: u32 = 2;
macro_rules! i { () => {} }
mod j {}
use k::l;
";
    assert_eq!(
        render(src),
        "struct A, enum B, union C, trait D { const K, type T, fn f }, fn e, type F, const G, \
         static H, macro i"
    );
}

#[test]
fn foreign_impls_stand_alone() {
    assert_eq!(
        render("impl Vec<u8> { const A: u32 = 1; fn b() {} } impl a::Tr for [u8] {} impl Str {}"),
        "impl Vec { const A, fn b }, impl Str"
    );
    assert_eq!(render("impl a::b::Tr for c::Ty {}"), "impl Tr for Ty");
}

#[test]
fn methods_merge_into_the_first_type_of_the_name() {
    let src = "trait T { fn own(); } impl T { fn more() {} } struct T; impl T { fn last() {} }";
    assert_eq!(render(src), "trait T { fn own, fn more, fn last }, struct T");
}

#[test]
fn an_unnamed_macro_call_has_no_entry() {
    assert_eq!(render("thread_local! {} fn f() {}"), "fn f");
    assert!(render_str("thread_local! {}", ParseOptions::default()).is_none());
}

#[test]
fn raw_identifiers_keep_their_prefix() {
    assert_eq!(render("fn r#type() {}"), "fn r#type");
}

#[test]
fn a_range_spans_attributes_and_body() {
    let opts = ParseOptions { lines: true };
    let out = render_str("\n/// Doc.\n#[inline]\nfn f() {\n}\n", opts).unwrap();
    assert_eq!(out, "fn f:2-5");
}

#[test]
fn ranges_only_annotate() {
    let src = "struct A; impl A { fn a() {} } impl B { fn b() {} } use x::y; fn c() {}";
    let plain = render_str(src, ParseOptions { lines: false }).unwrap();
    let ranged = render_str(src, ParseOptions { lines: true }).unwrap();
    assert_eq!(plain, "struct A { fn a }, impl B { fn b }, fn c");
    assert_eq!(ranged.replace(":1-1", ""), plain);
}

fn without_ranges(text: &str) -> String {
    let mut out = String::new();
    let mut inside = false;
    for c in text.chars() {
        inside = c == ':' || (inside && (c.is_ascii_digit() || c == '-'));
        if !inside {
            out.push(c);
        }
    }
    out
}

#[test]
fn deleting_the_ranges_gives_the_plain_summary() {
    let src = "struct A;\nimpl A { fn x(&self) {} }\nimpl B2 for A {\n const C: u8 = 1;\n}\n\
               trait T { fn y(); }\nfn z() {}\n";
    let with = render_str(src, ParseOptions { lines: true }).unwrap();
    let plain = render_str(src, ParseOptions { lines: false }).unwrap();
    assert_eq!(
        with,
        "struct A:1-1 { fn x:2-2 }, impl B2 for A:3-5 { const C:4-4 }, \
         trait T:6-6 { fn y:6-6 }, fn z:7-7"
    );
    assert_eq!(without_ranges(&with), plain);
    assert_eq!(with.matches(':').count(), 7);
    assert!(!plain.contains(':'));
}
