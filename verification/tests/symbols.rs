use md_wiki::extract::symbols::{extract_symbols, lang_for_path, Lang};
use md_wiki::extract::symbols::{go, python, rust, sort_symbols, typescript, LocatedSymbol, Symbol, SymbolKind, Visibility};

#[test]
fn detects_public_and_private_fns() {
    let src = "pub fn a() {}\nfn b() {}\nasync fn c() {}\npub async fn d() {}";
    let syms = rust::extract(src);
    assert_eq!(syms.len(), 4);
    assert_eq!(syms[0].name, "a");
    assert_eq!(syms[0].visibility, Visibility::Public);
    assert_eq!(syms[1].name, "b");
    assert_eq!(syms[1].visibility, Visibility::Private);
}

#[test]
fn detects_types() {
    let src = "pub struct S;\nenum E {}\npub(crate) trait T {}\ntype Alias = u8;";
    let syms = rust::extract(src);
    let names: Vec<_> = syms.iter().map(|s| (s.name.clone(), s.kind)).collect();
    assert!(names.contains(&("S".to_string(), SymbolKind::Type)));
    assert!(names.contains(&("E".to_string(), SymbolKind::Type)));
    assert!(names.contains(&("T".to_string(), SymbolKind::Type)));
    assert!(names.contains(&("Alias".to_string(), SymbolKind::Type)));
}

#[test]
fn rust_ignores_comments() {
    let src = "// pub fn hidden() {}\n/* pub struct X */";
    assert!(rust::extract(src).is_empty());
}

#[test]
fn detects_consts() {
    let src = "pub const MAX: u32 = 1;\nstatic FOO: u32 = 2;";
    let syms = rust::extract(src);
    assert_eq!(syms.len(), 2);
    assert_eq!(syms[0].kind, SymbolKind::Constant);
}

#[test]
fn detects_async_unsafe_and_const_variants() {
    let src = r#"
pub async unsafe fn a() {}
pub const fn b() {}
const unsafe fn c() {}
async unsafe fn d() {}
"#;
    let syms = rust::extract(src);
    let names: Vec<_> = syms.iter().map(|s| s.name.clone()).collect();
    assert!(names.contains(&"a".to_string()));
    assert!(names.contains(&"b".to_string()));
    assert!(names.contains(&"c".to_string()));
    assert!(names.contains(&"d".to_string()));
}

#[test]
fn detects_module_level_def_and_class() {
    let src = r#"
def foo():
    pass

async def bar():
    pass

def _private():
    pass

class Public:
    def method(self):
        pass

class _Private:
    pass
"#;
    let syms = python::extract(src);
    let get = |n: &str| syms.iter().find(|s| s.name == n).cloned();
    assert_eq!(get("foo").unwrap().visibility, Visibility::Public);
    assert_eq!(get("bar").unwrap().visibility, Visibility::Public);
    assert_eq!(get("_private").unwrap().visibility, Visibility::Private);
    assert_eq!(get("Public").unwrap().kind, SymbolKind::Type);
    assert_eq!(get("_Private").unwrap().visibility, Visibility::Private);
    assert!(get("method").is_none());
}

#[test]
fn python_ignores_comments() {
    let src = "# def hidden():\n#     pass";
    assert!(python::extract(src).is_empty());
}

#[test]
fn decorator_on_previous_line_does_not_prevent_detection() {
    let src = r#"
@dataclass
class Config:
    pass

@staticmethod
def helper():
    pass
"#;
    let syms = python::extract(src);
    let names: Vec<_> = syms.iter().map(|s| s.name.clone()).collect();
    assert!(names.contains(&"Config".to_string()));
    assert!(names.contains(&"helper".to_string()));
}

#[test]
fn detects_funcs_types_consts_and_visibility() {
    let src = r#"
package main

func Hello() {}
func helperInternal() {}
func (r *Receiver) Method() {}

type Foo struct{}
type bar interface{}

const MaxN = 10
var internalVar = 1
"#;
    let syms = go::extract(src);
    let get = |n: &str| syms.iter().find(|s| s.name == n).cloned();
    assert_eq!(get("Hello").unwrap().visibility, Visibility::Public);
    assert_eq!(get("helperInternal").unwrap().visibility, Visibility::Private);
    assert_eq!(get("Method").unwrap().visibility, Visibility::Public);
    assert_eq!(get("Foo").unwrap().kind, SymbolKind::Type);
    assert_eq!(get("bar").unwrap().visibility, Visibility::Private);
    assert_eq!(get("MaxN").unwrap().kind, SymbolKind::Constant);
    assert_eq!(get("internalVar").unwrap().visibility, Visibility::Private);
}

#[test]
fn go_ignores_comments() {
    let src = "// func Hidden() {}\n/* type X struct{} */";
    assert!(go::extract(src).is_empty());
}

#[test]
fn detects_exports_and_internals() {
    let src = r#"
export function hello() {}
function world() {}
export class Foo {}
class Bar {}
export interface I {}
export type Alias = string;
export const MAX = 10;
let internal: number = 1;
"#;
    let syms = typescript::extract(src);
    let get = |name: &str| syms.iter().find(|s| s.name == name).cloned();
    assert_eq!(get("hello").unwrap().visibility, Visibility::Public);
    assert_eq!(get("world").unwrap().visibility, Visibility::Private);
    assert_eq!(get("Foo").unwrap().kind, SymbolKind::Type);
    assert_eq!(get("I").unwrap().kind, SymbolKind::Type);
    assert_eq!(get("Alias").unwrap().kind, SymbolKind::Type);
    assert_eq!(get("MAX").unwrap().kind, SymbolKind::Constant);
    assert_eq!(get("internal").unwrap().visibility, Visibility::Private);
}

#[test]
fn typescript_ignores_comments() {
    let src = "// export function nope() {}\n/* export class X */";
    assert!(typescript::extract(src).is_empty());
}

#[test]
fn detects_export_default_class_and_abstract() {
    let src = r#"
export default class Widget {}
export abstract class Shape {}
export default function make() {}
"#;
    let syms = typescript::extract(src);
    let names: Vec<_> = syms.iter().map(|s| s.name.clone()).collect();
    assert!(names.contains(&"Widget".to_string()));
    assert!(names.contains(&"Shape".to_string()));
    assert!(names.contains(&"make".to_string()));
}

fn located(src: &str, name: &str, kind: SymbolKind, vis: Visibility) -> LocatedSymbol {
    LocatedSymbol { source: src.to_string(), symbol: Symbol { name: name.to_string(), kind, visibility: vis } }
}

#[test]
fn sorts_public_types_first_then_by_name_and_source() {
    let mut list = vec![
        located("b.rs", "z", SymbolKind::Function, Visibility::Private),
        located("b.rs", "y", SymbolKind::Constant, Visibility::Public),
        located("b.rs", "a", SymbolKind::Function, Visibility::Public),
        located("a.rs", "a", SymbolKind::Function, Visibility::Public),
        located("c.rs", "T", SymbolKind::Type, Visibility::Public),
    ];
    sort_symbols(&mut list);
    let order: Vec<_> = list.iter().map(|l| (l.source.clone(), l.symbol.name.clone())).collect();
    assert_eq!(
        order,
        vec![
            ("c.rs".to_string(), "T".to_string()),
            ("a.rs".to_string(), "a".to_string()),
            ("b.rs".to_string(), "a".to_string()),
            ("b.rs".to_string(), "y".to_string()),
            ("b.rs".to_string(), "z".to_string()),
        ]
    );
    assert_eq!(SymbolKind::Constant.label(), "const");
}

#[test]
fn extracts_symbols_file_by_file_by_extension() {
    assert!(lang_for_path("src/a.tsx") == Some(Lang::TypeScript));
    assert!(lang_for_path("x/y.cjs") == Some(Lang::TypeScript));
    assert!(lang_for_path("README.md").is_none());
    let files = vec![
        ("src/lib.rs".to_string(), Some("pub fn foo() {}\nfn bar() {}\n".to_string())),
        ("README.md".to_string(), Some("pub fn not_code() {}\n".to_string())),
        ("tool.py".to_string(), None),
        ("cmd/main.go".to_string(), Some("func Hello() {}\n".to_string())),
    ];
    let out = extract_symbols(&files);
    let got: Vec<(String, String, Visibility)> =
        out.iter().map(|l| (l.source.clone(), l.symbol.name.clone(), l.symbol.visibility)).collect();
    assert_eq!(
        got,
        vec![
            ("src/lib.rs".to_string(), "foo".to_string(), Visibility::Public),
            ("src/lib.rs".to_string(), "bar".to_string(), Visibility::Private),
            ("cmd/main.go".to_string(), "Hello".to_string(), Visibility::Public),
        ]
    );
}
