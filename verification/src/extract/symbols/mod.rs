//! Top-level symbols of source files, found line by line with one regular
//! expression per kind of declaration. The matching itself is the `regex`
//! crate's; which lines are looked at, which groups give the name and the
//! visibility, and in what order symbols come out is decided here.
pub mod go;
pub mod python;
pub mod rust;
pub mod typescript;

use vstd::prelude::*;
use crate::order::{path_lt, path_lt_exec, text_lt, text_lt_exec, lemma_path_lt_asym, lemma_path_le_trans, lemma_text_lt_irrefl, lemma_text_lt_trans, lemma_text_lt_total, sort_by_key, sorted_by_key, Keyed};
use crate::pattern::{captures, groups_view, regex_captures};
use crate::strs::{lines, lines_chars, ltrim, ltrim_idx, starts_with, starts_with_at, from_chars, to_chars, vv};

verus! {

#[derive(Debug, Clone, PartialEq, Eq, Hash)]
pub struct Symbol {
    pub name: String,
    pub kind: SymbolKind,
    pub visibility: Visibility,
}

#[derive(Debug, Clone, Copy, PartialEq, Eq, Hash, Structural)]
pub enum SymbolKind {
    Function,
    Type,
    Constant,
}

impl SymbolKind {
    pub fn label(self) -> (r: &'static str)
        ensures
            r@ == match self {
                SymbolKind::Function => "fn"@,
                SymbolKind::Type => "type"@,
                SymbolKind::Constant => "const"@,
            },
    {
        match self {
            SymbolKind::Function => "fn",
            SymbolKind::Type => "type",
            SymbolKind::Constant => "const",
        }
    }
}

#[derive(Debug, Clone, Copy, PartialEq, Eq, Hash, PartialOrd, Ord, Structural)]
pub enum Visibility {
    Public,
    Private,
}

#[derive(Debug, Clone)]
pub struct LocatedSymbol {
    pub source: String,
    pub symbol: Symbol,
}

pub type SymbolV = (Seq<char>, SymbolKind, Visibility);

impl View for Symbol {
    type V = SymbolV;

    open spec fn view(&self) -> SymbolV {
        (self.name@, self.kind, self.visibility)
    }
}

pub open spec fn symbols_view(v: Seq<Symbol>) -> Seq<SymbolV> {
    v.map_values(|s: Symbol| s@)
}

// ---------------------------------------------------------------------------
// Languages
// ---------------------------------------------------------------------------

/// The languages whose symbols are extracted.
#[derive(Clone, Copy, PartialEq, Eq, Structural)]
pub enum Lang {
    Rust,
    Python,
    Go,
    TypeScript,
}

/// `std::char::is_uppercase`: whether the character has Unicode's `Uppercase` property.
pub uninterp spec fn char_is_uppercase(c: char) -> bool;

/// `char::is_uppercase`. Its result is named `char_is_uppercase`; for the
/// ASCII letters it is, as the documentation of `char` states, `A`..`Z`.
#[verifier::external_body]
fn is_uppercase(c: char) -> (r: bool)
    ensures
        r == char_is_uppercase(c),
        ('a' <= c <= 'z' || c == '_') ==> !r,
        'A' <= c <= 'Z' ==> r,
{
    c.is_uppercase()
}

/// The patterns of a language, in the order they are tried on each line, with the kind each finds.
pub open spec fn patterns_of(lang: Lang) -> Seq<(Seq<char>, SymbolKind)> {
    match lang {
        Lang::Rust => seq![
            ("^\\s*(pub(?:\\([^)]*\\))?\\s+)?(?:async\\s+)?(?:const\\s+)?(?:unsafe\\s+)?fn\\s+([A-Za-z_][A-Za-z0-9_]*)"@, SymbolKind::Function),
            ("^\\s*(pub(?:\\([^)]*\\))?\\s+)?struct\\s+([A-Za-z_][A-Za-z0-9_]*)"@, SymbolKind::Type),
            ("^\\s*(pub(?:\\([^)]*\\))?\\s+)?enum\\s+([A-Za-z_][A-Za-z0-9_]*)"@, SymbolKind::Type),
            ("^\\s*(pub(?:\\([^)]*\\))?\\s+)?trait\\s+([A-Za-z_][A-Za-z0-9_]*)"@, SymbolKind::Type),
            ("^\\s*(pub(?:\\([^)]*\\))?\\s+)?type\\s+([A-Za-z_][A-Za-z0-9_]*)"@, SymbolKind::Type),
            ("^\\s*(pub(?:\\([^)]*\\))?\\s+)?(?:const|static)\\s+([A-Z_][A-Z0-9_]*)\\s*:"@, SymbolKind::Constant),
        ],
        Lang::Python => seq![
            ("^(?:async\\s+)?def\\s+([A-Za-z_][A-Za-z0-9_]*)"@, SymbolKind::Function),
            ("^class\\s+([A-Za-z_][A-Za-z0-9_]*)"@, SymbolKind::Type),
        ],
        Lang::Go => seq![
            ("^func\\s+(?:\\([^)]*\\)\\s+)?([A-Za-z_][A-Za-z0-9_]*)"@, SymbolKind::Function),
            ("^type\\s+([A-Za-z_][A-Za-z0-9_]*)"@, SymbolKind::Type),
            ("^(?:const|var)\\s+([A-Za-z_][A-Za-z0-9_]*)"@, SymbolKind::Constant),
        ],
        Lang::TypeScript => seq![
            ("^\\s*(export\\s+)?(?:default\\s+)?(?:async\\s+)?function\\s+([A-Za-z_$][A-Za-z0-9_$]*)"@, SymbolKind::Function),
            ("^\\s*(export\\s+)?(?:default\\s+)?(?:abstract\\s+)?class\\s+([A-Za-z_$][A-Za-z0-9_$]*)"@, SymbolKind::Type),
            ("^\\s*(export\\s+)?interface\\s+([A-Za-z_$][A-Za-z0-9_$]*)"@, SymbolKind::Type),
            ("^\\s*(export\\s+)?type\\s+([A-Za-z_$][A-Za-z0-9_$]*)\\s*="@, SymbolKind::Type),
            ("^\\s*(export\\s+)?enum\\s+([A-Za-z_$][A-Za-z0-9_$]*)"@, SymbolKind::Type),
            ("^\\s*(export\\s+)?(?:const|let|var)\\s+([A-Za-z_$][A-Za-z0-9_$]*)\\s*(?::|=)"@, SymbolKind::Constant),
        ],
    }
}

fn pattern_of(lang: Lang, i: usize) -> (r: (&'static str, SymbolKind))
    requires
        i < patterns_of(lang).len(),
    ensures
        r.0@ == patterns_of(lang)[i as int].0,
        r.1 == patterns_of(lang)[i as int].1,
{
    match lang {
        Lang::Rust => {
            if i == 0 {
                ("^\\s*(pub(?:\\([^)]*\\))?\\s+)?(?:async\\s+)?(?:const\\s+)?(?:unsafe\\s+)?fn\\s+([A-Za-z_][A-Za-z0-9_]*)", SymbolKind::Function)
            } else if i == 1 {
                ("^\\s*(pub(?:\\([^)]*\\))?\\s+)?struct\\s+([A-Za-z_][A-Za-z0-9_]*)", SymbolKind::Type)
            } else if i == 2 {
                ("^\\s*(pub(?:\\([^)]*\\))?\\s+)?enum\\s+([A-Za-z_][A-Za-z0-9_]*)", SymbolKind::Type)
            } else if i == 3 {
                ("^\\s*(pub(?:\\([^)]*\\))?\\s+)?trait\\s+([A-Za-z_][A-Za-z0-9_]*)", SymbolKind::Type)
            } else if i == 4 {
                ("^\\s*(pub(?:\\([^)]*\\))?\\s+)?type\\s+([A-Za-z_][A-Za-z0-9_]*)", SymbolKind::Type)
            } else {
                ("^\\s*(pub(?:\\([^)]*\\))?\\s+)?(?:const|static)\\s+([A-Z_][A-Z0-9_]*)\\s*:", SymbolKind::Constant)
            }
        },
        Lang::Python => {
            if i == 0 {
                ("^(?:async\\s+)?def\\s+([A-Za-z_][A-Za-z0-9_]*)", SymbolKind::Function)
            } else {
                ("^class\\s+([A-Za-z_][A-Za-z0-9_]*)", SymbolKind::Type)
            }
        },
        Lang::Go => {
            if i == 0 {
                ("^func\\s+(?:\\([^)]*\\)\\s+)?([A-Za-z_][A-Za-z0-9_]*)", SymbolKind::Function)
            } else if i == 1 {
                ("^type\\s+([A-Za-z_][A-Za-z0-9_]*)", SymbolKind::Type)
            } else {
                ("^(?:const|var)\\s+([A-Za-z_][A-Za-z0-9_]*)", SymbolKind::Constant)
            }
        },
        Lang::TypeScript => {
            if i == 0 {
                ("^\\s*(export\\s+)?(?:default\\s+)?(?:async\\s+)?function\\s+([A-Za-z_$][A-Za-z0-9_$]*)", SymbolKind::Function)
            } else if i == 1 {
                ("^\\s*(export\\s+)?(?:default\\s+)?(?:abstract\\s+)?class\\s+([A-Za-z_$][A-Za-z0-9_$]*)", SymbolKind::Type)
            } else if i == 2 {
                ("^\\s*(export\\s+)?interface\\s+([A-Za-z_$][A-Za-z0-9_$]*)", SymbolKind::Type)
            } else if i == 3 {
                ("^\\s*(export\\s+)?type\\s+([A-Za-z_$][A-Za-z0-9_$]*)\\s*=", SymbolKind::Type)
            } else if i == 4 {
                ("^\\s*(export\\s+)?enum\\s+([A-Za-z_$][A-Za-z0-9_$]*)", SymbolKind::Type)
            } else {
                ("^\\s*(export\\s+)?(?:const|let|var)\\s+([A-Za-z_$][A-Za-z0-9_$]*)\\s*(?::|=)", SymbolKind::Constant)
            }
        },
    }
}

/// Lines that are not looked at: comments (`#` for Python, `//`, `/*` or `*`
/// after indentation otherwise) and, for Python, indented lines.
pub open spec fn skipped_line(lang: Lang, line: Seq<char>) -> bool {
    let t = ltrim(line);
    match lang {
        Lang::Python => starts_with(t, "#"@) || starts_with(line, " "@) || starts_with(line, "\t"@),
        _ => starts_with(t, "//"@) || starts_with(t, "*"@) || starts_with(t, "/*"@),
    }
}

/// The visibility a name gets in Python (`_` first: private) and Go (upper case first: public).
pub open spec fn name_visibility(lang: Lang, name: Seq<char>) -> Visibility {
    match lang {
        Lang::Python => if starts_with(name, "_"@) { Visibility::Private } else { Visibility::Public },
        _ => if char_is_uppercase(if name.len() > 0 { name[0] } else { '_' }) { Visibility::Public } else { Visibility::Private },
    }
}

/// The symbol a match gives: for Rust and TypeScript the name is group 2 and
/// the symbol is public when group 1 (`pub ...` / `export`) took part; for
/// Python and Go the name is group 1 and its spelling decides.
pub open spec fn symbol_of(lang: Lang, g: Seq<Option<Seq<char>>>, kind: SymbolKind) -> Option<SymbolV> {
    match lang {
        Lang::Rust | Lang::TypeScript => if g.len() > 2 && g[2] is Some {
            Some((g[2]->0, kind, if g.len() > 1 && g[1] is Some { Visibility::Public } else { Visibility::Private }))
        } else {
            None
        },
        _ => if g.len() > 1 && g[1] is Some {
            Some((g[1]->0, kind, name_visibility(lang, g[1]->0)))
        } else {
            None
        },
    }
}

/// The symbols the first `k` patterns find on one line.
pub open spec fn pattern_symbols(lang: Lang, line: Seq<char>, k: int) -> Seq<SymbolV>
    decreases k,
{
    if k <= 0 {
        seq![]
    } else {
        let ps = patterns_of(lang);
        let before = pattern_symbols(lang, line, k - 1);
        match regex_captures(ps[k - 1].0, line) {
            Some(g) => match symbol_of(lang, g, ps[k - 1].1) {
                Some(s) => before.push(s),
                None => before,
            },
            None => before,
        }
    }
}

/// The symbols of one line.
pub open spec fn line_symbols(lang: Lang, line: Seq<char>) -> Seq<SymbolV> {
    if skipped_line(lang, line) {
        seq![]
    } else {
        pattern_symbols(lang, line, patterns_of(lang).len() as int)
    }
}

/// The symbols of the first `k` lines.
pub open spec fn lines_symbols(lang: Lang, ls: Seq<Seq<char>>, k: int) -> Seq<SymbolV>
    decreases k,
{
    if k <= 0 {
        seq![]
    } else {
        lines_symbols(lang, ls, k - 1) + line_symbols(lang, ls[k - 1])
    }
}

/// The symbols of a source text, line after line.
pub open spec fn symbols_in(lang: Lang, content: Seq<char>) -> Seq<SymbolV> {
    lines_symbols(lang, lines(content), lines(content).len() as int)
}

fn skipped_line_exec(lang: Lang, line: &[char]) -> (r: bool)
    ensures
        r == skipped_line(lang, line@),
{
    let a = ltrim_idx(line, 0, line.len());
    assert(line@.subrange(0, line@.len() as int) =~= line@);
    let t = crate::strs::slice_copy(line, a, line.len());
    match lang {
        Lang::Python => crate::strs::starts_with_str(&t, "#") || crate::strs::starts_with_str(line, " ")
            || crate::strs::starts_with_str(line, "\t"),
        _ => crate::strs::starts_with_str(&t, "//") || crate::strs::starts_with_str(&t, "*")
            || crate::strs::starts_with_str(&t, "/*"),
    }
}

fn group_present(g: &Vec<Option<String>>, i: usize) -> (r: bool)
    ensures
        r == (groups_view(g@).len() > i && groups_view(g@)[i as int] is Some),
{
    i < g.len() && g[i].is_some()
}

fn symbol_from(lang: Lang, g: &Vec<Option<String>>, kind: SymbolKind) -> (r: Option<Symbol>)
    ensures
        match symbol_of(lang, groups_view(g@), kind) {
            Some(s) => r matches Some(x) && x@ == s,
            None => r is None,
        },
{
    let ghost gv = groups_view(g@);
    match lang {
        Lang::Rust | Lang::TypeScript => {
            if 2 < g.len() {
                match &g[2] {
                    Some(name) => {
                        let vis = if group_present(g, 1) { Visibility::Public } else { Visibility::Private };
                        Some(Symbol { name: name.clone(), kind, visibility: vis })
                    },
                    None => None,
                }
            } else {
                None
            }
        },
        _ => {
            if 1 < g.len() {
                match &g[1] {
                    Some(name) => {
                        let vis = match lang {
                            Lang::Python => {
                                if crate::strs::starts_with_str(&to_chars(name.as_str()), "_") {
                                    Visibility::Private
                                } else {
                                    Visibility::Public
                                }
                            },
                            _ => {
                                let first = if name.unicode_len() > 0 { name.as_str().get_char(0) } else { '_' };
                                if is_uppercase(first) { Visibility::Public } else { Visibility::Private }
                            },
                        };
                        Some(Symbol { name: name.clone(), kind, visibility: vis })
                    },
                    None => None,
                }
            } else {
                None
            }
        },
    }
}

fn line_symbols_exec(lang: Lang, line: &[char], out: &mut Vec<Symbol>)
    ensures
        symbols_view(final(out)@) == symbols_view(old(out)@) + line_symbols(lang, line@),
{
    let ghost start = symbols_view(out@);
    if skipped_line_exec(lang, line) {
        assert(start + Seq::<SymbolV>::empty() =~= start);
        return;
    }
    let text = from_chars(line);
    let n: usize = match lang {
        Lang::Rust => 6,
        Lang::Python => 2,
        Lang::Go => 3,
        Lang::TypeScript => 6,
    };
    assert(n == patterns_of(lang).len());
    let mut k: usize = 0;
    assert(start + pattern_symbols(lang, line@, 0) =~= start);
    while k < n
        invariant
            k <= n,
            n == patterns_of(lang).len(),
            text@ == line@,
            symbols_view(out@) == start + pattern_symbols(lang, line@, k as int),
        decreases n - k,
    {
        let (pat, kind) = pattern_of(lang, k);
        match captures(pat, text.as_str()) {
            Some(g) => match symbol_from(lang, &g, kind) {
                Some(s) => {
                    let ghost before = symbols_view(out@);
                    out.push(s);
                    assert(symbols_view(out@) =~= before.push(s@));
                },
                None => {},
            },
            None => {},
        }
        assert(start + pattern_symbols(lang, line@, k + 1) =~= symbols_view(out@));
        k = k + 1;
    }
}

/// The top-level symbols of a source text in the given language, line by line.
pub fn extract_lang(lang: Lang, content: &str) -> (r: Vec<Symbol>)
    ensures
        symbols_view(r@) == symbols_in(lang, content@),
{
    let ls = lines_chars(&to_chars(content));
    let ghost lv = vv(&ls);
    let mut out: Vec<Symbol> = Vec::new();
    let mut i: usize = 0;
    assert(symbols_view(out@) =~= lines_symbols(lang, lv, 0));
    while i < ls.len()
        invariant
            i <= ls@.len(),
            lv == vv(&ls),
            lv == lines(content@),
            symbols_view(out@) == lines_symbols(lang, lv, i as int),
        decreases ls@.len() - i,
    {
        assert(lv[i as int] == ls@[i as int]@);
        line_symbols_exec(lang, &ls[i], &mut out);
        i = i + 1;
    }
    out
}

// ---------------------------------------------------------------------------
// Source files
// ---------------------------------------------------------------------------

/// The language a file extension names, if symbols are extracted for it.
pub open spec fn lang_of_ext(ext: Seq<char>) -> Option<Lang> {
    if ext == "rs"@ {
        Some(Lang::Rust)
    } else if ext == "ts"@ || ext == "tsx"@ || ext == "js"@ || ext == "jsx"@ || ext == "mjs"@ || ext == "cjs"@ {
        Some(Lang::TypeScript)
    } else if ext == "py"@ {
        Some(Lang::Python)
    } else if ext == "go"@ {
        Some(Lang::Go)
    } else {
        None
    }
}

/// The language of a source file, by its path's extension.
pub fn lang_for_path(rel: &str) -> (r: Option<Lang>)
    ensures
        r == lang_of_ext(crate::paths::extension(crate::paths::file_name(rel@))),
{
    let ext = crate::paths::extension_exec(&crate::paths::file_name_exec(rel));
    let e = ext.as_slice();
    proof {
        reveal_strlit("rs");
        reveal_strlit("ts");
        reveal_strlit("tsx");
        reveal_strlit("js");
        reveal_strlit("jsx");
        reveal_strlit("mjs");
        reveal_strlit("cjs");
        reveal_strlit("py");
        reveal_strlit("go");
    }
    if crate::strs::eq_str(e, "rs") {
        Some(Lang::Rust)
    } else if crate::strs::eq_str(e, "ts") || crate::strs::eq_str(e, "tsx") || crate::strs::eq_str(e, "js")
        || crate::strs::eq_str(e, "jsx") || crate::strs::eq_str(e, "mjs") || crate::strs::eq_str(e, "cjs") {
        Some(Lang::TypeScript)
    } else if crate::strs::eq_str(e, "py") {
        Some(Lang::Python)
    } else if crate::strs::eq_str(e, "go") {
        Some(Lang::Go)
    } else {
        None
    }
}

/// A located symbol as plain values: its source path and the symbol.
pub open spec fn located_view(l: LocatedSymbol) -> (Seq<char>, SymbolV) {
    (l.source@, l.symbol@)
}

/// The symbols of one file (none where its language is not one of those
/// extracted, or its content could not be read), each with the file's path.
pub open spec fn file_symbols(path: Seq<char>, content: Option<Seq<char>>) -> Seq<(Seq<char>, SymbolV)> {
    match (lang_of_ext(crate::paths::extension(crate::paths::file_name(path))), content) {
        (Some(lang), Some(c)) => symbols_in(lang, c).map_values(|s: SymbolV| (path, s)),
        _ => seq![],
    }
}

/// A file's content as text, where it was read.
pub open spec fn content_view(c: Option<String>) -> Option<Seq<char>> {
    match c {
        Some(t) => Some(t@),
        None => None,
    }
}

/// The symbols of the first `k` files, file after file.
pub open spec fn files_symbols(files: Seq<(String, Option<String>)>, k: int) -> Seq<(Seq<char>, SymbolV)>
    decreases k,
{
    if k <= 0 {
        seq![]
    } else {
        files_symbols(files, k - 1) + file_symbols(files[k - 1].0@, content_view(files[k - 1].1))
    }
}

/// The top-level symbols of the scanned source files, file after file, each
/// with the path of its file. Each file comes with its path relative to the
/// input root and its content (`None` where it could not be read as text).
pub fn extract_symbols(files: &[(String, Option<String>)]) -> (r: Vec<LocatedSymbol>)
    ensures
        r@.map_values(|l: LocatedSymbol| located_view(l)) == files_symbols(files@, files@.len() as int),
{
    let mut out: Vec<LocatedSymbol> = Vec::new();
    let mut i: usize = 0;
    assert(out@.map_values(|l: LocatedSymbol| located_view(l)) =~= files_symbols(files@, 0));
    while i < files.len()
        invariant
            i <= files@.len(),
            out@.map_values(|l: LocatedSymbol| located_view(l)) == files_symbols(files@, i as int),
        decreases files@.len() - i,
    {
        let f = &files[i];
        let ghost before = out@.map_values(|l: LocatedSymbol| located_view(l));
        let ghost want = file_symbols(f.0@, content_view(f.1));
        match (lang_for_path(f.0.as_str()), &f.1) {
            (Some(lang), Some(content)) => {
                let syms = extract_lang(lang, content.as_str());
                let ghost sv = symbols_in(lang, content@);
                let mut j: usize = 0;
                while j < syms.len()
                    invariant
                        j <= syms@.len(),
                        symbols_view(syms@) == sv,
                        want == sv.map_values(|s: SymbolV| (f.0@, s)),
                        out@.map_values(|l: LocatedSymbol| located_view(l)) == before + want.take(j as int),
                    decreases syms@.len() - j,
                {
                    let sym = Symbol { name: syms[j].name.clone(), kind: syms[j].kind, visibility: syms[j].visibility };
                    assert(sym@ == sv[j as int]);
                    let ghost prev = out@;
                    let located = LocatedSymbol { source: f.0.clone(), symbol: sym };
                    assert(located_view(located) == want[j as int]);
                    out.push(located);
                    assert(out@ == prev.push(located));
                    assert(want.take(j + 1) =~= want.take(j as int).push(want[j as int]));
                    assert(out@.map_values(|l: LocatedSymbol| located_view(l)) =~= prev.map_values(|l: LocatedSymbol| located_view(l)).push(located_view(located)));
                    j = j + 1;
                }
                assert(want.take(syms@.len() as int) =~= want);
            },
            _ => {
                assert(before + want =~= before);
            },
        }
        assert(files_symbols(files@, i + 1) == files_symbols(files@, i as int) + want);
        i = i + 1;
    }
    out
}

// ---------------------------------------------------------------------------
// Display order
// ---------------------------------------------------------------------------

pub open spec fn vis_rank(v: Visibility) -> int {
    match v {
        Visibility::Public => 0,
        Visibility::Private => 1,
    }
}

pub open spec fn kind_rank(k: SymbolKind) -> int {
    match k {
        SymbolKind::Type => 0,
        SymbolKind::Function => 1,
        SymbolKind::Constant => 2,
    }
}

/// Display order: public before private, then types, functions, constants,
/// then by name, then by source path.
pub open spec fn symbol_before(a: LocatedSymbol, b: LocatedSymbol) -> bool {
    let (va, vb) = (vis_rank(a.symbol.visibility), vis_rank(b.symbol.visibility));
    let (ka, kb) = (kind_rank(a.symbol.kind), kind_rank(b.symbol.kind));
    ||| va < vb
    ||| va == vb && ka < kb
    ||| va == vb && ka == kb && text_lt(a.symbol.name@, b.symbol.name@)
    ||| va == vb && ka == kb && a.symbol.name@ == b.symbol.name@ && path_lt(a.source@, b.source@)
}

fn vis_rank_exec(v: Visibility) -> (r: u8)
    ensures
        r as int == vis_rank(v),
{
    match v {
        Visibility::Public => 0,
        Visibility::Private => 1,
    }
}

fn kind_rank_exec(k: SymbolKind) -> (r: u8)
    ensures
        r as int == kind_rank(k),
{
    match k {
        SymbolKind::Type => 0,
        SymbolKind::Function => 1,
        SymbolKind::Constant => 2,
    }
}

impl Keyed for LocatedSymbol {
    open spec fn key_lt(&self, other: &Self) -> bool {
        symbol_before(*self, *other)
    }

    fn lt(&self, other: &Self) -> (r: bool) {
        let va = vis_rank_exec(self.symbol.visibility);
        let vb = vis_rank_exec(other.symbol.visibility);
        if va != vb {
            return va < vb;
        }
        let ka = kind_rank_exec(self.symbol.kind);
        let kb = kind_rank_exec(other.symbol.kind);
        if ka != kb {
            return ka < kb;
        }
        let na = to_chars(self.symbol.name.as_str());
        let nb = to_chars(other.symbol.name.as_str());
        if crate::strs::chars_eq(&na, &nb) {
            proof {
                lemma_text_lt_irrefl(na@);
            }
            return path_lt_exec(self.source.as_str(), other.source.as_str());
        }
        text_lt_exec(&na, &nb)
    }

    proof fn lemma_asym(a: &Self, b: &Self) {
        lemma_text_lt_irrefl(a.symbol.name@);
        lemma_path_lt_asym(a.source@, b.source@);
        if text_lt(a.symbol.name@, b.symbol.name@) && text_lt(b.symbol.name@, a.symbol.name@) {
            lemma_text_lt_trans(a.symbol.name@, b.symbol.name@, a.symbol.name@);
        }
    }

    proof fn lemma_neg_trans(a: &Self, b: &Self, c: &Self) {
        let (na, nb, nc) = (a.symbol.name@, b.symbol.name@, c.symbol.name@);
        lemma_text_lt_total(na, nb);
        lemma_text_lt_total(nb, nc);
        lemma_text_lt_total(na, nc);
        lemma_text_lt_irrefl(na);
        lemma_text_lt_irrefl(nb);
        lemma_text_lt_irrefl(nc);
        if text_lt(nc, nb) && text_lt(nb, na) {
            lemma_text_lt_trans(nc, nb, na);
        }
        if text_lt(nc, na) && text_lt(na, nb) {
            lemma_text_lt_trans(nc, na, nb);
        }
        if text_lt(nb, na) && text_lt(na, nc) {
            lemma_text_lt_trans(nb, na, nc);
        }
        if text_lt(na, nb) && text_lt(nb, na) {
            lemma_text_lt_trans(na, nb, na);
        }
        if text_lt(nb, nc) && text_lt(nc, nb) {
            lemma_text_lt_trans(nb, nc, nb);
        }
        if text_lt(na, nc) && text_lt(nc, na) {
            lemma_text_lt_trans(na, nc, na);
        }
        if na == nb && nb == nc && !path_lt(b.source@, a.source@) && !path_lt(c.source@, b.source@) {
            lemma_path_le_trans(a.source@, b.source@, c.source@);
        }
    }
}

/// Sort symbols for display: public before private, then by kind, then by name.
/// Symbols with the same key keep their order.
pub fn sort_symbols(list: &mut Vec<LocatedSymbol>)
    ensures
        sorted_by_key(final(list)@),
        final(list)@.to_multiset() == old(list)@.to_multiset(),
{
    let mut v: Vec<LocatedSymbol> = Vec::new();
    std::mem::swap(&mut v, list);
    *list = sort_by_key(v);
}

} // verus!
