//! Schema packs: named fields drawn from front matter or headings, and
//! context recipes that gather them into a budgeted context pack.
use vstd::prelude::*;
use crate::budget::{budgeted, enforce_budget};
use crate::num::{decimal, decimal_chars};
use crate::strs::{
    from_chars, is_ws, is_ws_exec, join, lines, lines_chars, ltrim, ltrim_idx, rtrim, slice_copy, starts_with,
    sv, to_chars, trim, trim_idx, vv,
};

verus! {

#[derive(Debug, Clone)]
pub struct SchemaPack {
    pub id: String,
    pub version: u32,
    /// Field definitions by name, in name order.
    pub fields: Vec<(String, FieldDef)>,
    /// Context recipes by task, in task order.
    pub contexts: Vec<(String, ContextRecipe)>,
}

#[derive(Debug, Clone)]
pub struct FieldDef {
    pub label: Option<String>,
    pub sources: Vec<FieldSource>,
}

#[derive(Debug, Clone)]
pub struct FieldSource {
    pub frontmatter: Option<String>,
    pub heading: Option<String>,
}

#[derive(Debug, Clone)]
pub struct ContextRecipe {
    pub title: Option<String>,
    pub default_budget_chars: Option<usize>,
    pub sections: Vec<ContextSection>,
}

#[derive(Debug, Clone)]
pub struct ContextSection {
    pub title: String,
    pub fields: Vec<String>,
    pub kind: Option<String>,
    pub required: bool,
}

#[derive(Debug, Clone)]
pub struct InternalCatalog {
    pub schema_version: u32,
    pub schema: CatalogSchema,
    pub pages: Vec<CatalogPage>,
}

#[derive(Debug, Clone)]
pub struct CatalogSchema {
    pub id: String,
    pub version: u32,
}

#[derive(Debug, Clone)]
pub struct CatalogPage {
    pub generated_path: String,
    pub source_path: String,
    pub source_range: SourceRange,
    pub title: String,
    pub doc_type: String,
    pub entities: Vec<String>,
    pub tags: Vec<String>,
    pub headings: Vec<String>,
    /// Evidence by field name, in name order.
    pub fields: Vec<(String, Vec<FieldEvidence>)>,
    pub outgoing_links: Vec<String>,
    pub backlinks: Vec<String>,
}

#[derive(Debug, Clone, Copy)]
pub struct SourceRange {
    pub line_start: usize,
    pub line_end: usize,
}

#[derive(Debug, Clone)]
pub struct FieldEvidence {
    pub text: String,
    pub source_path: String,
    pub line_start: usize,
    pub line_end: usize,
}

// ---------------------------------------------------------------------------
// Validation
// ---------------------------------------------------------------------------

/// Why a schema pack is not usable.
#[derive(Debug)]
pub enum SchemaError {
    MissingId,
    UnsupportedVersion { version: u32 },
    NoFields,
    NoContexts,
    FieldWithoutSources { field: String },
    SourceWithoutKey { field: String },
    ContextWithoutSections { context: String },
    SectionWithoutFields { context: String, section: String },
    UndefinedField { context: String, section: String, field: String },
}

pub enum SchemaErrorV {
    MissingId,
    UnsupportedVersion { version: u32 },
    NoFields,
    NoContexts,
    FieldWithoutSources { field: Seq<char> },
    SourceWithoutKey { field: Seq<char> },
    ContextWithoutSections { context: Seq<char> },
    SectionWithoutFields { context: Seq<char>, section: Seq<char> },
    UndefinedField { context: Seq<char>, section: Seq<char>, field: Seq<char> },
}

impl View for SchemaError {
    type V = SchemaErrorV;

    open spec fn view(&self) -> SchemaErrorV {
        match self {
            SchemaError::MissingId => SchemaErrorV::MissingId,
            SchemaError::UnsupportedVersion { version } => SchemaErrorV::UnsupportedVersion { version: *version },
            SchemaError::NoFields => SchemaErrorV::NoFields,
            SchemaError::NoContexts => SchemaErrorV::NoContexts,
            SchemaError::FieldWithoutSources { field } => SchemaErrorV::FieldWithoutSources { field: field@ },
            SchemaError::SourceWithoutKey { field } => SchemaErrorV::SourceWithoutKey { field: field@ },
            SchemaError::ContextWithoutSections { context } => SchemaErrorV::ContextWithoutSections { context: context@ },
            SchemaError::SectionWithoutFields { context, section } => SchemaErrorV::SectionWithoutFields {
                context: context@,
                section: section@,
            },
            SchemaError::UndefinedField { context, section, field } => SchemaErrorV::UndefinedField {
                context: context@,
                section: section@,
                field: field@,
            },
        }
    }
}

/// The message of a schema error.
pub open spec fn schema_message(e: SchemaErrorV) -> Seq<char> {
    match e {
        SchemaErrorV::MissingId => "schema id is required"@,
        SchemaErrorV::UnsupportedVersion { version } => "unsupported schema version: "@ + decimal(version as nat),
        SchemaErrorV::NoFields => "schema fields are required"@,
        SchemaErrorV::NoContexts => "schema contexts are required"@,
        SchemaErrorV::FieldWithoutSources { field } => "field `"@ + field + "` must define at least one source"@,
        SchemaErrorV::SourceWithoutKey { field } => "field `"@ + field + "` source must define frontmatter or heading"@,
        SchemaErrorV::ContextWithoutSections { context } => "context `"@ + context + "` must define at least one section"@,
        SchemaErrorV::SectionWithoutFields { context, section } => "context `"@ + context + "` section `"@ + section
            + "` must define fields or kind: sources"@,
        SchemaErrorV::UndefinedField { context, section, field } => "context `"@ + context + "` section `"@ + section
            + "` references undefined field `"@ + field + "`"@,
    }
}

impl SchemaError {
    /// The message of the error.
    pub fn message(&self) -> (r: String)
        ensures
            r@ == schema_message(self@),
    {
        match self {
            SchemaError::MissingId => String::from_str("schema id is required"),
            SchemaError::UnsupportedVersion { version } => {
                let mut s = String::from_str("unsupported schema version: ");
                s.append(from_chars(&decimal_chars(*version as usize)).as_str());
                s
            },
            SchemaError::NoFields => String::from_str("schema fields are required"),
            SchemaError::NoContexts => String::from_str("schema contexts are required"),
            SchemaError::FieldWithoutSources { field } => {
                let mut s = String::from_str("field `");
                s.append(field.as_str());
                s.append("` must define at least one source");
                s
            },
            SchemaError::SourceWithoutKey { field } => {
                let mut s = String::from_str("field `");
                s.append(field.as_str());
                s.append("` source must define frontmatter or heading");
                s
            },
            SchemaError::ContextWithoutSections { context } => {
                let mut s = String::from_str("context `");
                s.append(context.as_str());
                s.append("` must define at least one section");
                s
            },
            SchemaError::SectionWithoutFields { context, section } => {
                let mut s = String::from_str("context `");
                s.append(context.as_str());
                s.append("` section `");
                s.append(section.as_str());
                s.append("` must define fields or kind: sources");
                s
            },
            SchemaError::UndefinedField { context, section, field } => {
                let mut s = String::from_str("context `");
                s.append(context.as_str());
                s.append("` section `");
                s.append(section.as_str());
                s.append("` references undefined field `");
                s.append(field.as_str());
                s.append("`");
                s
            },
        }
    }
}

/// The first field, from `i` on, with no source or a source naming neither key.
pub open spec fn field_error(fields: Seq<(String, FieldDef)>, i: int) -> Option<SchemaErrorV>
    decreases fields.len() - i,
{
    if i < 0 || i >= fields.len() {
        None
    } else if fields[i].1.sources@.len() == 0 {
        Some(SchemaErrorV::FieldWithoutSources { field: fields[i].0@ })
    } else if exists|k: int| 0 <= k < fields[i].1.sources@.len()
        && (#[trigger] fields[i].1.sources@[k]).frontmatter is None && fields[i].1.sources@[k].heading is None {
        Some(SchemaErrorV::SourceWithoutKey { field: fields[i].0@ })
    } else {
        field_error(fields, i + 1)
    }
}

/// Is `name` a defined field?
pub open spec fn field_defined(fields: Seq<(String, FieldDef)>, name: Seq<char>) -> bool {
    exists|k: int| 0 <= k < fields.len() && (#[trigger] fields[k]).0@ == name
}

/// The first undefined field named by a section, from the `j`-th name on.
pub open spec fn undefined_in(fields: Seq<(String, FieldDef)>, names: Seq<String>, j: int) -> Option<Seq<char>>
    decreases names.len() - j,
{
    if j < 0 || j >= names.len() {
        None
    } else if !field_defined(fields, names[j]@) {
        Some(names[j]@)
    } else {
        undefined_in(fields, names, j + 1)
    }
}

/// What is wrong with the sections of context `name`, from the `j`-th on.
pub open spec fn section_error(fields: Seq<(String, FieldDef)>, name: Seq<char>, secs: Seq<ContextSection>, j: int) -> Option<SchemaErrorV>
    decreases secs.len() - j,
{
    if j < 0 || j >= secs.len() {
        None
    } else {
        let sec = secs[j];
        let is_sources = sec.kind matches Some(k) && k@ == "sources"@;
        if sec.fields@.len() == 0 && !is_sources {
            Some(SchemaErrorV::SectionWithoutFields { context: name, section: sec.title@ })
        } else {
            match undefined_in(fields, sec.fields@, 0) {
                Some(f) => Some(SchemaErrorV::UndefinedField { context: name, section: sec.title@, field: f }),
                None => section_error(fields, name, secs, j + 1),
            }
        }
    }
}

/// The first context, from `i` on, that is not well formed.
pub open spec fn context_error(fields: Seq<(String, FieldDef)>, ctxs: Seq<(String, ContextRecipe)>, i: int) -> Option<SchemaErrorV>
    decreases ctxs.len() - i,
{
    if i < 0 || i >= ctxs.len() {
        None
    } else if ctxs[i].1.sections@.len() == 0 {
        Some(SchemaErrorV::ContextWithoutSections { context: ctxs[i].0@ })
    } else {
        match section_error(fields, ctxs[i].0@, ctxs[i].1.sections@, 0) {
            Some(e) => Some(e),
            None => context_error(fields, ctxs, i + 1),
        }
    }
}

/// The first problem of a schema pack, checked in this order: id, version,
/// fields present, contexts present, each field, each context.
pub open spec fn schema_error(s: SchemaPack) -> Option<SchemaErrorV> {
    if trim(s.id@).len() == 0 {
        Some(SchemaErrorV::MissingId)
    } else if s.version != 1 {
        Some(SchemaErrorV::UnsupportedVersion { version: s.version })
    } else if s.fields@.len() == 0 {
        Some(SchemaErrorV::NoFields)
    } else if s.contexts@.len() == 0 {
        Some(SchemaErrorV::NoContexts)
    } else {
        match field_error(s.fields@, 0) {
            Some(e) => Some(e),
            None => context_error(s.fields@, s.contexts@, 0),
        }
    }
}

fn field_defined_exec(fields: &Vec<(String, FieldDef)>, name: &str) -> (r: bool)
    ensures
        r == field_defined(fields@, name@),
{
    let nv = to_chars(name);
    let mut k: usize = 0;
    while k < fields.len()
        invariant
            k <= fields@.len(),
            nv@ == name@,
            forall|j: int| 0 <= j < k ==> (#[trigger] fields@[j]).0@ != name@,
        decreases fields@.len() - k,
    {
        if crate::strs::chars_eq(&to_chars(fields[k].0.as_str()), &nv) {
            return true;
        }
        k = k + 1;
    }
    false
}

fn section_error_exec(fields: &Vec<(String, FieldDef)>, name: &String, secs: &Vec<ContextSection>) -> (r: Option<SchemaError>)
    ensures
        match section_error(fields@, name@, secs@, 0) {
            Some(e) => r matches Some(x) && x@ == e,
            None => r is None,
        },
{
    let mut j: usize = 0;
    while j < secs.len()
        invariant
            j <= secs@.len(),
            section_error(fields@, name@, secs@, 0) == section_error(fields@, name@, secs@, j as int),
        decreases secs@.len() - j,
    {
        let sec = &secs[j];
        let is_sources = match &sec.kind {
            Some(k) => crate::strs::eq_str(&to_chars(k.as_str()), "sources"),
            None => false,
        };
        assert(is_sources == (sec.kind matches Some(k) && k@ == "sources"@));
        if sec.fields.len() == 0 && !is_sources {
            return Some(SchemaError::SectionWithoutFields { context: name.clone(), section: sec.title.clone() });
        }
        let mut f: usize = 0;
        while f < sec.fields.len()
            invariant
                j < secs@.len(),
                *sec == secs@[j as int],
                f <= sec.fields@.len(),
                section_error(fields@, name@, secs@, 0) == section_error(fields@, name@, secs@, j as int),
                !(sec.fields@.len() == 0 && !(sec.kind matches Some(k) && k@ == "sources"@)),
                undefined_in(fields@, sec.fields@, 0) == undefined_in(fields@, sec.fields@, f as int),
            decreases sec.fields@.len() - f,
        {
            if !field_defined_exec(fields, sec.fields[f].as_str()) {
                assert(undefined_in(fields@, sec.fields@, f as int) == Some(sec.fields@[f as int]@));
                return Some(SchemaError::UndefinedField {
                    context: name.clone(),
                    section: sec.title.clone(),
                    field: sec.fields[f].clone(),
                });
            }
            f = f + 1;
        }
        j = j + 1;
    }
    None
}

impl SchemaPack {
    /// Check the pack: an id, version 1, at least one field and one context;
    /// each field with sources that each name front matter or a heading;
    /// each context with sections that name fields (or are `kind: sources`),
    /// all of them defined. The first problem found is the error.
    pub fn validate(&self) -> (r: Result<(), SchemaError>)
        ensures
            match schema_error(*self) {
                Some(e) => r matches Err(x) && x@ == e,
                None => r is Ok,
            },
    {
        let idv = to_chars(self.id.as_str());
        let (a, b) = trim_idx(&idv, 0, idv.len());
        assert(idv@.subrange(0, idv@.len() as int) =~= idv@);
        if a == b {
            return Err(SchemaError::MissingId);
        }
        if self.version != 1 {
            return Err(SchemaError::UnsupportedVersion { version: self.version });
        }
        if self.fields.len() == 0 {
            return Err(SchemaError::NoFields);
        }
        if self.contexts.len() == 0 {
            return Err(SchemaError::NoContexts);
        }
        let mut i: usize = 0;
        while i < self.fields.len()
            invariant
                i <= self.fields@.len(),
                trim(self.id@).len() > 0,
                self.version == 1,
                self.fields@.len() > 0,
                self.contexts@.len() > 0,
                field_error(self.fields@, 0) == field_error(self.fields@, i as int),
            decreases self.fields@.len() - i,
        {
            let def = &self.fields[i].1;
            if def.sources.len() == 0 {
                return Err(SchemaError::FieldWithoutSources { field: self.fields[i].0.clone() });
            }
            let mut k: usize = 0;
            while k < def.sources.len()
                invariant
                    i < self.fields@.len(),
                    *def == self.fields@[i as int].1,
                    k <= def.sources@.len(),
                    def.sources@.len() > 0,
                    trim(self.id@).len() > 0,
                    self.version == 1,
                    self.fields@.len() > 0,
                    self.contexts@.len() > 0,
                    field_error(self.fields@, 0) == field_error(self.fields@, i as int),
                    forall|q: int| 0 <= q < k ==> !((#[trigger] def.sources@[q]).frontmatter is None && def.sources@[q].heading is None),
                decreases def.sources@.len() - k,
            {
                if def.sources[k].frontmatter.is_none() && def.sources[k].heading.is_none() {
                    assert(self.fields@[i as int].1.sources@[k as int] == def.sources@[k as int]);
                    assert(exists|q: int| 0 <= q < self.fields@[i as int].1.sources@.len()
                        && (#[trigger] self.fields@[i as int].1.sources@[q]).frontmatter is None
                        && self.fields@[i as int].1.sources@[q].heading is None);
                    assert(field_error(self.fields@, i as int) == Some(SchemaErrorV::SourceWithoutKey { field: self.fields@[i as int].0@ }));
                    return Err(SchemaError::SourceWithoutKey { field: self.fields[i].0.clone() });
                }
                k = k + 1;
            }
            assert(!(exists|q: int| 0 <= q < self.fields@[i as int].1.sources@.len()
                && (#[trigger] self.fields@[i as int].1.sources@[q]).frontmatter is None
                && self.fields@[i as int].1.sources@[q].heading is None));
            i = i + 1;
        }
        let mut c: usize = 0;
        while c < self.contexts.len()
            invariant
                c <= self.contexts@.len(),
                trim(self.id@).len() > 0,
                self.version == 1,
                self.fields@.len() > 0,
                self.contexts@.len() > 0,
                field_error(self.fields@, 0) is None,
                context_error(self.fields@, self.contexts@, 0) == context_error(self.fields@, self.contexts@, c as int),
            decreases self.contexts@.len() - c,
        {
            let (name, recipe) = (&self.contexts[c].0, &self.contexts[c].1);
            if recipe.sections.len() == 0 {
                return Err(SchemaError::ContextWithoutSections { context: name.clone() });
            }
            match section_error_exec(&self.fields, name, &recipe.sections) {
                Some(e) => {
                    return Err(e);
                },
                None => {},
            }
            c = c + 1;
        }
        Ok(())
    }
}

// ---------------------------------------------------------------------------
// Heading sections
// ---------------------------------------------------------------------------

/// Number of leading `'#'`.
pub open spec fn hash_run(s: Seq<char>) -> nat
    decreases s.len(),
{
    if s.len() > 0 && s[0] == '#' {
        1 + hash_run(s.drop_first())
    } else {
        0
    }
}

/// `trim_end_matches('#')`.
pub open spec fn strip_hashes(s: Seq<char>) -> Seq<char>
    decreases s.len(),
{
    if s.len() > 0 && s.last() == '#' {
        strip_hashes(s.drop_last())
    } else {
        s
    }
}

/// An ATX heading line: its level (1 to 6) and its text.
pub open spec fn heading_of(line: Seq<char>) -> Option<(nat, Seq<char>)> {
    let t = ltrim(line);
    let level = hash_run(t);
    if level == 0 || level > 6 {
        None
    } else {
        let rest = t.skip(level as int);
        if !starts_with(rest, " "@) {
            None
        } else {
            Some((level, trim(strip_hashes(trim(rest)))))
        }
    }
}

/// The body of a heading: lines after it up to `end`, blank lines at both
/// ends dropped, joined and trimmed; with its first and last line numbers (1-based).
pub open spec fn body_start(ls: Seq<Seq<char>>, s: int, end: int) -> int
    decreases end - s,
{
    if s < end && 0 <= s < ls.len() && trim(ls[s]).len() == 0 {
        body_start(ls, s + 1, end)
    } else {
        s
    }
}

pub open spec fn body_end(ls: Seq<Seq<char>>, start: int, e: int) -> int
    decreases e - start,
{
    if e > start && 0 <= e - 1 < ls.len() && trim(ls[e - 1]).len() == 0 {
        body_end(ls, start, e - 1)
    } else {
        e
    }
}

pub open spec fn heading_body(ls: Seq<Seq<char>>, heading_idx: int, end_idx: int) -> Option<(Seq<char>, int, int)> {
    let start = body_start(ls, heading_idx + 1, end_idx);
    let end = body_end(ls, start, end_idx);
    let text = trim(join(ls.subrange(start, end), "\n"@));
    if text.len() == 0 {
        None
    } else {
        Some((text, start + 1, end))
    }
}

/// Where the section of heading `target` begins (and its level), scanning from line `i`.
pub open spec fn find_heading(ls: Seq<Seq<char>>, target: Seq<char>, i: int) -> Option<(int, nat)>
    decreases ls.len() - i,
{
    if i < 0 || i >= ls.len() {
        None
    } else {
        match heading_of(ls[i]) {
            Some((level, text)) => if text == target { Some((i, level)) } else { find_heading(ls, target, i + 1) },
            None => find_heading(ls, target, i + 1),
        }
    }
}

/// The first heading after `start` at level `level` or above: where the section ends.
pub open spec fn section_end(ls: Seq<Seq<char>>, start: int, level: nat, i: int) -> int
    decreases ls.len() - i,
{
    if i < 0 || i >= ls.len() {
        ls.len() as int
    } else {
        match heading_of(ls[i]) {
            Some((l, _)) => if i > start && l <= level { i } else { section_end(ls, start, level, i + 1) },
            None => section_end(ls, start, level, i + 1),
        }
    }
}

/// The text under the first heading titled `target`, up to the next heading of
/// the same or a higher level, with its line range.
pub open spec fn section_under(body: Seq<char>, target: Seq<char>) -> Option<(Seq<char>, int, int)> {
    let ls = lines(body);
    match find_heading(ls, target, 0) {
        Some((start, level)) => heading_body(ls, start, section_end(ls, start, level, start + 1)),
        None => None,
    }
}

fn hash_run_exec(t: &[char]) -> (n: usize)
    ensures
        n as nat == hash_run(t@),
        n <= t@.len(),
{
    let mut level: usize = 0;
    assert(t@.skip(0) =~= t@);
    while level < t.len() && t[level] == '#'
        invariant
            level <= t@.len(),
            hash_run(t@) == level + hash_run(t@.skip(level as int)),
        decreases t@.len() - level,
    {
        assert(t@.skip(level as int).drop_first() =~= t@.skip(level + 1));
        level = level + 1;
    }
    proof {
        if level < t@.len() {
            assert(t@.skip(level as int)[0] == t@[level as int]);
        } else {
            assert(t@.skip(level as int) =~= Seq::<char>::empty());
        }
    }
    level
}

fn strip_hashes_idx(v: &[char], p: usize, q: usize) -> (e: usize)
    requires
        p <= q <= v@.len(),
    ensures
        p <= e <= q,
        strip_hashes(v@.subrange(p as int, q as int)) == v@.subrange(p as int, e as int),
{
    let mut e = q;
    while e > p && v[e - 1] == '#'
        invariant
            p <= e <= q <= v@.len(),
            strip_hashes(v@.subrange(p as int, q as int)) == strip_hashes(v@.subrange(p as int, e as int)),
        decreases e - p,
    {
        assert(v@.subrange(p as int, e as int).drop_last() =~= v@.subrange(p as int, e - 1));
        e = e - 1;
    }
    proof {
        if e > p {
            assert(v@.subrange(p as int, e as int).last() == v@[e - 1]);
        }
    }
    e
}

fn heading_of_exec(line: &[char]) -> (r: Option<(usize, Vec<char>)>)
    ensures
        match heading_of(line@) {
            Some((l, t)) => r matches Some(x) && x.0 as nat == l && x.1@ == t,
            None => r is None,
        },
{
    let a = ltrim_idx(line, 0, line.len());
    assert(line@.subrange(0, line@.len() as int) =~= line@);
    let t = slice_copy(line, a, line.len());
    let level = hash_run_exec(&t);
    if level == 0 || level > 6 {
        return None;
    }
    let rest = slice_copy(&t, level, t.len());
    assert(t@.subrange(level as int, t@.len() as int) =~= t@.skip(level as int));
    if !crate::strs::starts_with_str(&rest, " ") {
        return None;
    }
    let (p, q) = trim_idx(&rest, 0, rest.len());
    assert(rest@.subrange(0, rest@.len() as int) =~= rest@);
    let e = strip_hashes_idx(&rest, p, q);
    let (x, y) = trim_idx(&rest, p, e);
    Some((level, slice_copy(&rest, x, y)))
}

/// The text under heading `target` in `body`, with its first and last line numbers.
pub fn section_under_heading(body: &str, target: &str) -> (r: Option<(String, usize, usize)>)
    ensures
        match section_under(body@, target@) {
            Some((t, s, e)) => r matches Some(x) && x.0@ == t && x.1 as int == s && x.2 as int == e,
            None => r is None,
        },
{
    let ls = lines_chars(&to_chars(body));
    let ghost lv = vv(&ls);
    let tv = to_chars(target);
    let mut start: usize = 0;
    let mut level: usize = 0;
    let mut found = false;
    let mut i: usize = 0;
    while i < ls.len()
        invariant
            i <= ls@.len(),
            lv == vv(&ls),
            lv == lines(body@),
            tv@ == target@,
            !found ==> find_heading(lv, target@, 0) == find_heading(lv, target@, i as int),
            found ==> find_heading(lv, target@, 0) == Some((start as int, level as nat)) && start < i
                && section_end(lv, start as int, level as nat, start + 1) == section_end(lv, start as int, level as nat, i as int),
        decreases ls@.len() - i,
    {
        assert(lv[i as int] == ls@[i as int]@);
        match heading_of_exec(&ls[i]) {
            Some((l, text)) => {
                if !found && crate::strs::chars_eq(&text, &tv) {
                    found = true;
                    start = i;
                    level = l;
                } else if found && i > start && l <= level {
                    return heading_body_exec(&ls, start, i);
                }
            },
            None => {},
        }
        i = i + 1;
    }
    if found {
        heading_body_exec(&ls, start, ls.len())
    } else {
        None
    }
}

fn heading_body_exec(ls: &Vec<Vec<char>>, heading_idx: usize, end_idx: usize) -> (r: Option<(String, usize, usize)>)
    requires
        heading_idx < end_idx <= ls@.len(),
    ensures
        match heading_body(vv(ls), heading_idx as int, end_idx as int) {
            Some((t, s, e)) => r matches Some(x) && x.0@ == t && x.1 as int == s && x.2 as int == e,
            None => r is None,
        },
{
    let ghost lv = vv(ls);
    let mut start = heading_idx + 1;
    while start < end_idx && is_blank(&ls[start])
        invariant
            heading_idx < start <= end_idx <= ls@.len(),
            lv == vv(ls),
            body_start(lv, heading_idx + 1, end_idx as int) == body_start(lv, start as int, end_idx as int),
        decreases end_idx - start,
    {
        assert(lv[start as int] == ls@[start as int]@);
        start = start + 1;
    }
    proof {
        if start < end_idx {
            assert(lv[start as int] == ls@[start as int]@);
        }
    }
    let mut end = end_idx;
    while end > start && is_blank(&ls[end - 1])
        invariant
            start <= end <= end_idx <= ls@.len(),
            lv == vv(ls),
            body_end(lv, start as int, end_idx as int) == body_end(lv, start as int, end as int),
        decreases end - start,
    {
        assert(lv[end - 1] == ls@[end - 1]@);
        end = end - 1;
    }
    proof {
        if end > start {
            assert(lv[end - 1] == ls@[end - 1]@);
        }
    }
    let nl = ['\n'];
    assert(nl@ =~= "\n"@) by {
        reveal_strlit("\n");
    }
    let joined = crate::strs::join_range(ls, start, end, &nl);
    let (a, b) = trim_idx(&joined, 0, joined.len());
    assert(joined@.subrange(0, joined@.len() as int) =~= joined@);
    if a == b {
        return None;
    }
    Some((from_chars(&slice_copy(&joined, a, b)), start + 1, end))
}

fn is_blank(line: &Vec<char>) -> (r: bool)
    ensures
        r == (trim(line@).len() == 0),
{
    let (a, b) = trim_idx(line, 0, line.len());
    assert(line@.subrange(0, line@.len() as int) =~= line@);
    a == b
}

} // verus!
