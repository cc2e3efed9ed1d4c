//! Heading slugs.
use vstd::prelude::*;
use unicode_normalization::UnicodeNormalization;
use crate::strs::{ascii_lower, ascii_lower_exec, from_chars, is_control, is_control_exec, is_ws, is_ws_exec, to_chars};

verus! {

/// The NFKC normal form of a text, as `unicode_normalization` computes it.
pub uninterp spec fn nfkc_of(s: Seq<char>) -> Seq<char>;

/// `UnicodeNormalization::nfkc` collected into a `String`: its result is the
/// NFKC normal form of the input; the library states nothing more of it.
#[verifier::external_body]
fn nfkc(s: &str) -> (r: String)
    ensures
        r@ == nfkc_of(s@),
{
    s.nfkc().collect::<String>()
}

/// Characters that a slug drops: `.,:;!?`, backquote, quotes, brackets and
/// `@#$%^&*+=|\/~`.
pub open spec fn is_removed_punct(c: char) -> bool {
    c == '.' || c == ',' || c == ':' || c == ';' || c == '!' || c == '?' || c == '`' || c == '\''
        || c == '"' || c == '(' || c == ')' || c == '[' || c == ']' || c == '{' || c == '}' || c
        == '<' || c == '>' || c == '@' || c == '#' || c == '$' || c == '%' || c == '^' || c == '&'
        || c == '*' || c == '+' || c == '=' || c == '|' || c == '\\' || c == '/' || c == '~'
}

fn is_removed_punct_exec(c: char) -> (b: bool)
    ensures
        b == is_removed_punct(c),
{
    c == '.' || c == ',' || c == ':' || c == ';' || c == '!' || c == '?' || c == '`' || c == '\''
        || c == '"' || c == '(' || c == ')' || c == '[' || c == ']' || c == '{' || c == '}' || c
        == '<' || c == '>' || c == '@' || c == '#' || c == '$' || c == '%' || c == '^' || c == '&'
        || c == '*' || c == '+' || c == '=' || c == '|' || c == '\\' || c == '/' || c == '~'
}

/// Stage 1: ASCII lowercase; whitespace becomes `'-'`; removed punctuation and
/// control characters are dropped; everything else stays.
pub open spec fn stage(s: Seq<char>) -> Seq<char>
    decreases s.len(),
{
    if s.len() == 0 {
        seq![]
    } else {
        let c = ascii_lower(s[0]);
        let head: Seq<char> = if is_ws(c) {
            seq!['-']
        } else if is_removed_punct(c) || is_control(c) {
            seq![]
        } else {
            seq![c]
        };
        head + stage(s.drop_first())
    }
}

/// Stage 2: runs of `'-'` collapse to one (`prev_dash`: the last kept char was `'-'`).
pub open spec fn collapse(s: Seq<char>, prev_dash: bool) -> Seq<char>
    decreases s.len(),
{
    if s.len() == 0 {
        seq![]
    } else if s[0] == '-' {
        if prev_dash {
            collapse(s.drop_first(), true)
        } else {
            seq!['-'] + collapse(s.drop_first(), true)
        }
    } else {
        seq![s[0]] + collapse(s.drop_first(), false)
    }
}

pub open spec fn strip_dash_start(s: Seq<char>) -> Seq<char>
    decreases s.len(),
{
    if s.len() > 0 && s[0] == '-' {
        strip_dash_start(s.drop_first())
    } else {
        s
    }
}

pub open spec fn strip_dash_end(s: Seq<char>) -> Seq<char>
    decreases s.len(),
{
    if s.len() > 0 && s.last() == '-' {
        strip_dash_end(s.drop_last())
    } else {
        s
    }
}

/// The slug of an already normalized text.
pub open spec fn slug_of_normalized(n: Seq<char>) -> Seq<char> {
    strip_dash_end(strip_dash_start(collapse(stage(n), false)))
}

/// The slug of a heading text.
pub open spec fn slug_of(s: Seq<char>) -> Seq<char> {
    slug_of_normalized(nfkc_of(s))
}

/// The characters a slug never holds: `.,:;!?`, backquote, both quotes,
/// all brackets, and `@#$%^&*+=|\/~`.
pub open spec fn never_in_slug(c: char) -> bool {
    ".,:;!?`'\"()[]{}<>@#$%^&*+=|\\/~"@.contains(c)
}

pub open spec fn clean(s: Seq<char>) -> bool {
    forall|i: int| 0 <= i < s.len() ==> !never_in_slug(#[trigger] s[i])
}

proof fn lemma_never_in_slug_char(c: char)
    ensures
        never_in_slug(c) ==> is_removed_punct(c),
{
    reveal_strlit(".,:;!?`'\"()[]{}<>@#$%^&*+=|\\/~");
    if never_in_slug(c) {
        let k = choose|k: int| 0 <= k < ".,:;!?`'\"()[]{}<>@#$%^&*+=|\\/~"@.len() && ".,:;!?`'\"()[]{}<>@#$%^&*+=|\\/~"@[k] == c;
        assert(".,:;!?`'\"()[]{}<>@#$%^&*+=|\\/~"@ =~= seq!['.', ',', ':', ';', '!', '?', '`', '\'', '"', '(', ')', '[', ']', '{', '}', '<', '>', '@', '#', '$', '%', '^', '&', '*', '+', '=', '|', '\\', '/', '~']);
    }
}

proof fn lemma_stage_clean(s: Seq<char>)
    ensures
        clean(stage(s)),
    decreases s.len(),
{
    if s.len() > 0 {
        lemma_stage_clean(s.drop_first());
        let c = ascii_lower(s[0]);
        lemma_never_in_slug_char(c);
        lemma_never_in_slug_char('-');
        let head: Seq<char> = if is_ws(c) {
            seq!['-']
        } else if is_removed_punct(c) || is_control(c) {
            seq![]
        } else {
            seq![c]
        };
        assert(stage(s) == head + stage(s.drop_first()));
        assert forall|i: int| 0 <= i < stage(s).len() implies !never_in_slug(#[trigger] stage(s)[i]) by {
            if i >= head.len() {
                assert(stage(s)[i] == stage(s.drop_first())[i - head.len()]);
            }
        }
    }
}

proof fn lemma_collapse_clean(s: Seq<char>, prev_dash: bool)
    requires
        clean(s),
    ensures
        clean(collapse(s, prev_dash)),
    decreases s.len(),
{
    if s.len() > 0 {
        assert(clean(s.drop_first())) by {
            assert forall|i: int| 0 <= i < s.drop_first().len() implies !never_in_slug(#[trigger] s.drop_first()[i]) by {
                assert(s.drop_first()[i] == s[i + 1]);
            }
        }
        lemma_collapse_clean(s.drop_first(), true);
        lemma_collapse_clean(s.drop_first(), false);
        assert(!never_in_slug(s[0]));
        let r = collapse(s, prev_dash);
        if s[0] == '-' && prev_dash {
        } else {
            let rest = if s[0] == '-' { collapse(s.drop_first(), true) } else { collapse(s.drop_first(), false) };
            assert(r == seq![s[0]] + rest);
            assert forall|i: int| 0 <= i < r.len() implies !never_in_slug(#[trigger] r[i]) by {
                if i > 0 {
                    assert(r[i] == rest[i - 1]);
                }
            }
        }
    }
}

proof fn lemma_strip_start_clean(s: Seq<char>)
    requires
        clean(s),
    ensures
        clean(strip_dash_start(s)),
    decreases s.len(),
{
    if s.len() > 0 && s[0] == '-' {
        assert(clean(s.drop_first())) by {
            assert forall|i: int| 0 <= i < s.drop_first().len() implies !never_in_slug(#[trigger] s.drop_first()[i]) by {
                assert(s.drop_first()[i] == s[i + 1]);
            }
        }
        lemma_strip_start_clean(s.drop_first());
    }
}

proof fn lemma_strip_end_clean(s: Seq<char>)
    requires
        clean(s),
    ensures
        clean(strip_dash_end(s)),
    decreases s.len(),
{
    if s.len() > 0 && s.last() == '-' {
        assert(clean(s.drop_last())) by {
            assert forall|i: int| 0 <= i < s.drop_last().len() implies !never_in_slug(#[trigger] s.drop_last()[i]) by {
                assert(s.drop_last()[i] == s[i]);
            }
        }
        lemma_strip_end_clean(s.drop_last());
    }
}

/// Law: a slug never holds any of `.,:;!?`, backquote, both quotes, any
/// bracket, or `@#$%^&*+=|\/~`: each of them is dropped, whatever the text.
pub proof fn lemma_slug_drops_punctuation(s: Seq<char>)
    ensures
        forall|i: int| 0 <= i < slug_of_normalized(s).len() ==> !never_in_slug(#[trigger] slug_of_normalized(s)[i]),
        forall|i: int| 0 <= i < slug_of(s).len() ==> !never_in_slug(#[trigger] slug_of(s)[i]),
{
    lemma_stage_clean(s);
    lemma_collapse_clean(stage(s), false);
    lemma_strip_start_clean(collapse(stage(s), false));
    lemma_strip_end_clean(strip_dash_start(collapse(stage(s), false)));
    let n = nfkc_of(s);
    lemma_stage_clean(n);
    lemma_collapse_clean(stage(n), false);
    lemma_strip_start_clean(collapse(stage(n), false));
    lemma_strip_end_clean(strip_dash_start(collapse(stage(n), false)));
}

pub open spec fn no_double_dash(s: Seq<char>) -> bool {
    forall|i: int| 0 <= i < s.len() - 1 ==> !(#[trigger] s[i] == '-' && s[i + 1] == '-')
}

proof fn lemma_collapse_shape(s: Seq<char>, prev_dash: bool)
    ensures
        no_double_dash(collapse(s, prev_dash)),
        prev_dash ==> collapse(s, prev_dash).len() == 0 || collapse(s, prev_dash)[0] != '-',
    decreases s.len(),
{
    if s.len() > 0 {
        lemma_collapse_shape(s.drop_first(), true);
        lemma_collapse_shape(s.drop_first(), false);
        let r = collapse(s, prev_dash);
        if s[0] == '-' && prev_dash {
        } else {
            let pd = s[0] == '-';
            let rest = collapse(s.drop_first(), pd);
            assert(r == seq![s[0]] + rest);
            assert forall|i: int| 0 <= i < r.len() - 1 implies !(#[trigger] r[i] == '-' && r[i + 1] == '-') by {
                if i > 0 {
                    assert(r[i] == rest[i - 1]);
                    assert(r[i + 1] == rest[i]);
                } else {
                    assert(r[1] == rest[0]);
                }
            }
        }
    }
}

proof fn lemma_strip_start_shape(s: Seq<char>)
    requires
        no_double_dash(s),
    ensures
        no_double_dash(strip_dash_start(s)),
        strip_dash_start(s).len() == 0 || strip_dash_start(s)[0] != '-',
    decreases s.len(),
{
    if s.len() > 0 && s[0] == '-' {
        let t = s.drop_first();
        assert forall|i: int| 0 <= i < t.len() - 1 implies !(#[trigger] t[i] == '-' && t[i + 1] == '-') by {
            assert(t[i] == s[i + 1]);
            assert(t[i + 1] == s[i + 2]);
        }
        lemma_strip_start_shape(t);
    }
}

proof fn lemma_strip_end_shape(s: Seq<char>)
    requires
        no_double_dash(s),
        s.len() == 0 || s[0] != '-',
    ensures
        no_double_dash(strip_dash_end(s)),
        strip_dash_end(s).len() == 0 || (strip_dash_end(s)[0] != '-' && strip_dash_end(s).last() != '-'),
    decreases s.len(),
{
    if s.len() > 0 && s.last() == '-' {
        let t = s.drop_last();
        assert forall|i: int| 0 <= i < t.len() - 1 implies !(#[trigger] t[i] == '-' && t[i + 1] == '-') by {
            assert(t[i] == s[i]);
            assert(t[i + 1] == s[i + 1]);
        }
        if t.len() > 0 {
            assert(t[0] == s[0]);
        }
        lemma_strip_end_shape(t);
    }
}

/// Law: a slug neither starts nor ends with `-`, and never holds two `-` in
/// a row: runs of whitespace and dashes become one `-`, and those at the
/// ends are dropped.
pub proof fn lemma_slug_shape(n: Seq<char>)
    ensures
        slug_of_normalized(n).len() == 0
            || (slug_of_normalized(n)[0] != '-' && slug_of_normalized(n).last() != '-'),
        forall|i: int| 0 <= i < slug_of_normalized(n).len() - 1 ==>
            !(#[trigger] slug_of_normalized(n)[i] == '-' && slug_of_normalized(n)[i + 1] == '-'),
{
    let c = collapse(stage(n), false);
    lemma_collapse_shape(stage(n), false);
    lemma_strip_start_shape(c);
    lemma_strip_end_shape(strip_dash_start(c));
}

pub open spec fn ascii_alnum(c: char) -> bool {
    ('a' <= c && c <= 'z') || ('A' <= c && c <= 'Z') || ('0' <= c && c <= '9')
}

proof fn lemma_stage_alnum(s: Seq<char>)
    requires
        forall|i: int| 0 <= i < s.len() ==> ascii_alnum(#[trigger] s[i]),
    ensures
        stage(s) == s.map_values(|c: char| ascii_lower(c)),
    decreases s.len(),
{
    if s.len() > 0 {
        let t = s.drop_first();
        assert forall|i: int| 0 <= i < t.len() implies ascii_alnum(#[trigger] t[i]) by {
            assert(t[i] == s[i + 1]);
        }
        lemma_stage_alnum(t);
        let c = ascii_lower(s[0]);
        assert(ascii_alnum(s[0]));
        assert(!is_ws(c));
        assert(!is_removed_punct(c));
        assert(!is_control(c));
        assert(s.map_values(|c: char| ascii_lower(c)) =~= seq![c] + t.map_values(|c: char| ascii_lower(c)));
    }
}

proof fn lemma_no_dash_fixed(s: Seq<char>, pd: bool)
    requires
        forall|i: int| 0 <= i < s.len() ==> #[trigger] s[i] != '-',
    ensures
        collapse(s, pd) == s,
    decreases s.len(),
{
    if s.len() > 0 {
        let t = s.drop_first();
        assert forall|i: int| 0 <= i < t.len() implies #[trigger] t[i] != '-' by {
            assert(t[i] == s[i + 1]);
        }
        lemma_no_dash_fixed(t, false);
        assert(seq![s[0]] + t =~= s);
    }
}

/// Law: a text of ASCII letters and digits is its own slug, lowercased:
/// letters and digits are kept, in order, and nothing is added.
pub proof fn lemma_slug_keeps_alnum(s: Seq<char>)
    requires
        forall|i: int| 0 <= i < s.len() ==> ascii_alnum(#[trigger] s[i]),
    ensures
        slug_of_normalized(s).len() == s.len(),
        forall|i: int| 0 <= i < s.len() ==> #[trigger] slug_of_normalized(s)[i] == ascii_lower(s[i]),
{
    lemma_stage_alnum(s);
    let m = s.map_values(|c: char| ascii_lower(c));
    assert forall|i: int| 0 <= i < m.len() implies #[trigger] m[i] != '-' by {
        assert(ascii_alnum(s[i]));
    }
    lemma_no_dash_fixed(m, false);
    if m.len() > 0 {
        assert(m[0] != '-');
        assert(m.last() == m[m.len() - 1]);
        assert(m.last() != '-');
    }
}

proof fn lemma_stage_concat(a: Seq<char>, b: Seq<char>)
    ensures
        stage(a + b) == stage(a) + stage(b),
    decreases a.len(),
{
    if a.len() > 0 {
        assert((a + b).drop_first() =~= a.drop_first() + b);
        assert((a + b)[0] == a[0]);
        lemma_stage_concat(a.drop_first(), b);
    } else {
        assert(a + b =~= b);
    }
}

proof fn lemma_collapse_word(a: Seq<char>, b: Seq<char>, pd: bool)
    requires
        a.len() > 0,
        forall|i: int| 0 <= i < a.len() ==> #[trigger] a[i] != '-',
    ensures
        collapse(a + b, pd) == a + collapse(b, false),
    decreases a.len(),
{
    assert((a + b)[0] == a[0]);
    assert((a + b).drop_first() =~= a.drop_first() + b);
    if a.len() == 1 {
        assert(a.drop_first() + b =~= b);
        assert(seq![a[0]] + collapse(b, false) =~= a + collapse(b, false));
    } else {
        let t = a.drop_first();
        assert forall|i: int| 0 <= i < t.len() implies #[trigger] t[i] != '-' by {
            assert(t[i] == a[i + 1]);
        }
        lemma_collapse_word(t, b, false);
        assert(seq![a[0]] + (t + collapse(b, false)) =~= a + collapse(b, false));
    }
}

/// Law: two words of ASCII letters and digits with a space between them slug
/// to the two words lowercased, joined by one `-`.
pub proof fn lemma_slug_joins_words(x: Seq<char>, y: Seq<char>)
    requires
        x.len() > 0,
        y.len() > 0,
        forall|i: int| 0 <= i < x.len() ==> ascii_alnum(#[trigger] x[i]),
        forall|i: int| 0 <= i < y.len() ==> ascii_alnum(#[trigger] y[i]),
    ensures
        slug_of_normalized(x + seq![' '] + y)
            == x.map_values(|c: char| ascii_lower(c)) + seq!['-'] + y.map_values(|c: char| ascii_lower(c)),
{
    let lx = x.map_values(|c: char| ascii_lower(c));
    let ly = y.map_values(|c: char| ascii_lower(c));
    lemma_stage_alnum(x);
    lemma_stage_alnum(y);
    lemma_stage_concat(x + seq![' '], y);
    lemma_stage_concat(x, seq![' ']);
    assert(seq![' '].drop_first() =~= Seq::<char>::empty());
    assert(seq![' '][0] == ' ');
    assert(ascii_lower(' ') == ' ');
    assert(is_ws(' '));
    assert(stage(Seq::<char>::empty()) == Seq::<char>::empty());
    assert(stage(seq![' ']) == seq!['-'] + stage(seq![' '].drop_first()));
    assert(stage(seq![' ']) =~= seq!['-']);
    assert(stage(x + seq![' '] + y) =~= lx + (seq!['-'] + ly));
    assert forall|i: int| 0 <= i < lx.len() implies #[trigger] lx[i] != '-' by {
        assert(ascii_alnum(x[i]));
    }
    assert forall|i: int| 0 <= i < ly.len() implies #[trigger] ly[i] != '-' by {
        assert(ascii_alnum(y[i]));
    }
    lemma_collapse_word(lx, seq!['-'] + ly, false);
    assert((seq!['-'] + ly)[0] == '-');
    assert((seq!['-'] + ly).drop_first() =~= ly);
    lemma_no_dash_fixed(ly, true);
    assert(collapse(seq!['-'] + ly, false) == seq!['-'] + collapse(ly, true));
    let c = lx + (seq!['-'] + ly);
    assert(collapse(stage(x + seq![' '] + y), false) == c);
    assert(c[0] == lx[0]);
    assert(strip_dash_start(c) == c);
    assert(c.last() == ly.last());
    assert(ly.last() == ly[ly.len() - 1]);
    assert(strip_dash_end(c) == c);
    assert(c =~= lx + seq!['-'] + ly);
}

/// The slug of a text already in NFKC form (steps 2 to 6 below).
pub fn slugify_normalized(s: &str) -> (r: String)
    ensures
        r@ == slug_of_normalized(s@),
{
    let v = to_chars(s);
    // stage 1
    let mut st: Vec<char> = Vec::new();
    let mut i: usize = 0;
    assert(v@.skip(0) =~= v@);
    while i < v.len()
        invariant
            i <= v@.len(),
            v@ == s@,
            st@ + stage(v@.skip(i as int)) == stage(s@),
        decreases v@.len() - i,
    {
        let ghost rest = v@.skip(i as int);
        assert(rest.drop_first() =~= v@.skip(i + 1));
        let c = ascii_lower_exec(v[i]);
        if is_ws_exec(c) {
            st.push('-');
        } else if is_removed_punct_exec(c) || is_control_exec(c) {
        } else {
            st.push(c);
        }
        i = i + 1;
        proof {
            let ghost head: Seq<char> = if is_ws(c) {
                seq!['-']
            } else if is_removed_punct(c) || is_control(c) {
                seq![]
            } else {
                seq![c]
            };
            assert(stage(rest) == head + stage(rest.drop_first()));
        }
        assert(st@ + stage(v@.skip(i as int)) =~= stage(s@));
    }
    assert(v@.skip(i as int) =~= Seq::<char>::empty());
    assert(st@ + Seq::<char>::empty() =~= st@);
    // stage 2
    let mut co: Vec<char> = Vec::new();
    let mut prev = false;
    let mut j: usize = 0;
    assert(st@.skip(0) =~= st@);
    while j < st.len()
        invariant
            j <= st@.len(),
            st@ == stage(s@),
            co@ + collapse(st@.skip(j as int), prev) == collapse(stage(s@), false),
        decreases st@.len() - j,
    {
        let ghost rest = st@.skip(j as int);
        assert(rest.drop_first() =~= st@.skip(j + 1));
        if st[j] == '-' {
            if !prev {
                co.push('-');
            }
            prev = true;
        } else {
            co.push(st[j]);
            prev = false;
        }
        j = j + 1;
        assert(co@ + collapse(st@.skip(j as int), prev) =~= collapse(stage(s@), false));
    }
    assert(st@.skip(j as int) =~= Seq::<char>::empty());
    assert(co@ + Seq::<char>::empty() =~= co@);
    // strip leading / trailing dashes
    let mut a: usize = 0;
    assert(co@.skip(0) =~= co@);
    while a < co.len() && co[a] == '-'
        invariant
            a <= co@.len(),
            strip_dash_start(co@) == strip_dash_start(co@.skip(a as int)),
        decreases co@.len() - a,
    {
        assert(co@.skip(a as int).drop_first() =~= co@.skip(a + 1));
        a = a + 1;
    }
    let mut b: usize = co.len();
    assert(co@.skip(a as int).subrange(0, (b - a) as int) =~= co@.skip(a as int));
    while b > a && co[b - 1] == '-'
        invariant
            a <= b <= co@.len(),
            strip_dash_end(co@.skip(a as int)) == strip_dash_end(co@.subrange(a as int, b as int)),
        decreases b - a,
    {
        assert(co@.subrange(a as int, b as int).drop_last() =~= co@.subrange(a as int, b - 1));
        b = b - 1;
    }
    assert(co@.skip(a as int) =~= co@.subrange(a as int, co@.len() as int));
    let out = crate::strs::slice_copy(&co, a, b);
    from_chars(&out)
}

/// The slug of a heading:
///
/// 1. Unicode NFKC normalization
/// 2. ASCII capitals become lower case
/// 3. whitespace becomes `-`
/// 4. the punctuation `.,:;!?`, backquotes, quotes, brackets, `@#$%^&*+=|\/~` and control characters are dropped
/// 5. runs of `-` become one, and leading and trailing `-` are dropped
/// 6. Japanese, CJK and other Unicode letters stay as they are
pub fn slugify(s: &str) -> (r: String)
    ensures
        r@ == slug_of(s@),
{
    let n = nfkc(s);
    slugify_normalized(n.as_str())
}

} // verus!
