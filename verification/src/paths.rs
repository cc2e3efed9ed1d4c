//! Output-relative paths. A path is a text whose components are separated by
//! `'/'`; empty components, `"."` and `".."` are not normal components and
//! are dropped when a path is joined or normalised.
use vstd::prelude::*;
use crate::num::{first_free, first_free_name, numbered};
use crate::strs::{
    chars_eq, concat, from_chars, is_control, is_control_exec, join, join_chars, push_all,
    slice_copy, split_chars, split_on, to_chars, vv,
};

verus! {

broadcast use vstd::seq_lib::group_seq_properties;

// ---------------------------------------------------------------------------
// Components
// ---------------------------------------------------------------------------

pub open spec fn is_normal(c: Seq<char>) -> bool {
    c.len() > 0 && c != seq!['.'] && c != seq!['.', '.']
}

/// Keep the normal components.
pub open spec fn keep_normal(cs: Seq<Seq<char>>) -> Seq<Seq<char>>
    decreases cs.len(),
{
    if cs.len() == 0 {
        seq![]
    } else if is_normal(cs[0]) {
        seq![cs[0]] + keep_normal(cs.drop_first())
    } else {
        keep_normal(cs.drop_first())
    }
}

/// The normal components of a path.
pub open spec fn components(p: Seq<char>) -> Seq<Seq<char>> {
    keep_normal(split_on(p, '/'))
}

/// Components joined with `'/'`.
pub open spec fn path_of(cs: Seq<Seq<char>>) -> Seq<char> {
    join(cs, seq!['/'])
}

pub fn is_normal_exec(c: &[char]) -> (b: bool)
    ensures
        b == is_normal(c@),
{
    let dot = ['.'];
    let dotdot = ['.', '.'];
    assert(dot@ =~= seq!['.']);
    assert(dotdot@ =~= seq!['.', '.']);
    c.len() > 0 && !chars_eq(c, &dot) && !chars_eq(c, &dotdot)
}

/// The normal components of a path.
pub fn components_exec(p: &[char]) -> (r: Vec<Vec<char>>)
    ensures
        vv(&r) == components(p@),
        forall|i: int| 0 <= i < r@.len() ==> is_normal(#[trigger] vv(&r)[i]),
{
    let pieces = split_chars(p, '/');
    let mut r: Vec<Vec<char>> = Vec::new();
    let mut i: usize = 0;
    assert(vv(&pieces).skip(0) =~= vv(&pieces));
    assert(vv(&r) =~= Seq::<Seq<char>>::empty());
    while i < pieces.len()
        invariant
            i <= pieces@.len(),
            vv(&pieces) == split_on(p@, '/'),
            vv(&r) + keep_normal(vv(&pieces).skip(i as int)) == components(p@),
            forall|k: int| 0 <= k < r@.len() ==> is_normal(#[trigger] vv(&r)[k]),
        decreases pieces@.len() - i,
    {
        let ghost rest = vv(&pieces).skip(i as int);
        assert(rest[0] == pieces@[i as int]@);
        assert(rest.drop_first() =~= vv(&pieces).skip(i + 1));
        if is_normal_exec(&pieces[i]) {
            let ghost before = vv(&r);
            r.push(slice_copy(&pieces[i], 0, pieces[i].len()));
            assert(pieces@[i as int]@.subrange(0, pieces@[i as int]@.len() as int) =~= pieces@[i as int]@);
            assert(vv(&r) =~= before.push(pieces@[i as int]@));
        }
        i = i + 1;
    }
    assert(vv(&pieces).skip(i as int) =~= Seq::<Seq<char>>::empty());
    assert(vv(&r) + Seq::<Seq<char>>::empty() =~= vv(&r));
    r
}

fn slash() -> (r: [char; 1])
    ensures
        r@ == seq!['/'],
{
    let r = ['/'];
    assert(r@ =~= seq!['/']);
    r
}

/// `a/b` for two texts (`b` alone when `a` is empty).
pub open spec fn join2(a: Seq<char>, b: Seq<char>) -> Seq<char> {
    if a.len() == 0 {
        b
    } else {
        a + seq!['/'] + b
    }
}

pub fn join2_exec(a: &[char], b: &[char]) -> (r: Vec<char>)
    ensures
        r@ == join2(a@, b@),
{
    if a.len() == 0 {
        vstd::slice::slice_to_vec(b)
    } else {
        let mut r = vstd::slice::slice_to_vec(a);
        r.push('/');
        push_all(&mut r, b);
        r
    }
}

// ---------------------------------------------------------------------------
// Sanitizing
// ---------------------------------------------------------------------------

/// Characters a file name cannot hold: `<>:"|?*\` and control characters.
pub open spec fn is_forbidden(c: char) -> bool {
    c == '<' || c == '>' || c == ':' || c == '"' || c == '|' || c == '?' || c == '*' || c == '\\'
        || is_control(c)
}

pub open spec fn sanitize(s: Seq<char>) -> Seq<char> {
    s.map_values(|c: char| if is_forbidden(c) { '_' } else { c })
}

fn sanitize_chars(v: &[char]) -> (r: Vec<char>)
    ensures
        r@ == sanitize(v@),
{
    let mut r: Vec<char> = Vec::new();
    let mut i: usize = 0;
    while i < v.len()
        invariant
            i <= v@.len(),
            r@ == sanitize(v@.take(i as int)),
        decreases v@.len() - i,
    {
        let c = v[i];
        let f = c == '<' || c == '>' || c == ':' || c == '"' || c == '|' || c == '?' || c == '*'
            || c == '\\' || is_control_exec(c);
        r.push(if f { '_' } else { c });
        i = i + 1;
        assert(r@ =~= sanitize(v@.take(i as int)));
    }
    assert(v@.take(v@.len() as int) =~= v@);
    r
}

/// Replace the characters a file name cannot hold with `_`.
pub fn sanitize_component(name: &str) -> (r: String)
    ensures
        r@ == sanitize(name@),
{
    from_chars(&sanitize_chars(&to_chars(name)))
}

pub open spec fn sanitized_components(p: Seq<char>) -> Seq<Seq<char>> {
    components(p).map_values(|c: Seq<char>| sanitize(c))
}

fn sanitized_components_exec(p: &[char]) -> (r: Vec<Vec<char>>)
    ensures
        vv(&r) == sanitized_components(p@),
{
    let cs = components_exec(p);
    let mut r: Vec<Vec<char>> = Vec::new();
    let mut i: usize = 0;
    while i < cs.len()
        invariant
            i <= cs@.len(),
            vv(&cs) == components(p@),
            vv(&r) == vv(&cs).take(i as int).map_values(|c: Seq<char>| sanitize(c)),
        decreases cs@.len() - i,
    {
        let ghost before = vv(&r);
        crate::strs::push_vec(&mut r, sanitize_chars(&cs[i]));
        assert(vv(&cs).take(i + 1) =~= vv(&cs).take(i as int).push(vv(&cs)[i as int]));
        i = i + 1;
        assert(vv(&r) =~= vv(&cs).take(i as int).map_values(|c: Seq<char>| sanitize(c)));
    }
    assert(vv(&cs).take(cs@.len() as int) =~= vv(&cs));
    r
}

/// Sanitize each component of a path.
pub fn sanitize_path(p: &str) -> (r: String)
    ensures
        r@ == path_of(sanitized_components(p@)),
{
    let cs = sanitized_components_exec(&to_chars(p));
    let sep = slash();
    from_chars(&join_chars(&cs, &sep))
}

/// The output path of a note, `notes/<sanitized source>`.
pub fn note_path(source_file: &str) -> (r: String)
    ensures
        r@ == seq!['n', 'o', 't', 'e', 's', '/'] + path_of(sanitized_components(source_file@)),
{
    let cs = sanitized_components_exec(&to_chars(source_file));
    let sep = slash();
    let mut r = vec!['n', 'o', 't', 'e', 's', '/'];
    push_all(&mut r, &join_chars(&cs, &sep));
    from_chars(&r)
}

// ---------------------------------------------------------------------------
// File names
// ---------------------------------------------------------------------------

/// Index of the last `'.'` of a file name, or -1.
pub open spec fn last_dot(name: Seq<char>) -> int
    decreases name.len(),
{
    if name.len() == 0 {
        -1
    } else if name.last() == '.' {
        name.len() - 1
    } else {
        last_dot(name.drop_last())
    }
}

pub proof fn lemma_last_dot_bounds(name: Seq<char>)
    ensures
        -1 <= last_dot(name) < name.len(),
        last_dot(name) >= 0 ==> name[last_dot(name)] == '.',
    decreases name.len(),
{
    if name.len() > 0 && name.last() != '.' {
        lemma_last_dot_bounds(name.drop_last());
    }
}

/// `Path::file_stem` of a file name.
pub open spec fn stem(name: Seq<char>) -> Seq<char> {
    if last_dot(name) <= 0 {
        name
    } else {
        name.take(last_dot(name))
    }
}

/// `Path::extension` of a file name (`""` when there is none).
pub open spec fn extension(name: Seq<char>) -> Seq<char> {
    if last_dot(name) <= 0 {
        seq![]
    } else {
        name.skip(last_dot(name) + 1)
    }
}

fn last_dot_exec(name: &[char]) -> (r: usize)
    ensures
        r as int == last_dot(name@) + 1,
{
    let mut j = name.len();
    while j > 0 && name[j - 1] != '.'
        invariant
            j <= name@.len(),
            last_dot(name@) == last_dot(name@.take(j as int)),
        decreases j,
    {
        assert(name@.take(j as int).drop_last() =~= name@.take(j - 1));
        j = j - 1;
    }
    proof {
        if j > 0 {
            assert(name@.take(j as int).last() == '.');
        }
    }
    j
}

pub fn stem_exec(name: &[char]) -> (r: Vec<char>)
    ensures
        r@ == stem(name@),
{
    let d = last_dot_exec(name);
    proof {
        lemma_last_dot_bounds(name@);
    }
    if d <= 1 {
        vstd::slice::slice_to_vec(name)
    } else {
        slice_copy(name, 0, d - 1)
    }
}

pub fn extension_exec(name: &[char]) -> (r: Vec<char>)
    ensures
        r@ == extension(name@),
{
    let d = last_dot_exec(name);
    proof {
        lemma_last_dot_bounds(name@);
    }
    if d <= 1 {
        Vec::new()
    } else {
        slice_copy(name, d, name.len())
    }
}

// ---------------------------------------------------------------------------
// Output paths of a note
// ---------------------------------------------------------------------------

pub open spec fn fragments_prefix() -> Seq<char> {
    seq!['f', 'r', 'a', 'g', 'm', 'e', 'n', 't', 's']
}

/// The components of a source path with the file name replaced by its stem.
pub open spec fn stem_components(src: Seq<char>) -> Seq<Seq<char>> {
    let cs = sanitized_components(src);
    if cs.len() == 0 {
        cs
    } else {
        cs.drop_last().push(stem(cs.last()))
    }
}

/// The directory of an entry page, `fragments/<rel without extension>`.
pub open spec fn entry_dir_of(src: Seq<char>) -> Seq<char> {
    path_of(seq![fragments_prefix()] + stem_components(src))
}

pub open spec fn index_md() -> Seq<char> {
    seq!['i', 'n', 'd', 'e', 'x', '.', 'm', 'd']
}

/// The entry page `fragments/<rel without extension>/index.md`.
pub open spec fn entry_index_of(src: Seq<char>) -> Seq<char> {
    entry_dir_of(src) + seq!['/'] + index_md()
}

/// The entry directory of a note's output pages.
pub fn entry_dir_path(source_file: &str) -> (r: String)
    ensures
        r@ == entry_dir_of(source_file@),
{
    let cs = sanitized_components_exec(&to_chars(source_file));
    let mut parts: Vec<Vec<char>> = Vec::new();
    parts.push(vec!['f', 'r', 'a', 'g', 'm', 'e', 'n', 't', 's']);
    let mut i: usize = 0;
    assert(vv(&parts) =~= seq![fragments_prefix()]);
    while i < cs.len()
        invariant
            i <= cs@.len(),
            vv(&cs) == sanitized_components(source_file@),
            vv(&parts) == seq![fragments_prefix()] + (if i == cs@.len() { stem_components(source_file@) } else { vv(&cs).take(i as int) }),
        decreases cs@.len() - i,
    {
        let ghost before = vv(&parts);
        if i + 1 == cs.len() {
            crate::strs::push_vec(&mut parts, stem_exec(&cs[i]));
            assert(vv(&cs).drop_last() =~= vv(&cs).take(i as int));
        } else {
            crate::strs::push_vec(&mut parts, slice_copy(&cs[i], 0, cs[i].len()));
            assert(cs@[i as int]@.subrange(0, cs@[i as int]@.len() as int) =~= cs@[i as int]@);
            assert(vv(&cs).take(i + 1) =~= vv(&cs).take(i as int).push(vv(&cs)[i as int]));
        }
        i = i + 1;
        assert(vv(&parts) =~= seq![fragments_prefix()] + (if i == cs@.len() { stem_components(source_file@) } else { vv(&cs).take(i as int) }));
    }
    proof {
        if cs@.len() == 0 {
            assert(vv(&parts) =~= seq![fragments_prefix()] + stem_components(source_file@));
        }
    }
    let sep = slash();
    from_chars(&join_chars(&parts, &sep))
}

/// The output path of an entry page.
pub fn entry_index_path(source_file: &str) -> (r: String)
    ensures
        r@ == entry_index_of(source_file@),
{
    let d = entry_dir_path(source_file);
    let mut v = to_chars(d.as_str());
    v.push('/');
    push_all(&mut v, &['i', 'n', 'd', 'e', 'x', '.', 'm', 'd']);
    assert(v@ =~= entry_index_of(source_file@));
    from_chars(&v)
}

pub open spec fn md_ext() -> Seq<char> {
    seq!['.', 'm', 'd']
}

/// An h2 fragment page `<entry_dir>/<slug>.md`.
pub fn fragment_leaf_path(entry_dir: &str, slug: &str) -> (r: String)
    ensures
        r@ == join2(entry_dir@, slug@ + md_ext()),
{
    let mut name = to_chars(slug);
    push_all(&mut name, &['.', 'm', 'd']);
    assert(name@ =~= slug@ + md_ext());
    from_chars(&join2_exec(&to_chars(entry_dir), &name))
}

/// A shell page `<entry_dir>/<slug>/index.md`.
pub fn shell_index_path(entry_dir: &str, slug: &str) -> (r: String)
    ensures
        r@ == join2(join2(entry_dir@, slug@), index_md()),
{
    let d = join2_exec(&to_chars(entry_dir), &to_chars(slug));
    let idx = ['i', 'n', 'd', 'e', 'x', '.', 'm', 'd'];
    assert(idx@ =~= index_md());
    from_chars(&join2_exec(&d, &idx))
}

/// An h3 child page `<entry_dir>/<shell slug>/<child slug>.md`.
pub fn h3_leaf_path(entry_dir: &str, shell_slug: &str, child_slug: &str) -> (r: String)
    ensures
        r@ == join2(join2(entry_dir@, shell_slug@), child_slug@ + md_ext()),
{
    let d = join2_exec(&to_chars(entry_dir), &to_chars(shell_slug));
    let mut name = to_chars(child_slug);
    push_all(&mut name, &['.', 'm', 'd']);
    assert(name@ =~= child_slug@ + md_ext());
    from_chars(&join2_exec(&d, &name))
}

// ---------------------------------------------------------------------------
// Relative links
// ---------------------------------------------------------------------------

/// Length of the common prefix of two component sequences.
pub open spec fn common_len(a: Seq<Seq<char>>, b: Seq<Seq<char>>) -> nat
    decreases a.len(),
{
    if a.len() > 0 && b.len() > 0 && a[0] == b[0] {
        1 + common_len(a.drop_first(), b.drop_first())
    } else {
        0
    }
}

/// The components of the directory holding `from`.
pub open spec fn parent_components(from: Seq<char>) -> Seq<Seq<char>> {
    let cs = components(from);
    if cs.len() == 0 {
        cs
    } else {
        cs.drop_last()
    }
}

/// The relative link from the page `from` to `to`: `..` for each directory of
/// `from` not shared with `to`, then the rest of `to`; `"."` when empty.
pub open spec fn relative(from: Seq<char>, to: Seq<char>) -> Seq<char> {
    let fc = parent_components(from);
    let tc = components(to);
    let c = common_len(fc, tc);
    let parts = Seq::new((fc.len() - c) as nat, |i: int| seq!['.', '.']) + tc.skip(c as int);
    if parts.len() == 0 {
        seq!['.']
    } else {
        path_of(parts)
    }
}

pub proof fn lemma_common_len(a: Seq<Seq<char>>, b: Seq<Seq<char>>)
    ensures
        common_len(a, b) <= a.len(),
        common_len(a, b) <= b.len(),
        forall|i: int| 0 <= i < common_len(a, b) ==> a[i] == b[i],
        common_len(a, b) < a.len() && common_len(a, b) < b.len() ==> a[common_len(a, b) as int] != b[common_len(a, b) as int],
    decreases a.len(),
{
    if a.len() > 0 && b.len() > 0 && a[0] == b[0] {
        lemma_common_len(a.drop_first(), b.drop_first());
        assert forall|i: int| 0 <= i < common_len(a, b) implies a[i] == b[i] by {
            if i > 0 {
                assert(a[i] == a.drop_first()[i - 1]);
                assert(b[i] == b.drop_first()[i - 1]);
            }
        }
    }
}

pub proof fn lemma_common_len_char(a: Seq<Seq<char>>, b: Seq<Seq<char>>, k: int)
    requires
        0 <= k <= a.len(),
        k <= b.len(),
        forall|i: int| 0 <= i < k ==> a[i] == b[i],
        k == a.len() || k == b.len() || a[k] != b[k],
    ensures
        common_len(a, b) == k,
    decreases a.len(),
{
    if k > 0 {
        assert forall|i: int| 0 <= i < k - 1 implies a.drop_first()[i] == b.drop_first()[i] by {
            assert(a.drop_first()[i] == a[i + 1]);
        }
        lemma_common_len_char(a.drop_first(), b.drop_first(), k - 1);
    }
}

/// The relative link between two paths under the output root;
/// `from` is a file, and the link is relative to its directory.
pub fn relative_link(from: &str, to: &str) -> (r: String)
    ensures
        r@ == relative(from@, to@),
{
    let mut fc = components_exec(&to_chars(from));
    if fc.len() > 0 {
        let ghost before = vv(&fc);
        fc.pop();
        assert(vv(&fc) =~= before.drop_last());
    }
    let tc = components_exec(&to_chars(to));
    let mut c: usize = 0;
    while c < fc.len() && c < tc.len() && chars_eq(&fc[c], &tc[c])
        invariant
            c <= fc@.len(),
            c <= tc@.len(),
            forall|i: int| 0 <= i < c ==> vv(&fc)[i] == vv(&tc)[i],
        decreases fc@.len() - c,
    {
        c = c + 1;
    }
    proof {
        lemma_common_len_char(vv(&fc), vv(&tc), c as int);
    }
    let mut parts: Vec<Vec<char>> = Vec::new();
    let mut i: usize = 0;
    while i < fc.len() - c
        invariant
            c <= fc@.len(),
            i <= fc@.len() - c,
            vv(&parts) == Seq::new(i as nat, |k: int| seq!['.', '.']),
        decreases fc@.len() - c - i,
    {
        let dd = vec!['.', '.'];
        assert(dd@ =~= seq!['.', '.']);
        crate::strs::push_vec(&mut parts, dd);
        i = i + 1;
        assert(vv(&parts) =~= Seq::new(i as nat, |k: int| seq!['.', '.']));
    }
    let mut j = c;
    let ghost ups = vv(&parts);
    while j < tc.len()
        invariant
            c <= j <= tc@.len(),
            vv(&parts) == ups + vv(&tc).subrange(c as int, j as int),
        decreases tc@.len() - j,
    {
        let ghost before = vv(&parts);
        crate::strs::push_vec(&mut parts, slice_copy(&tc[j], 0, tc[j].len()));
        assert(tc@[j as int]@.subrange(0, tc@[j as int]@.len() as int) =~= tc@[j as int]@);
        j = j + 1;
        assert(vv(&parts) =~= ups + vv(&tc).subrange(c as int, j as int));
    }
    assert(vv(&tc).subrange(c as int, tc@.len() as int) =~= vv(&tc).skip(c as int));
    if parts.len() == 0 {
        let dot = vec!['.'];
        assert(dot@ =~= seq!['.']);
        from_chars(&dot)
    } else {
        let sep = slash();
        from_chars(&join_chars(&parts, &sep))
    }
}

// ---------------------------------------------------------------------------
// Conflicts
// ---------------------------------------------------------------------------

/// The parent directory and file name of a path (its last normal component).
pub open spec fn parent_dir(p: Seq<char>) -> Seq<char> {
    path_of(parent_components(p))
}

pub open spec fn file_name(p: Seq<char>) -> Seq<char> {
    let cs = components(p);
    if cs.len() == 0 {
        seq![]
    } else {
        cs.last()
    }
}

/// `parent/stem-` and `.ext` (or `""`): the parts around the number of a
/// renamed path.
pub open spec fn conflict_prefix(p: Seq<char>) -> Seq<char> {
    join2(parent_dir(p), stem(file_name(p))) + seq!['-']
}

pub open spec fn conflict_suffix(p: Seq<char>) -> Seq<char> {
    if extension(file_name(p)).len() == 0 {
        seq![]
    } else {
        seq!['.'] + extension(file_name(p))
    }
}

/// `path` when unused, else `parent/stem-N.ext` with the least free `N >= 1`.
pub open spec fn resolve_conflict_spec(p: Seq<char>, used: Set<Seq<char>>) -> Seq<char> {
    if !used.contains(p) {
        p
    } else {
        numbered(conflict_prefix(p), first_free(conflict_prefix(p), conflict_suffix(p), used), conflict_suffix(p))
    }
}

pub open spec fn strings_set(v: Seq<String>) -> Set<Seq<char>> {
    v.map_values(|s: String| s@).to_set()
}

/// Resolve a clash of output paths with a `-N` suffix; the result is recorded in `used`.
#[verifier::rlimit(40)]
pub fn resolve_conflict(path: String, used: &mut Vec<String>) -> (r: String)
    requires
        old(used)@.len() < usize::MAX,
    ensures
        r@ == resolve_conflict_spec(path@, strings_set(old(used)@)),
        final(used)@ == old(used)@.push(r),
{
    let mut uv: Vec<Vec<char>> = Vec::new();
    let mut i: usize = 0;
    while i < used.len()
        invariant
            i <= used@.len(),
            vv(&uv) == used@.take(i as int).map_values(|s: String| s@),
        decreases used@.len() - i,
    {
        crate::strs::push_vec(&mut uv, to_chars(used[i].as_str()));
        assert(used@.take(i + 1) =~= used@.take(i as int).push(used@[i as int]));
        i = i + 1;
        assert(vv(&uv) =~= used@.take(i as int).map_values(|s: String| s@));
    }
    assert(used@.take(used@.len() as int) =~= used@);
    let pv = to_chars(path.as_str());
    if !crate::num::contains_chars(&uv, &pv) {
        used.push(path.clone());
        return path;
    }
    let cs = components_exec(&pv);
    let mut parent = components_exec(&pv);
    let name: Vec<char> = if cs.len() > 0 {
        let ghost before = vv(&parent);
        parent.pop();
        assert(vv(&parent) =~= before.drop_last());
        slice_copy(&cs[cs.len() - 1], 0, cs[cs.len() - 1].len())
    } else {
        Vec::new()
    };
    proof {
        if cs@.len() > 0 {
            assert(cs@[cs@.len() - 1]@.subrange(0, cs@[cs@.len() - 1]@.len() as int) =~= cs@[cs@.len() - 1]@);
            assert(vv(&cs).last() == cs@[cs@.len() - 1]@);
        }
    }
    let sep = slash();
    let parent_path = join_chars(&parent, &sep);
    let mut prefix = join2_exec(&parent_path, &stem_exec(&name));
    prefix.push('-');
    let ext = extension_exec(&name);
    let suffix: Vec<char> = if ext.len() == 0 {
        Vec::new()
    } else {
        let mut s = vec!['.'];
        push_all(&mut s, &ext);
        s
    };
    proof {
        assert(prefix@ =~= conflict_prefix(path@));
        if ext@.len() == 0 {
            assert(suffix@ =~= conflict_suffix(path@));
        } else {
            assert(suffix@ =~= conflict_suffix(path@));
        }
    }
    assert(uv@.len() == used@.len());
    let (_, cand) = first_free_name(&prefix, &suffix, &uv);
    let r = from_chars(&cand);
    used.push(r.clone());
    r
}

} // verus!

verus! {

/// The directory holding a path.
pub fn parent_dir_exec(p: &str) -> (r: String)
    ensures
        r@ == parent_dir(p@),
{
    let mut cs = components_exec(&to_chars(p));
    if cs.len() > 0 {
        let ghost before = vv(&cs);
        cs.pop();
        assert(vv(&cs) =~= before.drop_last());
    }
    let sep = slash();
    from_chars(&join_chars(&cs, &sep))
}

/// The last normal component of a path (`""` when there is none).
pub fn file_name_exec(p: &str) -> (r: Vec<char>)
    ensures
        r@ == file_name(p@),
{
    let cs = components_exec(&to_chars(p));
    if cs.len() == 0 {
        Vec::new()
    } else {
        let last = &cs[cs.len() - 1];
        assert(last@.subrange(0, last@.len() as int) =~= last@);
        slice_copy(last, 0, last.len())
    }
}

} // verus!
