//! Regular-expression matching, done by the `regex` crate. Its results are
//! named here, not restated: the library's contracts speak of these names.
use vstd::prelude::*;

verus! {

/// What `Regex::new(pattern)` followed by `replace_all(text, rep)` gives:
/// `None` when the pattern does not compile.
pub uninterp spec fn regex_replaced(pattern: Seq<char>, text: Seq<char>, rep: Seq<char>) -> Option<Seq<char>>;

/// What `Regex::new(pattern)` followed by `captures(text)` gives: `None` when
/// the pattern does not compile or does not match, else each capture group
/// (group 0 first) as the text it matched, if it took part in the match.
pub uninterp spec fn regex_captures(pattern: Seq<char>, text: Seq<char>) -> Option<Seq<Option<Seq<char>>>>;

/// `regex::Regex::new` then `Regex::replace_all`: the result depends on the
/// pattern, the text and the replacement alone, and is `regex_replaced` of them.
#[verifier::external_body]
pub(crate) fn replace_all(pattern: &str, text: &str, rep: &str) -> (r: Option<String>)
    ensures
        match r {
            Some(s) => regex_replaced(pattern@, text@, rep@) == Some(s@),
            None => regex_replaced(pattern@, text@, rep@) is None,
        },
{
    match regex::Regex::new(pattern) {
        Ok(re) => Some(re.replace_all(text, rep).into_owned()),
        Err(_) => None,
    }
}

/// The view of a list of optional texts.
pub open spec fn groups_view(v: Seq<Option<String>>) -> Seq<Option<Seq<char>>> {
    v.map_values(|g: Option<String>| match g {
        Some(s) => Some(s@),
        None => None,
    })
}

/// `regex::Regex::new` then `Regex::captures`: the groups of the first match,
/// a function of the pattern and the text alone, named `regex_captures`.
#[verifier::external_body]
pub(crate) fn captures(pattern: &str, text: &str) -> (r: Option<Vec<Option<String>>>)
    ensures
        match r {
            Some(g) => regex_captures(pattern@, text@) == Some(groups_view(g@)),
            None => regex_captures(pattern@, text@) is None,
        },
{
    let re = match regex::Regex::new(pattern) {
        Ok(re) => re,
        Err(_) => return None,
    };
    let caps = re.captures(text)?;
    let mut groups = Vec::new();
    for m in caps.iter() {
        groups.push(m.map(|m| m.as_str().to_string()));
    }
    Some(groups)
}

/// What `Regex::new(pattern)` followed by `captures_iter(text)` gives: `None`
/// when the pattern does not compile, else the groups of each match, in order.
pub uninterp spec fn regex_all_captures(pattern: Seq<char>, text: Seq<char>) -> Option<Seq<Seq<Option<Seq<char>>>>>;

/// `regex::Regex::new` then `Regex::captures_iter`: the groups of every
/// match, a function of the pattern and the text alone, named `regex_all_captures`.
#[verifier::external_body]
pub(crate) fn captures_all(pattern: &str, text: &str) -> (r: Option<Vec<Vec<Option<String>>>>)
    ensures
        match r {
            Some(all) => regex_all_captures(pattern@, text@) == Some(all@.map_values(|g: Vec<Option<String>>| groups_view(g@))),
            None => regex_all_captures(pattern@, text@) is None,
        },
{
    let re = match regex::Regex::new(pattern) {
        Ok(re) => re,
        Err(_) => return None,
    };
    let mut all = Vec::new();
    for caps in re.captures_iter(text) {
        all.push(caps.iter().map(|m| m.map(|m| m.as_str().to_string())).collect());
    }
    Some(all)
}

} // verus!
