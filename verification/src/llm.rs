//! What a language model answers for one outline node, and where its JSON
//! object stands in the reply. Running the model is a process outside this
//! library; decoding the JSON is done where the process is run.
use vstd::prelude::*;
use crate::strs::{from_chars, slice_copy, to_chars};

verus! {

/// One key file of a node as the model describes it.
pub struct KeyFileContent {
    pub path: String,
    pub description: String,
}

/// A node's contents as the model writes them.
pub struct NodeContent {
    pub summary: String,
    pub key_files: Vec<KeyFileContent>,
    pub responsibilities: Vec<String>,
}

/// Position of the first `c` in `s`, if any.
pub open spec fn first_of(s: Seq<char>, c: char) -> Option<int>
    decreases s.len(),
{
    if s.len() == 0 {
        None
    } else if s[0] == c {
        Some(0)
    } else {
        match first_of(s.drop_first(), c) {
            Some(i) => Some(i + 1),
            None => None,
        }
    }
}

/// Position of the last `c` in `s`, if any.
pub open spec fn last_of(s: Seq<char>, c: char) -> Option<int>
    decreases s.len(),
{
    if s.len() == 0 {
        None
    } else if s.last() == c {
        Some(s.len() - 1)
    } else {
        last_of(s.drop_last(), c)
    }
}

/// The reply's text cannot be cut between its first `{` and last `}`: the
/// last `}` stands before the first `{`.
pub open spec fn span_reversed(text: Seq<char>) -> bool {
    match (first_of(text, '{'), last_of(text, '}')) {
        (Some(a), Some(b)) => b < a,
        _ => false,
    }
}

/// The text from the first `{` through the last `}`, where both occur.
pub open spec fn json_span_of(text: Seq<char>) -> Option<Seq<char>> {
    match (first_of(text, '{'), last_of(text, '}')) {
        (Some(a), Some(b)) => Some(text.subrange(a, b + 1)),
        _ => None,
    }
}

proof fn lemma_first_of(s: Seq<char>, c: char, j: int)
    requires
        0 <= j <= s.len(),
        forall|k: int| 0 <= k < j ==> s[k] != c,
    ensures
        j < s.len() && s[j] == c ==> first_of(s, c) == Some(j),
        j == s.len() ==> first_of(s, c) is None,
    decreases s.len(),
{
    if s.len() > 0 && j > 0 {
        assert forall|k: int| 0 <= k < j - 1 implies s.drop_first()[k] != c by {
            assert(s.drop_first()[k] == s[k + 1]);
        }
        lemma_first_of(s.drop_first(), c, j - 1);
    }
}

proof fn lemma_last_of(s: Seq<char>, c: char, j: int)
    requires
        0 <= j <= s.len(),
        forall|k: int| j <= k < s.len() ==> s[k] != c,
    ensures
        j > 0 && s[j - 1] == c ==> last_of(s, c) == Some(j - 1),
        j == 0 ==> last_of(s, c) is None,
    decreases s.len(),
{
    if s.len() > 0 && j < s.len() {
        assert forall|k: int| j <= k < s.len() - 1 implies s.drop_last()[k] != c by {
            assert(s.drop_last()[k] == s[k]);
        }
        lemma_last_of(s.drop_last(), c, j);
    } else if s.len() > 0 && j == s.len() && j > 0 && s[j - 1] != c {
        lemma_last_of(s.drop_last(), c, j - 1);
    }
}

/// The JSON object in a model's reply: the text from its first `{` through
/// its last `}`, or `None` where either is missing. A reply whose last `}`
/// comes before its first `{` is not a reply this takes.
pub fn json_span(text: &str) -> (r: Option<String>)
    requires
        !span_reversed(text@),
    ensures
        match r {
            Some(t) => json_span_of(text@) == Some(t@),
            None => json_span_of(text@) is None,
        },
{
    let v = to_chars(text);
    let mut a: usize = 0;
    while a < v.len() && v[a] != '{'
        invariant
            a <= v@.len(),
            v@ == text@,
            forall|k: int| 0 <= k < a ==> v@[k] != '{',
        decreases v@.len() - a,
    {
        a = a + 1;
    }
    proof {
        lemma_first_of(v@, '{', a as int);
    }
    if a == v.len() {
        return None;
    }
    let mut b: usize = v.len();
    while b > 0 && v[b - 1] != '}'
        invariant
            b <= v@.len(),
            v@ == text@,
            forall|k: int| b <= k < v@.len() ==> v@[k] != '}',
        decreases b,
    {
        b = b - 1;
    }
    proof {
        lemma_last_of(v@, '}', b as int);
    }
    if b == 0 {
        return None;
    }
    let span = slice_copy(&v, a, b);
    Some(from_chars(&span))
}

} // verus!
