//! Python declarations.
use vstd::prelude::*;
use super::{extract_lang, symbols_in, symbols_view, Lang, Symbol};

verus! {

/// The top-level symbols of a Python source text, line by line.
pub fn extract(content: &str) -> (r: Vec<Symbol>)
    ensures
        symbols_view(r@) == symbols_in(Lang::Python, content@),
{
    extract_lang(Lang::Python, content)
}

} // verus!
