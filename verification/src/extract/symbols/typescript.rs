//! TypeScript declarations.
use vstd::prelude::*;
use super::{extract_lang, symbols_in, symbols_view, Lang, Symbol};

verus! {

/// The top-level symbols of a TypeScript source text, line by line.
pub fn extract(content: &str) -> (r: Vec<Symbol>)
    ensures
        symbols_view(r@) == symbols_in(Lang::TypeScript, content@),
{
    extract_lang(Lang::TypeScript, content)
}

} // verus!
