//! Multi-keyword text search and substitution over an Aho–Corasick automaton,
//! with a portable record form and a handle registry, plus small text utilities.
use vstd::prelude::*;

pub mod laws;
pub mod limit_pack;
pub mod maps;
pub mod more_error;
pub mod model;
pub mod record;
pub mod registry;
pub mod single_keyword;
pub mod text;
pub mod text_searcher;

verus! {

/// A Beijing time written without offset (`YYYY-MM-DDTHH:MM:SS`), with its
/// `+08:00` offset added.
pub fn bjtc_bs(text: &str) -> (r: String)
    ensures
        r@ == text@ + "+08:00"@,
{
    let s = String::from_str(text);
    s.concat("+08:00")
}

} // verus!
