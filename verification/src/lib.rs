//! Offline GitHub Actions workflow analysis: expression scanning and
//! evaluation, matrix expansion, trigger filters and user-facing findings,
//! each stated against a mathematical model and proved with Verus.

use vstd::prelude::*;

pub mod analysis;
pub mod api;
pub mod digest;
pub mod discover;
pub mod eval;
pub mod expr;
pub mod fetch;
pub mod findings;
pub mod graph;
pub mod json;
pub mod ir;
pub mod lexer;
pub mod matrix;
pub mod number;
pub mod parse;
pub mod parser;
pub mod refetch;
pub mod smap;
pub mod text;
pub mod triggers;
pub mod uses;
pub mod yaml;

verus! {

/// The package name of this library.
pub fn crate_name() -> (name: &'static str)
    ensures
        name@ == "gha-see"@,
{
    "gha-see"
}

} // verus!
