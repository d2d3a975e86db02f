//! MPS format parser (MILP).
use vstd::prelude::*;
use crate::parser::ParseResult;

verus! {

/// The MPS reader; it reads no input yet and reports so.
pub struct MpsParser;

impl MpsParser {
    pub fn new() -> (p: Self) {
        MpsParser
    }

    /// Every input is answered with the error `MPS parser not yet implemented`.
    pub fn parse(&self, input: &str) -> (r: ParseResult<String>)
        ensures
            r matches Err(m) && m@ == "MPS parser not yet implemented"@,
    {
        Err(String::from_str("MPS parser not yet implemented"))
    }
}

} // verus!
