//! MiniZinc-subset parser (CP).
use vstd::prelude::*;
use crate::parser::ParseResult;

verus! {

/// The MiniZinc reader; it reads no input yet and reports so.
pub struct MznParser;

impl MznParser {
    pub fn new() -> (p: Self) {
        MznParser
    }

    /// Every input is answered with the error `MiniZinc parser not yet implemented`.
    pub fn parse(&self, input: &str) -> (r: ParseResult<String>)
        ensures
            r matches Err(m) && m@ == "MiniZinc parser not yet implemented"@,
    {
        Err(String::from_str("MiniZinc parser not yet implemented"))
    }
}

} // verus!
