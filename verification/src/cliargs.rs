//! The command line of the generator, as plain values.
use vstd::prelude::*;

verus! {

/// What a run of the generator is asked to do.
#[derive(Clone, Debug)]
pub struct Args {
    /// Path to the grammar file.
    pub grammar: String,
    /// The rule to start from.
    pub start: String,
    /// Where to write the generated text; standard output where absent.
    pub outfile: Option<String>,
    /// Extra terms, each written `NAME:LETTERS`.
    pub terms: Vec<String>,
}

} // verus!
