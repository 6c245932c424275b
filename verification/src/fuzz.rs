//! A whole run of the generator on a grammar text: parse it, then generate
//! from the parsed grammar.
use vstd::prelude::*;

use crate::draws::Draws;
use crate::generate::{
    generate_code, gives, in_language, number_texts, prefix_of, run_code, unknown_term,
    GenerateError, Outcome,
};
use crate::parse_spec::{spec_parse, HaltV};
use crate::parser::{parse_checked, strings_view, ParseError};

verus! {

/// Why a run stopped.
#[derive(Debug)]
pub enum FuzzError {
    /// The grammar text was refused.
    Parse(ParseError),
    /// Generating from the parsed grammar failed.
    Generate(GenerateError),
}

/// Parses the grammar `src` (from the file `filename`) with the extra terms
/// `terms`, and generates a random text from its rule `top_level`.
///
/// `None` where the lexer would run past the end of the grammar text or of
/// a term. Otherwise a refused grammar gives the parser's error, and every
/// text given is in the language of the parsed grammar; what is given is
/// the walk of the parsed grammar over the draws made, as for
/// [`generate_code`].
pub fn fuzz_grammar<F: Fn() -> String>(
    src: &str,
    filename: &str,
    terms: &[String],
    top_level: &str,
    draws: &mut Draws,
    number_text: &F,
) -> (r: Option<Result<String, FuzzError>>)
    requires
        number_text.requires(()),
    ensures
        match spec_parse(src@, filename@, strings_view(terms@), top_level@) {
            Ok(g) => {
                &&& r is Some
                &&& prefix_of(old(draws).made(), final(draws).made())
                &&& r matches Some(Ok(s)) ==> run_code(g, final(draws).made(), old(draws).made().len() as int).out
                    == Outcome::Text(s@)
                &&& r matches Some(Err(FuzzError::Generate(e))) ==> gives(
                    run_code(g, final(draws).made(), old(draws).made().len() as int).out,
                    Err(e),
                )
                &&& r matches Some(Ok(s)) ==> in_language(g, number_texts(*number_text), s@)
                &&& r matches Some(Err(e)) ==> e is Generate
                &&& r matches Some(Err(FuzzError::Generate(GenerateError::UnknownTerm(t))))
                    ==> unknown_term(g, t@)
            },
            Err(HaltV::Error(e)) => r matches Some(Err(FuzzError::Parse(x))) && x@ == e,
            Err(HaltV::Overrun) => r is None,
        },
{
    let cfg = match parse_checked(src, filename, terms, top_level) {
        None => {
            return None;
        },
        Some(Err(e)) => {
            return Some(Err(FuzzError::Parse(e)));
        },
        Some(Ok(c)) => c,
    };
    proof {
        crate::cfg::lemma_well_formed_walkable(cfg@);
    }
    match generate_code(cfg, draws, number_text) {
        Ok(s) => Some(Ok(s)),
        Err(e) => Some(Err(FuzzError::Generate(e))),
    }
}

} // verus!
