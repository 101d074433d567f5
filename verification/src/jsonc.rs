//! JSONC: line and block comments are recognised, preserved in the token
//! list, and transparent to the grammar.
use vstd::prelude::*;

use crate::ast::Node;
use crate::errors::MomoaError;
use crate::mode::Mode;
use crate::parse::{doc_result_matches, spec_parse, ParserOptions};
use crate::tokens::{spec_tokenize, Token};

verus! {

/// Tokenizes JSONC text: every token in source order, comments included, or
/// the first diagnostic.
pub fn tokenize(text: &str) -> (r: Result<Vec<Token>, MomoaError>)
    ensures
        match r {
            Ok(v) => spec_tokenize(text@, Mode::Jsonc) == Ok::<Seq<Token>, MomoaError>(v@),
            Err(e) => spec_tokenize(text@, Mode::Jsonc) == Err::<Seq<Token>, MomoaError>(e),
        },
{
    crate::tokens::tokenize(text, Mode::Jsonc)
}

/// Parses JSONC text into a document, rejecting trailing commas.
pub fn parse(text: &str) -> (r: Result<Node, MomoaError>)
    ensures
        doc_result_matches(spec_parse(text@, Mode::Jsonc, false), r),
{
    crate::parse::parse(text, Mode::Jsonc, None)
}

/// Parses JSONC text into a document, tolerating a comma directly before a
/// closing `}` or `]`.
pub fn parse_with_trailing_commas(text: &str) -> (r: Result<Node, MomoaError>)
    ensures
        doc_result_matches(spec_parse(text@, Mode::Jsonc, true), r),
{
    crate::parse::parse(text, Mode::Jsonc, Some(ParserOptions { allow_trailing_commas: true }))
}

} // verus!
