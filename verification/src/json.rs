//! Strict JSON: comments are illegal and every token after the body is
//! unexpected.
use vstd::prelude::*;

use crate::ast::Node;
use crate::errors::MomoaError;
use crate::mode::Mode;
use crate::parse::{doc_result_matches, spec_parse, ParserOptions};
use crate::tokens::{spec_tokenize, Token};

verus! {

/// Tokenizes strict JSON text: every token in source order, or the first
/// diagnostic.
pub fn tokenize(text: &str) -> (r: Result<Vec<Token>, MomoaError>)
    ensures
        match r {
            Ok(v) => spec_tokenize(text@, Mode::Json) == Ok::<Seq<Token>, MomoaError>(v@),
            Err(e) => spec_tokenize(text@, Mode::Json) == Err::<Seq<Token>, MomoaError>(e),
        },
{
    crate::tokens::tokenize(text, Mode::Json)
}

/// Parses strict JSON text into a document, rejecting trailing commas.
pub fn parse(text: &str) -> (r: Result<Node, MomoaError>)
    ensures
        doc_result_matches(spec_parse(text@, Mode::Json, false), r),
{
    crate::parse::parse(text, Mode::Json, None)
}

/// Parses strict JSON text into a document, tolerating a comma directly
/// before a closing `}` or `]`.
pub fn parse_with_trailing_commas(text: &str) -> (r: Result<Node, MomoaError>)
    ensures
        doc_result_matches(spec_parse(text@, Mode::Json, true), r),
{
    crate::parse::parse(text, Mode::Json, Some(ParserOptions { allow_trailing_commas: true }))
}

} // verus!
