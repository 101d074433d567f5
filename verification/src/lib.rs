//! A JSON and JSONC front end for tooling that needs exact source locations:
//! it turns raw text into a position-annotated syntax tree, or fails with a
//! precise diagnostic.

pub mod ast;
pub mod errors;
pub mod json;
pub mod jsonc;
pub mod laws;
pub mod location;
pub mod mode;
pub mod parse;
pub mod readers;
pub mod tokens;

pub use errors::MomoaError;
pub use location::{Location, LocationRange};
pub use mode::Mode;
pub use tokens::{Token, TokenKind};
