//! The two dialects the front end accepts.
use vstd::prelude::*;

verus! {

/// Selects strict JSON (no comments) or JSONC (line and block comments
/// recognised and preserved). Nothing else differs between the two dialects.
#[derive(Debug, Clone, Copy, PartialEq, Eq, Structural)]
pub enum Mode {
    Json,
    Jsonc,
}

} // verus!
