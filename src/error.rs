use vstd::prelude::*;

verus! {

/// Errors surfaced by the engine.
#[derive(Debug, Clone, PartialEq, Eq)]
pub enum Error {
    /// An internal invariant did not hold.
    Unexpected(String),
    /// A recognised but unsupported configuration value.
    Unimplemented(String),
}

} // verus!
