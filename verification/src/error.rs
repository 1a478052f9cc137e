//! Source positions and the user-facing resolution errors.

use vstd::prelude::*;
use crate::symbol::Symbol;

verus! {

/// Opaque position token carried on declarations and references purely for
/// diagnostics; never interpreted here.
#[derive(Clone, Copy, PartialEq, Eq, Debug, Structural)]
pub struct SourcePos {
    pub line: u32,
    pub column: u32,
}

/// The only user-facing error kinds; every other misuse of this module is a
/// caller-contract violation and is kept out by preconditions instead.
#[derive(Clone, Copy, PartialEq, Eq, Debug, Structural)]
pub enum Error {
    /// The symbol was already declared directly in the same block.
    DuplicateVariable { symbol: Symbol, pos: SourcePos },
    /// The symbol is not declared in any frame of the active stack.
    UndeclaredVariable { symbol: Symbol, pos: SourcePos },
}

impl Error {
    pub fn duplicate_variable(symbol: Symbol, pos: SourcePos) -> (r: Error)
        ensures
            r == (Error::DuplicateVariable { symbol, pos }),
    {
        Error::DuplicateVariable { symbol, pos }
    }

    pub fn undeclared_variable(symbol: Symbol, pos: SourcePos) -> (r: Error)
        ensures
            r == (Error::UndeclaredVariable { symbol, pos }),
    {
        Error::UndeclaredVariable { symbol, pos }
    }
}

} // verus!
