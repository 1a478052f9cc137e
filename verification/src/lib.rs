//! Lexical-scope resolution and closure-capture analysis for a compiler
//! front end: slot allocation inside function activation records, duplicate
//! and undeclared-variable detection, and the rewriting of references to
//! outer-function variables into chains of capture slots.

pub mod error;
pub mod mem;
pub mod frame;
pub mod laws;
pub mod scope;
pub mod stack;
pub mod symbol;
