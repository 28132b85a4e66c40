//! An arbitrary-precision calculator: exact rational arithmetic, decimal
//! parsing and rounded decimal display.

pub mod text;
pub mod number;
pub mod engine;
pub mod format;
pub mod repl;
pub mod laws;
