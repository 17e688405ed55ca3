//! Exact rational arithmetic next to binary floating point: repeating
//! decimals, an expression grammar with source ranges, and the frames that
//! show where an approximation leaves the exact value.

pub mod ast;
pub mod canonical;
pub mod constants;
pub mod digits;
pub mod division;
pub mod float;
pub mod number;
pub mod options;
pub mod parser;
pub mod rational;
pub mod repl;
pub mod style;
pub mod text;
pub mod ui;
pub mod utils;
