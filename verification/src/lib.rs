//! The OpenEPL front end: the typed IR, its tokenizer and parser, the checks
//! that share its vocabulary, the memory layout of C records, and the reader
//! for a built program's line table.

pub mod text;
pub mod types;
pub mod lexer;
pub mod sema;
pub mod parser;
pub mod symbols;
pub mod dwarf;
pub mod validate;
pub mod registry;
pub mod desugar;
pub mod layout;

use vstd::prelude::*;

verus! {
} // verus!
