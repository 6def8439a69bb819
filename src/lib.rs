//! An assembler for the Hack machine language: it turns symbolic assembly
//! text into 16-bit binary instruction words, one per line.
pub mod assembler;
pub mod code;
pub mod parser;
pub mod symbol_table;
pub mod text;
