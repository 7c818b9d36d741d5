//! A lexer, parser and code generator for the Radia language, which compiles to
//! the text format of the OOVM object virtual machine.
pub mod text;
pub mod parse;
pub mod tree;
pub mod error;
pub mod assoc;
pub mod compile;
