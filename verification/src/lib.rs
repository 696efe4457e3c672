//! An interpreter for the Quark stack language: the decoder of program
//! text, the parser into code pieces, the value stack and the executor.
pub mod number;
pub mod parse;
pub mod data;
pub mod exec;
pub mod format;
