//! The verified core of a Lox bytecode interpreter: the scanner, the
//! instruction set and chunks, NaN-boxed values, the hybrid identifier
//! table, the single-pass compiler, the rules of the virtual machine that do
//! not touch its heap, and the marking of the garbage collector.
pub mod value;
pub mod lexer;
pub mod vecmap;
pub mod chunk;
pub mod compiler;
pub mod vm;
pub mod gc;
