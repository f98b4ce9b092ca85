//! Lucy: a small expression language with a lexer, a recursive-descent
//! parser, a bytecode compiler and a stack virtual machine.
//!
//! Numbers are IEEE-754 binary64 values carried as their bit patterns
//! (`u64`); every floating-point operation is performed by the host that
//! drives the library (see `vm::HostRequest`).
pub mod strings;
pub mod table;
pub mod ast;
pub mod lexer;
pub mod parser;
pub mod codegen;
pub mod vm;
pub mod balance;
