//! A compiler and register-based virtual machine for a small subset of Lua.
//!
//! Source bytes are lexed on demand, compiled in a single pass into a flat
//! sequence of instructions with a deduplicated constant pool, and executed
//! against a table of globals and a growable register stack.
pub mod byte_code;
pub mod error;
pub mod lex;
pub mod parse;
pub mod value;
pub mod vm;
