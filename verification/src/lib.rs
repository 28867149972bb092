//! A miniature JavaScript engine: lexer, parser, bytecode compiler,
//! register-based interpreter and a mark-and-sweep managed heap.
pub mod value;
pub mod text;
pub mod lex;
pub mod ast;
pub mod parser;
pub mod heap;
pub mod symbols;
pub mod bytecode;
pub mod disasm;
pub mod machine;
pub mod isolate;
pub mod vm;
pub mod correctness;
