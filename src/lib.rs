//! A bytecode compiler and stack-based virtual machine for a small
//! dynamically typed scripting language.
pub mod chunk;
pub mod compiler;
pub mod number;
pub mod opcode;
pub mod token;
pub mod value;
pub mod vm;

pub use chunk::{Chunk, Instruction};
pub use compiler::{compile, compile_with_errors, line_of, CompileError, CompileErrorKind};
pub use opcode::OpCode;
pub use token::{Span, Token, TokenKind};
pub use value::Value;
pub use vm::{InterpretResult, Outcome, RuntimeError, RuntimeErrorKind, VM};
