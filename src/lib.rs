//! An assembler for a 32-bit RISC instruction set: it reads assembly source and gives
//! the machine words of the program, with long branches expanded and labels resolved.
//!
//! The passes, in order: `lexer` reads tokens, `parser` groups them into labeled
//! instructions, `semantics` checks their operands, `resolver` expands long branches and
//! puts offsets and addresses in place of labels, and `encoder` packs each instruction
//! into a word. `assembler` runs them in turn.

pub mod assembler;
pub mod encoder;
pub mod lexer;
pub mod parser;
pub mod resolver;
pub mod semantics;
