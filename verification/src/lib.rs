//! A bytecode compiler and stack virtual machine for a small expression
//! language: a scanner turns source text into tokens, a single-pass
//! operator-precedence parser emits instructions directly into a chunk, and
//! the machine executes the chunk one instruction at a time.
//!
//! Runtime values are IEEE-754 double-precision numbers, carried everywhere
//! as their 64-bit encodings. The host supplies the encoding of each number
//! literal (see `number_lexemes` and `compile`) and performs the binary
//! arithmetic the machine requests (see `VM::step`), so every decision made
//! here - lexing, parsing, code layout, dispatch, stack discipline and error
//! reporting - is verified, while the numeric computations themselves stay
//! with the host.

pub mod chunk;
pub mod compiler;
pub mod correctness;
pub mod disasm;
pub mod scanner;
pub mod token;
pub mod vm;
