//! A brainfuck compiler and virtual machine, with a few small helpers for
//! Enigma key search and round-robin pairings.
//!
//! - [`opcode`]: the instructions of the intermediate representation.
//! - [`compiler`]: one-pass compilation (`BFVM::compile`) with run collapsing and the `[-]`
//!   idiom, and what the compiled program looks like.
//! - [`vm`]: the machine, one step at a time or in bounded runs.
//! - [`naive`]: why the optimizations do not change what a program does.
//! - [`enigma`]: Enigma keys, decryption and letter statistics.
//! - [`pairings`]: every way to split teams into pairs.

pub mod compiler;
pub mod enigma;
pub mod naive;
pub mod opcode;
pub mod pairings;
pub mod vm;
