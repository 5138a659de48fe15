//! A tiny just-in-time compiler for a register-machine bytecode, targeting
//! 64-bit ARM (AArch64).
//!
//! A program is a control-flow graph of basic blocks over a small fixed
//! instruction set.  The library lowers each block to native AArch64 machine
//! code in an append-only byte buffer, links forward and backward branches by
//! rewriting their immediate fields once every block's offset is known, and
//! provides a reference interpreter with the same semantics that serves as an
//! oracle.  Mapping the bytes into executable memory and calling into them is
//! left to the host program around the library.

pub mod assembler;
pub mod encoding;
pub mod errors;
pub mod interp;
pub mod jit;
pub mod parser;
pub mod vm;
