//! A small interpreter core for the eight-command tape language.
//!
//! The crate is split along the pieces of the interpreter:
//!
//! * [`memory`]: the tape, an unbounded zero-initialised array of byte cells
//!   addressed by a signed integer;
//! * [`source`]: the filter that keeps the command characters of a text;
//! * [`parser`]: the resolver that turns command characters into tokens and
//!   pairs every `[` with its `]`, with [`brackets`], the theory of bracket
//!   matching behind it;
//! * [`executor`]: the instruction-pointer machine that runs tokens against
//!   the tape, one step at a time.
//!
//! Everything in here is verified with Verus; input and output are left to
//! the caller, who drives the executor and performs the actions it asks for.

pub mod brackets;
pub mod executor;
pub mod memory;
pub mod parser;
pub mod source;
