//! A verified implementation of a minimal stack-oriented language whose
//! surface syntax consists of three token characters: a blank, a tab and a
//! line break.  Every other character is commentary.
//!
//! The crate has two halves: a decoder that reconstructs a structured
//! instruction stream from the token text, and an execution engine - a stack
//! machine with a return-address stack, a growable memory region and named
//! jump targets.  External input and output are modelled as plain value
//! queues on the machine, so that every step of execution is a verified,
//! deterministic transition.

pub mod bignum;
pub mod compiler;
pub mod instruction;
pub mod labels;
pub mod numtext;
pub mod parser;
pub mod vm;
