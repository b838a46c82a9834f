//! A verified interpreter for a tape-based, bracket-delimited esoteric
//! language: eight single-character instructions act on a fixed-size tape of
//! wrapping 8-bit cells through a movable cursor.
//!
//! The crate is split along the two phases of a run:
//! - the assembler ([`assembler`]) lexes raw text into instruction tokens,
//!   collapses runs of identical arithmetic and movement instructions into
//!   counted instructions, and resolves each bracket to its partner;
//! - the executor ([`machine`]) drives the assembled instruction list over
//!   the tape, one verified step at a time.
//!
//! Console input and output are collaborators: the executor consumes input
//! as a sequence of already-read lines ([`input`] parses them) and returns
//! the bytes it would emit, so a host can do the actual blocking I/O.

pub mod assembler;
pub mod input;
pub mod machine;
pub mod tokens;
