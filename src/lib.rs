//! A multi-client chat server core: the wire codec, the username registry and
//! the per-connection protocol state machine, with the I/O left to the caller.
//!
//! Alongside it stand a few small routines: the factorial, the Luhn check, a
//! Brainfuck interpreter and string comparison that ignores ASCII case.

pub mod codec;
pub mod message;
pub mod registry;
pub mod server;
pub mod guarantees;
pub mod factorial;
pub mod luhn;
pub mod brainfuck;
pub mod case_insensitive;
