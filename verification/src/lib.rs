//! Restricted-alphabet shellcode encoder for 32-bit x86.
//!
//! Given a raw payload and an alphabet of allowed byte values, the library
//! produces `ADD EAX, imm32` / `SUB EAX, imm32` instruction sequences, each
//! followed by `PUSH EAX`, that rebuild the payload on the stack word by
//! word. Every emitted opcode and immediate byte lies in the alphabet.

use vstd::prelude::*;

pub mod bytes;
pub mod driver;
pub mod encoder;
pub mod hex;

verus! {

/// The fatal conditions of an encoding job.
#[derive(Clone, Copy, Debug, PartialEq, Eq, Structural)]
pub enum EncodeError {
    /// A byte-list segment is not a two-digit hexadecimal value.
    BadByteSpec,
    /// Good bytes and bad bytes were supplied together.
    ConflictingAlphabets,
    /// The alphabet lacks `PUSH EAX` or both arithmetic opcodes.
    InfeasibleAlphabet,
    /// Some payload word has no solution of at most four immediates.
    WordNotEncodable,
}

} // verus!
