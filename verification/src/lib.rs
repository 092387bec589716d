//! A compiler and execution engine for a minimal bracket-structured,
//! pointer/byte-cell programming notation.
//!
//! The compiler turns source text into a flat instruction sequence with all
//! loop jump targets resolved and adjacent pointer moves and cell increments
//! folded.  The engine steps through such a sequence against a fixed-size
//! wrap-around tape of unsigned cells, exchanging single bytes with an
//! in-memory byte channel.

pub mod channel;
pub mod folding;
pub mod machine;
pub mod matching;
pub mod program;
pub mod value;

pub use channel::ByteChannel;
pub use machine::Machine;
pub use program::CompileError;
pub use program::Instruction;
pub use program::Program;
pub use value::Value;
