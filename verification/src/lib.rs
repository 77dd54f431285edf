//! Constant-time modular multiplication for fixed-width unsigned big integers.
//!
//! A big integer is an ordered sequence of unsigned 32-bit words, least
//! significant word first. The crate provides an exact widening multiply,
//! word-by-word Montgomery reduction with a constant-time final subtraction,
//! direct modular multiplication against an odd modulus, and a constant-time
//! range validator that checks every result against its modulus.

pub mod addsub;
pub mod wide;
pub mod ct;
pub mod modmul;
pub mod reduce;
pub mod words;
