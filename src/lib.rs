//! Morse code between text and a packed bitstream.
//!
//! Text is turned into signals (dots, dashes and three lengths of gap), each
//! signal into a run of equal bits, and the bits packed into bytes, most
//! significant bit first, the last byte filled with silence. Decoding reads
//! the runs back into signals and groups the signals into characters.
pub mod bits;
pub mod decode;
pub mod encode;
pub mod error;
pub mod laws;
pub mod runs;
pub mod signal;
pub mod table;
