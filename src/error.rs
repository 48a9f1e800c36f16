use vstd::prelude::*;

use crate::signal::Signal;

verus! {

/// Why a bitstream could not be read back as text.
#[derive(Debug, PartialEq, Eq)]
pub enum MorseError {
    /// A run of equal bits (polarity, length) that stands for no signal.
    UnrecognizedRunLength(bool, usize),
    /// A sequence of dots and dashes that is no character's code.
    NotFound(Vec<Signal>),
}

} // verus!
