//! The waveforms a voice can be played with.

use vstd::prelude::*;

verus! {

/// Shape of the wave a voice plays.
#[derive(Debug, Copy, Clone, Hash, PartialEq, Eq, Structural)]
pub enum Instrument {
    Sawtooth,
    Sine,
    Square,
    Triangle,
}

impl Default for Instrument {
    fn default() -> (r: Instrument)
        ensures
            r == Instrument::Square,
    {
        Instrument::Square
    }
}

} // verus!
