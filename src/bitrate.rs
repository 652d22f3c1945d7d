//! Bitrate control of the audio encoder: a target bitrate held within fixed
//! bounds.
use vstd::prelude::*;

verus! {

/// Lowest bitrate, in bits per second.
pub const MIN_BITRATE: u32 = 1000;

/// Highest bitrate, and the starting one, in bits per second.
pub const MAX_BITRATE: u32 = 128000;

/// The bitrate state of an audio encoder.
pub struct AudioProcessor {
    current_bitrate: u32,
    min_bitrate: u32,
    max_bitrate: u32,
}

/// `target` held within `[lo, hi]`.
pub open spec fn clamped(target: u32, lo: u32, hi: u32) -> u32 {
    if target < lo { lo } else if target > hi { hi } else { target }
}

impl AudioProcessor {
    pub closed spec fn current(&self) -> u32 {
        self.current_bitrate
    }

    pub closed spec fn wf(&self) -> bool {
        &&& self.min_bitrate == MIN_BITRATE
        &&& self.max_bitrate == MAX_BITRATE
        &&& MIN_BITRATE <= self.current_bitrate <= MAX_BITRATE
    }

    /// A processor at the highest bitrate.
    pub fn new() -> (r: AudioProcessor)
        ensures
            r.wf(),
            r.current() == MAX_BITRATE,
    {
        AudioProcessor { current_bitrate: MAX_BITRATE, min_bitrate: MIN_BITRATE, max_bitrate: MAX_BITRATE }
    }

    /// Sets the bitrate to `target` held within the bounds, and returns it.
    pub fn adjust_bitrate(&mut self, target_bitrate: u32) -> (r: u32)
        requires
            old(self).wf(),
        ensures
            final(self).wf(),
            r == clamped(target_bitrate, MIN_BITRATE, MAX_BITRATE),
            final(self).current() == r,
    {
        self.current_bitrate = if target_bitrate < self.min_bitrate {
            self.min_bitrate
        } else if target_bitrate > self.max_bitrate {
            self.max_bitrate
        } else {
            target_bitrate
        };
        self.current_bitrate
    }

    /// The current bitrate.
    pub fn current_bitrate(&self) -> (r: u32)
        ensures
            r == self.current(),
    {
        self.current_bitrate
    }
}

} // verus!
