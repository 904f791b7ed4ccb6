//! Coincidence of dark-count pulses from independent photomultiplier tubes.
//!
//! Time is measured in whole ticks of a resolution that the caller chooses
//! (nanoseconds, say). A pulse occupies the ticks from its rise time to its
//! rise time plus its width. The modules decide whether pulse trains of two
//! or three tubes overlap, generate random trains, and tally the outcomes
//! of repeated trials.

pub mod overlap_laws;
pub mod pmt_noise2;
pub mod pmt_noise3;
pub mod random;
pub mod tally;
