//! Wavetable capture and resynthesis: a recorded instrument tone is
//! downmixed, peak-normalized and sliced into a sequence of timestamped
//! frames at exponentially growing offsets, and a table is played back at
//! an arbitrary pitch and sample rate by phase accumulation within frames
//! and cross-fading between them. Samples are fixed point (`SCALE` stands
//! for 1.0), pitches are millihertz, and positions are sample counts, so
//! every step is exact integer arithmetic.
#![verifier::loop_isolation(false)]

pub mod signal;
pub mod table;
pub mod render;
pub mod codec;
pub mod note;
