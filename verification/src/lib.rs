//! Line coding and modulation for a data-communications signal simulator.
//!
//! The digital side turns a bit string into a sequence of line levels under
//! one of five line codes, with optional zero substitution for AMI. The analog
//! side turns a sampled waveform into a digitized symbol sequence by delta
//! modulation or pulse code modulation. All of it works on integers.

pub mod encoding;
pub mod scramble;
pub mod digital;
pub mod analog;
pub mod utils;
