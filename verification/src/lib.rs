//! Prefix beam search decoding of CTC (connectionist temporal classification)
//! model output.
//!
//! A sequence model emits, for each timestep, a probability distribution over
//! a fixed alphabet plus one reserved blank symbol.  Decoding collapses
//! blanks and merges repeated symbols while tracking only the most probable
//! partial decodings per timestep.  Probabilities enter as exact rationals
//! (integer numerators over a per-frame denominator), so every returned
//! probability is an exact integer numerator over the product of the frame
//! denominators.

pub mod beam;
pub mod laws;
pub mod lemmas;
pub mod model;
pub mod ranking;
pub mod search;
