//! The executable data types of the decoder.

use vstd::prelude::*;

use crate::model::{root_model, BeamModel};

verus! {

/// One timestep's emission probabilities, as exact rationals over a common
/// per-frame denominator: entry `i` of `nums` is the numerator of the
/// probability of alphabet symbol `i`, the last entry is the numerator of
/// the blank's probability, and `den` is the shared denominator.
#[derive(Clone)]
pub struct Frame {
    pub nums: Vec<u64>,
    pub den: u64,
}

/// A tracked candidate: a decoded label together with its split probability
/// mass.  Masses are numerators over the running product of the frame
/// denominators of the timesteps consumed so far.
pub struct Beam {
    /// The collapsed, blank-free sequence of symbol indices.
    pub label: Vec<usize>,
    /// Mass of the paths whose last emitted symbol was blank.
    pub p_blank: u128,
    /// Mass of the paths whose last emitted symbol was the label's final
    /// symbol, uncollapsed.
    pub p_non_blank: u128,
    /// Always `p_blank + p_non_blank`.
    pub p_tot: u128,
}

impl View for Beam {
    type V = BeamModel;

    open spec fn view(&self) -> BeamModel {
        BeamModel {
            label: self.label@,
            p_blank: self.p_blank as nat,
            p_non_blank: self.p_non_blank as nat,
        }
    }
}

/// The derived `p_tot` field agrees with the two mass fields.
pub open spec fn beam_fields_ok(b: Beam) -> bool {
    b.p_tot == b.p_blank + b.p_non_blank
}

impl Beam {
    /// The root beam: an empty label, certain to have emitted nothing yet.
    pub fn new() -> (b: Beam)
        ensures
            b@ == root_model(),
            beam_fields_ok(b),
    {
        let b = Beam { label: Vec::new(), p_blank: 1, p_non_blank: 0, p_tot: 1 };
        proof {
            assert(b@.label =~= root_model().label);
        }
        b
    }
}

/// The models of a sequence of beams, in the same order.
pub open spec fn models(s: Seq<Beam>) -> Seq<BeamModel> {
    s.map_values(|b: Beam| b@)
}

/// Every beam's derived `p_tot` field agrees with its mass fields.
pub open spec fn beams_ok(s: Seq<Beam>) -> bool {
    forall|k: int| 0 <= k < s.len() ==> beam_fields_ok(#[trigger] s[k])
}

/// An exact probability: `num / den`.
#[derive(Clone, Copy, PartialEq, Eq, Structural, Debug)]
pub struct Prob {
    pub num: u128,
    pub den: u128,
}

/// Why a decode call rejects its arguments.  Validation happens once, before
/// the timestep loop; no partial computation is attempted on invalid input.
#[derive(Clone, Copy, PartialEq, Eq, Structural, Debug)]
pub enum DecodeError {
    /// The alphabet is empty.
    EmptyAlphabet,
    /// `beam_width` is zero.
    ZeroBeamWidth,
    /// `topk_paths` is zero.
    ZeroTopkPaths,
    /// Some frame does not hold one probability per symbol plus blank.
    FrameLength,
    /// Some constraint entry names a string outside the alphabet.
    UnknownConstraintSymbol,
}

} // verus!
