//! The mathematical model of prefix beam search.
//!
//! Every executable function of the crate is specified against the spec
//! functions of this module.  A *label* is the collapsed, blank-free sequence
//! of symbol indices a beam stands for; a *registry* is a sequence of beams
//! with pairwise distinct labels; one *step* turns the registry of timestep
//! `t - 1` into the registry of timestep `t`.
//!
//! Probabilities are exact rationals: every frame carries its probabilities
//! as integer numerators over a per-frame denominator, and every beam mass is
//! an integer numerator over the running product of the frame denominators.

use vstd::prelude::*;

use crate::beam::{DecodeError, Frame, Prob};

verus! {

/// The mathematical image of one beam: a decoded label and its probability
/// mass, split by whether the last emitted (pre-collapse) symbol was blank.
#[verifier::ext_equal]
pub ghost struct BeamModel {
    pub label: Seq<usize>,
    pub p_blank: nat,
    pub p_non_blank: nat,
}

/// The ranking and search parameters shared by a whole decode call.
#[verifier::ext_equal]
pub ghost struct Params {
    /// The alphabet symbols; index `i` decodes to `alphabet[i]`, and the
    /// blank is the implicit index `alphabet.len()`.
    pub alphabet: Seq<Seq<char>>,
    /// The positional constraint list: `cons[k]` holds the symbols allowed
    /// to extend a label of length `k`; positions past the end of the list
    /// are unconstrained.
    pub cons: Seq<Seq<Seq<char>>>,
    /// How many beams survive each timestep's prune.
    pub beam_width: int,
}

/// The total probability mass of one beam.
pub open spec fn p_tot(b: BeamModel) -> nat {
    b.p_blank + b.p_non_blank
}

/// The beam the search starts from: the empty label, certain to have
/// emitted nothing yet.
pub open spec fn root_model() -> BeamModel {
    BeamModel { label: Seq::empty(), p_blank: 1, p_non_blank: 0 }
}

/// Lexicographic order on labels, used as the deterministic tie-break when
/// two beams carry the same mass.
pub open spec fn lex_le(a: Seq<usize>, b: Seq<usize>) -> bool
    decreases a.len(),
{
    if a.len() == 0 {
        true
    } else if b.len() == 0 {
        false
    } else if a[0] < b[0] {
        true
    } else if a[0] > b[0] {
        false
    } else {
        lex_le(a.drop_first(), b.drop_first())
    }
}

/// The ranking order: higher total mass first, ties broken by lexicographic
/// label order, so that ranking is a deterministic total order.
pub open spec fn ranked_before(a: BeamModel, b: BeamModel) -> bool {
    p_tot(a) > p_tot(b) || (p_tot(a) == p_tot(b) && lex_le(a.label, b.label))
}

/// Insertion into a ranked sequence: `b` goes in front of the first entry
/// it ranks before.
pub open spec fn insert_ranked(b: BeamModel, s: Seq<BeamModel>) -> Seq<BeamModel>
    decreases s.len(),
{
    if s.len() == 0 {
        seq![b]
    } else if ranked_before(b, s[0]) {
        seq![b] + s
    } else {
        seq![s[0]] + insert_ranked(b, s.drop_first())
    }
}

/// Ranking a registry: insertion sort by `ranked_before`.
pub open spec fn rank_beams(s: Seq<BeamModel>) -> Seq<BeamModel>
    decreases s.len(),
{
    if s.len() == 0 {
        Seq::empty()
    } else {
        insert_ranked(s.last(), rank_beams(s.drop_last()))
    }
}

/// The first `k` entries of `s`, or all of `s` when it has fewer than `k`.
pub open spec fn take_at_most(s: Seq<BeamModel>, k: int) -> Seq<BeamModel> {
    if k <= 0 {
        Seq::empty()
    } else if k >= s.len() {
        s
    } else {
        s.take(k)
    }
}

/// The index of the first beam with label `l`, or `-1` when no beam has it.
pub open spec fn find_label(s: Seq<BeamModel>, l: Seq<usize>) -> int
    decreases s.len(),
{
    if s.len() == 0 {
        -1
    } else if s[0].label == l {
        0
    } else {
        let r = find_label(s.drop_first(), l);
        if r == -1 {
            -1
        } else {
            r + 1
        }
    }
}

/// Adding mass to the registry entry for label `l`: summed into the existing
/// entry when one is present, appended as a fresh entry otherwise.  This is
/// the CTC prefix-merging operation: mass for one label is kept in exactly
/// one beam.
pub open spec fn accumulate(s: Seq<BeamModel>, l: Seq<usize>, pb: nat, pnb: nat) -> Seq<BeamModel> {
    let j = find_label(s, l);
    if j == -1 {
        s.push(BeamModel { label: l, p_blank: pb, p_non_blank: pnb })
    } else {
        s.update(
            j,
            BeamModel {
                label: l,
                p_blank: (s[j].p_blank + pb) as nat,
                p_non_blank: (s[j].p_non_blank + pnb) as nat,
            },
        )
    }
}

/// Whether symbol index `i` may extend a label of length `pos`: positions
/// beyond the constraint list are unconstrained, otherwise the symbol's
/// string must be listed for that position.
pub open spec fn allowed_sym(
    cons: Seq<Seq<Seq<char>>>,
    alphabet: Seq<Seq<char>>,
    pos: int,
    i: int,
) -> bool {
    pos >= cons.len() || exists|j: int|
        0 <= j < cons[pos].len() && cons[pos][j] == alphabet[i]
}

/// The mass a non-blank emission of symbol `i` adds to label `b.label ++ [i]`:
/// a repeat of the label's final symbol extends the label only when the
/// previous run ended in a blank, so only `p_blank` carries over there.
pub open spec fn extension_mass(b: BeamModel, f: Seq<nat>, i: int) -> nat {
    if b.label.len() > 0 && b.label.last() as int == i {
        b.p_blank * f[i]
    } else {
        p_tot(b) * f[i]
    }
}

/// The blank extension of beam `b`: the label is unchanged; a blank emission
/// moves the whole mass into `p_blank`, and a repeat of the label's final
/// symbol continues the existing non-blank run.
pub open spec fn blank_extended(
    curr: Seq<BeamModel>,
    b: BeamModel,
    f: Seq<nat>,
    blank: int,
) -> Seq<BeamModel> {
    let pb = p_tot(b) * f[blank];
    let pnb = if b.label.len() > 0 {
        b.p_non_blank * f[b.label.last() as int]
    } else {
        0
    };
    accumulate(curr, b.label, pb, pnb)
}

/// The symbol extensions of beam `b` for all allowed indices below `k`,
/// accumulated left to right.
pub open spec fn sym_extended_upto(
    curr: Seq<BeamModel>,
    b: BeamModel,
    f: Seq<nat>,
    ps: Params,
    k: int,
) -> Seq<BeamModel>
    decreases k,
{
    if k <= 0 {
        curr
    } else {
        let prev = sym_extended_upto(curr, b, f, ps, k - 1);
        let i = k - 1;
        if allowed_sym(ps.cons, ps.alphabet, b.label.len() as int, i) {
            accumulate(prev, b.label.push(i as usize), 0, extension_mass(b, f, i))
        } else {
            prev
        }
    }
}

/// Everything one retained beam contributes to the next registry: its blank
/// extension followed by all its allowed symbol extensions.
pub open spec fn beam_expanded(
    curr: Seq<BeamModel>,
    b: BeamModel,
    f: Seq<nat>,
    ps: Params,
) -> Seq<BeamModel> {
    let a = ps.alphabet.len() as int;
    sym_extended_upto(blank_extended(curr, b, f, a), b, f, ps, a)
}

/// The next registry built from the first `j` retained beams.
pub open spec fn expanded_upto(
    pruned: Seq<BeamModel>,
    f: Seq<nat>,
    ps: Params,
    j: int,
) -> Seq<BeamModel>
    decreases j,
{
    if j <= 0 {
        Seq::empty()
    } else {
        beam_expanded(expanded_upto(pruned, f, ps, j - 1), pruned[j - 1], f, ps)
    }
}

/// One timestep: rank the registry, keep the top `beam_width` beams, and
/// expand each retained beam into the fresh registry.
pub open spec fn step(reg: Seq<BeamModel>, f: Seq<nat>, ps: Params) -> Seq<BeamModel> {
    let pruned = take_at_most(rank_beams(reg), ps.beam_width);
    expanded_upto(pruned, f, ps, pruned.len() as int)
}

/// A frame's numerators as mathematical naturals.
pub open spec fn nums_of(fr: Frame) -> Seq<nat> {
    fr.nums@.map_values(|x: u64| x as nat)
}

/// The registry after the first `t` timesteps, starting from the root beam.
pub open spec fn registry_after(frames: Seq<Frame>, ps: Params, t: int) -> Seq<BeamModel>
    decreases t,
{
    if t <= 0 {
        seq![root_model()]
    } else {
        step(registry_after(frames, ps, t - 1), nums_of(frames[t - 1]), ps)
    }
}

/// The sum of the first `k` entries of a frame's numerators.
pub open spec fn sum_upto(f: Seq<nat>, k: int) -> nat
    decreases k,
{
    if k <= 0 {
        0
    } else {
        sum_upto(f, k - 1) + if k - 1 < f.len() { f[k - 1] } else { 0 }
    }
}

/// A frame is a valid (sub-)distribution: a positive denominator at least
/// as large as the sum of the numerators.
pub open spec fn frame_ok(fr: Frame) -> bool {
    1 <= fr.den && sum_upto(nums_of(fr), fr.nums@.len() as int) <= fr.den
}

/// The common denominator of all beam masses after the given frames.
pub open spec fn den_product(frames: Seq<Frame>) -> nat
    decreases frames.len(),
{
    if frames.len() == 0 {
        1
    } else {
        den_product(frames.drop_last()) * (frames.last().den as nat)
    }
}

/// The total probability mass held by a registry.
pub open spec fn total_mass(s: Seq<BeamModel>) -> nat
    decreases s.len(),
{
    if s.len() == 0 {
        0
    } else {
        p_tot(s[0]) + total_mass(s.drop_first())
    }
}

/// The text a label decodes to: the alphabet strings of its indices, in
/// label order.
pub open spec fn label_text(l: Seq<usize>, alphabet: Seq<Seq<char>>) -> Seq<char>
    decreases l.len(),
{
    if l.len() == 0 {
        Seq::empty()
    } else {
        label_text(l.drop_last(), alphabet) + alphabet[l.last() as int]
    }
}

/// Every index of the label names an alphabet symbol.
pub open spec fn label_wf(l: Seq<usize>, a: int) -> bool {
    forall|m: int| 0 <= m < l.len() ==> l[m] < a
}

/// Every label of the registry is well formed.
pub open spec fn labels_wf(s: Seq<BeamModel>, a: int) -> bool {
    forall|k: int| 0 <= k < s.len() ==> label_wf(#[trigger] s[k].label, a)
}

/// No two beams of the registry share a label.
pub open spec fn distinct_labels(s: Seq<BeamModel>) -> bool {
    forall|k1: int, k2: int|
        0 <= k1 < k2 < s.len() ==> (#[trigger] s[k1].label) != (#[trigger] s[k2].label)
}

/// The alphabet as character sequences.
pub open spec fn alpha_view(alphabet: Seq<String>) -> Seq<Seq<char>> {
    alphabet.map_values(|s: String| s@)
}

/// A constraint list as character sequences.
pub open spec fn cons_view(c: Seq<Vec<String>>) -> Seq<Seq<Seq<char>>> {
    c.map_values(|v: Vec<String>| v@.map_values(|s: String| s@))
}

/// An optional constraint list: an absent list means the same as an empty
/// one, namely no constraint at any position.
pub open spec fn opt_cons_view(c: Option<&Vec<Vec<String>>>) -> Seq<Seq<Seq<char>>> {
    match c {
        Some(v) => cons_view(v@),
        None => Seq::empty(),
    }
}

/// The symbol appears in the alphabet.
pub open spec fn sym_known(s: Seq<char>, alphabet: Seq<Seq<char>>) -> bool {
    exists|i: int| 0 <= i < alphabet.len() && alphabet[i] == s
}

/// Every string of every constraint entry names an alphabet symbol.
pub open spec fn cons_ok(cons: Seq<Seq<Seq<char>>>, alphabet: Seq<Seq<char>>) -> bool {
    forall|k: int, j: int|
        0 <= k < cons.len() && 0 <= j < cons[k].len() ==> sym_known(#[trigger] cons[k][j], alphabet)
}

/// Every frame has one probability per alphabet symbol plus one for blank.
pub open spec fn frames_shaped(frames: Seq<Frame>, a: int) -> bool {
    forall|t: int| 0 <= t < frames.len() ==> (#[trigger] frames[t].nums)@.len() == a + 1
}

/// Every frame is a valid distribution and the running denominator fits the
/// mass type: the caller-contract preconditions of decoding.
pub open spec fn frames_ok(frames: Seq<Frame>) -> bool {
    &&& forall|t: int| 0 <= t < frames.len() ==> frame_ok(#[trigger] frames[t])
    &&& den_product(frames) <= u128::MAX
}

/// The ranked final registry a decode call selects its output from.
pub open spec fn final_ranked(frames: Seq<Frame>, ps: Params) -> Seq<BeamModel> {
    rank_beams(registry_after(frames, ps, frames.len() as int))
}

/// What a successful decode returns: the top `topk` ranked final beams, each
/// rendered as its text together with its exact probability.
pub open spec fn decode_post(
    out: Seq<(String, Prob)>,
    frames: Seq<Frame>,
    ps: Params,
    topk: int,
) -> bool {
    let fin = take_at_most(final_ranked(frames, ps), topk);
    &&& out.len() == fin.len()
    &&& forall|j: int| #![trigger out[j]]
        0 <= j < out.len() ==> {
            &&& out[j].0@ == label_text(fin[j].label, ps.alphabet)
            &&& out[j].1.num == p_tot(fin[j])
            &&& out[j].1.den == den_product(frames)
        }
}

/// The parameters of one decode call as the model sees them.
pub open spec fn search_params(alphabet: Seq<String>, c: Seq<Seq<Seq<char>>>, bw: int) -> Params {
    Params { alphabet: alpha_view(alphabet), cons: c, beam_width: bw }
}

/// The arguments a decode call accepts.
pub open spec fn args_ok(
    frames: Seq<Frame>,
    alphabet: Seq<String>,
    c: Seq<Seq<Seq<char>>>,
    bw: int,
    topk: int,
) -> bool {
    &&& alphabet.len() > 0
    &&& bw > 0
    &&& topk > 0
    &&& frames_shaped(frames, alphabet.len() as int)
    &&& cons_ok(c, alpha_view(alphabet))
}

/// The full contract of a decode call: accepted arguments give exactly the
/// ranked output, and each rejection names the first reason, in validation
/// order, that applies.
pub open spec fn decode_full_post(
    r: Result<Vec<(String, Prob)>, DecodeError>,
    frames: Seq<Frame>,
    alphabet: Seq<String>,
    c: Seq<Seq<Seq<char>>>,
    bw: int,
    topk: int,
) -> bool {
    match r {
        Ok(out) => args_ok(frames, alphabet, c, bw, topk) && decode_post(
            out@,
            frames,
            search_params(alphabet, c, bw),
            topk,
        ),
        Err(e) => match e {
            DecodeError::EmptyAlphabet => alphabet.len() == 0,
            DecodeError::ZeroBeamWidth => alphabet.len() > 0 && bw == 0,
            DecodeError::ZeroTopkPaths => alphabet.len() > 0 && bw > 0 && topk == 0,
            DecodeError::FrameLength => alphabet.len() > 0 && bw > 0 && topk > 0
                && !frames_shaped(frames, alphabet.len() as int),
            DecodeError::UnknownConstraintSymbol => alphabet.len() > 0 && bw > 0 && topk > 0
                && frames_shaped(frames, alphabet.len() as int) && !cons_ok(
                c,
                alpha_view(alphabet),
            ),
        },
    }
}

/// What holds of one batch entry's output: the example's arguments were
/// accepted and its output is exactly what a lone decode of it returns.
pub open spec fn batch_entry_post(
    out: Vec<(String, Prob)>,
    frames: Vec<Frame>,
    alphabet: Seq<String>,
    c: Seq<Seq<Seq<char>>>,
    bw: int,
    topk: int,
) -> bool {
    &&& args_ok(frames@, alphabet, c, bw, topk)
    &&& decode_post(out@, frames@, search_params(alphabet, c, bw), topk)
}

} // verus!
