//! The laws of the decoder, stated and proved against the model of
//! `crate::model`: probability-mass conservation, exactness at full beam
//! width, determinism of decoding, merge correctness, constraint
//! equivalence, graceful truncation, and descending output order.

use vstd::prelude::*;

use vstd::arithmetic::power::{lemma_pow_increases, pow};

use crate::beam::{Frame, Prob};
use crate::lemmas::{
    lemma_accumulate_total, lemma_entry_le_total, lemma_expanded_upto_distinct,
    lemma_find_label_props, lemma_rank_total, lemma_registry_total, lemma_step_total,
};
use crate::model::{
    accumulate, allowed_sym, beam_expanded, blank_extended, cons_view, decode_post, den_product,
    distinct_labels, expanded_upto, extension_mass, final_ranked, frame_ok,
    frames_shaped, insert_ranked, label_wf, labels_wf, lex_le, nums_of, opt_cons_view, p_tot,
    rank_beams, ranked_before, registry_after, root_model, sum_upto, sym_extended_upto,
    take_at_most, total_mass, BeamModel, Params,
};

verus! {

// ---------------------------------------------------------------------------
// Probability validity and mass conservation
// ---------------------------------------------------------------------------

/// The probabilities the decoder reports are valid: after any number of
/// timesteps of valid frames, the total tracked mass — and so every beam's
/// probability numerator — is at most the running denominator.  Every
/// probability lies in [0, 1].
pub proof fn lemma_probabilities_valid(frames: Seq<Frame>, ps: Params, t: int, k: int)
    requires
        0 <= t <= frames.len(),
        frames_shaped(frames, ps.alphabet.len() as int),
        forall|t2: int| 0 <= t2 < frames.len() ==> frame_ok(#[trigger] frames[t2]),
        0 <= k < registry_after(frames, ps, t).len(),
    ensures
        p_tot(registry_after(frames, ps, t)[k]) <= den_product(frames.take(t)),
{
    lemma_registry_total(frames, ps, t);
    lemma_entry_le_total(registry_after(frames, ps, t), k);
}

/// Every probability a decode call returns is valid: the numerator is a
/// natural number, and it never exceeds the denominator, so the probability
/// lies in [0, 1].
pub proof fn lemma_output_probabilities_valid(
    out: Seq<(String, Prob)>,
    frames: Seq<Frame>,
    ps: Params,
    topk: int,
)
    requires
        decode_post(out, frames, ps, topk),
        frames_shaped(frames, ps.alphabet.len() as int),
        forall|t2: int| 0 <= t2 < frames.len() ==> frame_ok(#[trigger] frames[t2]),
    ensures
        forall|j: int| 0 <= j < out.len() ==> (#[trigger] out[j]).1.num <= out[j].1.den,
{
    let reg = registry_after(frames, ps, frames.len() as int);
    let fin = take_at_most(final_ranked(frames, ps), topk);
    lemma_registry_total(frames, ps, frames.len() as int);
    lemma_rank_total(reg);
    assert(frames.take(frames.len() as int) =~= frames);
    assert forall|j: int| 0 <= j < out.len() implies (#[trigger] out[j]).1.num <= out[j].1.den by {
        assert(fin[j] == final_ranked(frames, ps)[j]);
        lemma_entry_le_total(final_ranked(frames, ps), j);
    }
}

/// The product of the frames' probability sums up to timestep `t`: the exact
/// total path mass of the forward computation.
pub open spec fn sum_product(frames: Seq<Frame>, t: int) -> nat
    decreases t,
{
    if t <= 0 {
        1
    } else {
        sum_product(frames, t - 1) * sum_upto(
            nums_of(frames[t - 1]),
            frames[t - 1].nums@.len() as int,
        )
    }
}

/// Labels stay well formed whatever the frames hold.
proof fn lemma_registry_labels(frames: Seq<Frame>, ps: Params, t: int)
    requires
        0 <= t <= frames.len(),
        frames_shaped(frames, ps.alphabet.len() as int),
    ensures
        labels_wf(registry_after(frames, ps, t), ps.alphabet.len() as int),
    decreases t,
{
    if t == 0 {
        assert(registry_after(frames, ps, 0) == seq![root_model()]);
    } else {
        lemma_registry_labels(frames, ps, t - 1);
        lemma_step_total(registry_after(frames, ps, t - 1), nums_of(frames[t - 1]), ps);
    }
}

// ---------------------------------------------------------------------------
// Registry size, and exactness at full beam width
// ---------------------------------------------------------------------------

proof fn lemma_accumulate_len(s: Seq<BeamModel>, l: Seq<usize>, pb: nat, pnb: nat)
    ensures
        accumulate(s, l, pb, pnb).len() <= s.len() + 1,
{
    lemma_find_label_props(s, l);
}

proof fn lemma_sym_upto_len(curr: Seq<BeamModel>, b: BeamModel, f: Seq<nat>, ps: Params, k: int)
    requires
        0 <= k,
    ensures
        sym_extended_upto(curr, b, f, ps, k).len() <= curr.len() + k,
    decreases k,
{
    if k > 0 {
        lemma_sym_upto_len(curr, b, f, ps, k - 1);
        let i = k - 1;
        if allowed_sym(ps.cons, ps.alphabet, b.label.len() as int, i) {
            lemma_accumulate_len(
                sym_extended_upto(curr, b, f, ps, k - 1),
                b.label.push(i as usize),
                0,
                extension_mass(b, f, i),
            );
        }
    }
}

proof fn lemma_beam_expanded_len(curr: Seq<BeamModel>, b: BeamModel, f: Seq<nat>, ps: Params)
    ensures
        beam_expanded(curr, b, f, ps).len() <= curr.len() + ps.alphabet.len() + 1,
{
    let a = ps.alphabet.len() as int;
    lemma_accumulate_len(
        curr,
        b.label,
        p_tot(b) * f[a],
        if b.label.len() > 0 {
            b.p_non_blank * f[b.label.last() as int]
        } else {
            0
        },
    );
    lemma_sym_upto_len(blank_extended(curr, b, f, a), b, f, ps, a);
}

proof fn lemma_expanded_upto_len(pruned: Seq<BeamModel>, f: Seq<nat>, ps: Params, j: int)
    requires
        0 <= j,
    ensures
        expanded_upto(pruned, f, ps, j).len() <= j * (ps.alphabet.len() + 1),
    decreases j,
{
    let w = ps.alphabet.len() + 1;
    if j > 0 {
        lemma_expanded_upto_len(pruned, f, ps, j - 1);
        lemma_beam_expanded_len(expanded_upto(pruned, f, ps, j - 1), pruned[j - 1], f, ps);
        assert((j - 1) * (w as int) + w == j * (w as int)) by (nonlinear_arith);
    }
}

/// The registry after `t` timesteps holds at most `(A + 1) ^ t` beams.
pub proof fn lemma_registry_size(frames: Seq<Frame>, ps: Params, t: int)
    requires
        0 <= t,
    ensures
        registry_after(frames, ps, t).len() <= pow(ps.alphabet.len() as int + 1, t as nat),
    decreases t,
{
    let w = ps.alphabet.len() as int + 1;
    reveal(pow);
    if t == 0 {
        assert(registry_after(frames, ps, 0) == seq![root_model()]);
    } else {
        lemma_registry_size(frames, ps, t - 1);
        let prev = registry_after(frames, ps, t - 1);
        let f = nums_of(frames[t - 1]);
        let ranked = rank_beams(prev);
        let pruned = take_at_most(ranked, ps.beam_width);
        lemma_rank_total(prev);
        assert(pruned.len() <= prev.len());
        lemma_expanded_upto_len(pruned, f, ps, pruned.len() as int);
        assert(pow(w, t as nat) == w * pow(w, (t - 1) as nat));
        assert(pruned.len() as int * w <= pow(w, (t - 1) as nat) * w) by (nonlinear_arith)
            requires
                pruned.len() <= pow(w, (t - 1) as nat),
                w >= 1,
        ;
        assert(pow(w, (t - 1) as nat) * w == w * pow(w, (t - 1) as nat)) by (nonlinear_arith);
    }
}

proof fn lemma_sym_upto_width_irrelevant(
    curr: Seq<BeamModel>,
    b: BeamModel,
    f: Seq<nat>,
    ps1: Params,
    ps2: Params,
    k: int,
)
    requires
        ps1.alphabet == ps2.alphabet,
        ps1.cons == ps2.cons,
    ensures
        sym_extended_upto(curr, b, f, ps1, k) == sym_extended_upto(curr, b, f, ps2, k),
    decreases k,
{
    if k > 0 {
        lemma_sym_upto_width_irrelevant(curr, b, f, ps1, ps2, k - 1);
    }
}

proof fn lemma_expanded_width_irrelevant(
    pruned: Seq<BeamModel>,
    f: Seq<nat>,
    ps1: Params,
    ps2: Params,
    j: int,
)
    requires
        ps1.alphabet == ps2.alphabet,
        ps1.cons == ps2.cons,
    ensures
        expanded_upto(pruned, f, ps1, j) == expanded_upto(pruned, f, ps2, j),
    decreases j,
{
    if j > 0 {
        lemma_expanded_width_irrelevant(pruned, f, ps1, ps2, j - 1);
        lemma_sym_upto_width_irrelevant(
            blank_extended(expanded_upto(pruned, f, ps1, j - 1), pruned[j - 1], f, ps1.alphabet.len() as int),
            pruned[j - 1],
            f,
            ps1,
            ps2,
            ps1.alphabet.len() as int,
        );
    }
}

/// A beam width at least `(A + 1) ^ t` prunes nothing: the search keeps every
/// beam it ever builds, so any two such widths give the same registry — the
/// beam search coincides with exhaustive expansion.
pub proof fn lemma_full_width_exact(frames: Seq<Frame>, ps1: Params, ps2: Params, t: int)
    requires
        0 <= t,
        ps1.alphabet == ps2.alphabet,
        ps1.cons == ps2.cons,
        ps1.beam_width >= pow(ps1.alphabet.len() as int + 1, t as nat),
        ps2.beam_width >= pow(ps1.alphabet.len() as int + 1, t as nat),
    ensures
        registry_after(frames, ps1, t) == registry_after(frames, ps2, t),
    decreases t,
{
    let w = ps1.alphabet.len() as int + 1;
    reveal(pow);
    if t > 0 {
        lemma_pow_increases((w as nat), (t - 1) as nat, t as nat);
        lemma_full_width_exact(frames, ps1, ps2, t - 1);
        let prev = registry_after(frames, ps1, t - 1);
        let f = nums_of(frames[t - 1]);
        lemma_registry_size(frames, ps1, t - 1);
        lemma_rank_total(prev);
        assert(rank_beams(prev).len() <= pow(w, (t - 1) as nat));
        assert(take_at_most(rank_beams(prev), ps1.beam_width) == rank_beams(prev));
        assert(take_at_most(rank_beams(prev), ps2.beam_width) == rank_beams(prev));
        lemma_expanded_width_irrelevant(
            rank_beams(prev),
            f,
            ps1,
            ps2,
            rank_beams(prev).len() as int,
        );
    }
}

/// For a `T`-frame input, any two beam widths of at least `(A + 1) ^ T`
/// admit exactly the same outputs: at that width the search never discards
/// a path, so its result matches exact decoding.
pub proof fn lemma_full_width_output_stable(frames: Seq<Frame>, ps1: Params, ps2: Params, topk: int)
    requires
        ps1.alphabet == ps2.alphabet,
        ps1.cons == ps2.cons,
        ps1.beam_width >= pow(ps1.alphabet.len() as int + 1, frames.len()),
        ps2.beam_width >= pow(ps1.alphabet.len() as int + 1, frames.len()),
    ensures
        forall|out: Seq<(String, Prob)>|
            decode_post(out, frames, ps1, topk) == #[trigger] decode_post(out, frames, ps2, topk),
{
    lemma_full_width_exact(frames, ps1, ps2, frames.len() as int);
    assert(final_ranked(frames, ps1) == final_ranked(frames, ps2));
}

/// At full width, with no constraint, the total mass after `t` timesteps is
/// exactly the product of the frames' probability sums: the approximate
/// search conserves the exact forward computation's mass.
pub proof fn lemma_mass_conserved_at_full_width(frames: Seq<Frame>, ps: Params, t: int)
    requires
        0 <= t <= frames.len(),
        frames_shaped(frames, ps.alphabet.len() as int),
        ps.cons.len() == 0,
        ps.beam_width >= pow(ps.alphabet.len() as int + 1, t as nat),
    ensures
        total_mass(registry_after(frames, ps, t)) == sum_product(frames, t),
    decreases t,
{
    let w = ps.alphabet.len() as int + 1;
    reveal(pow);
    if t == 0 {
        let r = registry_after(frames, ps, 0);
        assert(r == seq![root_model()]);
        assert(r.drop_first() =~= Seq::<BeamModel>::empty());
        assert(r[0] == root_model());
        assert(total_mass(r) == p_tot(root_model()) + total_mass(r.drop_first()));
        assert(total_mass(r.drop_first()) == 0);
        assert(p_tot(root_model()) == 1);
    } else {
        lemma_pow_increases((w as nat), (t - 1) as nat, t as nat);
        lemma_mass_conserved_at_full_width(frames, ps, t - 1);
        let prev = registry_after(frames, ps, t - 1);
        let f = nums_of(frames[t - 1]);
        lemma_registry_labels(frames, ps, t - 1);
        lemma_registry_size(frames, ps, t - 1);
        assert(ps.beam_width >= prev.len());
        assert(f.len() == frames[t - 1].nums@.len());
        lemma_step_total(prev, f, ps);
        assert(total_mass(registry_after(frames, ps, t)) == total_mass(prev) * sum_upto(
            f,
            f.len() as int,
        ));
    }
}

// ---------------------------------------------------------------------------
// Determinism: a batch entry equals a lone decode of the same example
// ---------------------------------------------------------------------------

/// The decode contract pins its output: any two outputs that satisfy it for
/// the same inputs agree in length and, entry by entry, in text and in exact
/// probability.  With `decode_batch`'s contract this says each batch entry
/// equals what a lone `decode` of that example returns.
pub proof fn lemma_decode_deterministic(
    out1: Seq<(String, Prob)>,
    out2: Seq<(String, Prob)>,
    frames: Seq<Frame>,
    ps: Params,
    topk: int,
)
    requires
        decode_post(out1, frames, ps, topk),
        decode_post(out2, frames, ps, topk),
    ensures
        out1.len() == out2.len(),
        forall|j: int| #![trigger out1[j], out2[j]]
            0 <= j < out1.len() ==> out1[j].0@ == out2[j].0@ && out1[j].1.num == out2[j].1.num
                && out1[j].1.den == out2[j].1.den,
{
}

// ---------------------------------------------------------------------------
// Merge correctness
// ---------------------------------------------------------------------------

/// Mass merged into a label's entry is summed exactly once: the merge adds
/// precisely the contributed mass to the registry's total — no double
/// counting, no loss.
pub proof fn lemma_merge_adds_mass_once(s: Seq<BeamModel>, l: Seq<usize>, pb: nat, pnb: nat)
    ensures
        total_mass(accumulate(s, l, pb, pnb)) == total_mass(s) + pb + pnb,
{
    lemma_accumulate_total(s, l, pb, pnb);
}

/// Every registry the search builds holds at most one beam per distinct
/// label: two expansion paths that reach the same label are merged.
pub proof fn lemma_registry_labels_distinct(frames: Seq<Frame>, ps: Params, t: int)
    requires
        0 <= t,
    ensures
        distinct_labels(registry_after(frames, ps, t)),
{
    if t == 0 {
        assert(registry_after(frames, ps, 0) == seq![root_model()]);
    } else {
        let prev = registry_after(frames, ps, t - 1);
        let f = nums_of(frames[t - 1]);
        let pruned = take_at_most(rank_beams(prev), ps.beam_width);
        lemma_expanded_upto_distinct(pruned, f, ps, pruned.len() as int);
    }
}

// ---------------------------------------------------------------------------
// Constraint equivalence: absent and empty constraint lists agree
// ---------------------------------------------------------------------------

/// An absent constraint list and an empty constraint list mean the same
/// thing — no position is constrained — so every spec function of the model,
/// and with it the decode contract, sees the identical parameter.
pub proof fn lemma_absent_equals_empty(v: &Vec<Vec<String>>)
    requires
        v@.len() == 0,
    ensures
        opt_cons_view(Option::None) == opt_cons_view(Option::Some(v)),
{
    assert(cons_view(v@) =~= Seq::<Seq<Seq<char>>>::empty());
}

// ---------------------------------------------------------------------------
// Graceful truncation
// ---------------------------------------------------------------------------

/// When `topk_paths` is at least the number of distinct final beams, the
/// output holds them all: no error, no padding.
pub proof fn lemma_topk_returns_all(
    out: Seq<(String, Prob)>,
    frames: Seq<Frame>,
    ps: Params,
    topk: int,
)
    requires
        decode_post(out, frames, ps, topk),
        topk >= final_ranked(frames, ps).len(),
    ensures
        out.len() == final_ranked(frames, ps).len(),
{
}

// ---------------------------------------------------------------------------
// Output order: descending probability
// ---------------------------------------------------------------------------

proof fn lemma_lex_total(a: Seq<usize>, b: Seq<usize>)
    ensures
        lex_le(a, b) || lex_le(b, a),
    decreases a.len(),
{
    if a.len() > 0 && b.len() > 0 && a[0] == b[0] {
        lemma_lex_total(a.drop_first(), b.drop_first());
    }
}

proof fn lemma_lex_trans(a: Seq<usize>, b: Seq<usize>, c: Seq<usize>)
    requires
        lex_le(a, b),
        lex_le(b, c),
    ensures
        lex_le(a, c),
    decreases a.len(),
{
    if a.len() > 0 {
        assert(b.len() > 0);
        assert(c.len() > 0);
        if a[0] == b[0] && b[0] == c[0] {
            lemma_lex_trans(a.drop_first(), b.drop_first(), c.drop_first());
        }
    }
}

proof fn lemma_ranked_before_total(a: BeamModel, b: BeamModel)
    ensures
        ranked_before(a, b) || ranked_before(b, a),
{
    lemma_lex_total(a.label, b.label);
}

proof fn lemma_ranked_before_trans(a: BeamModel, b: BeamModel, c: BeamModel)
    requires
        ranked_before(a, b),
        ranked_before(b, c),
    ensures
        ranked_before(a, c),
{
    if p_tot(a) == p_tot(b) && p_tot(b) == p_tot(c) {
        lemma_lex_trans(a.label, b.label, c.label);
    }
}

/// Beams in non-increasing rank order: larger mass first.
pub open spec fn sorted_ranked(s: Seq<BeamModel>) -> bool {
    forall|k1: int, k2: int|
        0 <= k1 < k2 < s.len() ==> ranked_before(#[trigger] s[k1], #[trigger] s[k2])
}

proof fn lemma_insert_elements(b: BeamModel, s: Seq<BeamModel>)
    ensures
        forall|m: int|
            0 <= m < insert_ranked(b, s).len() ==> (#[trigger] insert_ranked(b, s)[m]) == b
                || s.contains(insert_ranked(b, s)[m]),
    decreases s.len(),
{
    if s.len() == 0 {
    } else if ranked_before(b, s[0]) {
        assert forall|m: int| 0 <= m < insert_ranked(b, s).len() implies (#[trigger] insert_ranked(
            b,
            s,
        )[m]) == b || s.contains(insert_ranked(b, s)[m]) by {
            if m > 0 {
                assert(insert_ranked(b, s)[m] == s[m - 1]);
            }
        }
    } else {
        lemma_insert_elements(b, s.drop_first());
        let t = insert_ranked(b, s.drop_first());
        assert forall|m: int| 0 <= m < insert_ranked(b, s).len() implies (#[trigger] insert_ranked(
            b,
            s,
        )[m]) == b || s.contains(insert_ranked(b, s)[m]) by {
            if m == 0 {
                assert(insert_ranked(b, s)[0] == s[0]);
                assert(s.contains(s[0]));
            } else {
                assert(insert_ranked(b, s)[m] == t[m - 1]);
                if t[m - 1] != b {
                    let k = choose|k: int| 0 <= k < s.drop_first().len() && s.drop_first()[k] == t[
                        m - 1
                    ];
                    assert(s[k + 1] == t[m - 1]);
                    assert(s.contains(s[k + 1]));
                }
            }
        }
    }
}

proof fn lemma_insert_sorted(b: BeamModel, s: Seq<BeamModel>)
    requires
        sorted_ranked(s),
    ensures
        sorted_ranked(insert_ranked(b, s)),
    decreases s.len(),
{
    if s.len() == 0 {
    } else if ranked_before(b, s[0]) {
        let r = seq![b] + s;
        assert forall|k1: int, k2: int| 0 <= k1 < k2 < r.len() implies ranked_before(
            #[trigger] r[k1],
            #[trigger] r[k2],
        ) by {
            if k1 == 0 {
                assert(r[k2] == s[k2 - 1]);
                if k2 > 1 {
                    lemma_ranked_before_trans(b, s[0], s[k2 - 1]);
                }
            } else {
                assert(r[k1] == s[k1 - 1]);
                assert(r[k2] == s[k2 - 1]);
            }
        }
    } else {
        lemma_ranked_before_total(b, s[0]);
        assert(ranked_before(s[0], b));
        assert(sorted_ranked(s.drop_first()));
        lemma_insert_sorted(b, s.drop_first());
        lemma_insert_elements(b, s.drop_first());
        let t = insert_ranked(b, s.drop_first());
        let r = seq![s[0]] + t;
        assert forall|k1: int, k2: int| 0 <= k1 < k2 < r.len() implies ranked_before(
            #[trigger] r[k1],
            #[trigger] r[k2],
        ) by {
            assert(r[k2] == t[k2 - 1]);
            if k1 == 0 {
                if t[k2 - 1] == b {
                    assert(ranked_before(s[0], b));
                } else {
                    let k = choose|k: int| 0 <= k < s.drop_first().len() && s.drop_first()[k] == t[
                        k2 - 1
                    ];
                    assert(s[k + 1] == t[k2 - 1]);
                    assert(ranked_before(s[0], s[k + 1]));
                }
            } else {
                assert(r[k1] == t[k1 - 1]);
            }
        }
    }
}

/// Ranking sorts: the ranked registry is in non-increasing mass order, with
/// equal masses in lexicographic label order.
pub proof fn lemma_rank_sorted(s: Seq<BeamModel>)
    ensures
        sorted_ranked(rank_beams(s)),
    decreases s.len(),
{
    if s.len() > 0 {
        lemma_rank_sorted(s.drop_last());
        lemma_insert_sorted(s.last(), rank_beams(s.drop_last()));
    }
}

/// The decoder's output is ordered by descending probability.
pub proof fn lemma_output_sorted(
    out: Seq<(String, Prob)>,
    frames: Seq<Frame>,
    ps: Params,
    topk: int,
)
    requires
        decode_post(out, frames, ps, topk),
    ensures
        forall|j1: int, j2: int|
            0 <= j1 < j2 < out.len() ==> (#[trigger] out[j1]).1.num >= (#[trigger] out[j2]).1.num,
{
    let fin = take_at_most(final_ranked(frames, ps), topk);
    lemma_rank_sorted(registry_after(frames, ps, frames.len() as int));
    assert forall|j1: int, j2: int| 0 <= j1 < j2 < out.len() implies (#[trigger] out[j1]).1.num >= (
    #[trigger] out[j2]).1.num by {
        assert(fin[j1] == final_ranked(frames, ps)[j1]);
        assert(fin[j2] == final_ranked(frames, ps)[j2]);
        assert(ranked_before(final_ranked(frames, ps)[j1], final_ranked(frames, ps)[j2]));
    }
}

} // verus!
