//! Proof support: how ranking, merging and expansion move probability mass.
//!
//! The central results are `lemma_accumulate_total` (merging neither loses
//! nor double-counts mass), `lemma_step_total` (one timestep multiplies the
//! total mass by at most the frame's probability sum, exactly when nothing
//! is pruned or constrained away) and `lemma_registry_total` (the registry's
//! total mass stays below the running denominator, which also bounds every
//! executable mass computation).

use vstd::prelude::*;

use vstd::arithmetic::mul::{lemma_mul_inequality, lemma_mul_is_distributive_add};

use crate::beam::Frame;
use crate::model::{
    accumulate, beam_expanded, blank_extended, den_product, expanded_upto, find_label,
    frame_ok, frames_shaped, insert_ranked, label_wf, labels_wf, p_tot, rank_beams,
    registry_after, root_model, step, sum_upto, sym_extended_upto, take_at_most, total_mass,
    allowed_sym, distinct_labels, extension_mass, nums_of, BeamModel, Params,
};

verus! {

/// The mass an interrupted repeat of the label's final symbol must not carry:
/// see `lemma_sym_upto_total`.
pub open spec fn repeat_extra(b: BeamModel, f: Seq<nat>, k: int) -> nat {
    if b.label.len() > 0 && (b.label.last() as int) < k {
        b.p_non_blank * f[b.label.last() as int]
    } else {
        0
    }
}

pub proof fn lemma_total_push(s: Seq<BeamModel>, b: BeamModel)
    ensures
        total_mass(s.push(b)) == total_mass(s) + p_tot(b),
    decreases s.len(),
{
    if s.len() == 0 {
        assert(s.push(b).drop_first() =~= Seq::<BeamModel>::empty());
        assert(s.push(b)[0] == b);
        assert(total_mass(s) == 0);
        assert(total_mass(Seq::<BeamModel>::empty()) == 0);
        assert(total_mass(s.push(b)) == p_tot(b) + total_mass(s.push(b).drop_first()));
    } else {
        assert(s.push(b).drop_first() =~= s.drop_first().push(b));
        assert(s.push(b)[0] == s[0]);
        lemma_total_push(s.drop_first(), b);
        assert(total_mass(s) == p_tot(s[0]) + total_mass(s.drop_first()));
        assert(total_mass(s.push(b)) == p_tot(s[0]) + total_mass(s.drop_first().push(b)));
    }
}

pub proof fn lemma_total_update(s: Seq<BeamModel>, j: int, b: BeamModel)
    requires
        0 <= j < s.len(),
    ensures
        total_mass(s.update(j, b)) + p_tot(s[j]) == total_mass(s) + p_tot(b),
    decreases s.len(),
{
    if j == 0 {
        assert(s.update(0, b).drop_first() =~= s.drop_first());
        assert(s.update(0, b)[0] == b);
    } else {
        assert(s.update(j, b).drop_first() =~= s.drop_first().update(j - 1, b));
        assert(s.update(j, b)[0] == s[0]);
        lemma_total_update(s.drop_first(), j - 1, b);
    }
}

pub proof fn lemma_find_label_props(s: Seq<BeamModel>, l: Seq<usize>)
    ensures
        find_label(s, l) == -1 ==> forall|k: int| 0 <= k < s.len() ==> (#[trigger] s[k].label) != l,
        find_label(s, l) != -1 ==> {
            &&& 0 <= find_label(s, l) < s.len()
            &&& s[find_label(s, l)].label == l
            &&& forall|k: int| 0 <= k < find_label(s, l) ==> (#[trigger] s[k].label) != l
        },
    decreases s.len(),
{
    if s.len() > 0 && s[0].label != l {
        lemma_find_label_props(s.drop_first(), l);
        let r = find_label(s, l);
        if r == -1 {
            assert forall|k: int| 0 <= k < s.len() implies (#[trigger] s[k].label) != l by {
                if k > 0 {
                    assert(s.drop_first()[k - 1] == s[k]);
                }
            }
        } else {
            assert(s.drop_first()[r - 1] == s[r]);
            assert forall|k: int| 0 <= k < r implies (#[trigger] s[k].label) != l by {
                if k > 0 {
                    assert(s.drop_first()[k - 1] == s[k]);
                }
            }
        }
    }
}

/// Merging adds exactly the contributed mass: nothing is lost, nothing is
/// counted twice.
pub proof fn lemma_accumulate_total(s: Seq<BeamModel>, l: Seq<usize>, pb: nat, pnb: nat)
    ensures
        total_mass(accumulate(s, l, pb, pnb)) == total_mass(s) + pb + pnb,
{
    lemma_find_label_props(s, l);
    let j = find_label(s, l);
    if j == -1 {
        lemma_total_push(s, BeamModel { label: l, p_blank: pb, p_non_blank: pnb });
    } else {
        lemma_total_update(
            s,
            j,
            BeamModel {
                label: l,
                p_blank: (s[j].p_blank + pb) as nat,
                p_non_blank: (s[j].p_non_blank + pnb) as nat,
            },
        );
    }
}

/// Merging keeps labels well formed.
pub proof fn lemma_accumulate_labels(s: Seq<BeamModel>, l: Seq<usize>, pb: nat, pnb: nat, a: int)
    requires
        labels_wf(s, a),
        label_wf(l, a),
    ensures
        labels_wf(accumulate(s, l, pb, pnb), a),
{
    lemma_find_label_props(s, l);
}

/// Merging keeps labels distinct: a fresh entry is appended only when no
/// entry with that label exists.
pub proof fn lemma_accumulate_distinct(s: Seq<BeamModel>, l: Seq<usize>, pb: nat, pnb: nat)
    requires
        distinct_labels(s),
    ensures
        distinct_labels(accumulate(s, l, pb, pnb)),
{
    lemma_find_label_props(s, l);
    let j = find_label(s, l);
    if j == -1 {
        let r = accumulate(s, l, pb, pnb);
        assert(forall|k: int| 0 <= k < s.len() ==> r[k] == s[k]);
    }
}

/// Every entry's mass is at most the registry's total mass.
pub proof fn lemma_entry_le_total(s: Seq<BeamModel>, k: int)
    requires
        0 <= k < s.len(),
    ensures
        p_tot(s[k]) <= total_mass(s),
    decreases s.len(),
{
    if k > 0 {
        lemma_entry_le_total(s.drop_first(), k - 1);
    }
}

pub proof fn lemma_total_take(s: Seq<BeamModel>, k: int)
    requires
        0 <= k <= s.len(),
    ensures
        total_mass(s.take(k)) <= total_mass(s),
        total_mass(s.take(k)) + p_tot(s[k]) <= total_mass(s) || k == s.len(),
    decreases s.len() - k,
{
    if k == s.len() {
        assert(s.take(k) =~= s);
    } else {
        assert(s.take(k + 1) =~= s.take(k).push(s[k]));
        lemma_total_push(s.take(k), s[k]);
        lemma_total_take(s, k + 1);
    }
}

pub proof fn lemma_take_at_most_total(s: Seq<BeamModel>, k: int)
    ensures
        total_mass(take_at_most(s, k)) <= total_mass(s),
        k >= s.len() ==> total_mass(take_at_most(s, k)) == total_mass(s),
{
    if k <= 0 {
    } else if k >= s.len() {
    } else {
        lemma_total_take(s, k);
    }
}

pub proof fn lemma_insert_ranked_total(b: BeamModel, s: Seq<BeamModel>)
    ensures
        total_mass(insert_ranked(b, s)) == total_mass(s) + p_tot(b),
        insert_ranked(b, s).len() == s.len() + 1,
    decreases s.len(),
{
    if s.len() == 0 {
        lemma_total_push(s, b);
        assert(insert_ranked(b, s) =~= s.push(b));
    } else if crate::model::ranked_before(b, s[0]) {
        assert((seq![b] + s).drop_first() =~= s);
        assert((seq![b] + s)[0] == b);
    } else {
        lemma_insert_ranked_total(b, s.drop_first());
        assert((seq![s[0]] + insert_ranked(b, s.drop_first())).drop_first() =~= insert_ranked(
            b,
            s.drop_first(),
        ));
        assert((seq![s[0]] + insert_ranked(b, s.drop_first()))[0] == s[0]);
    }
}

/// Ranking permutes the registry, so its total mass and length are kept.
pub proof fn lemma_rank_total(s: Seq<BeamModel>)
    ensures
        total_mass(rank_beams(s)) == total_mass(s),
        rank_beams(s).len() == s.len(),
    decreases s.len(),
{
    if s.len() > 0 {
        lemma_rank_total(s.drop_last());
        lemma_insert_ranked_total(s.last(), rank_beams(s.drop_last()));
        assert(s.drop_last().push(s.last()) =~= s);
        lemma_total_push(s.drop_last(), s.last());
    }
}

pub proof fn lemma_insert_ranked_labels(b: BeamModel, s: Seq<BeamModel>, a: int)
    requires
        labels_wf(s, a),
        label_wf(b.label, a),
    ensures
        labels_wf(insert_ranked(b, s), a),
    decreases s.len(),
{
    if s.len() == 0 {
    } else if crate::model::ranked_before(b, s[0]) {
        let r = seq![b] + s;
        assert(forall|k: int| 1 <= k < r.len() ==> r[k] == s[k - 1]);
    } else {
        lemma_insert_ranked_labels(b, s.drop_first(), a);
        let t = insert_ranked(b, s.drop_first());
        let r = seq![s[0]] + t;
        assert(forall|k: int| 1 <= k < r.len() ==> r[k] == t[k - 1]);
    }
}

pub proof fn lemma_rank_labels(s: Seq<BeamModel>, a: int)
    requires
        labels_wf(s, a),
    ensures
        labels_wf(rank_beams(s), a),
    decreases s.len(),
{
    if s.len() > 0 {
        assert(labels_wf(s.drop_last(), a));
        lemma_rank_labels(s.drop_last(), a);
        lemma_rank_total(s.drop_last());
        lemma_insert_ranked_labels(s.last(), rank_beams(s.drop_last()), a);
    }
}

pub proof fn lemma_take_at_most_labels(s: Seq<BeamModel>, k: int, a: int)
    requires
        labels_wf(s, a),
    ensures
        labels_wf(take_at_most(s, k), a),
{
    if 0 < k < s.len() {
        assert(forall|m: int| 0 <= m < k ==> take_at_most(s, k)[m] == s[m]);
    }
}


/// The symbol extensions of one beam add at most `p_tot(b)` times the mass of
/// the candidate symbols, exactly that when every symbol is allowed; a repeat
/// of the label's final symbol leaves `p_non_blank * f[last]` on the table,
/// which the blank extension picks up instead.
pub proof fn lemma_sym_upto_total(
    curr: Seq<BeamModel>,
    b: BeamModel,
    f: Seq<nat>,
    ps: Params,
    k: int,
)
    requires
        0 <= k <= f.len(),
        label_wf(b.label, ps.alphabet.len() as int),
    ensures
        total_mass(sym_extended_upto(curr, b, f, ps, k)) + repeat_extra(b, f, k) <= total_mass(curr)
            + p_tot(b) * sum_upto(f, k),
        ps.cons.len() == 0 ==> total_mass(sym_extended_upto(curr, b, f, ps, k)) + repeat_extra(
            b,
            f,
            k,
        ) == total_mass(curr) + p_tot(b) * sum_upto(f, k),
    decreases k,
{
    if k > 0 {
        lemma_sym_upto_total(curr, b, f, ps, k - 1);
        let i = k - 1;
        let prev = sym_extended_upto(curr, b, f, ps, k - 1);
        let cur = sym_extended_upto(curr, b, f, ps, k);
        let pt = p_tot(b);
        let repeat = b.label.len() > 0 && (b.label.last() as int) == i;
        assert(sum_upto(f, k) == sum_upto(f, k - 1) + f[i]);
        assert(pt * (sum_upto(f, k - 1) + f[i]) == pt * sum_upto(f, k - 1) + pt * f[i])
            by (nonlinear_arith);
        if allowed_sym(ps.cons, ps.alphabet, b.label.len() as int, i) {
            lemma_accumulate_total(prev, b.label.push(i as usize), 0, extension_mass(b, f, i));
            assert(total_mass(cur) == total_mass(prev) + extension_mass(b, f, i));
            if repeat {
                assert(extension_mass(b, f, i) == b.p_blank * f[i]);
                assert(repeat_extra(b, f, k) == b.p_non_blank * f[i]);
                assert(repeat_extra(b, f, k - 1) == 0);
                assert(b.p_blank * f[i] + b.p_non_blank * f[i] == (b.p_blank + b.p_non_blank)
                    * f[i]) by (nonlinear_arith);
            } else {
                assert(extension_mass(b, f, i) == pt * f[i]);
                assert(repeat_extra(b, f, k) == repeat_extra(b, f, k - 1));
            }
        } else {
            assert(ps.cons.len() > 0);
            assert(total_mass(cur) == total_mass(prev));
            if repeat {
                assert(repeat_extra(b, f, k) == b.p_non_blank * f[i]);
                assert(repeat_extra(b, f, k - 1) == 0);
                lemma_mul_inequality(b.p_non_blank as int, pt as int, f[i] as int);
            } else {
                assert(repeat_extra(b, f, k) == repeat_extra(b, f, k - 1));
            }
        }
        if ps.cons.len() == 0 {
            assert(total_mass(cur) + repeat_extra(b, f, k) == total_mass(curr) + pt * sum_upto(
                f,
                k,
            ));
        }
    } else {
        assert(sym_extended_upto(curr, b, f, ps, 0) == curr);
        assert(repeat_extra(b, f, 0) == 0);
        assert(sum_upto(f, 0) == 0);
        assert(p_tot(b) * sum_upto(f, 0) == 0) by (nonlinear_arith);
    }
}

/// Expanding one beam adds at most `p_tot(b)` times the frame's probability
/// sum, exactly that when no constraint filters the symbols.
pub proof fn lemma_beam_expanded_total(curr: Seq<BeamModel>, b: BeamModel, f: Seq<nat>, ps: Params)
    requires
        f.len() == ps.alphabet.len() + 1,
        label_wf(b.label, ps.alphabet.len() as int),
    ensures
        total_mass(beam_expanded(curr, b, f, ps)) <= total_mass(curr) + p_tot(b) * sum_upto(
            f,
            f.len() as int,
        ),
        ps.cons.len() == 0 ==> total_mass(beam_expanded(curr, b, f, ps)) == total_mass(curr)
            + p_tot(b) * sum_upto(f, f.len() as int),
{
    let a = ps.alphabet.len() as int;
    let pb = p_tot(b) * f[a];
    let pnb = if b.label.len() > 0 {
        b.p_non_blank * f[b.label.last() as int]
    } else {
        0
    };
    lemma_accumulate_total(curr, b.label, pb, pnb);
    let base = blank_extended(curr, b, f, a);
    lemma_sym_upto_total(base, b, f, ps, a);
    assert(repeat_extra(b, f, a) == pnb);
    lemma_mul_is_distributive_add(p_tot(b) as int, sum_upto(f, a) as int, f[a] as int);
}

pub proof fn lemma_sym_upto_labels(
    curr: Seq<BeamModel>,
    b: BeamModel,
    f: Seq<nat>,
    ps: Params,
    k: int,
)
    requires
        k <= ps.alphabet.len(),
        labels_wf(curr, ps.alphabet.len() as int),
        label_wf(b.label, ps.alphabet.len() as int),
    ensures
        labels_wf(sym_extended_upto(curr, b, f, ps, k), ps.alphabet.len() as int),
    decreases k,
{
    let a = ps.alphabet.len() as int;
    if k > 0 {
        lemma_sym_upto_labels(curr, b, f, ps, k - 1);
        let i = k - 1;
        if allowed_sym(ps.cons, ps.alphabet, b.label.len() as int, i) {
            let l = b.label.push(i as usize);
            assert(label_wf(l, a));
            lemma_accumulate_labels(
                sym_extended_upto(curr, b, f, ps, k - 1),
                l,
                0,
                extension_mass(b, f, i),
                a,
            );
        }
    }
}

pub proof fn lemma_beam_expanded_labels(curr: Seq<BeamModel>, b: BeamModel, f: Seq<nat>, ps: Params)
    requires
        labels_wf(curr, ps.alphabet.len() as int),
        label_wf(b.label, ps.alphabet.len() as int),
    ensures
        labels_wf(beam_expanded(curr, b, f, ps), ps.alphabet.len() as int),
{
    let a = ps.alphabet.len() as int;
    lemma_accumulate_labels(
        curr,
        b.label,
        p_tot(b) * f[a],
        if b.label.len() > 0 {
            b.p_non_blank * f[b.label.last() as int]
        } else {
            0
        },
        a,
    );
    lemma_sym_upto_labels(blank_extended(curr, b, f, a), b, f, ps, a);
}

/// The whole expansion of the first `j` retained beams: at most, and without
/// constraints exactly, their combined mass times the frame's sum.
pub proof fn lemma_expanded_upto_total(pruned: Seq<BeamModel>, f: Seq<nat>, ps: Params, j: int)
    requires
        0 <= j <= pruned.len(),
        f.len() == ps.alphabet.len() + 1,
        labels_wf(pruned, ps.alphabet.len() as int),
    ensures
        total_mass(expanded_upto(pruned, f, ps, j)) <= total_mass(pruned.take(j)) * sum_upto(
            f,
            f.len() as int,
        ),
        ps.cons.len() == 0 ==> total_mass(expanded_upto(pruned, f, ps, j)) == total_mass(
            pruned.take(j),
        ) * sum_upto(f, f.len() as int),
        labels_wf(expanded_upto(pruned, f, ps, j), ps.alphabet.len() as int),
    decreases j,
{
    let s = sum_upto(f, f.len() as int);
    if j == 0 {
        assert(pruned.take(0) =~= Seq::<BeamModel>::empty());
    } else {
        lemma_expanded_upto_total(pruned, f, ps, j - 1);
        let curr = expanded_upto(pruned, f, ps, j - 1);
        let b = pruned[j - 1];
        lemma_beam_expanded_total(curr, b, f, ps);
        lemma_beam_expanded_labels(curr, b, f, ps);
        assert(expanded_upto(pruned, f, ps, j) == beam_expanded(curr, b, f, ps));
        assert(pruned.take(j) =~= pruned.take(j - 1).push(b));
        lemma_total_push(pruned.take(j - 1), b);
        let t1 = total_mass(pruned.take(j - 1));
        assert((t1 + p_tot(b)) * s == t1 * s + p_tot(b) * s) by (nonlinear_arith);
        assert(total_mass(pruned.take(j)) == t1 + p_tot(b));
    }
}

/// One timestep multiplies the registry's total mass by at most the frame's
/// probability sum — exactly that when nothing is constrained and the beam
/// width retains every beam.
pub proof fn lemma_step_total(reg: Seq<BeamModel>, f: Seq<nat>, ps: Params)
    requires
        f.len() == ps.alphabet.len() + 1,
        labels_wf(reg, ps.alphabet.len() as int),
    ensures
        total_mass(step(reg, f, ps)) <= total_mass(reg) * sum_upto(f, f.len() as int),
        ps.cons.len() == 0 && ps.beam_width >= reg.len() ==> total_mass(step(reg, f, ps))
            == total_mass(reg) * sum_upto(f, f.len() as int),
        labels_wf(step(reg, f, ps), ps.alphabet.len() as int),
    decreases reg.len(),
{
    let s = sum_upto(f, f.len() as int);
    let ranked = rank_beams(reg);
    let pruned = take_at_most(ranked, ps.beam_width);
    lemma_rank_total(reg);
    lemma_rank_labels(reg, ps.alphabet.len() as int);
    lemma_take_at_most_labels(ranked, ps.beam_width, ps.alphabet.len() as int);
    lemma_take_at_most_total(ranked, ps.beam_width);
    lemma_expanded_upto_total(pruned, f, ps, pruned.len() as int);
    assert(pruned.take(pruned.len() as int) =~= pruned);
    lemma_mul_inequality(total_mass(pruned) as int, total_mass(reg) as int, s as int);
}

pub proof fn lemma_den_product_pos(frames: Seq<Frame>)
    requires
        forall|t: int| 0 <= t < frames.len() ==> frame_ok(#[trigger] frames[t]),
    ensures
        den_product(frames) >= 1,
    decreases frames.len(),
{
    if frames.len() > 0 {
        assert(forall|t: int|
            0 <= t < frames.drop_last().len() ==> frames.drop_last()[t] == (#[trigger] frames[t]));
        lemma_den_product_pos(frames.drop_last());
        lemma_mul_inequality(1, den_product(frames.drop_last()) as int, frames.last().den as int);
    }
}

pub proof fn lemma_den_product_take_succ(frames: Seq<Frame>, t: int)
    requires
        0 <= t < frames.len(),
    ensures
        den_product(frames.take(t + 1)) == den_product(frames.take(t)) * (frames[t].den as nat),
{
    assert(frames.take(t + 1).drop_last() =~= frames.take(t));
    assert(frames.take(t + 1).last() == frames[t]);
}

pub proof fn lemma_den_product_take_le(frames: Seq<Frame>, t: int)
    requires
        0 <= t <= frames.len(),
        forall|t2: int| 0 <= t2 < frames.len() ==> frame_ok(#[trigger] frames[t2]),
    ensures
        den_product(frames.take(t)) <= den_product(frames),
    decreases frames.len() - t,
{
    if t == frames.len() {
        assert(frames.take(t) =~= frames);
    } else {
        lemma_den_product_take_succ(frames, t);
        assert(forall|t2: int|
            0 <= t2 < frames.take(t).len() ==> frames.take(t)[t2] == (#[trigger] frames[t2]));
        lemma_den_product_pos(frames.take(t));
        lemma_mul_inequality(1, frames[t].den as int, den_product(frames.take(t)) as int);
        assert(den_product(frames.take(t)) * 1 == den_product(frames.take(t)));
        assert(den_product(frames.take(t)) * (frames[t].den as nat) == (frames[t].den as nat)
            * den_product(frames.take(t))) by (nonlinear_arith);
        lemma_den_product_take_le(frames, t + 1);
    }
}

/// The registry's total mass after `t` timesteps is at most the running
/// denominator: the probabilities the decoder tracks never exceed one.
pub proof fn lemma_registry_total(frames: Seq<Frame>, ps: Params, t: int)
    requires
        0 <= t <= frames.len(),
        frames_shaped(frames, ps.alphabet.len() as int),
        forall|t2: int| 0 <= t2 < frames.len() ==> frame_ok(#[trigger] frames[t2]),
    ensures
        total_mass(registry_after(frames, ps, t)) <= den_product(frames.take(t)),
        labels_wf(registry_after(frames, ps, t), ps.alphabet.len() as int),
    decreases t,
{
    if t == 0 {
        let r = registry_after(frames, ps, 0);
        assert(r == seq![root_model()]);
        assert(r.drop_first() =~= Seq::<BeamModel>::empty());
        assert(r[0] == root_model());
        assert(total_mass(r) == p_tot(root_model()) + total_mass(r.drop_first()));
        assert(total_mass(r.drop_first()) == 0);
        assert(p_tot(root_model()) == 1);
        assert(frames.take(0) =~= Seq::<Frame>::empty());
    } else {
        lemma_registry_total(frames, ps, t - 1);
        let prev = registry_after(frames, ps, t - 1);
        let f = nums_of(frames[t - 1]);
        assert(f.len() == frames[t - 1].nums@.len());
        lemma_step_total(prev, f, ps);
        let s = sum_upto(f, f.len() as int);
        lemma_mul_inequality(s as int, frames[t - 1].den as int, total_mass(prev) as int);
        assert(total_mass(prev) * s == s * total_mass(prev)) by (nonlinear_arith);
        assert(total_mass(prev) * (frames[t - 1].den as nat) == (frames[t - 1].den as nat)
            * total_mass(prev)) by (nonlinear_arith);
        lemma_mul_inequality(
            total_mass(prev) as int,
            den_product(frames.take(t - 1)) as int,
            frames[t - 1].den as int,
        );
        lemma_den_product_take_succ(frames, t - 1);
    }
}

/// Totals only grow as the symbol loop advances.
pub proof fn lemma_sym_upto_mono(curr: Seq<BeamModel>, b: BeamModel, f: Seq<nat>, ps: Params, k1: int, k2: int)
    requires
        0 <= k1 <= k2,
    ensures
        total_mass(sym_extended_upto(curr, b, f, ps, k1)) <= total_mass(
            sym_extended_upto(curr, b, f, ps, k2),
        ),
    decreases k2 - k1,
{
    if k1 < k2 {
        lemma_sym_upto_mono(curr, b, f, ps, k1, k2 - 1);
        let i = k2 - 1;
        if allowed_sym(ps.cons, ps.alphabet, b.label.len() as int, i) {
            lemma_accumulate_total(
                sym_extended_upto(curr, b, f, ps, k2 - 1),
                b.label.push(i as usize),
                0,
                extension_mass(b, f, i),
            );
        }
    }
}

/// Totals only grow as beams are expanded one after the other.
pub proof fn lemma_expanded_upto_mono(pruned: Seq<BeamModel>, f: Seq<nat>, ps: Params, j1: int, j2: int)
    requires
        0 <= j1 <= j2,
    ensures
        total_mass(expanded_upto(pruned, f, ps, j1)) <= total_mass(expanded_upto(pruned, f, ps, j2)),
    decreases j2 - j1,
{
    if j1 < j2 {
        lemma_expanded_upto_mono(pruned, f, ps, j1, j2 - 1);
        let curr = expanded_upto(pruned, f, ps, j2 - 1);
        let b = pruned[j2 - 1];
        let a = ps.alphabet.len() as int;
        lemma_accumulate_total(
            curr,
            b.label,
            p_tot(b) * f[a],
            if b.label.len() > 0 {
                b.p_non_blank * f[b.label.last() as int]
            } else {
                0
            },
        );
        lemma_sym_upto_mono(blank_extended(curr, b, f, a), b, f, ps, 0, a);
    }
}

/// The registry never holds two beams with the same label.
pub proof fn lemma_sym_upto_distinct(curr: Seq<BeamModel>, b: BeamModel, f: Seq<nat>, ps: Params, k: int)
    requires
        distinct_labels(curr),
    ensures
        distinct_labels(sym_extended_upto(curr, b, f, ps, k)),
    decreases k,
{
    if k > 0 {
        lemma_sym_upto_distinct(curr, b, f, ps, k - 1);
        let i = k - 1;
        if allowed_sym(ps.cons, ps.alphabet, b.label.len() as int, i) {
            lemma_accumulate_distinct(
                sym_extended_upto(curr, b, f, ps, k - 1),
                b.label.push(i as usize),
                0,
                extension_mass(b, f, i),
            );
        }
    }
}

pub proof fn lemma_expanded_upto_distinct(pruned: Seq<BeamModel>, f: Seq<nat>, ps: Params, j: int)
    ensures
        distinct_labels(expanded_upto(pruned, f, ps, j)),
    decreases j,
{
    if j <= 0 {
    } else {
        lemma_expanded_upto_distinct(pruned, f, ps, j - 1);
        let curr = expanded_upto(pruned, f, ps, j - 1);
        let b = pruned[j - 1];
        let a = ps.alphabet.len() as int;
        lemma_accumulate_distinct(
            curr,
            b.label,
            p_tot(b) * f[a],
            if b.label.len() > 0 {
                b.p_non_blank * f[b.label.last() as int]
            } else {
                0
            },
        );
        lemma_sym_upto_distinct(blank_extended(curr, b, f, a), b, f, ps, a);
    }
}

} // verus!
