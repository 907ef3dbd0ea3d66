//! The decoder: per-timestep beam expansion, merging and pruning, the
//! single-sequence decode loop, and the batch driver.

use vstd::prelude::*;

use vstd::arithmetic::mul::lemma_mul_inequality;
use vstd::string::StringExecFns;

use crate::beam::{beam_fields_ok, beams_ok, models, Beam, DecodeError, Frame, Prob};
use crate::lemmas::{
    lemma_accumulate_total, lemma_den_product_pos, lemma_den_product_take_le,
    lemma_den_product_take_succ, lemma_entry_le_total,
    lemma_expanded_upto_mono, lemma_expanded_upto_total, lemma_find_label_props,
    lemma_rank_labels, lemma_rank_total, lemma_registry_total, lemma_sym_upto_mono,
    lemma_take_at_most_labels, lemma_take_at_most_total,
};
use crate::model::{
    accumulate, allowed_sym, alpha_view, args_ok, batch_entry_post, beam_expanded, blank_extended,
    cons_ok,
    cons_view, decode_full_post, decode_post, den_product, expanded_upto, final_ranked, find_label,
    frame_ok, frames_ok, frames_shaped, label_text, label_wf, labels_wf, nums_of, opt_cons_view,
    p_tot, rank_beams, registry_after, search_params, step, sum_upto,
    sym_extended_upto, sym_known, take_at_most, total_mass, Params,
};
use crate::ranking::{copy_beam, copy_label, rank_registry};

verus! {

/// Compares two labels for equality.
fn label_eq(a: &Vec<usize>, b: &Vec<usize>) -> (r: bool)
    ensures
        r == (a@ == b@),
{
    if a.len() != b.len() {
        return false;
    }
    let mut k: usize = 0;
    while k < a.len()
        invariant
            k <= a@.len(),
            a@.len() == b@.len(),
            forall|m: int| 0 <= m < k ==> a@[m] == b@[m],
        decreases a@.len() - k,
    {
        if a[k] != b[k] {
            return false;
        }
        k = k + 1;
    }
    proof {
        assert(a@ =~= b@);
    }
    true
}

/// Finds the registry entry with the given label, if one exists.
fn find_in_registry(curr: &Vec<Beam>, l: &Vec<usize>) -> (r: Option<usize>)
    ensures
        match r {
            Some(j) => 0 <= j < curr@.len() && find_label(models(curr@), l@) == j,
            None => find_label(models(curr@), l@) == -1,
        },
{
    let ghost s = models(curr@);
    let mut j: usize = 0;
    while j < curr.len()
        invariant
            j <= curr@.len(),
            s == models(curr@),
            forall|m: int| 0 <= m < j ==> (#[trigger] s[m]).label != l@,
        decreases curr@.len() - j,
    {
        if label_eq(&curr[j].label, l) {
            proof {
                lemma_find_label_props(s, l@);
                assert(s[j as int].label == l@);
                let r = find_label(s, l@);
                if r == -1 {
                    assert(s[j as int].label != l@);
                }
                if r < j {
                    assert(s[r].label != l@);
                }
                if r > j {
                    assert(s[j as int].label != l@);
                }
            }
            return Some(j);
        }
        j = j + 1;
    }
    proof {
        lemma_find_label_props(s, l@);
        let r = find_label(s, l@);
        if r != -1 {
            assert(s[r].label != l@);
        }
    }
    None
}

/// Adds mass to the entry for the given label, appending a fresh entry when
/// the label is new this timestep: the CTC prefix merge.
fn accumulate_exec(curr: &mut Vec<Beam>, label: Vec<usize>, pb: u128, pnb: u128)
    requires
        beams_ok(old(curr)@),
        total_mass(models(old(curr)@)) + pb + pnb <= u128::MAX,
    ensures
        models(final(curr)@) == accumulate(models(old(curr)@), label@, pb as nat, pnb as nat),
        beams_ok(final(curr)@),
{
    let ghost s = models(curr@);
    let ghost lv = label@;
    match find_in_registry(curr, &label) {
        Some(j) => {
            proof {
                lemma_entry_le_total(s, j as int);
                lemma_find_label_props(s, lv);
                assert(s[j as int].label == lv);
                assert(curr@[j as int]@ == s[j as int]);
                assert(beam_fields_ok(curr@[j as int]));
            }
            let nb = Beam {
                label,
                p_blank: curr[j].p_blank + pb,
                p_non_blank: curr[j].p_non_blank + pnb,
                p_tot: curr[j].p_tot + pb + pnb,
            };
            proof {
                assert(nb@ == crate::model::BeamModel {
                    label: lv,
                    p_blank: (s[j as int].p_blank + pb as nat) as nat,
                    p_non_blank: (s[j as int].p_non_blank + pnb as nat) as nat,
                });
            }
            curr.set(j, nb);
            proof {
                assert forall|m: int| 0 <= m < s.len() implies models(curr@)[m] == accumulate(
                    s,
                    lv,
                    pb as nat,
                    pnb as nat,
                )[m] by {
                    assert(models(curr@)[m] == curr@[m]@);
                }
                assert(models(curr@) =~= accumulate(s, lv, pb as nat, pnb as nat));
            }
        },
        None => {
            let nb = Beam { label, p_blank: pb, p_non_blank: pnb, p_tot: pb + pnb };
            curr.push(nb);
            proof {
                assert forall|m: int| 0 <= m < s.len() + 1 implies models(curr@)[m] == accumulate(
                    s,
                    lv,
                    pb as nat,
                    pnb as nat,
                )[m] by {
                    assert(models(curr@)[m] == curr@[m]@);
                }
                assert(models(curr@) =~= accumulate(s, lv, pb as nat, pnb as nat));
            }
        },
    }
}

/// Whether symbol `i` may extend a label of length `pos` under the optional
/// positional constraint list.
fn symbol_allowed(
    constraints: Option<&Vec<Vec<String>>>,
    alphabet: &Vec<String>,
    pos: usize,
    i: usize,
) -> (r: bool)
    requires
        i < alphabet@.len(),
    ensures
        r == allowed_sym(opt_cons_view(constraints), alpha_view(alphabet@), pos as int, i as int),
{
    let ghost cv = opt_cons_view(constraints);
    let ghost av = alpha_view(alphabet@);
    match constraints {
        None => true,
        Some(cs) => {
            if pos >= cs.len() {
                true
            } else {
                let entry = &cs[pos];
                proof {
                    assert(cv[pos as int] == cs@[pos as int]@.map_values(|s: String| s@));
                }
                let mut j: usize = 0;
                while j < entry.len()
                    invariant
                        j <= entry@.len(),
                        pos < cs@.len(),
                        i < alphabet@.len(),
                        cv == opt_cons_view(constraints),
                        av == alpha_view(alphabet@),
                        constraints == Some(cs),
                        entry == &cs@[pos as int],
                        cv[pos as int] == entry@.map_values(|s: String| s@),
                        forall|m: int| 0 <= m < j ==> cv[pos as int][m] != av[i as int],
                    decreases entry@.len() - j,
                {
                    if entry[j].eq(&alphabet[i]) {
                        proof {
                            assert(cv[pos as int][j as int] == entry@[j as int]@);
                            assert(av[i as int] == alphabet@[i as int]@);
                        }
                        return true;
                    }
                    proof {
                        assert(cv[pos as int][j as int] == entry@[j as int]@);
                        assert(av[i as int] == alphabet@[i as int]@);
                    }
                    j = j + 1;
                }
                proof {
                    assert(cv[pos as int].len() == entry@.len());
                }
                false
            }
        },
    }
}

/// Expands one retained beam into the next registry: its blank extension,
/// then every allowed symbol extension, each merged by label.
fn expand_beam_exec(
    curr: &mut Vec<Beam>,
    src: &Beam,
    frame: &Frame,
    alphabet: &Vec<String>,
    constraints: Option<&Vec<Vec<String>>>,
    Ghost(ps): Ghost<Params>,
)
    requires
        ps.alphabet == alpha_view(alphabet@),
        ps.cons == opt_cons_view(constraints),
        beams_ok(old(curr)@),
        beam_fields_ok(*src),
        label_wf(src@.label, alphabet@.len() as int),
        frame.nums@.len() == alphabet@.len() + 1,
        total_mass(beam_expanded(models(old(curr)@), src@, nums_of(*frame), ps)) <= u128::MAX,
    ensures
        models(final(curr)@) == beam_expanded(models(old(curr)@), src@, nums_of(*frame), ps),
        beams_ok(final(curr)@),
{
    let a_len = alphabet.len();
    let ghost cm = models(curr@);
    let ghost f = nums_of(*frame);
    let ghost bm = src@;
    let ghost base = blank_extended(cm, bm, f, a_len as int);
    let lab_len = src.label.len();
    let ghost pb_spec = p_tot(bm) * f[a_len as int];
    let ghost pnb_spec: nat = if bm.label.len() > 0 {
        bm.p_non_blank * f[bm.label.last() as int]
    } else {
        0
    };
    proof {
        assert(f.len() == frame.nums@.len());
        assert(f[a_len as int] == frame.nums@[a_len as int] as nat);
        lemma_accumulate_total(cm, bm.label, pb_spec, pnb_spec);
        assert(total_mass(base) == total_mass(cm) + pb_spec + pnb_spec);
        lemma_sym_upto_mono(base, bm, f, ps, 0, a_len as int);
        assert(sym_extended_upto(base, bm, f, ps, 0) == base);
        assert(beam_expanded(cm, bm, f, ps) == sym_extended_upto(base, bm, f, ps, a_len as int));
        assert(total_mass(base) <= u128::MAX);
        assert(p_tot(bm) == src.p_tot as nat);
    }
    let pnb_new: u128 = if lab_len > 0 {
        let li = src.label[lab_len - 1];
        proof {
            assert(bm.label.last() == src.label@[lab_len - 1]);
            assert(li < a_len);
            assert(f[li as int] == frame.nums@[li as int] as nat);
        }
        src.p_non_blank * (frame.nums[li] as u128)
    } else {
        0
    };
    let pb_new: u128 = src.p_tot * (frame.nums[a_len] as u128);
    proof {
        assert(pb_new as nat == pb_spec);
        assert(pnb_new as nat == pnb_spec);
    }
    accumulate_exec(curr, copy_label(&src.label), pb_new, pnb_new);
    proof {
        assert(models(curr@) == base);
    }
    let mut i: usize = 0;
    while i < a_len
        invariant
            i <= a_len,
            a_len == alphabet@.len(),
            beams_ok(curr@),
            models(curr@) == sym_extended_upto(base, bm, f, ps, i as int),
            bm == src@,
            beam_fields_ok(*src),
            lab_len == src.label@.len(),
            label_wf(bm.label, a_len as int),
            f == nums_of(*frame),
            frame.nums@.len() == a_len + 1,
            ps.alphabet == alpha_view(alphabet@),
            ps.cons == opt_cons_view(constraints),
            base == blank_extended(cm, bm, f, a_len as int),
            total_mass(sym_extended_upto(base, bm, f, ps, a_len as int)) <= u128::MAX,
        decreases a_len - i,
    {
        if symbol_allowed(constraints, alphabet, lab_len, i) {
            proof {
                assert(allowed_sym(ps.cons, ps.alphabet, bm.label.len() as int, i as int));
            }
            let ghost before = sym_extended_upto(base, bm, f, ps, i as int);
            let ghost mass_spec = crate::model::extension_mass(bm, f, i as int);
            proof {
                lemma_accumulate_total(before, bm.label.push(i), 0, mass_spec);
                assert(sym_extended_upto(base, bm, f, ps, i + 1) == accumulate(
                    before,
                    bm.label.push(i),
                    0,
                    mass_spec,
                ));
                lemma_sym_upto_mono(base, bm, f, ps, i + 1, a_len as int);
                assert(total_mass(before) + mass_spec <= u128::MAX);
                assert(f[i as int] == frame.nums@[i as int] as nat);
            }
            let mass: u128 = if lab_len > 0 && src.label[lab_len - 1] == i {
                proof {
                    assert(mass_spec == bm.p_blank * f[i as int]);
                }
                src.p_blank * (frame.nums[i] as u128)
            } else {
                proof {
                    assert(mass_spec == p_tot(bm) * f[i as int]);
                    assert(p_tot(bm) == src.p_tot as nat);
                }
                src.p_tot * (frame.nums[i] as u128)
            };
            let mut l2 = copy_label(&src.label);
            l2.push(i);
            proof {
                assert(l2@ == bm.label.push(i));
                assert(mass as nat == mass_spec);
            }
            accumulate_exec(curr, l2, 0, mass);
            proof {
                assert(models(curr@) == sym_extended_upto(base, bm, f, ps, i + 1));
            }
        } else {
            proof {
                assert(sym_extended_upto(base, bm, f, ps, i + 1) == sym_extended_upto(
                    base,
                    bm,
                    f,
                    ps,
                    i as int,
                ));
            }
        }
        i = i + 1;
    }
}

/// One timestep: ranks the previous registry, keeps the top `beam_width`
/// beams, and expands every retained beam into a fresh registry.
fn expand_step(
    last: Vec<Beam>,
    frame: &Frame,
    alphabet: &Vec<String>,
    constraints: Option<&Vec<Vec<String>>>,
    beam_width: usize,
) -> (curr: Vec<Beam>)
    requires
        beams_ok(last@),
        labels_wf(models(last@), alphabet@.len() as int),
        frame.nums@.len() == alphabet@.len() + 1,
        frame_ok(*frame),
        total_mass(models(last@)) * (frame.den as nat) <= u128::MAX,
    ensures
        models(curr@) == step(
            models(last@),
            nums_of(*frame),
            search_params(alphabet@, opt_cons_view(constraints), beam_width as int),
        ),
        beams_ok(curr@),
{
    let ghost r0 = models(last@);
    let ghost ps = search_params(alphabet@, opt_cons_view(constraints), beam_width as int);
    let ghost f = nums_of(*frame);
    let a_len = alphabet.len();
    proof {
        assert(f.len() == frame.nums@.len());
        lemma_rank_total(r0);
        lemma_rank_labels(r0, a_len as int);
    }
    let ranked = rank_registry(&last);
    let keep = if beam_width < ranked.len() {
        beam_width
    } else {
        ranked.len()
    };
    let mut pruned: Vec<Beam> = Vec::new();
    proof {
        assert(models(pruned@) =~= rank_beams(r0).take(0));
    }
    for k in 0..keep
        invariant
            keep <= ranked@.len(),
            models(ranked@) == rank_beams(r0),
            beams_ok(ranked@),
            models(pruned@) == rank_beams(r0).take(k as int),
            beams_ok(pruned@),
    {
        let b = copy_beam(&ranked[k]);
        let ghost pv = pruned@;
        pruned.push(b);
        proof {
            assert(models(ranked@).len() == ranked@.len());
            assert(models(pv).len() == pv.len());
            assert(rank_beams(r0).take(k as int).len() == k as int);
            assert(pv.len() == k as int);
            assert(pruned@ == pv.push(b));
            assert(pruned@.len() == k + 1);
            assert forall|m: int| 0 <= m < k + 1 implies models(pruned@)[m] == rank_beams(r0).take(
                k + 1,
            )[m] by {
                assert(models(pruned@)[m] == pruned@[m]@);
                if m < k {
                    assert(pruned@[m] == pv[m]);
                    assert(models(pv)[m] == pv[m]@);
                } else {
                    assert(pruned@[m] == b);
                    assert(models(ranked@)[k as int] == ranked@[k as int]@);
                }
            }
            assert(models(pruned@) =~= rank_beams(r0).take(k + 1));
        }
    }
    let ghost pr = models(pruned@);
    let ghost cap = total_mass(expanded_upto(pr, f, ps, pr.len() as int));
    proof {
        if ps.beam_width >= rank_beams(r0).len() {
            assert(rank_beams(r0).take(rank_beams(r0).len() as int) =~= rank_beams(r0));
        }
        assert(pr == take_at_most(rank_beams(r0), ps.beam_width));
        lemma_take_at_most_labels(rank_beams(r0), ps.beam_width, a_len as int);
        lemma_take_at_most_total(rank_beams(r0), ps.beam_width);
        lemma_expanded_upto_total(pr, f, ps, pr.len() as int);
        assert(pr.take(pr.len() as int) =~= pr);
        let s = sum_upto(f, f.len() as int);
        assert(s <= frame.den as nat);
        assert(total_mass(pr) <= total_mass(r0));
        assert(cap <= total_mass(pr) * s);
        assert(total_mass(pr) * s <= total_mass(r0) * (frame.den as nat)) by (nonlinear_arith)
            requires
                total_mass(pr) <= total_mass(r0),
                s <= frame.den as nat,
        ;
        assert(cap <= u128::MAX);
    }
    let mut curr: Vec<Beam> = Vec::new();
    proof {
        assert(models(curr@) =~= expanded_upto(pr, f, ps, 0));
    }
    let mut j: usize = 0;
    while j < pruned.len()
        invariant
            j <= pruned@.len(),
            a_len == alphabet@.len(),
            models(pruned@) == pr,
            beams_ok(pruned@),
            labels_wf(pr, a_len as int),
            f == nums_of(*frame),
            frame.nums@.len() == a_len + 1,
            ps.alphabet == alpha_view(alphabet@),
            ps.cons == opt_cons_view(constraints),
            models(curr@) == expanded_upto(pr, f, ps, j as int),
            beams_ok(curr@),
            cap == total_mass(expanded_upto(pr, f, ps, pr.len() as int)),
            cap <= u128::MAX,
        decreases pruned@.len() - j,
    {
        proof {
            assert(pruned@[j as int]@ == pr[j as int]);
            assert(beam_fields_ok(pruned@[j as int]));
            assert(label_wf(pr[j as int].label, a_len as int));
            assert(expanded_upto(pr, f, ps, j + 1) == beam_expanded(
                expanded_upto(pr, f, ps, j as int),
                pr[j as int],
                f,
                ps,
            ));
            lemma_expanded_upto_mono(pr, f, ps, j + 1, pr.len() as int);
        }
        let src = copy_beam(&pruned[j]);
        expand_beam_exec(&mut curr, &src, frame, alphabet, constraints, Ghost(ps));
        j = j + 1;
    }
    proof {
        assert(models(curr@) == step(r0, f, ps));
    }
    curr
}

/// The running common denominator: the product of all frame denominators.
fn den_product_exec(frames: &Vec<Frame>) -> (d: u128)
    requires
        frames_ok(frames@),
    ensures
        d as nat == den_product(frames@),
{
    let mut d: u128 = 1;
    let mut t: usize = 0;
    proof {
        assert(frames@.take(0) =~= Seq::<Frame>::empty());
    }
    while t < frames.len()
        invariant
            t <= frames@.len(),
            frames_ok(frames@),
            d as nat == den_product(frames@.take(t as int)),
        decreases frames@.len() - t,
    {
        proof {
            lemma_den_product_take_succ(frames@, t as int);
            lemma_den_product_take_le(frames@, t as int + 1);
        }
        d = d * (frames[t].den as u128);
        t = t + 1;
    }
    proof {
        assert(frames@.take(frames@.len() as int) =~= frames@);
    }
    d
}

/// Renders a label as text: the alphabet strings of its indices concatenated
/// in label order.
fn render_label(l: &Vec<usize>, alphabet: &Vec<String>) -> (s: String)
    requires
        label_wf(l@, alphabet@.len() as int),
    ensures
        s@ == label_text(l@, alpha_view(alphabet@)),
{
    let mut s = String::new();
    let mut k: usize = 0;
    proof {
        assert(l@.take(0) =~= Seq::<usize>::empty());
    }
    while k < l.len()
        invariant
            k <= l@.len(),
            label_wf(l@, alphabet@.len() as int),
            s@ == label_text(l@.take(k as int), alpha_view(alphabet@)),
        decreases l@.len() - k,
    {
        let idx = l[k];
        s.append(alphabet[idx].as_str());
        proof {
            assert(l@.take(k + 1).drop_last() =~= l@.take(k as int));
            assert(l@.take(k + 1).last() == l@[k as int]);
            assert(alpha_view(alphabet@)[idx as int] == alphabet@[idx as int]@);
        }
        k = k + 1;
    }
    proof {
        assert(l@.take(l@.len() as int) =~= l@);
    }
    s
}

/// Decodes one example: feeds every probability frame through the beam
/// expansion in temporal order, then returns the top `topk_paths` decoded
/// texts with their exact probabilities, most probable first.
///
/// The frames must be valid distributions (each numerator sum at most the
/// frame's denominator) whose denominators' product fits the mass type;
/// within that, every argument the specification rejects is reported as a
/// `DecodeError`, checked before any timestep is consumed.
pub fn decode(
    frames: &Vec<Frame>,
    alphabet: &Vec<String>,
    beam_width: usize,
    topk_paths: usize,
    constraints: Option<&Vec<Vec<String>>>,
) -> (r: Result<Vec<(String, Prob)>, DecodeError>)
    requires
        frames_ok(frames@),
    ensures
        decode_full_post(
            r,
            frames@,
            alphabet@,
            opt_cons_view(constraints),
            beam_width as int,
            topk_paths as int,
        ),
        r is Ok <==> args_ok(
            frames@,
            alphabet@,
            opt_cons_view(constraints),
            beam_width as int,
            topk_paths as int,
        ),
{
    let ghost cv = opt_cons_view(constraints);
    let ghost av = alpha_view(alphabet@);
    let a_len = alphabet.len();
    if a_len == 0 {
        return Err(DecodeError::EmptyAlphabet);
    }
    if beam_width == 0 {
        return Err(DecodeError::ZeroBeamWidth);
    }
    if topk_paths == 0 {
        return Err(DecodeError::ZeroTopkPaths);
    }
    let mut t: usize = 0;
    while t < frames.len()
        invariant
            t <= frames@.len(),
            a_len == alphabet@.len(),
            a_len > 0,
            beam_width > 0,
            topk_paths > 0,
            forall|t2: int| 0 <= t2 < t ==> (#[trigger] frames@[t2].nums)@.len() == a_len + 1,
        decreases frames@.len() - t,
    {
        let n = frames[t].nums.len();
        if n == 0 || n - 1 != a_len {
            proof {
                assert(frames@[t as int].nums@.len() != a_len + 1);
                assert(!frames_shaped(frames@, a_len as int));
            }
            return Err(DecodeError::FrameLength);
        }
        t = t + 1;
    }
    proof {
        assert(frames_shaped(frames@, a_len as int));
    }
    match constraints {
        None => {
            proof {
                assert(cons_ok(cv, av));
            }
        },
        Some(cs) => {
            let mut k: usize = 0;
            while k < cs.len()
                invariant
                    k <= cs@.len(),
                    a_len == alphabet@.len(),
                    a_len > 0,
                    beam_width > 0,
                    topk_paths > 0,
                    frames_shaped(frames@, a_len as int),
                    constraints == Some(cs),
                    cv == cons_view(cs@),
                    av == alpha_view(alphabet@),
                    forall|k2: int, j2: int|
                        0 <= k2 < k && 0 <= j2 < cv[k2].len() ==> sym_known(
                            #[trigger] cv[k2][j2],
                            av,
                        ),
                decreases cs@.len() - k,
            {
                let entry = &cs[k];
                proof {
                    assert(cv[k as int] == cs@[k as int]@.map_values(|s: String| s@));
                }
                let mut j: usize = 0;
                while j < entry.len()
                    invariant
                        j <= entry@.len(),
                        k < cs@.len(),
                        a_len == alphabet@.len(),
                        a_len > 0,
                        beam_width > 0,
                        topk_paths > 0,
                        frames_shaped(frames@, a_len as int),
                        constraints == Some(cs),
                        cv == cons_view(cs@),
                        av == alpha_view(alphabet@),
                        entry == &cs@[k as int],
                        cv[k as int] == entry@.map_values(|s: String| s@),
                        forall|j2: int| 0 <= j2 < j ==> sym_known(#[trigger] cv[k as int][j2], av),
                    decreases entry@.len() - j,
                {
                    let mut found = false;
                    let mut i: usize = 0;
                    while i < a_len
                        invariant
                            i <= a_len,
                            a_len == alphabet@.len(),
                            k < cs@.len(),
                            j < entry@.len(),
                            cv == cons_view(cs@),
                            av == alpha_view(alphabet@),
                            entry == &cs@[k as int],
                            cv[k as int] == entry@.map_values(|s: String| s@),
                            found ==> sym_known(cv[k as int][j as int], av),
                            !found ==> forall|m: int|
                                0 <= m < i ==> av[m] != cv[k as int][j as int],
                        decreases a_len - i,
                    {
                        if entry[j].eq(&alphabet[i]) {
                            proof {
                                assert(av[i as int] == alphabet@[i as int]@);
                                assert(cv[k as int][j as int] == entry@[j as int]@);
                            }
                            found = true;
                        } else {
                            proof {
                                assert(av[i as int] == alphabet@[i as int]@);
                                assert(cv[k as int][j as int] == entry@[j as int]@);
                            }
                        }
                        i = i + 1;
                    }
                    if !found {
                        proof {
                            assert(!sym_known(cv[k as int][j as int], av));
                            assert(!cons_ok(cv, av));
                        }
                        return Err(DecodeError::UnknownConstraintSymbol);
                    }
                    j = j + 1;
                }
                k = k + 1;
            }
            proof {
                assert(cons_ok(cv, av));
            }
        },
    }
    let ghost ps = search_params(alphabet@, cv, beam_width as int);
    let ghost fseq = frames@;
    let mut reg: Vec<Beam> = Vec::new();
    reg.push(Beam::new());
    proof {
        assert(models(reg@) =~= registry_after(fseq, ps, 0));
    }
    let mut t2: usize = 0;
    while t2 < frames.len()
        invariant
            t2 <= fseq.len(),
            fseq == frames@,
            a_len == alphabet@.len(),
            ps == search_params(alphabet@, opt_cons_view(constraints), beam_width as int),
            frames_shaped(fseq, a_len as int),
            frames_ok(fseq),
            models(reg@) == registry_after(fseq, ps, t2 as int),
            beams_ok(reg@),
        decreases fseq.len() - t2,
    {
        proof {
            lemma_registry_total(fseq, ps, t2 as int);
            lemma_den_product_take_succ(fseq, t2 as int);
            lemma_den_product_take_le(fseq, t2 as int + 1);
            let tm = total_mass(registry_after(fseq, ps, t2 as int));
            lemma_mul_inequality(
                tm as int,
                den_product(fseq.take(t2 as int)) as int,
                fseq[t2 as int].den as int,
            );
            assert(tm * (fseq[t2 as int].den as nat) <= u128::MAX);
        }
        reg = expand_step(reg, &frames[t2], alphabet, constraints, beam_width);
        proof {
            assert(models(reg@) == registry_after(fseq, ps, t2 as int + 1));
        }
        t2 = t2 + 1;
    }
    proof {
        lemma_registry_total(fseq, ps, fseq.len() as int);
        lemma_rank_labels(models(reg@), a_len as int);
        lemma_rank_total(models(reg@));
    }
    let ranked = rank_registry(&reg);
    let keep = if topk_paths < ranked.len() {
        topk_paths
    } else {
        ranked.len()
    };
    let ghost fin = take_at_most(final_ranked(fseq, ps), topk_paths as int);
    proof {
        assert(models(ranked@) == final_ranked(fseq, ps));
        if topk_paths as int >= models(ranked@).len() {
            assert(fin == models(ranked@));
        } else {
            assert(fin == models(ranked@).take(topk_paths as int));
        }
        assert(fin.len() == keep as int);
        assert(forall|j2: int| 0 <= j2 < keep ==> fin[j2] == models(ranked@)[j2]);
        assert(labels_wf(models(ranked@), a_len as int));
    }
    let den = den_product_exec(frames);
    let mut out: Vec<(String, Prob)> = Vec::new();
    let mut jdx: usize = 0;
    while jdx < keep
        invariant
            jdx <= keep,
            keep <= ranked@.len(),
            a_len == alphabet@.len(),
            ps == search_params(alphabet@, opt_cons_view(constraints), beam_width as int),
            fin == take_at_most(final_ranked(fseq, ps), topk_paths as int),
            fseq == frames@,
            fin.len() == keep as int,
            forall|j2: int| 0 <= j2 < keep ==> fin[j2] == models(ranked@)[j2],
            beams_ok(ranked@),
            labels_wf(models(ranked@), a_len as int),
            den as nat == den_product(fseq),
            out@.len() == jdx,
            forall|j2: int| #![trigger out@[j2]]
                0 <= j2 < jdx ==> {
                    &&& out@[j2].0@ == label_text(fin[j2].label, ps.alphabet)
                    &&& out@[j2].1.num == p_tot(fin[j2])
                    &&& out@[j2].1.den == den_product(fseq)
                },
        decreases keep - jdx,
    {
        proof {
            assert(ranked@[jdx as int]@ == models(ranked@)[jdx as int]);
            assert(label_wf(models(ranked@)[jdx as int].label, a_len as int));
            assert(label_wf(ranked@[jdx as int].label@, a_len as int));
            assert(beam_fields_ok(ranked@[jdx as int]));
        }
        let text = render_label(&ranked[jdx].label, alphabet);
        out.push((text, Prob { num: ranked[jdx].p_tot, den }));
        jdx = jdx + 1;
    }
    proof {
        assert(decode_post(out@, fseq, ps, topk_paths as int));
    }
    Ok(out)
}

/// Decodes every example of a batch independently with shared parameters;
/// output index `i` is the decode of input example `i`.  The first rejected
/// example fails the whole call.
pub fn decode_batch(
    batch: &Vec<Vec<Frame>>,
    alphabet: &Vec<String>,
    beam_width: usize,
    topk_paths: usize,
    constraints: Option<&Vec<Vec<String>>>,
) -> (r: Result<Vec<Vec<(String, Prob)>>, DecodeError>)
    requires
        forall|i: int| 0 <= i < batch@.len() ==> frames_ok((#[trigger] batch@[i])@),
    ensures
        match r {
            Ok(outs) => {
                &&& outs@.len() == batch@.len()
                &&& forall|i: int|
                    0 <= i < batch@.len() ==> batch_entry_post(
                        #[trigger] outs@[i],
                        batch@[i],
                        alphabet@,
                        opt_cons_view(constraints),
                        beam_width as int,
                        topk_paths as int,
                    )
            },
            Err(e) => exists|i: int|
                {
                    &&& 0 <= i < batch@.len()
                    &&& decode_full_post(
                        Err(e),
                        (#[trigger] batch@[i])@,
                        alphabet@,
                        opt_cons_view(constraints),
                        beam_width as int,
                        topk_paths as int,
                    )
                    &&& forall|i2: int|
                        0 <= i2 < i ==> args_ok(
                            (#[trigger] batch@[i2])@,
                            alphabet@,
                            opt_cons_view(constraints),
                            beam_width as int,
                            topk_paths as int,
                        )
                },
        },
{
    let mut outs: Vec<Vec<(String, Prob)>> = Vec::new();
    let mut i: usize = 0;
    while i < batch.len()
        invariant
            i <= batch@.len(),
            forall|i2: int| 0 <= i2 < batch@.len() ==> frames_ok((#[trigger] batch@[i2])@),
            outs@.len() == i,
            forall|i2: int|
                0 <= i2 < i ==> batch_entry_post(
                    #[trigger] outs@[i2],
                    batch@[i2],
                    alphabet@,
                    opt_cons_view(constraints),
                    beam_width as int,
                    topk_paths as int,
                ),
        decreases batch@.len() - i,
    {
        match decode(&batch[i], alphabet, beam_width, topk_paths, constraints) {
            Ok(o) => {
                let ghost prev = outs@;
                outs.push(o);
                proof {
                    assert(outs@ == prev.push(o));
                    assert(outs@[i as int] == o);
                    assert(forall|i2: int| 0 <= i2 < i ==> (#[trigger] outs@[i2]) == prev[i2]);
                }
            },
            Err(e) => {
                proof {
                    assert forall|i2: int| 0 <= i2 < i implies args_ok(
                        (#[trigger] batch@[i2])@,
                        alphabet@,
                        opt_cons_view(constraints),
                        beam_width as int,
                        topk_paths as int,
                    ) by {
                        assert(batch_entry_post(
                            outs@[i2],
                            batch@[i2],
                            alphabet@,
                            opt_cons_view(constraints),
                            beam_width as int,
                            topk_paths as int,
                        ));
                    }
                }
                return Err(e);
            },
        }
        i = i + 1;
    }
    Ok(outs)
}

} // verus!
