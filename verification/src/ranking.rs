//! The top-k selector: executable ranking of beams by total mass, verified
//! against the spec-level insertion sort `rank_beams`.

use vstd::prelude::*;

use crate::beam::{beam_fields_ok, beams_ok, models, Beam};
use crate::model::{insert_ranked, lex_le, p_tot, rank_beams, ranked_before, BeamModel};

verus! {

/// Copies a label.
pub(crate) fn copy_label(l: &Vec<usize>) -> (r: Vec<usize>)
    ensures
        r@ == l@,
{
    let mut r: Vec<usize> = Vec::new();
    for k in 0..l.len()
        invariant
            r@ == l@.take(k as int),
    {
        r.push(l[k]);
        proof {
            assert(r@ =~= l@.take(k + 1));
        }
    }
    proof {
        assert(l@.take(l@.len() as int) =~= l@);
    }
    r
}

/// Copies a beam.
pub(crate) fn copy_beam(b: &Beam) -> (r: Beam)
    ensures
        r@ == b@,
        r.p_tot == b.p_tot,
{
    Beam {
        label: copy_label(&b.label),
        p_blank: b.p_blank,
        p_non_blank: b.p_non_blank,
        p_tot: b.p_tot,
    }
}

/// Compares two labels lexicographically.
pub(crate) fn lex_le_exec(a: &Vec<usize>, b: &Vec<usize>) -> (r: bool)
    ensures
        r == lex_le(a@, b@),
{
    let mut k: usize = 0;
    proof {
        assert(a@.skip(0) =~= a@);
        assert(b@.skip(0) =~= b@);
    }
    while k < a.len() && k < b.len()
        invariant
            k <= a@.len(),
            k <= b@.len(),
            lex_le(a@, b@) == lex_le(a@.skip(k as int), b@.skip(k as int)),
        decreases a@.len() - k,
    {
        if a[k] < b[k] {
            return true;
        }
        if a[k] > b[k] {
            return false;
        }
        proof {
            assert(a@.skip(k as int).drop_first() =~= a@.skip(k + 1));
            assert(b@.skip(k as int).drop_first() =~= b@.skip(k + 1));
        }
        k = k + 1;
    }
    k == a.len()
}

/// Compares two beams in ranking order: larger total mass first, ties broken
/// by lexicographic label order.
pub(crate) fn ranked_before_exec(a: &Beam, b: &Beam) -> (r: bool)
    requires
        beam_fields_ok(*a),
        beam_fields_ok(*b),
    ensures
        r == ranked_before(a@, b@),
{
    if a.p_tot > b.p_tot {
        true
    } else if a.p_tot == b.p_tot {
        lex_le_exec(&a.label, &b.label)
    } else {
        false
    }
}

/// `insert_ranked` puts its argument in front of the first entry it ranks
/// before, that is, at the position the executable search finds.
proof fn lemma_insert_ranked_at(b: BeamModel, s: Seq<BeamModel>, j: int)
    requires
        0 <= j <= s.len(),
        forall|m: int| 0 <= m < j ==> !ranked_before(b, s[m]),
        j < s.len() ==> ranked_before(b, s[j]),
    ensures
        insert_ranked(b, s) == s.insert(j, b),
    decreases s.len(),
{
    if s.len() == 0 {
        assert(insert_ranked(b, s) =~= s.insert(0, b));
    } else if j == 0 {
        assert(insert_ranked(b, s) == seq![b] + s);
        assert(seq![b] + s =~= s.insert(0, b));
    } else {
        lemma_insert_ranked_at(b, s.drop_first(), j - 1);
        assert(seq![s[0]] + s.drop_first().insert(j - 1, b) =~= s.insert(j, b));
    }
}

/// Inserts a beam into a vector at its rank position.
pub(crate) fn insert_ranked_exec(out: &mut Vec<Beam>, b: Beam)
    requires
        beams_ok(old(out)@),
        beam_fields_ok(b),
    ensures
        models(final(out)@) == insert_ranked(b@, models(old(out)@)),
        beams_ok(final(out)@),
        final(out)@.len() == old(out)@.len() + 1,
{
    let mut j: usize = 0;
    let mut found = out.len();
    let mut searching = true;
    while j < out.len() && searching
        invariant
            j <= out@.len(),
            beams_ok(out@),
            beam_fields_ok(b),
            out == old(out),
            searching ==> found == out@.len(),
            searching ==> forall|m: int| 0 <= m < j ==> !ranked_before(b@, out@[m]@),
            !searching ==> {
                &&& 0 <= found < out@.len()
                &&& ranked_before(b@, out@[found as int]@)
                &&& forall|m: int| 0 <= m < found ==> !ranked_before(b@, out@[m]@)
            },
        decreases out@.len() - j + if searching { 1int } else { 0int },
    {
        if ranked_before_exec(&b, &out[j]) {
            found = j;
            searching = false;
        } else {
            j = j + 1;
        }
    }
    let ghost s = models(old(out)@);
    let ghost jj = found as int;
    proof {
        assert(forall|m: int| 0 <= m < s.len() ==> s[m] == out@[m]@);
        assert(forall|m: int| 0 <= m < jj ==> !ranked_before(b@, s[m]));
        lemma_insert_ranked_at(b@, s, jj);
        s.insert_ensures(jj, b@);
        old(out)@.insert_ensures(jj, b);
    }
    out.insert(found, b);
    proof {
        assert(models(out@) =~= s.insert(jj, b@));
        assert(beams_ok(out@));
    }
}

/// Ranks a registry: beams sorted by descending total mass, ties broken by
/// lexicographic label order.
pub(crate) fn rank_registry(reg: &Vec<Beam>) -> (out: Vec<Beam>)
    requires
        beams_ok(reg@),
    ensures
        models(out@) == rank_beams(models(reg@)),
        beams_ok(out@),
{
    let ghost m = models(reg@);
    let mut out: Vec<Beam> = Vec::new();
    proof {
        assert(models(out@) =~= rank_beams(m.take(0)));
    }
    for k in 0..reg.len()
        invariant
            beams_ok(reg@),
            beams_ok(out@),
            m == models(reg@),
            models(out@) == rank_beams(m.take(k as int)),
    {
        let b = copy_beam(&reg[k]);
        proof {
            assert(m.take(k + 1).drop_last() =~= m.take(k as int));
            assert(m.take(k + 1).last() == b@);
        }
        insert_ranked_exec(&mut out, b);
    }
    proof {
        assert(m.take(m.len() as int) =~= m);
    }
    out
}

} // verus!
