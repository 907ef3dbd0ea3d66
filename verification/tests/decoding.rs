use std::collections::HashMap;

use beam_search::beam::{DecodeError, Frame, Prob};
use beam_search::search::{decode, decode_batch};

fn frame(nums: &[u64], den: u64) -> Frame {
    Frame { nums: nums.to_vec(), den }
}

fn alphabet(symbols: &[&str]) -> Vec<String> {
    symbols.iter().map(|s| s.to_string()).collect()
}

fn as_float(p: &Prob) -> f64 {
    p.num as f64 / p.den as f64
}

#[test]
fn test_decode() {
    // Frames [[0.2, 0.0, 0.8], [0.4, 0.0, 0.6]] as exact tenths.
    let frames = vec![frame(&[2, 0, 8], 10), frame(&[4, 0, 6], 10)];
    let alphabet = alphabet(&["A", "B"]);
    let beam_width = 5;
    let topk_paths = 2;
    let charset: Vec<Vec<String>> = Vec::new();
    let predictions = decode(&frames, &alphabet, beam_width, topk_paths, Some(&charset)).unwrap();
    let beam_1 = predictions.iter().nth(0).unwrap();
    let beam_2 = predictions.iter().nth(1).unwrap();
    assert_eq!(beam_1.0, "A");
    assert!((as_float(&beam_1.1) - 0.52).abs() < 0.00001);
    assert_eq!(beam_2.0, "");
    assert!((as_float(&beam_2.1) - 0.48).abs() < 0.00001);
}

#[test]
fn scenario_exact_numerators() {
    // The same scenario, checked as exact rationals: 52/100 and 48/100.
    let frames = vec![frame(&[2, 0, 8], 10), frame(&[4, 0, 6], 10)];
    let alphabet = alphabet(&["A", "B"]);
    let predictions = decode(&frames, &alphabet, 5, 2, None).unwrap();
    assert_eq!(predictions.len(), 2);
    assert_eq!(predictions[0].0, "A");
    assert_eq!(predictions[0].1, Prob { num: 52, den: 100 });
    assert_eq!(predictions[1].0, "");
    assert_eq!(predictions[1].1, Prob { num: 48, den: 100 });
}

#[test]
fn merge_sums_mass_exactly_once() {
    // One symbol, frames crafted so that in the second timestep the beam ""
    // (extending by "A") and the beam "A" (continuing its non-blank run)
    // collide on the label "A".  The merged mass must be their exact sum:
    // 50 + 50 = 100, not 50 (loss) and not 150 (double count).
    let frames = vec![frame(&[5, 5], 10), frame(&[10, 0], 10)];
    let alphabet = alphabet(&["A"]);
    let predictions = decode(&frames, &alphabet, 10, 10, None).unwrap();
    assert_eq!(predictions[0].0, "A");
    assert_eq!(predictions[0].1, Prob { num: 100, den: 100 });
    // The remaining labels carry no mass; ties are broken lexicographically.
    assert_eq!(predictions[1].0, "");
    assert_eq!(predictions[1].1, Prob { num: 0, den: 100 });
    assert_eq!(predictions[2].0, "AA");
    assert_eq!(predictions[2].1, Prob { num: 0, den: 100 });
}

#[test]
fn absent_and_empty_constraints_agree() {
    let frames = vec![frame(&[2, 3, 5], 10), frame(&[4, 0, 6], 10)];
    let alphabet = alphabet(&["A", "B"]);
    let empty: Vec<Vec<String>> = Vec::new();
    let with_none = decode(&frames, &alphabet, 4, 8, None).unwrap();
    let with_empty = decode(&frames, &alphabet, 4, 8, Some(&empty)).unwrap();
    assert_eq!(with_none, with_empty);
}

#[test]
fn constraints_filter_positions() {
    // Position 0 admits only "B": no label can start with "A".
    let frames = vec![frame(&[2, 0, 8], 10), frame(&[4, 0, 6], 10)];
    let alphabet = alphabet(&["A", "B"]);
    let cons = vec![vec!["B".to_string()]];
    let predictions = decode(&frames, &alphabet, 10, 10, Some(&cons)).unwrap();
    for (text, _) in &predictions {
        assert!(!text.starts_with('A'));
    }
    assert_eq!(predictions[0].0, "");
}

#[test]
fn topk_larger_than_final_beams_returns_all() {
    // After two timesteps over a two-symbol alphabet the registry holds the
    // seven labels "", A, B, AA, AB, BA, BB: a huge topk returns exactly
    // those, no padding.
    let frames = vec![frame(&[2, 0, 8], 10), frame(&[4, 0, 6], 10)];
    let alphabet = alphabet(&["A", "B"]);
    let predictions = decode(&frames, &alphabet, 50, 50, None).unwrap();
    assert_eq!(predictions.len(), 7);
}

#[test]
fn batch_matches_single_decodes_in_order() {
    let ex0 = vec![frame(&[2, 0, 8], 10), frame(&[4, 0, 6], 10)];
    let ex1 = vec![frame(&[7, 2, 1], 10), frame(&[1, 8, 1], 10)];
    let alphabet = alphabet(&["A", "B"]);
    let batch = vec![ex0.clone(), ex1.clone()];
    let outs = decode_batch(&batch, &alphabet, 5, 3, None).unwrap();
    assert_eq!(outs.len(), batch.len());
    assert_eq!(outs[0], decode(&ex0, &alphabet, 5, 3, None).unwrap());
    assert_eq!(outs[1], decode(&ex1, &alphabet, 5, 3, None).unwrap());
}

#[test]
fn error_empty_alphabet() {
    let frames = vec![frame(&[5, 5], 10)];
    let empty: Vec<String> = Vec::new();
    assert_eq!(decode(&frames, &empty, 5, 5, None), Err(DecodeError::EmptyAlphabet));
}

#[test]
fn error_zero_beam_width() {
    let frames = vec![frame(&[2, 0, 8], 10)];
    let alphabet = alphabet(&["A", "B"]);
    assert_eq!(decode(&frames, &alphabet, 0, 5, None), Err(DecodeError::ZeroBeamWidth));
}

#[test]
fn error_zero_topk_paths() {
    let frames = vec![frame(&[2, 0, 8], 10)];
    let alphabet = alphabet(&["A", "B"]);
    assert_eq!(decode(&frames, &alphabet, 5, 0, None), Err(DecodeError::ZeroTopkPaths));
}

#[test]
fn error_frame_length() {
    // Three symbols plus blank need four probabilities per frame, not three.
    let frames = vec![frame(&[2, 0, 8], 10)];
    let alphabet = alphabet(&["A", "B", "C"]);
    assert_eq!(decode(&frames, &alphabet, 5, 5, None), Err(DecodeError::FrameLength));
}

#[test]
fn error_unknown_constraint_symbol() {
    let frames = vec![frame(&[2, 0, 8], 10)];
    let alphabet = alphabet(&["A", "B"]);
    let cons = vec![vec!["Z".to_string()]];
    assert_eq!(
        decode(&frames, &alphabet, 5, 5, Some(&cons)),
        Err(DecodeError::UnknownConstraintSymbol)
    );
}

#[test]
fn batch_fails_whole_call_on_bad_arguments() {
    let batch = vec![vec![frame(&[2, 0, 8], 10)]];
    let alphabet = alphabet(&["A", "B"]);
    assert_eq!(decode_batch(&batch, &alphabet, 0, 5, None), Err(DecodeError::ZeroBeamWidth));
}

#[test]
fn multi_character_symbols_concatenate_in_label_order() {
    // One timestep, certain "ab"; the other symbol never fires.
    let frames = vec![frame(&[10, 0, 0], 10), frame(&[10, 0, 0], 10)];
    let alphabet = alphabet(&["ab", "c"]);
    let predictions = decode(&frames, &alphabet, 10, 1, None).unwrap();
    // A repeat without an intervening blank collapses: the top beam is "ab".
    assert_eq!(predictions[0].0, "ab");
}

/// CTC-collapses one raw emission path: merge consecutive repeats, then drop
/// blanks.
fn collapse(path: &[usize], blank: usize) -> Vec<usize> {
    let mut label = Vec::new();
    let mut prev = usize::MAX;
    for &p in path {
        if p != prev {
            if p != blank {
                label.push(p);
            }
            prev = p;
        }
    }
    label
}

#[test]
fn full_width_matches_exhaustive_forward_computation() {
    // With beam_width >= (A+1)^T nothing is ever pruned, so every final
    // beam's mass must equal, exactly, the brute-force sum over all raw
    // paths that collapse to its label.
    let frames = vec![frame(&[1, 2, 7], 10), frame(&[3, 4, 3], 10), frame(&[5, 0, 5], 10)];
    let alphabet = alphabet(&["A", "B"]);
    let blank = 2;
    let mut exact: HashMap<Vec<usize>, u128> = HashMap::new();
    for e0 in 0..3usize {
        for e1 in 0..3usize {
            for e2 in 0..3usize {
                let mass = frames[0].nums[e0] as u128 * frames[1].nums[e1] as u128
                    * frames[2].nums[e2] as u128;
                *exact.entry(collapse(&[e0, e1, e2], blank)).or_insert(0) += mass;
            }
        }
    }
    let predictions = decode(&frames, &alphabet, 27, 100, None).unwrap();
    let index_of = |text: &str| -> Vec<usize> {
        let mut label = Vec::new();
        for ch in text.chars() {
            label.push(if ch == 'A' { 0 } else { 1 });
        }
        label
    };
    // The search also tracks zero-mass labels (extensions whose probability
    // vanished); every label's mass must equal the exhaustive sum, with
    // labels no raw path reaches carrying no mass at all.
    let mut total: u128 = 0;
    let mut seen = 0;
    for (text, prob) in &predictions {
        assert_eq!(prob.den, 1000);
        match exact.get(&index_of(text)) {
            Some(&mass) => {
                assert_eq!(prob.num, mass);
                seen += 1;
            },
            None => assert_eq!(prob.num, 0),
        }
        total += prob.num;
    }
    assert_eq!(seen, exact.len());
    // Each frame's probabilities sum to one, so the whole mass is conserved.
    assert_eq!(total, 1000);
}

#[test]
fn probabilities_are_valid() {
    let frames = vec![frame(&[1, 2, 7], 10), frame(&[3, 4, 3], 10)];
    let alphabet = alphabet(&["A", "B"]);
    let predictions = decode(&frames, &alphabet, 2, 10, None).unwrap();
    for (_, prob) in &predictions {
        assert!(prob.num <= prob.den);
        assert!(as_float(prob) >= 0.0);
    }
}

#[test]
fn output_sorted_by_descending_probability() {
    let frames = vec![frame(&[3, 3, 4], 10), frame(&[2, 5, 3], 10)];
    let alphabet = alphabet(&["A", "B"]);
    let predictions = decode(&frames, &alphabet, 10, 10, None).unwrap();
    for w in predictions.windows(2) {
        assert!(w[0].1.num >= w[1].1.num);
    }
}
