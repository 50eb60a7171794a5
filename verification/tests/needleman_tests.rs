use libkmer::needleman_wunsch::needleman_wunsh_distance;
use libkmer::ratio::DistanceRatio;

fn ratio_value(r: DistanceRatio) -> f64 {
    r.numerator as f64 / r.denominator as f64
}

#[test]
fn identical_sequences_align_at_distance_zero() {
    let a = b"ACGTACGT".to_vec();
    let d = needleman_wunsh_distance(&a, &a);
    assert_eq!(d.numerator, 0);
    assert_eq!(d.denominator, 8);
    assert_eq!(ratio_value(d), 0.0);
}

#[test]
fn fully_mismatched_sequences_are_at_distance_one() {
    let a = b"AAAA".to_vec();
    let b = b"TTTT".to_vec();
    let d = needleman_wunsh_distance(&a, &b);
    assert_eq!(d.numerator, 4);
    assert_eq!(d.denominator, 4);
    assert_eq!(ratio_value(d), 1.0);
}

#[test]
fn a_prefix_costs_one_gap_per_missing_symbol() {
    let a = b"ACGT".to_vec();
    let b = b"AC".to_vec();
    let d = needleman_wunsh_distance(&a, &b);
    assert_eq!(d.numerator, 2);
    assert_eq!(d.denominator, 4);
    assert_eq!(ratio_value(d), 0.5);
}

#[test]
fn two_empty_sequences_are_at_distance_zero() {
    let a: Vec<u8> = Vec::new();
    let d = needleman_wunsh_distance(&a, &a);
    assert_eq!(d.numerator, 0);
    assert_eq!(d.denominator, 1);
    assert_eq!(ratio_value(d), 0.0);
}

#[test]
fn traceback_stops_at_the_matrix_border() {
    // against an empty sequence the walk starts on the border and counts
    // nothing, as the traceback rule says
    let a = b"AC".to_vec();
    let b: Vec<u8> = Vec::new();
    let d = needleman_wunsh_distance(&a, &b);
    assert_eq!(d.numerator, 0);
    assert_eq!(d.denominator, 2);
}

#[test]
fn alignment_distance_is_within_unit_interval() {
    let a = b"GATTACA".to_vec();
    let b = b"GCATGCU".to_vec();
    let d = needleman_wunsh_distance(&a, &b);
    assert!(d.numerator <= d.denominator);
    assert!(d.denominator >= 1);
    let v = ratio_value(d);
    assert!((0.0..=1.0).contains(&v));
}

#[test]
fn alignment_distance_is_deterministic() {
    let a = b"GATTACA".to_vec();
    let b = b"GCATGCU".to_vec();
    let d1 = needleman_wunsh_distance(&a, &b);
    let d2 = needleman_wunsh_distance(&a, &b);
    assert_eq!(d1, d2);
    assert_eq!(ratio_value(d1).to_bits(), ratio_value(d2).to_bits());
}
