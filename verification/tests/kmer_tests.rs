use libkmer::kmer::calculate_and_sort_matches;
use libkmer::kmer::calculate_distances;
use libkmer::kmer::cross_product;
use libkmer::kmer::distance_function;
use libkmer::kmer::find_p_alignment;
use libkmer::kmer::ktuple_distance;
use libkmer::kmer::parse_kmers;
use libkmer::ratio::DistanceRatio;

fn ratio_value(r: DistanceRatio) -> f64 {
    r.numerator as f64 / r.denominator as f64
}

#[test]
fn it_works() {
    assert_eq!(2 + 2, 4);
}

#[test]
fn distance_function_is_zero_on_the_diagonal() {
    assert_eq!(distance_function(3, 3), 0);
    assert_eq!(distance_function(3, 5), 1);
    assert_eq!(distance_function(5, 3), 1);
}

#[test]
fn cross_product_appends_all_pairs_in_order() {
    let a: Vec<usize> = vec![0, 4];
    let b: Vec<usize> = vec![1, 5];
    let mut output: Vec<(usize, usize)> = vec![(9, 9)];
    cross_product(&a, &b, &mut output);
    assert_eq!(output, vec![(9, 9), (0, 1), (0, 5), (4, 1), (4, 5)]);
}

#[test]
fn parse_kmers_records_every_offset() {
    let idx = parse_kmers(&b"ACGTACGT".to_vec(), 3);
    let acg = idx
        .entries
        .iter()
        .find(|e| e.0 == b"ACG".to_vec())
        .expect("shared k-mer present");
    assert_eq!(acg.1, vec![0, 4]);
    let gta = idx
        .entries
        .iter()
        .find(|e| e.0 == b"GTA".to_vec())
        .expect("unique k-mer present");
    assert_eq!(gta.1, vec![2]);
    assert_eq!(idx.entries.len(), 4);
}

#[test]
fn parse_kmers_repeated_kmer_has_ascending_offsets() {
    let idx = parse_kmers(&b"AAAA".to_vec(), 2);
    assert_eq!(idx.entries.len(), 1);
    assert_eq!(idx.entries[0].0, b"AA".to_vec());
    assert_eq!(idx.entries[0].1, vec![0, 1, 2]);
}

#[test]
fn kmer_size_equal_to_length_yields_one_kmer() {
    let idx = parse_kmers(&b"ACGT".to_vec(), 4);
    assert_eq!(idx.entries.len(), 1);
    assert_eq!(idx.entries[0].0, b"ACGT".to_vec());
    assert_eq!(idx.entries[0].1, vec![0]);
}

#[test]
fn kmer_size_beyond_length_yields_empty_index() {
    let idx = parse_kmers(&b"ACGT".to_vec(), 5);
    assert!(idx.entries.is_empty());
}

#[test]
fn kmer_size_zero_yields_empty_index() {
    let idx = parse_kmers(&b"ACGT".to_vec(), 0);
    assert!(idx.entries.is_empty());
}

#[test]
fn matches_are_sorted_pairs_of_shared_kmers() {
    let first = parse_kmers(&b"ACGT".to_vec(), 2);
    let second = parse_kmers(&b"CGTA".to_vec(), 2);
    let matches = calculate_and_sort_matches(&first, &second);
    assert_eq!(matches, vec![(1, 0), (2, 1)]);
}

#[test]
fn find_p_alignment_chains_diagonal_matches() {
    let matches: Vec<(usize, usize)> = vec![(1, 0), (2, 1)];
    let path = find_p_alignment(&matches).unwrap();
    assert_eq!(path, vec![(1, 0), (2, 1)]);
}

#[test]
fn find_p_alignment_of_no_matches_is_empty() {
    let matches: Vec<(usize, usize)> = Vec::new();
    let path = find_p_alignment(&matches).unwrap();
    assert!(path.is_empty());
}

#[test]
fn calculate_distances_counts_anchor_coverage() {
    let path: Vec<(usize, usize)> = vec![(0, 0), (1, 1), (2, 2), (3, 3), (4, 4), (5, 5)];
    let d = calculate_distances(8, 8, &path);
    assert_eq!(d.numerator, 2);
    assert_eq!(d.denominator, 8);
}

#[test]
fn calculate_distances_of_empty_path() {
    let path: Vec<(usize, usize)> = Vec::new();
    let d = calculate_distances(4, 4, &path);
    assert_eq!(d.numerator, 4);
    assert_eq!(d.denominator, 4);
}

#[test]
fn ktuple_identical_sequences_pins_exact_value() {
    let a = b"ACGTACGT".to_vec();
    let d = ktuple_distance(&a, &a, 3).unwrap();
    assert_eq!(d.numerator, 2);
    assert_eq!(d.denominator, 8);
    assert_eq!(ratio_value(d), 0.25);
}

#[test]
fn ktuple_identical_with_unit_kmers_is_zero() {
    let a = b"ACGTACGT".to_vec();
    let d = ktuple_distance(&a, &a, 1).unwrap();
    assert_eq!(d.numerator, 0);
    assert_eq!(d.denominator, 8);
    assert_eq!(ratio_value(d), 0.0);
}

#[test]
fn ktuple_no_shared_kmers_is_full_distance() {
    let a = b"AAAA".to_vec();
    let b = b"TTTT".to_vec();
    let d = ktuple_distance(&a, &b, 2).unwrap();
    assert_eq!(d.numerator, 4);
    assert_eq!(d.denominator, 4);
    assert_eq!(ratio_value(d), 1.0);
}

#[test]
fn ktuple_kmer_size_beyond_length_is_full_distance_not_an_error() {
    let a = b"ACG".to_vec();
    let b = b"ACGT".to_vec();
    let d = ktuple_distance(&a, &b, 4).unwrap();
    assert_eq!(d.numerator, 4);
    assert_eq!(d.denominator, 4);
}

#[test]
fn ktuple_distance_is_within_unit_interval() {
    let a = b"ACGTAC".to_vec();
    let b = b"CGTACG".to_vec();
    for k in 1..8usize {
        let d = ktuple_distance(&a, &b, k).unwrap();
        assert!(d.numerator <= d.denominator);
        assert!(d.denominator >= 1);
        let v = ratio_value(d);
        assert!((0.0..=1.0).contains(&v));
    }
}

#[test]
fn ktuple_distance_is_deterministic() {
    let a = b"ACGTACGTAC".to_vec();
    let b = b"TACGTTACG".to_vec();
    let d1 = ktuple_distance(&a, &b, 3).unwrap();
    let d2 = ktuple_distance(&a, &b, 3).unwrap();
    assert_eq!(d1, d2);
    assert_eq!(ratio_value(d1).to_bits(), ratio_value(d2).to_bits());
}
