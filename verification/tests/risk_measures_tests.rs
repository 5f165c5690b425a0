use risk_predictor_core::risk_measures::{clamp_bin_index, tally_bins, var_tail_count};

#[test]
fn out_of_range_positions_go_to_the_edge_bins() {
    assert_eq!(clamp_bin_index(-3, 12), 0);
    assert_eq!(clamp_bin_index(15, 12), 11);
    assert_eq!(clamp_bin_index(12, 12), 11);
    assert_eq!(clamp_bin_index(5, 12), 5);
    assert_eq!(clamp_bin_index(isize::MIN, 1), 0);
    assert_eq!(clamp_bin_index(isize::MAX, 1), 0);
}

#[test]
fn every_sample_is_counted_once() {
    let positions = vec![0, 1, 1, -2, 20, 11, 5];
    let counts = tally_bins(&positions, 12);
    assert_eq!(counts, vec![2, 2, 0, 0, 0, 1, 0, 0, 0, 0, 0, 2]);
    assert_eq!(counts.iter().sum::<u32>() as usize, positions.len());
}

#[test]
fn no_samples_give_empty_bins() {
    assert_eq!(tally_bins(&Vec::new(), 3), vec![0, 0, 0]);
}

#[test]
fn tail_holds_at_least_one_and_at_most_all_samples() {
    assert_eq!(var_tail_count(0, 100), 1);
    assert_eq!(var_tail_count(5, 100), 5);
    assert_eq!(var_tail_count(100, 100), 100);
    assert_eq!(var_tail_count(200, 100), 100);
    assert_eq!(var_tail_count(usize::MAX, 1), 1);
}
