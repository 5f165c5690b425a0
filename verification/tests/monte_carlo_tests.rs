use risk_predictor_core::monte_carlo::{derive_path_seed, select_sample_indices, MonteCarloConfig};
use risk_predictor_core::pytypes;

#[test]
fn path_seeds_mix_index_into_base_seed() {
    assert_eq!(derive_path_seed(0, 0), 0xD2B7_4407_B1CE_6E93);
    assert_eq!(derive_path_seed(42, 0), 0xD2B7_4407_B1CE_6EBD);
    assert_eq!(derive_path_seed(7_777, 3), 0xAD5D_B134_2FAD_D8F1);
    assert_eq!(derive_path_seed(u64::MAX, 1), 0x347F_CA4E_3283_F27D);
}

#[test]
fn path_seeds_are_distinct_within_a_run() {
    let mut seeds: Vec<u64> = (0..2_000).map(|index| derive_path_seed(7_777, index)).collect();
    seeds.sort();
    seeds.dedup();
    assert_eq!(seeds.len(), 2_000);
}

#[test]
fn identical_seeds_give_identical_path_seeds() {
    for index in 0..100 {
        assert_eq!(derive_path_seed(7_777, index), derive_path_seed(7_777, index));
    }
}

#[test]
fn sample_paths_are_taken_at_even_strides() {
    assert_eq!(select_sample_indices(10, 3), vec![0, 3, 6]);
    assert_eq!(select_sample_indices(128, 8), vec![0, 16, 32, 48, 64, 80, 96, 112]);
    assert_eq!(select_sample_indices(7, 6), vec![0, 1, 2, 3, 4, 5]);
}

#[test]
fn sample_count_is_clamped() {
    assert_eq!(select_sample_indices(10, 0), vec![0]);
    assert_eq!(select_sample_indices(4, 10), vec![0, 1, 2, 3]);
    assert_eq!(select_sample_indices(4, 4), vec![0, 1, 2, 3]);
    assert_eq!(select_sample_indices(0, 5), Vec::<usize>::new());
}

#[test]
fn normalized_config_has_a_path_and_a_step() {
    let config = MonteCarloConfig::new(0, 0, 5, 0).normalized();
    assert_eq!((config.num_paths, config.num_steps, config.seed, config.sample_path_count), (1, 1, 5, 0));
    let config = MonteCarloConfig::new(128, 32, 7_777, 8).normalized();
    assert_eq!((config.num_paths, config.num_steps, config.seed, config.sample_path_count), (128, 32, 7_777, 8));
    let again = config.normalized();
    assert_eq!((again.num_paths, again.num_steps), (128, 32));
}

#[test]
fn request_settings_become_engine_settings() {
    let request = pytypes::MonteCarloConfig::new(1_000, 252, 42, true, false, 25);
    let engine = pytypes::to_mc_config(&request);
    assert_eq!((engine.num_paths, engine.num_steps, engine.seed, engine.sample_path_count), (1_000, 252, 42, 25));
}
