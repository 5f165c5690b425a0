//! Settings of a risk request as the caller states them.

use vstd::prelude::*;

use crate::monte_carlo;

verus! {

/// The Monte Carlo settings of a risk request.
#[derive(Debug, Clone, Copy)]
pub struct MonteCarloConfig {
    pub num_paths: u32,
    pub num_steps: u32,
    pub seed: u64,
    pub use_antithetic_variates: bool,
    pub use_correlated_draws: bool,
    pub sample_path_count: u32,
}

impl MonteCarloConfig {
    pub fn new(
        num_paths: u32,
        num_steps: u32,
        seed: u64,
        use_antithetic_variates: bool,
        use_correlated_draws: bool,
        sample_path_count: u32,
    ) -> (r: Self)
        ensures
            r == (MonteCarloConfig {
                num_paths,
                num_steps,
                seed,
                use_antithetic_variates,
                use_correlated_draws,
                sample_path_count,
            }),
    {
        Self { num_paths, num_steps, seed, use_antithetic_variates, use_correlated_draws, sample_path_count }
    }
}

/// The engine configuration for a request's Monte Carlo settings: the
/// counts and the seed carry over; the variance-reduction flags have no
/// counterpart in the engine.
pub fn to_mc_config(config: &MonteCarloConfig) -> (r: monte_carlo::MonteCarloConfig)
    ensures
        r == (monte_carlo::MonteCarloConfig {
            num_paths: config.num_paths as usize,
            num_steps: config.num_steps as usize,
            seed: config.seed,
            sample_path_count: config.sample_path_count as usize,
        }),
{
    monte_carlo::MonteCarloConfig::new(
        config.num_paths as usize,
        config.num_steps as usize,
        config.seed,
        config.sample_path_count as usize,
    )
}

} // verus!
