//! Verified core of a portfolio risk engine: calendar arithmetic for option
//! expiries, Monte Carlo bookkeeping (configuration, per-path seeds, sample
//! path selection), market data lookup, and the integer parts of risk
//! reporting (histogram bins and value-at-risk tails).

pub mod calendar;
pub mod market;
pub mod models;
pub mod monte_carlo;
pub mod pricing;
pub mod pytypes;
pub mod risk_measures;
