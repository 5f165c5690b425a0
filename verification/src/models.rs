//! Identifying envelopes of requests to and responses from the engine.

use vstd::prelude::*;

verus! {

/// Identifies a risk request: which request, which portfolio, which currency.
#[derive(Debug, Clone)]
pub struct RequestEnvelope {
    pub request_id: String,
    pub portfolio_id: String,
    pub base_currency: String,
}

/// Identifies a risk response and the engine run that produced it.
#[derive(Debug, Clone)]
pub struct ResponseEnvelope {
    pub request_id: String,
    pub portfolio_id: String,
    pub base_currency: String,
    pub generated_at: String,
    pub engine_version: String,
}

} // verus!
