use risk_predictor_core::models::{RequestEnvelope, ResponseEnvelope};
use risk_predictor_core::pricing::OptionKind;

#[test]
fn envelopes_keep_their_fields() {
    let request = RequestEnvelope {
        request_id: "req-1".to_string(),
        portfolio_id: "pf-7".to_string(),
        base_currency: "USD".to_string(),
    };
    let copy = request.clone();
    assert_eq!(copy.request_id, "req-1");
    assert_eq!(copy.portfolio_id, "pf-7");
    assert_eq!(copy.base_currency, "USD");
    let response = ResponseEnvelope {
        request_id: request.request_id.clone(),
        portfolio_id: request.portfolio_id.clone(),
        base_currency: request.base_currency.clone(),
        generated_at: "2026-06-19".to_string(),
        engine_version: "sprint-4-monte-carlo-core".to_string(),
    };
    assert_eq!(response.clone().engine_version, "sprint-4-monte-carlo-core");
}

#[test]
fn option_kinds_differ() {
    assert_ne!(OptionKind::Call, OptionKind::Put);
    assert_eq!(OptionKind::Put, OptionKind::Put.clone());
}
