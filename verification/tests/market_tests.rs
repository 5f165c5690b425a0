use risk_predictor_core::market::{classify_instrument, find_symbol_index, infer_option_kind, InstrumentClass};
use risk_predictor_core::pricing::OptionKind;

#[test]
fn symbol_lookup_finds_the_first_match() {
    let symbols = vec!["AAPL".to_string(), "MSFT".to_string(), "AAPL".to_string()];
    assert_eq!(find_symbol_index(&symbols, "AAPL"), Some(0));
    assert_eq!(find_symbol_index(&symbols, "MSFT"), Some(1));
    assert_eq!(find_symbol_index(&symbols, "GOOG"), None);
    assert_eq!(find_symbol_index(&symbols, "aapl"), None);
    assert_eq!(find_symbol_index(&Vec::new(), "AAPL"), None);
}

#[test]
fn option_kind_is_read_ignoring_case() {
    assert_eq!(infer_option_kind(Some("European PUT")), OptionKind::Put);
    assert_eq!(infer_option_kind(Some("put")), OptionKind::Put);
    assert_eq!(infer_option_kind(Some("CallPut")), OptionKind::Put);
    assert_eq!(infer_option_kind(Some("call")), OptionKind::Call);
    assert_eq!(infer_option_kind(Some("Pu t")), OptionKind::Call);
    assert_eq!(infer_option_kind(Some("pu")), OptionKind::Call);
    assert_eq!(infer_option_kind(Some("")), OptionKind::Call);
    assert_eq!(infer_option_kind(Some("équité put")), OptionKind::Put);
    assert_eq!(infer_option_kind(None), OptionKind::Call);
}

#[test]
fn option_kind_matches_lowercase_contains() {
    for text in ["PUT", "pUt", "xxputxx", "calls", "PuT-call", "output", "p u t", "ΠUT", "Put"] {
        let expected = if text.to_ascii_lowercase().contains("put") { OptionKind::Put } else { OptionKind::Call };
        assert_eq!(infer_option_kind(Some(text)), expected, "{text}");
    }
}

#[test]
fn instruments_are_told_apart_by_class_name() {
    assert_eq!(classify_instrument("EuropeanOptionInstrument"), Some(InstrumentClass::EuropeanOption));
    assert_eq!(classify_instrument("EquityInstrument"), Some(InstrumentClass::Equity));
    assert_eq!(classify_instrument("BondInstrument"), None);
    assert_eq!(classify_instrument("equityinstrument"), None);
}
