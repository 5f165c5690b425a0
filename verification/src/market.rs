//! Looking things up in the market data and telling instruments apart.

use vstd::prelude::*;
use vstd::string::StringSliceAdditionalSpecFns;

use crate::pricing::OptionKind;

verus! {

/// Finds the entry of a market data list (quotes, volatilities, dividend
/// yields) that belongs to `symbol`: the first one whose symbol is equal.
pub fn find_symbol_index(symbols: &Vec<String>, symbol: &str) -> (r: Option<usize>)
    ensures
        match r {
            Some(i) => i < symbols@.len() && symbols@[i as int]@ == symbol@
                && forall|j: int| 0 <= j < i ==> symbols@[j]@ != symbol@,
            None => forall|j: int| 0 <= j < symbols@.len() ==> symbols@[j]@ != symbol@,
        },
{
    let target = symbol.to_owned();
    let mut i: usize = 0;
    while i < symbols.len()
        invariant
            0 <= i <= symbols@.len(),
            target@ == symbol@,
            forall|j: int| 0 <= j < i ==> symbols@[j]@ != symbol@,
        decreases symbols@.len() - i,
    {
        if symbols[i] == target {
            return Some(i);
        }
        i = i + 1;
    }
    None
}

/// ASCII upper-case letters in lower case; every other byte unchanged.
pub open spec fn ascii_lower(c: u8) -> u8 {
    if 65 <= c <= 90 { (c + 32) as u8 } else { c }
}

/// `b` holds `put` in any mix of ASCII case.
pub open spec fn mentions_put(b: Seq<u8>) -> bool {
    exists|i: int|
        0 <= i && i + 3 <= b.len() && #[trigger] ascii_lower(b[i]) == 112u8 && ascii_lower(b[i + 1]) == 117u8
            && ascii_lower(b[i + 2]) == 116u8
}

/// The option kind named by an instrument type: a put when the type
/// contains `put` ignoring ASCII case, and otherwise (a call, an unknown
/// type, or no type at all) a call.
pub open spec fn option_kind_of(instrument_type: Option<Seq<u8>>) -> OptionKind {
    match instrument_type {
        Some(b) => if mentions_put(b) { OptionKind::Put } else { OptionKind::Call },
        None => OptionKind::Call,
    }
}

/// Reads the option kind from an instrument's type description.
pub fn infer_option_kind(instrument_type: Option<&str>) -> (r: OptionKind)
    ensures
        r == option_kind_of(
            match instrument_type {
                Some(s) => Some(s.spec_bytes()),
                None => None,
            },
        ),
{
    match instrument_type {
        None => OptionKind::Call,
        Some(s) => {
            let b = s.as_bytes();
            let n = b.len();
            let mut i: usize = 0;
            while n >= 3 && i <= n - 3
                invariant
                    instrument_type == Some(s),
                    b@ == s.spec_bytes(),
                    n == b@.len(),
                    forall|k: int|
                        0 <= k < i && k + 3 <= n ==> !(#[trigger] ascii_lower(b@[k]) == 112u8 && ascii_lower(b@[k + 1]) == 117u8
                            && ascii_lower(b@[k + 2]) == 116u8),
                decreases n - i,
            {
                let c0 = b[i];
                let c1 = b[i + 1];
                let c2 = b[i + 2];
                if (c0 == 112u8 || c0 == 80u8) && (c1 == 117u8 || c1 == 85u8) && (c2 == 116u8 || c2 == 84u8) {
                    assert(ascii_lower(b@[i as int]) == 112u8 && ascii_lower(b@[i + 1]) == 117u8
                        && ascii_lower(b@[i + 2]) == 116u8);
                    return OptionKind::Put;
                }
                i = i + 1;
            }
            OptionKind::Call
        },
    }
}

/// The option kind does not depend on ASCII case: two descriptions that
/// agree once lowered name the same kind.
pub proof fn lemma_option_kind_ignores_case(a: Seq<u8>, b: Seq<u8>)
    requires
        a.len() == b.len(),
        forall|k: int| 0 <= k < a.len() ==> ascii_lower(#[trigger] a[k]) == ascii_lower(b[k]),
    ensures
        option_kind_of(Some(a)) == option_kind_of(Some(b)),
{
    if mentions_put(a) {
        let i = choose|i: int|
            0 <= i && i + 3 <= a.len() && #[trigger] ascii_lower(a[i]) == 112u8 && ascii_lower(a[i + 1]) == 117u8
                && ascii_lower(a[i + 2]) == 116u8;
        assert(ascii_lower(b[i]) == 112u8 && ascii_lower(b[i + 1]) == 117u8 && ascii_lower(b[i + 2]) == 116u8);
    }
    if mentions_put(b) {
        let i = choose|i: int|
            0 <= i && i + 3 <= b.len() && #[trigger] ascii_lower(b[i]) == 112u8 && ascii_lower(b[i + 1]) == 117u8
                && ascii_lower(b[i + 2]) == 116u8;
        assert(ascii_lower(a[i]) == 112u8 && ascii_lower(a[i + 1]) == 117u8 && ascii_lower(a[i + 2]) == 116u8);
    }
}

/// The instrument types a portfolio position may hold.
#[derive(Debug, Clone, Copy, PartialEq, Eq, Structural)]
pub enum InstrumentClass {
    EuropeanOption,
    Equity,
}

/// Tells the instrument type of a position from its class name; `None` for
/// a class that is not supported.
pub fn classify_instrument(class_name: &str) -> (r: Option<InstrumentClass>)
    ensures
        r == (if class_name@ == "EuropeanOptionInstrument"@ {
            Some(InstrumentClass::EuropeanOption)
        } else if class_name@ == "EquityInstrument"@ {
            Some(InstrumentClass::Equity)
        } else {
            None
        }),
{
    let name = class_name.to_owned();
    if name == "EuropeanOptionInstrument".to_owned() {
        Some(InstrumentClass::EuropeanOption)
    } else if name == "EquityInstrument".to_owned() {
        Some(InstrumentClass::Equity)
    } else {
        None
    }
}

} // verus!
