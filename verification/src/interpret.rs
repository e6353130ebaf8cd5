//! Response interpretation: the fetched payload is parsed as JSON, the
//! applicable section located, and a single price derived by the
//! documented fallback order — a `Trade` section's direct price first,
//! else a `Quote` section's bid/ask midpoint (or whichever side is
//! present), else no price. The JSON navigation is delegated to
//! `serde_json` behind trusted wrappers; every decision on the extracted
//! values is verified here.

use vstd::prelude::*;
use crate::assemble::{PriceResult, wf_price};
use crate::decimal::{
    spec_price_micro, parse_price_micro, round_half_away, round_micro_to_cents, midpoint_cents,
    MICRO_PER_CENT, MICRO_MAX, CENTS_MAX,
};

verus! {

#[verifier::external_type_specification]
#[verifier::external_body]
pub struct ExValue(serde_json::Value);

/// Whether `serde_json::from_slice::<Value>` accepts these bytes: the
/// parser is deterministic, so acceptance is a function of the bytes
/// alone.
pub uninterp spec fn json_parses(b: Seq<u8>) -> bool;

/// What one response payload yields for one expected key, as a function
/// of the payload bytes and the key alone: whether the `Trade` and
/// `Quote` sections exist, and the serialized texts of `price`,
/// `bidPrice` and `askPrice` under the key. Meaningful only for payloads
/// that [`json_parses`] accepts.
pub uninterp spec fn json_fields_of(body: Seq<u8>, key: Seq<u8>) -> FieldsModel;

/// Relies on `serde_json::from_slice::<Value>`, `serde_json::Value::get`
/// and `serde_json::to_vec`: parsing accepts a byte string
/// deterministically; `get` returns the value under a field name on an
/// object and nothing on anything else; a parsed `Value` serializes to one
/// canonical text and cannot fail to serialize. All are deterministic in
/// their arguments, so the extracted fields are a function of the payload
/// bytes and the key alone. A non-UTF-8 key names no field.
#[verifier::external_body]
fn extract_fields(body: &[u8], key: &[u8]) -> (r: Option<PriceFields>)
    ensures
        r is Some <==> json_parses(body@),
        match r {
            Some(f) => f@ == json_fields_of(body@, key@),
            None => true,
        },
{
    let v: serde_json::Value = serde_json::from_slice(body).ok()?;
    let k = core::str::from_utf8(key).unwrap_or("");
    let t = v.get("Trade");
    let q = v.get("Quote");
    let f = |x: &serde_json::Value| serde_json::to_vec(x).unwrap_or_default();
    Some(PriceFields {
        trade_present: t.is_some(),
        trade_price: t.and_then(|s| s.get(k)).and_then(|e| e.get("price")).map(f),
        quote_present: q.is_some(),
        bid: q.and_then(|s| s.get(k)).and_then(|e| e.get("bidPrice")).map(f),
        ask: q.and_then(|s| s.get(k)).and_then(|e| e.get("askPrice")).map(f),
    })
}

/// What the interpreter read out of one response: whether the `Trade` and
/// `Quote` sections exist, and the numeric texts found under the expected
/// key.
pub struct PriceFields {
    pub trade_present: bool,
    pub trade_price: Option<Vec<u8>>,
    pub quote_present: bool,
    pub bid: Option<Vec<u8>>,
    pub ask: Option<Vec<u8>>,
}

/// The mathematical shape of [`PriceFields`].
pub struct FieldsModel {
    pub trade_present: bool,
    pub trade_price: Option<Seq<u8>>,
    pub quote_present: bool,
    pub bid: Option<Seq<u8>>,
    pub ask: Option<Seq<u8>>,
}

impl View for PriceFields {
    type V = FieldsModel;

    open spec fn view(&self) -> FieldsModel {
        FieldsModel {
            trade_present: self.trade_present,
            trade_price: match self.trade_price {
                Option::Some(ref t) => Option::Some(t@),
                Option::None => Option::None,
            },
            quote_present: self.quote_present,
            bid: match self.bid {
                Option::Some(ref t) => Option::Some(t@),
                Option::None => Option::None,
            },
            ask: match self.ask {
                Option::Some(ref t) => Option::Some(t@),
                Option::None => Option::None,
            },
        }
    }
}

/// The price a field text denotes, if it is a numeric literal in range.
pub open spec fn spec_opt_micro(t: Option<Seq<u8>>) -> Option<int> {
    match t {
        Some(s) => spec_price_micro(s),
        None => None,
    }
}

/// The derived price in whole cents, by the fallback order: a `Trade`
/// section is consulted alone; without one, a `Quote` section gives the
/// bid/ask midpoint, or whichever side is present; otherwise there is no
/// price. Rounding is half away from zero.
pub open spec fn spec_derive_cents(f: FieldsModel) -> Option<int> {
    if f.trade_present {
        match spec_opt_micro(f.trade_price) {
            Some(p) => Some(round_half_away(p, MICRO_PER_CENT as int)),
            None => None,
        }
    } else if f.quote_present {
        match (spec_opt_micro(f.bid), spec_opt_micro(f.ask)) {
            (Some(b), Some(a)) => Some(round_half_away(b + a, 2 * MICRO_PER_CENT as int)),
            (Some(b), None) => Some(round_half_away(b, MICRO_PER_CENT as int)),
            (None, Some(a)) => Some(round_half_away(a, MICRO_PER_CENT as int)),
            (None, None) => None,
        }
    } else {
        None
    }
}

/// Parses one optional field text into micro-units.
fn parse_field(t: &Option<Vec<u8>>) -> (r: Option<i64>)
    ensures
        match r {
            Some(m) => spec_opt_micro(match t {
                Option::Some(s) => Option::Some(s@),
                Option::None => Option::None::<Seq<u8>>,
            }) == Some(m as int) && -MICRO_MAX <= m <= MICRO_MAX,
            None => spec_opt_micro(match t {
                Option::Some(s) => Option::Some(s@),
                Option::None => Option::None::<Seq<u8>>,
            }) is None,
        },
{
    match t {
        Some(s) => parse_price_micro(s.as_slice()),
        None => None,
    }
}

/// Derives the price in whole cents from the extracted fields.
pub fn derive_price_cents(f: &PriceFields) -> (r: Option<i64>)
    ensures
        match r {
            Some(c) => spec_derive_cents(f@) == Some(c as int) && -CENTS_MAX <= c <= CENTS_MAX,
            None => spec_derive_cents(f@) is None,
        },
{
    if f.trade_present {
        match parse_field(&f.trade_price) {
            Some(p) => Some(round_micro_to_cents(p)),
            None => None,
        }
    } else if f.quote_present {
        match (parse_field(&f.bid), parse_field(&f.ask)) {
            (Some(b), Some(a)) => Some(midpoint_cents(b, a)),
            (Some(b), None) => Some(round_micro_to_cents(b)),
            (None, Some(a)) => Some(round_micro_to_cents(a)),
            (None, None) => None,
        }
    } else {
        None
    }
}

/// Interprets one fetched response for the query keyed `expected_key`: a
/// transport failure, an unparseable payload, or a payload without a
/// derivable price all yield `None` — the query is skipped, never the
/// batch. On a successful fetch of a parseable payload, the result is
/// exactly the price the fallback order derives from the payload's fields
/// under that key, keyed by `expected_key` and rounded to whole cents.
pub fn interpret_response(expected_key: &[u8], ok: bool, body: &[u8]) -> (r: Option<PriceResult>)
    ensures
        !ok ==> r is None,
        ok && !json_parses(body@) ==> r is None,
        ok && json_parses(body@) ==> match r {
            Some(p) => p@.symbol_key == expected_key@ && wf_price(p@) && Some(p@.price_cents)
                == spec_derive_cents(json_fields_of(body@, expected_key@)),
            None => spec_derive_cents(json_fields_of(body@, expected_key@)) is None,
        },
{
    if !ok {
        return None;
    }
    let fields = match extract_fields(body, expected_key) {
        Some(f) => f,
        None => {
            return None;
        },
    };
    match derive_price_cents(&fields) {
        Some(cents) => Some(
            PriceResult {
                symbol_key: vstd::slice::slice_to_vec(expected_key),
                price_cents: cents,
            },
        ),
        None => None,
    }
}

} // verus!
