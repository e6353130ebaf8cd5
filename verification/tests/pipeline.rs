//! Execution-pipeline scenarios: planning, interpretation, assembly.

use price_oracle::assemble::{assemble, PriceResult};
use price_oracle::interpret::interpret_response;
use price_oracle::request::plan_requests;

const BASE: &str = "https://api.binance.com/api/v3/ticker/price?symbol=";

#[test]
fn end_to_end_example() {
    let plan = plan_requests(b"fx:EUR,cfd:XAU:USD").expect("non-empty batch");
    assert_eq!(plan.len(), 2);
    assert_eq!(plan[0].url, format!("{BASE}EURUSD").into_bytes());
    assert_eq!(plan[0].expected_key, b"EUR/USD".to_vec());
    assert_eq!(plan[1].url, format!("{BASE}XAUUSD").into_bytes());
    assert_eq!(plan[1].expected_key, b"XAU/USD:BFX".to_vec());

    let body_fx = br#"{"Trade":{"EUR/USD":{"price":1.0821}}}"#;
    let body_cfd = br#"{"Quote":{"XAU/USD:BFX":{"bidPrice":1950.1,"askPrice":1950.5}}}"#;
    let mut results = Vec::new();
    results.push(interpret_response(&plan[0].expected_key, true, body_fx).expect("fx price"));
    results.push(interpret_response(&plan[1].expected_key, true, body_cfd).expect("cfd price"));

    let out = assemble(results);
    assert_eq!(
        out,
        br#"[{"symbol":"EUR/USD","price":1.08},{"symbol":"XAU/USD:BFX","price":1950.3}]"#.to_vec()
    );
}

#[test]
fn output_sorted_regardless_of_input_order() {
    // same two results handed over in either order assemble identically
    let a = PriceResult { symbol_key: b"XAU/USD:BFX".to_vec(), price_cents: 195030 };
    let b = PriceResult { symbol_key: b"EUR/USD".to_vec(), price_cents: 108 };
    let a2 = PriceResult { symbol_key: b"XAU/USD:BFX".to_vec(), price_cents: 195030 };
    let b2 = PriceResult { symbol_key: b"EUR/USD".to_vec(), price_cents: 108 };
    let out1 = assemble(vec![a, b]);
    let out2 = assemble(vec![b2, a2]);
    assert_eq!(out1, out2);
    assert_eq!(
        out1,
        br#"[{"symbol":"EUR/USD","price":1.08},{"symbol":"XAU/USD:BFX","price":1950.3}]"#.to_vec()
    );
}

#[test]
fn unknown_category_skipped_not_fatal() {
    let plan = plan_requests(b"bogus:XYZ,fx:EUR").expect("non-empty batch");
    assert_eq!(plan.len(), 1);
    assert_eq!(plan[0].expected_key, b"EUR/USD".to_vec());
}

#[test]
fn cfd_missing_quote_skipped_not_fatal() {
    let plan = plan_requests(b"cfd:XAU,fx:EUR").expect("non-empty batch");
    assert_eq!(plan.len(), 1);
    assert_eq!(plan[0].expected_key, b"EUR/USD".to_vec());
}

#[test]
fn empty_input_is_batch_fatal() {
    assert!(plan_requests(b"").is_none());
    assert!(plan_requests(b"  ,  ,, ").is_none());
}

#[test]
fn all_invalid_queries_yield_empty_success() {
    let plan = plan_requests(b"bogus:1,bogus:2").expect("queries parsed, batch not fatal");
    assert_eq!(plan.len(), 0);
    assert_eq!(assemble(Vec::new()), b"[]".to_vec());
}

#[test]
fn category_table() {
    let plan =
        plan_requests(b"equity:AAPL,uslf_q:FOO,uslf_t:BAR,fx:EUR,fx_r:JPY,cfd:XAU:USD").unwrap();
    assert_eq!(plan.len(), 6);
    assert_eq!(plan[0].url, format!("{BASE}AAPLUSD").into_bytes());
    assert_eq!(plan[0].expected_key, b"AAPL".to_vec());
    assert_eq!(plan[1].url, format!("{BASE}FOOUSD").into_bytes());
    assert_eq!(plan[1].expected_key, b"FOO:USLF24".to_vec());
    assert_eq!(plan[2].url, format!("{BASE}BARUSD").into_bytes());
    assert_eq!(plan[2].expected_key, b"BAR".to_vec());
    assert_eq!(plan[3].url, format!("{BASE}EURUSD").into_bytes());
    assert_eq!(plan[3].expected_key, b"EUR/USD".to_vec());
    assert_eq!(plan[4].url, format!("{BASE}USDJPY").into_bytes());
    assert_eq!(plan[4].expected_key, b"USD/JPY".to_vec());
    assert_eq!(plan[5].url, format!("{BASE}XAUUSD").into_bytes());
    assert_eq!(plan[5].expected_key, b"XAU/USD:BFX".to_vec());
}

#[test]
fn segments_are_trimmed_and_extra_parts_ignored() {
    let plan = plan_requests(b" \x0b fx:EUR \x0c, cfd:XAU:USD:EXTRA\t").unwrap();
    assert_eq!(plan.len(), 2);
    assert_eq!(plan[0].expected_key, b"EUR/USD".to_vec());
    assert_eq!(plan[1].expected_key, b"XAU/USD:BFX".to_vec());
}

#[test]
fn missing_symbol_or_category_discarded() {
    let plan = plan_requests(b"fx:,:EUR,fx").expect("segments exist");
    assert_eq!(plan.len(), 0);
}

#[test]
fn transport_failure_skips_query() {
    assert!(interpret_response(b"EUR/USD", false, b"{}").is_none());
}

#[test]
fn unparseable_body_skips_query() {
    assert!(interpret_response(b"EUR/USD", true, b"not json").is_none());
}

#[test]
fn trade_section_wins_and_does_not_fall_back() {
    // Trade exists but holds no price for the key: no price, even though
    // Quote could have served one
    let body = br#"{"Trade":{},"Quote":{"K":{"bidPrice":1.0,"askPrice":2.0}}}"#;
    assert!(interpret_response(b"K", true, body).is_none());
}

#[test]
fn quote_single_sided_uses_that_side() {
    let bid_only = br#"{"Quote":{"K":{"bidPrice":2.5}}}"#;
    let r = interpret_response(b"K", true, bid_only).unwrap();
    assert_eq!(r.price_cents, 250);
    let ask_only = br#"{"Quote":{"K":{"askPrice":3.25}}}"#;
    let r = interpret_response(b"K", true, ask_only).unwrap();
    assert_eq!(r.price_cents, 325);
    let neither = br#"{"Quote":{"K":{}}}"#;
    assert!(interpret_response(b"K", true, neither).is_none());
}

#[test]
fn integer_and_string_price_values() {
    let int_price = br#"{"Trade":{"K":{"price":7}}}"#;
    let r = interpret_response(b"K", true, int_price).unwrap();
    assert_eq!(r.price_cents, 700);
    // a JSON string is not a number: no price is derived from it
    let str_price = br#"{"Trade":{"K":{"price":"1.5"}}}"#;
    assert!(interpret_response(b"K", true, str_price).is_none());
}

#[test]
fn symbol_keys_are_json_escaped() {
    let r = PriceResult { symbol_key: b"A\"B\\C".to_vec(), price_cents: 100 };
    let out = assemble(vec![r]);
    assert_eq!(out, br#"[{"symbol":"A\"B\\C","price":1.0}]"#.to_vec());
}

#[test]
fn non_object_payload_gives_no_price() {
    // parses as JSON, but no Trade or Quote section exists to consult
    assert!(interpret_response(b"K", true, b"[1,2]").is_none());
    assert!(interpret_response(b"K", true, b"42").is_none());
}
