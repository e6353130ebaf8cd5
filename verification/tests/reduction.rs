//! Reveal-reduction scenarios: the first payload parsing as a result
//! array wins, agreement is never required, and only a list with nothing
//! acceptable is an error.

use price_oracle::reduce::reduce_reveals;

#[test]
fn first_valid_reveal_wins_even_when_they_differ() {
    let valid_a = br#"[{"symbol":"a","price":1.5}]"#.to_vec();
    let valid_b = br#"[{"symbol":"a","price":9.9}]"#.to_vec();
    let out = reduce_reveals(&vec![valid_a, valid_b]).expect("a parseable reveal");
    // the first payload, decoded and re-encoded: the decoder orders object
    // keys alphabetically
    assert_eq!(out, br#"[{"price":1.5,"symbol":"a"}]"#.to_vec());
}

#[test]
fn garbage_then_valid_returns_the_valid_one() {
    let garbage = b"not json at all".to_vec();
    let valid_b = br#"[{"symbol":"b","price":2.0}]"#.to_vec();
    let out = reduce_reveals(&vec![garbage, valid_b]).expect("one parseable reveal");
    assert_eq!(out, br#"[{"price":2.0,"symbol":"b"}]"#.to_vec());
}

#[test]
fn all_garbage_is_an_error() {
    let g1 = b"not json".to_vec();
    let g2 = b"{broken".to_vec();
    assert!(reduce_reveals(&vec![g1, g2]).is_none());
}

#[test]
fn no_reveals_is_an_error() {
    assert!(reduce_reveals(&Vec::new()).is_none());
}

#[test]
fn accepted_reveal_is_reencoded_canonically() {
    // whitespace is not preserved: the accepted payload really went
    // through a decode and a re-encode
    let spaced = b" [ 1 , 2 ] ".to_vec();
    let out = reduce_reveals(&vec![spaced]).unwrap();
    assert_eq!(out, b"[1,2]".to_vec());
}

#[test]
fn valid_json_non_array_is_discarded() {
    // a bare number is valid JSON but not a result array
    let number = b"42".to_vec();
    let object = br#"{"symbol":"a","price":1.5}"#.to_vec();
    assert!(reduce_reveals(&vec![number.clone(), object]).is_none());
    let valid_b = br#"[{"symbol":"b","price":2.0}]"#.to_vec();
    let out = reduce_reveals(&vec![number, valid_b]).expect("the array reveal");
    assert_eq!(out, br#"[{"price":2.0,"symbol":"b"}]"#.to_vec());
}
