//! Conversions between plain text and code-point vectors.

use classic_crypto::convert::from_string;
use classic_crypto::convert::to_string;

#[test]
fn empty_to_string() {
    let msg = String::from("");
    let vector = from_string(&msg);
    assert_eq!(vector, vec![0; 0]);
}

#[test]
fn empty_from_string() {
    let vector = vec![0; 0];
    let msg = to_string(&vector);
    assert_eq!(msg, String::from(""));
}

#[test]
fn lower_msg_to_string() {
    let msg = String::from("convert");
    let vector = from_string(&msg);
    assert_eq!(vector, vec![2, 14, 13, 21, 4, 17, 19]);
}

#[test]
fn upper_msg_to_string() {
    let msg = String::from("CONVERT");
    let vector = from_string(&msg);
    assert_eq!(vector, vec![2, 14, 13, 21, 4, 17, 19]);
}

#[test]
fn msg_from_string() {
    let vector = vec![2, 14, 13, 21, 4, 17, 19];
    let msg = to_string(&vector);
    assert_eq!(msg, String::from("CONVERT"));
}

#[test]
fn from_str_matches_from_string() {
    let vector = classic_crypto::convert::from_str("MixedCase");
    assert_eq!(vector, from_string(&String::from("mixedcase")));
}

#[test]
fn symbols_above_a_pass_through() {
    // characters at or past 'A' without a case mapping are their own
    // uppercase, as the underscore and bracket here
    let vector = classic_crypto::convert::from_str("A[_z");
    assert_eq!(vector, vec![0, 26, 30, 25]);
}
