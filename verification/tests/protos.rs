//! Check of the vendored schema files.

use ethp2p::protos::{command, count_mismatches, inspect, Command, Finding};

#[test]
fn commands_are_recognised() {
    let ask = |words: &[&str]| command(&words.iter().map(|w| w.to_string()).collect());
    assert_eq!(ask(&[]), Command::Help);
    assert_eq!(ask(&["-h"]), Command::Help);
    assert_eq!(ask(&["--help", "x"]), Command::Help);
    assert_eq!(ask(&["check-protos"]), Command::CheckProtos);
    assert_eq!(ask(&["nope"]), Command::Unknown("nope".to_string()));
}

#[test]
fn digests_are_compared() {
    let abc = "ba7816bf8f01cfea414140de5dae2223b00361a396177a9cb410ff61f20015ad".to_string();
    let ok = inspect(&abc, Some(b"abc".to_vec()));
    assert_eq!(ok, Finding::Match);
    let drift = inspect(&"00".to_string(), Some(b"abc".to_vec()));
    assert_eq!(drift, Finding::Drift { actual: abc.clone() });
    let missing = inspect(&abc, None);
    assert_eq!(missing, Finding::Missing);
    assert_eq!(count_mismatches(&vec![ok.clone(), ok.clone()]), 0);
    assert_eq!(count_mismatches(&vec![ok, drift, missing]), 2);
}
