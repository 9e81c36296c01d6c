use atom01_fw::weights::{contains, validation_passed, weights_gate, Gate};

#[test]
fn manifest_is_searched_for_the_entry() {
    assert!(validation_passed("{\"validation_passed\": true}"));
    assert!(validation_passed("{\"x\":1,\"validation_passed\":true}"));
    assert!(!validation_passed("{\"validation_passed\": false}"));
    assert!(!validation_passed("{\"validation_passed\":  true}"));
    assert!(!validation_passed("validation_passed: true"));
    assert!(!validation_passed(""));
}

#[test]
fn gate_warns_or_refuses() {
    assert_eq!(weights_gate(true, false), Gate::Accept);
    assert_eq!(weights_gate(true, true), Gate::Accept);
    assert_eq!(weights_gate(false, false), Gate::Warn);
    assert_eq!(weights_gate(false, true), Gate::Refuse);
}

#[test]
fn search_finds_every_position() {
    assert!(contains(b"abcd", b"ab"));
    assert!(contains(b"abcd", b"cd"));
    assert!(contains(b"abcd", b"abcd"));
    assert!(contains(b"abcd", b""));
    assert!(contains(b"", b""));
    assert!(contains(b"aab", b"ab"));
    assert!(!contains(b"abcd", b"bd"));
    assert!(!contains(b"abc", b"abcd"));
}
