use mpc_bits::error::ProtocolError;

#[test]
fn every_error_has_its_message() {
    assert_eq!(ProtocolError::LengthMismatch.message(), "operand lengths differ");
    assert_eq!(
        ProtocolError::WidthExceedsField.message(),
        "bit length exceeds the capacity of the field"
    );
    assert_eq!(
        ProtocolError::MaskingExhausted.message(),
        "no mask below the modulus within the retry cap"
    );
    assert_eq!(ProtocolError::RandomnessExhausted.message(), "supply of random bits exhausted");
}

#[test]
fn invariant_violations_are_told_from_bad_luck() {
    assert!(ProtocolError::LengthMismatch.is_invariant_violation());
    assert!(ProtocolError::WidthExceedsField.is_invariant_violation());
    assert!(!ProtocolError::MaskingExhausted.is_invariant_violation());
    assert!(!ProtocolError::RandomnessExhausted.is_invariant_violation());
}
