//! The errors of the protocols.

use vstd::prelude::*;

verus! {

/// The ways in which a protocol call can fail. Every one of them is fatal to a
/// computation: all participants must stop at the same point.
#[derive(Clone, Copy, Debug, PartialEq, Eq, Structural)]
pub enum ProtocolError {
    /// Two operands that must have the same number of bits do not.
    LengthMismatch,
    /// A declared bit length does not leave the room that the field must offer.
    WidthExceedsField,
    /// Every candidate mask that the retry cap allows was at least the modulus.
    MaskingExhausted,
    /// The supply of fresh random bits ran out before the protocol had drawn
    /// all the bits it needs.
    RandomnessExhausted,
}

impl ProtocolError {
    /// Whether the error is a broken invariant of the protocol, that is a
    /// mistake of the calling program, and not a matter of randomness.
    pub fn is_invariant_violation(&self) -> (b: bool)
        ensures
            b == (*self == ProtocolError::LengthMismatch || *self
                == ProtocolError::WidthExceedsField),
    {
        match self {
            ProtocolError::LengthMismatch => true,
            ProtocolError::WidthExceedsField => true,
            ProtocolError::MaskingExhausted => false,
            ProtocolError::RandomnessExhausted => false,
        }
    }

    /// A short description for logs and abort messages.
    pub fn message(&self) -> (text: &'static str)
        ensures
            *self == ProtocolError::LengthMismatch ==> text@ == "operand lengths differ"@,
            *self == ProtocolError::WidthExceedsField ==> text@
                == "bit length exceeds the capacity of the field"@,
            *self == ProtocolError::MaskingExhausted ==> text@
                == "no mask below the modulus within the retry cap"@,
            *self == ProtocolError::RandomnessExhausted ==> text@
                == "supply of random bits exhausted"@,
    {
        match self {
            ProtocolError::LengthMismatch => "operand lengths differ",
            ProtocolError::WidthExceedsField => "bit length exceeds the capacity of the field",
            ProtocolError::MaskingExhausted => "no mask below the modulus within the retry cap",
            ProtocolError::RandomnessExhausted => "supply of random bits exhausted",
        }
    }
}

} // verus!
