//! Bit-level protocols on secret-shared field elements: prefix networks,
//! carry chains, bitwise addition, oblivious comparison, masked bit
//! decomposition and reduction modulo a power of two.
//!
//! Every protocol is written against an ideal arithmetic engine. A shared value
//! is modelled by the field element it opens to. Its type gives a public answer
//! that depends on that element only where the sharing is opened, so that no
//! protocol can branch on a secret.
//! The fresh random bits that a protocol consumes are handed in by the caller,
//! and every bit is used once.
//!
//! The modulus is held in a machine word of 128 bits: a field may have up to
//! 128 bits.
//!
//! Numbers that are held as vectors of bits are least significant bit first
//! unless a function says otherwise. No function panics: what a protocol cannot
//! do is told by a [`error::ProtocolError`], on which a computation must stop as
//! a whole.
//!
//! From the bottom up: [`field`] and [`value`] hold the configuration and the
//! elements, [`codec`] turns public elements into bits and back, [`prefix`] and
//! [`ops`] are the prefix networks and their operators, [`carry`] the carry
//! chain, [`adder`] the bitwise adder, [`compare`] the comparators, [`masking`]
//! the random masks, [`decompose`] the bit decompositions, [`integer`] the
//! integers of a declared width and [`ranking`] the ranking of secret numbers.
//! [`arith`] collects the arithmetic facts that the proofs share.

pub mod error;
pub mod field;
pub mod value;
pub mod arith;
pub mod codec;
pub mod prefix;
pub mod ops;
pub mod carry;
pub mod adder;
pub mod compare;
pub mod masking;
pub mod decompose;
pub mod integer;
pub mod ranking;
