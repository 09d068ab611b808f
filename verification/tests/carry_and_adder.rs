use mpc_bits::adder::{bit_add, bit_increment};
use mpc_bits::carry::{carry_out, combine, half_adder, reduce_carry, scan_paired, CarryPair};
use mpc_bits::error::ProtocolError;
use mpc_bits::field::Field;
use mpc_bits::value::{Clear, Operand, Secret};

fn field() -> Field {
    Field::new(2305843009213693951, 40, 64).unwrap()
}

fn secret_bits_le(value: u128, k: usize, f: &Field) -> Vec<Secret> {
    (0..k).map(|i| Secret::new((value >> i) & 1, f)).collect()
}

fn secret_operands_le(value: u128, k: usize, f: &Field) -> Vec<Operand> {
    (0..k).map(|i| Operand::Secret(Secret::new((value >> i) & 1, f))).collect()
}

fn public_operands_le(value: u128, k: usize, f: &Field) -> Vec<Operand> {
    (0..k).map(|i| Operand::Public(Clear::new((value >> i) & 1, f))).collect()
}

fn opened_le(bits: &[Secret]) -> u128 {
    let mut total: u128 = 0;
    for (i, b) in bits.iter().enumerate() {
        let v = b.open().to_u128();
        assert!(v <= 1);
        total += v << i;
    }
    total
}

fn pair(p: u128, g: u128, f: &Field) -> CarryPair {
    CarryPair { propagate: Secret::new(p, f), generate: Secret::new(g, f) }
}

#[test]
fn combine_follows_the_carry_lookahead_rule() {
    let f = field();
    for pl in 0..2u128 {
        for gl in 0..2u128 {
            for pu in 0..2u128 {
                for gu in 0..2u128 {
                    let r = combine(&pair(pl, gl, &f), &pair(pu, gu, &f), &f);
                    assert_eq!(r.propagate.open().to_u128(), pl * pu);
                    assert_eq!(r.generate.open().to_u128(), gu + pu * gl);
                }
            }
        }
    }
}

#[test]
fn half_adder_gives_xor_and_and() {
    let f = field();
    for a in 0..2u128 {
        for b in 0..2u128 {
            let x = Operand::Public(Clear::new(a, &f));
            let y = Operand::Secret(Secret::new(b, &f));
            let r = half_adder(&x, &y, &f);
            assert_eq!(r.propagate.open().to_u128(), a ^ b);
            assert_eq!(r.generate.open().to_u128(), a & b);
        }
    }
}

#[test]
fn reduce_carry_of_nothing_is_nothing() {
    let f = field();
    assert!(reduce_carry(&Vec::new(), &f).is_none());
}

#[test]
fn reduce_carry_takes_the_first_pair_as_most_significant() {
    let f = field();
    // generate below, kill above: no carry out
    let pairs = vec![pair(0, 0, &f), pair(0, 1, &f)];
    assert_eq!(reduce_carry(&pairs, &f).unwrap().open().to_u128(), 0);
    // generate below, propagate above: carry out
    let pairs = vec![pair(1, 0, &f), pair(0, 1, &f)];
    assert_eq!(reduce_carry(&pairs, &f).unwrap().open().to_u128(), 1);
    // odd length: generate at the bottom, propagate twice
    let pairs = vec![pair(1, 0, &f), pair(1, 0, &f), pair(0, 1, &f)];
    assert_eq!(reduce_carry(&pairs, &f).unwrap().open().to_u128(), 1);
}

#[test]
fn scan_paired_gives_every_carry() {
    let f = field();
    // 0b0111 + 0b0001, least significant position first
    let pairs = vec![pair(0, 1, &f), pair(1, 0, &f), pair(1, 0, &f), pair(0, 0, &f)];
    let out = scan_paired(&pairs, &f);
    let carries: Vec<u128> = out.iter().map(|c| c.generate.open().to_u128()).collect();
    assert_eq!(carries, vec![1, 1, 1, 0]);
}

#[test]
fn carry_out_is_the_carry_of_the_sum() {
    let f = field();
    for k in 0..5usize {
        for a in 0..(1u128 << k) {
            for b in 0..(1u128 << k) {
                for c in 0..2u128 {
                    let av: Vec<Clear> =
                        (0..k).map(|i| Clear::new((a >> (k - 1 - i)) & 1, &f)).collect();
                    let bv: Vec<Secret> =
                        (0..k).map(|i| Secret::new((b >> (k - 1 - i)) & 1, &f)).collect();
                    let r = carry_out(&av, &bv, &Secret::new(c, &f), &f).unwrap();
                    assert_eq!(r.open().to_u128(), (a + b + c) >> k);
                }
            }
        }
    }
}

#[test]
fn carry_out_rejects_operands_of_different_lengths() {
    let f = field();
    let av = vec![Clear::new(1, &f)];
    let bv = vec![Secret::new(1, &f), Secret::new(0, &f)];
    assert!(matches!(
        carry_out(&av, &bv, &Secret::new(0, &f), &f),
        Err(ProtocolError::LengthMismatch)
    ));
}

#[test]
fn bit_add_of_five_and_two_is_seven_on_four_bits() {
    let f = field();
    let sum = bit_add(&secret_operands_le(5, 3, &f), &secret_operands_le(2, 3, &f), &f).unwrap();
    let opened: Vec<u128> = sum.iter().map(|s| s.open().to_u128()).collect();
    assert_eq!(opened, vec![1, 1, 1, 0]);
}

#[test]
fn bit_add_is_exact_for_all_small_operands() {
    let f = field();
    for k in 0..6usize {
        for a in 0..(1u128 << k) {
            for b in 0..(1u128 << k) {
                let sum =
                    bit_add(&secret_operands_le(a, k, &f), &public_operands_le(b, k, &f), &f)
                        .unwrap();
                assert_eq!(sum.len(), k + 1);
                assert_eq!(opened_le(&sum), a + b);
            }
        }
    }
}

#[test]
fn bit_add_works_on_wide_operands() {
    let f = Field::new(u128::MAX - 158, 40, 64).unwrap();
    let a: u128 = 0xdead_beef_0123_4567_89ab_cdef;
    let b: u128 = 0xffff_ffff_ffff_ffff_ffff_ffff;
    let sum = bit_add(&secret_operands_le(a, 96, &f), &secret_operands_le(b, 96, &f), &f).unwrap();
    assert_eq!(sum.len(), 97);
    assert_eq!(opened_le(&sum), a + b);
}

#[test]
fn bit_add_rejects_operands_of_different_lengths() {
    let f = field();
    let r = bit_add(&secret_operands_le(5, 3, &f), &secret_operands_le(2, 4, &f), &f);
    assert!(matches!(r, Err(ProtocolError::LengthMismatch)));
}

#[test]
fn bit_add_in_the_field_of_two_elements() {
    let f = Field::new(2, 40, 64).unwrap();
    let sum = bit_add(&secret_operands_le(3, 2, &f), &secret_operands_le(3, 2, &f), &f).unwrap();
    assert_eq!(opened_le(&sum), 6);
}

#[test]
fn bit_increment_adds_one() {
    let f = field();
    for k in 0..7usize {
        for a in 0..(1u128 << k) {
            let sum = bit_increment(&secret_bits_le(a, k, &f), &f);
            assert_eq!(sum.len(), k + 1);
            assert_eq!(opened_le(&sum), a + 1);
        }
    }
}
