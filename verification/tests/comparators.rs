use mpc_bits::compare::{full_compare, less_than_public, prefix_or};
use mpc_bits::error::ProtocolError;
use mpc_bits::field::Field;
use mpc_bits::value::{Clear, Operand, Secret};

fn field() -> Field {
    Field::new(2305843009213693951, 40, 64).unwrap()
}

fn secret_bits(bits: &[u128], f: &Field) -> Vec<Secret> {
    bits.iter().map(|b| Secret::new(*b, f)).collect()
}

fn secret_operands(bits: &[u128], f: &Field) -> Vec<Operand> {
    bits.iter().map(|b| Operand::Secret(Secret::new(*b, f))).collect()
}

fn operands_le(value: u128, k: usize, secret: bool, f: &Field) -> Vec<Operand> {
    (0..k)
        .map(|i| {
            let bit = (value >> i) & 1;
            if secret {
                Operand::Secret(Secret::new(bit, f))
            } else {
                Operand::Public(Clear::new(bit, f))
            }
        })
        .collect()
}

#[test]
fn full_compare_of_five_and_six() {
    let f = field();
    let five = secret_operands(&[1, 0, 1], &f);
    let six = secret_operands(&[0, 1, 1], &f);
    assert_eq!(full_compare(&five, &six, &f).unwrap().open().to_u128(), 1);
    assert_eq!(full_compare(&six, &five, &f).unwrap().open().to_u128(), 0);
    assert_eq!(full_compare(&five, &five, &f).unwrap().open().to_u128(), 0);
}

#[test]
fn full_compare_agrees_with_the_integers() {
    let f = field();
    for k in 0..6usize {
        for a in 0..(1u128 << k) {
            for b in 0..(1u128 << k) {
                let r = full_compare(&operands_le(a, k, true, &f), &operands_le(b, k, false, &f), &f)
                    .unwrap();
                assert_eq!(r.open().to_u128(), (a < b) as u128);
            }
        }
    }
}

#[test]
fn full_compare_on_operands_as_wide_as_the_field() {
    let f = Field::new(u128::MAX - 158, 40, 64).unwrap();
    let a: u128 = u128::MAX - 159;
    let b: u128 = u128::MAX - 158;
    let r = full_compare(&operands_le(a, 128, true, &f), &operands_le(b, 128, false, &f), &f);
    assert_eq!(r.unwrap().open().to_u128(), 1);
    let r = full_compare(&operands_le(b, 128, false, &f), &operands_le(a, 128, true, &f), &f);
    assert_eq!(r.unwrap().open().to_u128(), 0);
}

#[test]
fn full_compare_rejects_operands_of_different_lengths() {
    let f = field();
    let r = full_compare(&secret_operands(&[1, 0], &f), &secret_operands(&[1, 0, 1], &f), &f);
    assert!(matches!(r, Err(ProtocolError::LengthMismatch)));
}

#[test]
fn less_than_public_of_four_and_five() {
    let f = field();
    let five = secret_bits(&[1, 0, 1], &f);
    let four = secret_bits(&[0, 0, 1], &f);
    assert_eq!(less_than_public(&Clear::new(4, &f), &five, &f).open().to_u128(), 1);
    assert_eq!(less_than_public(&Clear::new(5, &f), &four, &f).open().to_u128(), 0);
}

#[test]
fn less_than_public_agrees_with_the_integers() {
    let f = field();
    for k in 0..6usize {
        for a in 0..(1u128 << k) {
            for b in 0..(1u128 << k) {
                let bits: Vec<Secret> = (0..k).map(|i| Secret::new((b >> i) & 1, &f)).collect();
                let r = less_than_public(&Clear::new(a, &f), &bits, &f);
                assert_eq!(r.open().to_u128(), (a < b) as u128, "a={} b={} k={}", a, b, k);
            }
        }
    }
}

#[test]
fn less_than_public_counts_only_the_low_bits_of_the_public_number() {
    let f = field();
    let five = secret_bits(&[1, 0, 1], &f);
    // eight has the low three bits of zero
    assert_eq!(less_than_public(&Clear::new(8, &f), &five, &f).open().to_u128(), 1);
    // thirteen has the low three bits of five
    assert_eq!(less_than_public(&Clear::new(13, &f), &five, &f).open().to_u128(), 0);
}

#[test]
fn prefix_or_marks_from_the_first_one_on() {
    let f = field();
    let out = prefix_or(&secret_bits(&[0, 0, 1, 0, 1, 0], &f), &f);
    let opened: Vec<u128> = out.iter().map(|s| s.open().to_u128()).collect();
    assert_eq!(opened, vec![0, 0, 1, 1, 1, 1]);
    assert_eq!(prefix_or(&Vec::new(), &f).len(), 0);
}
