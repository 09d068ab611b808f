use mpc_bits::field::{add_mod, mul_mod, sub_mod, Field};
use mpc_bits::value::{public_operands, secret_operands, truncated, Clear, Operand, Secret};

#[test]
fn modular_sum_wraps_at_the_modulus() {
    assert_eq!(add_mod(5, 4, 7), 2);
    assert_eq!(add_mod(0, 0, 7), 0);
    assert_eq!(add_mod(u128::MAX - 1, u128::MAX - 1, u128::MAX), u128::MAX - 2);
}

#[test]
fn modular_difference_wraps_below_zero() {
    assert_eq!(sub_mod(2, 5, 7), 4);
    assert_eq!(sub_mod(5, 2, 7), 3);
}

#[test]
fn modular_product_matches_wide_arithmetic() {
    assert_eq!(mul_mod(6, 6, 7), 1);
    let p: u128 = (1u128 << 127) - 1;
    assert_eq!(mul_mod(p - 1, p - 1, p), 1);
    assert_eq!(mul_mod(1u128 << 100, 1u128 << 27, p), 1);
}

#[test]
fn field_rejects_moduli_below_two() {
    assert!(Field::new(0, 40, 8).is_none());
    assert!(Field::new(1, 40, 8).is_none());
    let f = Field::new(2, 40, 8).unwrap();
    assert_eq!(f.bit_length(), 2);
    let g = Field::new(251, 40, 8).unwrap();
    assert_eq!(g.bit_length(), 8);
    assert_eq!(g.modulus(), 251);
    assert_eq!(g.kappa(), 40);
    assert_eq!(g.retry_cap(), 8);
}

#[test]
fn opening_a_sharing_gives_the_shared_value() {
    let f = Field::new(251, 40, 8).unwrap();
    let s = Secret::new(300, &f);
    assert_eq!(s.open().to_u128(), 49);
    let c = Clear::new(250, &f);
    assert_eq!(s.plus_public(&c, &f).open().to_u128(), 48);
}

#[test]
fn field_from_the_bits_of_its_modulus() {
    // 251 with two leading zeros
    let bits = vec![false, false, true, true, true, true, true, false, true, true];
    let f = Field::from_modulus_bits(&bits, 40, 8).unwrap();
    assert_eq!(f.modulus(), 251);
    assert_eq!(f.bit_length(), 8);
    assert!(Field::from_modulus_bits(&vec![false, true], 40, 8).is_none());
    assert!(Field::from_modulus_bits(&Vec::new(), 40, 8).is_none());
    let widest = Field::from_modulus_bits(&vec![true; 128], 40, 8).unwrap();
    assert_eq!(widest.modulus(), u128::MAX);
    assert_eq!(widest.bit_length(), 128);
    let mut too_wide = vec![true];
    too_wide.extend(vec![false; 128]);
    assert!(Field::from_modulus_bits(&too_wide, 40, 8).is_none());
}

#[test]
fn clear_arithmetic_is_modular() {
    let f = Field::new(251, 40, 8).unwrap();
    let a = Clear::new(200, &f);
    let b = Clear::new(100, &f);
    assert_eq!(a.plus(&b, &f).to_u128(), 49);
    assert_eq!(b.minus(&a, &f).to_u128(), 151);
    assert_eq!(a.times(&b, &f).to_u128(), 20000 % 251);
    assert!(a.is_in(&f));
    let small = Field::new(7, 40, 8).unwrap();
    assert!(!a.is_in(&small));
}

#[test]
fn secret_arithmetic_is_modular() {
    let f = Field::new(251, 40, 8).unwrap();
    let a = Secret::new(200, &f);
    let b = Secret::new(100, &f);
    let c = Clear::new(100, &f);
    assert_eq!(a.plus(&b, &f).open().to_u128(), 49);
    assert_eq!(b.minus(&a, &f).open().to_u128(), 151);
    assert_eq!(a.times(&b, &f).open().to_u128(), 20000 % 251);
    assert_eq!(a.plus_public(&c, &f).open().to_u128(), 49);
    assert_eq!(a.minus_public(&c, &f).open().to_u128(), 100);
    assert_eq!(a.times_public(&c, &f).open().to_u128(), 20000 % 251);
    assert_eq!(Secret::from_clear(&c).open().to_u128(), 100);
}

#[test]
fn operands_turn_secret_as_soon_as_one_of_them_is() {
    let f = Field::new(251, 40, 8).unwrap();
    let public = Operand::Public(Clear::new(200, &f));
    let secret = Operand::Secret(Secret::new(100, &f));
    let sums = [
        (public.plus(&public, &f), 149u128, false),
        (public.plus(&secret, &f), 49, true),
        (secret.plus(&public, &f), 49, true),
        (secret.plus(&secret, &f), 200, true),
        (public.minus(&public, &f), 0, false),
        (public.minus(&secret, &f), 100, true),
        (secret.minus(&public, &f), 151, true),
        (secret.minus(&secret, &f), 0, true),
        (public.times(&public, &f), 40000 % 251, false),
        (public.times(&secret, &f), 20000 % 251, true),
        (secret.times(&public, &f), 20000 % 251, true),
        (secret.times(&secret, &f), 10000 % 251, true),
    ];
    for (result, value, is_secret) in sums {
        assert_eq!(result.to_secret().open().to_u128(), value);
        assert_eq!(matches!(result, Operand::Secret(_)), is_secret);
    }
}

#[test]
fn vectors_of_operands_keep_their_values() {
    let f = Field::new(251, 40, 8).unwrap();
    let clear = vec![Clear::new(1, &f), Clear::new(2, &f)];
    let secret = vec![Secret::new(3, &f), Secret::new(4, &f), Secret::new(5, &f)];
    let a: Vec<u128> = public_operands(&clear).iter().map(|o| o.to_secret().open().to_u128()).collect();
    let b: Vec<u128> = secret_operands(&secret).iter().map(|o| o.to_secret().open().to_u128()).collect();
    assert_eq!(a, vec![1, 2]);
    assert_eq!(b, vec![3, 4, 5]);
    assert!(public_operands(&clear).iter().all(|o| matches!(o, Operand::Public(_))));
    assert!(secret_operands(&secret).iter().all(|o| matches!(o, Operand::Secret(_))));
    let first: Vec<u128> = truncated(&secret, 2).iter().map(|s| s.open().to_u128()).collect();
    assert_eq!(first, vec![3, 4]);
}

#[test]
fn signed_numbers_are_held_below_the_modulus() {
    let f = Field::new(251, 40, 8).unwrap();
    assert_eq!(Secret::new_signed(-3, &f).open().to_u128(), 248);
    assert_eq!(Secret::new_signed(3, &f).open().to_u128(), 3);
    assert_eq!(Secret::new_signed(0, &f).open().to_u128(), 0);
    assert_eq!(Secret::new_signed(-251, &f).open().to_u128(), 0);
    assert_eq!(Secret::new_signed(-252, &f).open().to_u128(), 250);
    assert_eq!(Secret::new_signed(i64::MIN, &f).open().to_u128(), 251 - ((1u128 << 63) % 251));
    assert_eq!(Secret::new_signed(-3, &f).open().to_signed(&f), -3);
    assert_eq!(Clear::new(125, &f).to_signed(&f), 125);
    assert_eq!(Clear::new(126, &f).to_signed(&f), -125);
    assert_eq!(Clear::new(250, &f).to_signed(&f), -1);
    let widest = Field::new(u128::MAX, 40, 8).unwrap();
    assert_eq!(Clear::new(u128::MAX - 1, &widest).to_signed(&widest), -1);
    assert_eq!(Clear::new(u128::MAX / 2, &widest).to_signed(&widest), i128::MAX);
    assert_eq!(Clear::new(u128::MAX / 2 + 1, &widest).to_signed(&widest), -i128::MAX);
}

#[test]
fn the_shift_to_the_right_rounds_down() {
    let f = Field::new(251, 40, 8).unwrap();
    for v in -125i64..=125 {
        let half = Secret::new_signed(v, &f).shifted_right(&f);
        assert_eq!(half.open().to_signed(&f), v.div_euclid(2) as i128, "v = {}", v);
    }
    let two = Field::new(2, 40, 8).unwrap();
    assert_eq!(Secret::new(0, &two).shifted_right(&two).open().to_u128(), 0);
    // in the field of two elements, one stands for minus one, whose lower half is minus one
    assert_eq!(Secret::new(1, &two).shifted_right(&two).open().to_u128(), 1);
}
