use mpc_bits::field::Field;
use mpc_bits::ops::{addition_op, mul_op, or_op, xor_op, AddOp, MulOp, OrOp, XorOp};
use mpc_bits::prefix::{ceil_log_2, fold, scan};
use mpc_bits::value::Secret;

fn field() -> Field {
    Field::new(2305843009213693951, 40, 64).unwrap()
}

fn share_all(values: &[u128], f: &Field) -> Vec<Secret> {
    values.iter().map(|v| Secret::new(*v, f)).collect()
}

fn open_all(values: &[Secret]) -> Vec<u128> {
    values.iter().map(|s| s.open().to_u128()).collect()
}

#[test]
fn scan_of_ones_under_addition_counts_up() {
    let f = field();
    let ones = share_all(&[1, 1, 1, 1, 1], &f);
    let out = scan(&AddOp, &f, &ones);
    assert_eq!(open_all(&out), vec![1, 2, 3, 4, 5]);
}

#[test]
fn scan_keeps_the_length_and_the_order() {
    let f = field();
    for n in 0..40usize {
        let input: Vec<u128> = (0..n as u128).map(|i| 3 * i + 1).collect();
        let out = scan(&AddOp, &f, &share_all(&input, &f));
        assert_eq!(out.len(), n);
        let mut running: u128 = 0;
        for i in 0..n {
            running += input[i];
            assert_eq!(out[i].open().to_u128(), running);
        }
    }
}

#[test]
fn scan_under_or_marks_everything_after_the_first_one() {
    let f = field();
    let bits = share_all(&[0, 0, 1, 0, 1, 0, 0], &f);
    let out = scan(&OrOp, &f, &bits);
    assert_eq!(open_all(&out), vec![0, 0, 1, 1, 1, 1, 1]);
}

#[test]
fn scan_under_xor_gives_running_parities() {
    let f = field();
    let bits = share_all(&[1, 1, 0, 1, 0, 0, 1, 1, 1], &f);
    let out = scan(&XorOp, &f, &bits);
    assert_eq!(open_all(&out), vec![1, 0, 0, 1, 1, 1, 0, 1, 0]);
}

#[test]
fn scan_under_multiplication_gives_running_products() {
    let f = field();
    let input = share_all(&[2, 3, 5, 7, 11, 13], &f);
    let out = scan(&MulOp, &f, &input);
    assert_eq!(open_all(&out), vec![2, 6, 30, 210, 2310, 30030]);
}

#[test]
fn fold_combines_the_whole_sequence() {
    let f = field();
    assert!(fold(&AddOp, &f, &Vec::new()).is_none());
    for n in 1..40usize {
        let input: Vec<u128> = (1..=n as u128).collect();
        let total = fold(&AddOp, &f, &share_all(&input, &f)).unwrap();
        assert_eq!(total.open().to_u128(), (n * (n + 1) / 2) as u128);
    }
    let product = fold(&MulOp, &f, &share_all(&[2, 3, 5, 7], &f)).unwrap();
    assert_eq!(product.open().to_u128(), 210);
    let any = fold(&OrOp, &f, &share_all(&[0, 0, 0, 1, 0], &f)).unwrap();
    assert_eq!(any.open().to_u128(), 1);
    let none = fold(&OrOp, &f, &share_all(&[0, 0, 0], &f)).unwrap();
    assert_eq!(none.open().to_u128(), 0);
}

#[test]
fn basic_operators_on_bits_are_the_logical_ones() {
    let f = field();
    for a in 0..2u128 {
        for b in 0..2u128 {
            let x = Secret::new(a, &f);
            let y = Secret::new(b, &f);
            assert_eq!(or_op(&x, &y, &f).open().to_u128(), a | b);
            assert_eq!(xor_op(&x, &y, &f).open().to_u128(), a ^ b);
            assert_eq!(mul_op(&x, &y, &f).open().to_u128(), a & b);
            assert_eq!(addition_op(&x, &y, &f).open().to_u128(), a + b);
        }
    }
}

#[test]
fn operators_work_in_the_smallest_field() {
    let f = Field::new(2, 40, 64).unwrap();
    let x = Secret::new(1, &f);
    let y = Secret::new(1, &f);
    assert_eq!(or_op(&x, &y, &f).open().to_u128(), 1);
    assert_eq!(xor_op(&x, &y, &f).open().to_u128(), 0);
    assert_eq!(addition_op(&x, &y, &f).open().to_u128(), 0);
}

#[test]
fn logarithm_rounded_up() {
    let expected = [0u32, 0, 1, 2, 2, 3, 3, 3, 3, 4];
    for (n, r) in expected.iter().enumerate() {
        assert_eq!(ceil_log_2(n), *r, "n = {}", n);
    }
    assert_eq!(ceil_log_2(1 << 20), 20);
    assert_eq!(ceil_log_2((1 << 20) + 1), 21);
    assert_eq!(ceil_log_2(usize::MAX), usize::BITS);
    assert_eq!(ceil_log_2(usize::MAX / 2 + 1), usize::BITS - 1);
    assert_eq!(ceil_log_2(usize::MAX / 2 + 2), usize::BITS);
}
