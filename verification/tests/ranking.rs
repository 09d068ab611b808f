use mpc_bits::decompose::{decompose_low, decompose_signed};
use mpc_bits::error::ProtocolError;
use mpc_bits::field::Field;
use mpc_bits::masking::BitSource;
use mpc_bits::ranking::{
    compare_signed,
    have_same_widths, compare_sign, equal_opened, rescale, row_status, secretly_rank, RowStatus,
};
use mpc_bits::value::Secret;

const MERSENNE_61: u128 = 2305843009213693951;

fn field() -> Field {
    Field::new(MERSENNE_61, 40, 64).unwrap()
}

fn secret_bits_le(value: u128, k: usize, f: &Field) -> Vec<Secret> {
    (0..k).map(|i| Secret::new((value >> i) & 1, f)).collect()
}

fn opened(values: &[Secret]) -> Vec<u128> {
    values.iter().map(|s| s.open().to_u128()).collect()
}

fn tape(seed: u64, n: usize) -> Vec<bool> {
    let mut state = seed;
    (0..n)
        .map(|_| {
            state = state.wrapping_mul(6364136223846793005).wrapping_add(1442695040888963407);
            (state >> 33) & 1 == 1
        })
        .collect()
}

#[test]
fn ranks_of_eleven_thirty_three_and_twenty_two() {
    let f = field();
    let mut source = BitSource::new(tape(5, 3 * 56));
    let mut values: Vec<Vec<Secret>> = Vec::new();
    for v in [11u128, 33, 22] {
        let shared = Secret::new(v, &f);
        values.push(decompose_low(&shared, 16, 16, 40, &mut source, &f).unwrap());
    }
    let ascending = secretly_rank(&values, false, &f).unwrap();
    assert_eq!(opened(&ascending), vec![1, 3, 2]);
    let descending = secretly_rank(&values, true, &f).unwrap();
    assert_eq!(opened(&descending), vec![3, 1, 2]);
}

#[test]
fn ranks_agree_with_a_stable_sort() {
    let f = field();
    let inputs: Vec<Vec<u128>> = vec![
        vec![],
        vec![7],
        vec![5, 5],
        vec![9, 1],
        vec![3, 1, 2, 3, 0, 1],
        vec![8, 8, 8, 8],
        vec![0, 15, 7, 7, 15, 0, 3],
    ];
    for input in inputs {
        let values: Vec<Vec<Secret>> = input.iter().map(|v| secret_bits_le(*v, 4, &f)).collect();
        let n = input.len();
        let mut before = vec![0u128; n];
        for i in 0..n {
            for j in 0..n {
                if (j < i && input[j] <= input[i]) || (j > i && input[j] < input[i]) {
                    before[i] += 1;
                }
            }
        }
        let ascending = secretly_rank(&values, false, &f).unwrap();
        let descending = secretly_rank(&values, true, &f).unwrap();
        for i in 0..n {
            assert_eq!(ascending[i].open().to_u128(), before[i] + 1);
            assert_eq!(descending[i].open().to_u128(), n as u128 - before[i]);
        }
    }
}

#[test]
fn ranking_rejects_numbers_of_different_widths() {
    let f = field();
    let values = vec![secret_bits_le(3, 4, &f), secret_bits_le(3, 5, &f)];
    assert!(!have_same_widths(&values));
    assert!(matches!(secretly_rank(&values, false, &f), Err(ProtocolError::LengthMismatch)));
    assert!(have_same_widths(&Vec::new()));
}

#[test]
fn compare_sign_is_minus_one_or_plus_one() {
    let f = field();
    let three = secret_bits_le(3, 4, &f);
    let nine = secret_bits_le(9, 4, &f);
    assert_eq!(compare_sign(&three, &nine, &f).unwrap().open().to_u128(), MERSENNE_61 - 1);
    assert_eq!(compare_sign(&three, &three, &f).unwrap().open().to_u128(), MERSENNE_61 - 1);
    assert_eq!(compare_sign(&nine, &three, &f).unwrap().open().to_u128(), 1);
    assert!(matches!(
        compare_sign(&three, &secret_bits_le(3, 3, &f), &f),
        Err(ProtocolError::LengthMismatch)
    ));
}

#[test]
fn rescale_turns_scores_into_ranks() {
    let f = field();
    let scores = vec![
        Secret::new(MERSENNE_61 - 2, &f),
        Secret::new(0, &f),
        Secret::new(2, &f),
    ];
    assert_eq!(opened(&rescale(&scores, &f)), vec![1, 2, 3]);
    assert_eq!(rescale(&Vec::new(), &f).len(), 0);
}

#[test]
fn equality_is_opened_and_nothing_else() {
    let f = field();
    let a = secret_bits_le(202102, 18, &f);
    let b = secret_bits_le(202102, 18, &f);
    let c = secret_bits_le(202103, 18, &f);
    assert_eq!(equal_opened(&a, &b, &f), Ok(true));
    assert_eq!(equal_opened(&a, &c, &f), Ok(false));
    assert_eq!(equal_opened(&c, &a, &f), Ok(false));
    assert_eq!(
        equal_opened(&a, &secret_bits_le(1, 3, &f), &f),
        Err(ProtocolError::LengthMismatch)
    );
}

#[test]
fn rows_are_complete_ended_or_broken() {
    assert_eq!(row_status(4, 4), RowStatus::Complete);
    assert_eq!(row_status(0, 4), RowStatus::EndOfData);
    assert_eq!(row_status(2, 4), RowStatus::Incomplete);
    assert_eq!(row_status(0, 0), RowStatus::Complete);
}

#[test]
fn rescale_drops_the_low_bit_before_it_halves() {
    let f = field();
    let fives = vec![Secret::new(5, &f), Secret::new(5, &f), Secret::new(5, &f)];
    assert_eq!(opened(&rescale(&fives, &f)), vec![4, 4, 4]);
    assert_eq!(opened(&rescale(&vec![Secret::new(13, &f)], &f)), vec![7]);
    assert_eq!(opened(&rescale(&vec![Secret::new(1, &f)], &f)), vec![1]);
    assert_eq!(opened(&rescale(&vec![Secret::new(0, &f), Secret::new(1, &f)], &f)), vec![1, 2]);
}

#[test]
fn rescale_keeps_the_order_of_the_scores() {
    let f = field();
    let scores: Vec<i64> = (-6..=6).collect();
    let shared: Vec<Secret> = scores.iter().map(|s| Secret::new_signed(*s, &f)).collect();
    let out = rescale(&shared, &f);
    let n = scores.len() as i64;
    for i in 0..scores.len() {
        let raised = scores[i] + n - 1;
        let result = out[i].open().to_signed(&f) as i64;
        assert_eq!(result, raised.div_euclid(2) + 1);
        assert_eq!(raised - 2 * (result - 1), raised.rem_euclid(2));
        if i > 0 {
            assert!(out[i - 1].open().to_signed(&f) <= out[i].open().to_signed(&f));
        }
    }
}

#[test]
fn rescale_of_a_negative_raised_score_rounds_down() {
    let f = field();
    // minus three alone: the lower half of minus three is minus two
    let out = rescale(&vec![Secret::new_signed(-3, &f)], &f);
    assert_eq!(out[0].open().to_signed(&f), -1);
}

#[test]
fn signed_numbers_rank_below_the_positive_ones() {
    let f = field();
    let mut source = BitSource::new(tape(9, 4 * 56));
    let mut values: Vec<Vec<Secret>> = Vec::new();
    for v in [11i64, -33, 22, -1] {
        let shared = Secret::new_signed(v, &f);
        values.push(decompose_signed(&shared, 16, 40, &mut source, &f).unwrap());
    }
    let ascending = secretly_rank(&values, false, &f).unwrap();
    assert_eq!(opened(&ascending), vec![3, 1, 4, 2]);
    let descending = secretly_rank(&values, true, &f).unwrap();
    assert_eq!(opened(&descending), vec![2, 4, 1, 3]);
    // minus one is at most eleven, and eleven is not at most minus one
    assert_eq!(
        compare_sign(&values[3], &values[0], &f).unwrap().open().to_signed(&f),
        -1
    );
    assert_eq!(compare_sign(&values[0], &values[3], &f).unwrap().open().to_signed(&f), 1);
    assert_eq!(compare_sign(&values[0], &values[0], &f).unwrap().open().to_signed(&f), -1);
}

#[test]
fn ranks_hold_in_a_field_of_even_modulus() {
    let f = Field::new(1 << 20, 40, 64).unwrap();
    let values: Vec<Vec<Secret>> =
        [11u128, 33, 22].iter().map(|v| secret_bits_le(*v, 6, &f)).collect();
    assert_eq!(opened(&secretly_rank(&values, false, &f).unwrap()), vec![1, 3, 2]);
}

#[test]
fn compare_signed_orders_negative_numbers_below_positive_ones() {
    let f = field();
    let cases: [(i64, i64, i128); 7] = [
        (-5, 3, -1),
        (3, -5, 1),
        (-5, -5, -1),
        (-7, -5, -1),
        (-5, -7, 1),
        (-128, 127, -1),
        (127, -128, 1),
    ];
    for (a, b, sign) in cases {
        let mut source = BitSource::new(tape(a as u64 ^ 77, 96));
        let s = compare_signed(
            &Secret::new_signed(a, &f),
            &Secret::new_signed(b, &f),
            8,
            40,
            &mut source,
            &f,
        )
        .unwrap();
        assert_eq!(s.open().to_signed(&f), sign, "a = {}, b = {}", a, b);
        assert_eq!(source.remaining(), 0);
    }
}

#[test]
fn compare_signed_checks_widths_and_supply() {
    let f = field();
    let a = Secret::new(1, &f);
    let mut source = BitSource::new(tape(1, 95));
    assert!(matches!(
        compare_signed(&a, &a, 8, 40, &mut source, &f),
        Err(ProtocolError::RandomnessExhausted)
    ));
    assert!(matches!(
        compare_signed(&a, &a, 0, 40, &mut source, &f),
        Err(ProtocolError::WidthExceedsField)
    ));
    assert!(matches!(
        compare_signed(&a, &a, 19, 40, &mut source, &f),
        Err(ProtocolError::WidthExceedsField)
    ));
    assert_eq!(source.remaining(), 95);
}
