use mpc_bits::error::ProtocolError;
use mpc_bits::field::Field;
use mpc_bits::masking::{
    has_room_for_mask, mask, mask_length, random_int, sum_bits, BitSource,
};
use mpc_bits::value::Secret;

fn field() -> Field {
    Field::new(2305843009213693951, 40, 64).unwrap()
}

fn bits_of(value: u128, n: usize) -> Vec<bool> {
    (0..n).map(|i| (value >> i) & 1 == 1).collect()
}

#[test]
fn source_hands_out_bits_in_order_and_once() {
    let f = field();
    let mut source = BitSource::new(vec![true, false, true]);
    assert_eq!(source.remaining(), 3);
    assert_eq!(source.next_bit(&f).unwrap().open().to_u128(), 1);
    assert_eq!(source.next_bit(&f).unwrap().open().to_u128(), 0);
    assert_eq!(source.remaining(), 1);
    assert_eq!(source.next_bit(&f).unwrap().open().to_u128(), 1);
    assert!(source.next_bit(&f).is_none());
    assert_eq!(source.remaining(), 0);
}

#[test]
fn draw_takes_nothing_when_too_few_bits_are_left() {
    let f = field();
    let mut source = BitSource::new(vec![true, true]);
    assert!(matches!(source.draw(3, &f), Err(ProtocolError::RandomnessExhausted)));
    assert_eq!(source.remaining(), 2);
    let drawn = source.draw(2, &f).unwrap();
    assert_eq!(drawn.len(), 2);
    assert_eq!(source.remaining(), 0);
    assert_eq!(source.draw(0, &f).unwrap().len(), 0);
}

#[test]
fn sum_bits_weighs_by_powers_of_two() {
    let f = field();
    let bits: Vec<Secret> = [1u128, 0, 1, 1].iter().map(|b| Secret::new(*b, &f)).collect();
    assert_eq!(sum_bits(&bits, &f).open().to_u128(), 13);
    assert_eq!(sum_bits(&Vec::new(), &f).open().to_u128(), 0);
}

#[test]
fn sum_bits_reduces_into_the_field() {
    let f = Field::new(5, 40, 64).unwrap();
    let bits: Vec<Secret> = [1u128, 1, 1].iter().map(|b| Secret::new(*b, &f)).collect();
    assert_eq!(sum_bits(&bits, &f).open().to_u128(), 2);
}

#[test]
fn random_int_is_the_number_of_the_next_bits() {
    let f = field();
    let mut source = BitSource::new(bits_of(0b1011_0110, 8));
    assert_eq!(random_int(5, &mut source, &f).unwrap().open().to_u128(), 0b1_0110);
    assert_eq!(source.remaining(), 3);
    assert!(matches!(random_int(4, &mut source, &f), Err(ProtocolError::RandomnessExhausted)));
    assert_eq!(source.remaining(), 3);
}

#[test]
fn mask_draws_low_bits_first_and_then_the_high_part() {
    let f = field();
    // k = 8, m = 3, kappa = 40: 48 bits
    let tape: u128 = 0b101 | (0x1234_5678_9abu128 << 3);
    let mut source = BitSource::new(bits_of(tape, 60));
    let mk = mask(8, 3, 40, &mut source, &f).unwrap();
    assert_eq!(mk.bits.len(), 3);
    assert_eq!(mk.bottom.open().to_u128(), 0b101);
    assert_eq!(mk.top.open().to_u128(), (tape >> 3) & ((1u128 << 45) - 1));
    let opened: Vec<u128> = mk.bits.iter().map(|b| b.open().to_u128()).collect();
    assert_eq!(opened, vec![1, 0, 1]);
    assert_eq!(source.remaining(), 12);
}

#[test]
fn mask_needs_room_in_the_field() {
    let f = field();
    assert!(has_room_for_mask(&f, 18, 18, 40));
    assert!(!has_room_for_mask(&f, 19, 19, 40));
    assert!(!has_room_for_mask(&f, 8, 9, 40));
    assert!(!has_room_for_mask(&f, usize::MAX, 0, 40));
    assert!(!has_room_for_mask(&f, 8, 3, u64::MAX));
    let mut source = BitSource::new(vec![false; 100]);
    assert!(matches!(mask(19, 3, 40, &mut source, &f), Err(ProtocolError::WidthExceedsField)));
    assert!(matches!(mask(8, 9, 40, &mut source, &f), Err(ProtocolError::WidthExceedsField)));
    assert_eq!(source.remaining(), 100);
}

#[test]
fn mask_needs_enough_random_bits() {
    let f = field();
    let mut source = BitSource::new(vec![true; 47]);
    assert!(matches!(mask(8, 3, 40, &mut source, &f), Err(ProtocolError::RandomnessExhausted)));
    assert_eq!(source.remaining(), 47);
}

#[test]
fn a_mask_takes_as_many_bits_as_the_value_and_the_slack() {
    assert_eq!(mask_length(8, 40), Some(48));
    assert_eq!(mask_length(0, 0), Some(0));
    assert_eq!(mask_length(usize::MAX, 1), None);
    assert_eq!(mask_length(1, u64::MAX), None);
}
