use mpc_bits::error::ProtocolError;
use mpc_bits::field::Field;
use mpc_bits::integer::{ClearInteger, SecretInteger};
use mpc_bits::masking::BitSource;
use mpc_bits::value::{Clear, Secret};

const MERSENNE_61: u128 = 2305843009213693951;

fn tape(seed: u64, n: usize) -> Vec<bool> {
    let mut state = seed;
    (0..n)
        .map(|_| {
            state = state.wrapping_mul(6364136223846793005).wrapping_add(1442695040888963407);
            (state >> 33) & 1 == 1
        })
        .collect()
}

#[test]
fn mod2m_of_thirteen_on_three_bits_is_five() {
    let f = Field::new(MERSENNE_61, 40, 64).unwrap();
    let x = SecretInteger::new(Secret::new(13, &f), 8, &f).unwrap();
    for seed in 0..50u64 {
        let mut source = BitSource::new(tape(seed, 48));
        let y = x.mod2m(3, false, &mut source, &f).unwrap();
        assert_eq!(y.open().rep().to_u128(), 5);
        assert_eq!(y.width(), 8);
        assert_eq!(source.remaining(), 0);
    }
}

#[test]
fn mod2m_holds_for_every_mask_and_every_value() {
    let f = Field::new(1021, 2, 64).unwrap();
    for pattern in 0..64u128 {
        for value in 0..16u128 {
            for m in 0..=4usize {
                let bits: Vec<bool> = (0..6).map(|i| (pattern >> i) & 1 == 1).collect();
                let mut source = BitSource::new(bits);
                let x = SecretInteger::new(Secret::new(value, &f), 4, &f).unwrap();
                let y = x.mod2m(m, false, &mut source, &f).unwrap();
                assert_eq!(y.open().rep().to_u128(), value % (1 << m), "m={}", m);
            }
        }
    }
}

#[test]
fn mod2m_of_a_signed_integer_shifts_first() {
    let f = Field::new(MERSENNE_61, 40, 64).unwrap();
    // minus three on eight bits: raised by 128 it is 125, and 125 mod 8 is 5
    let minus_three = Secret::new(MERSENNE_61 - 3, &f);
    let x = SecretInteger::new(minus_three, 8, &f).unwrap();
    let mut source = BitSource::new(tape(3, 48));
    let y = x.mod2m(3, true, &mut source, &f).unwrap();
    assert_eq!(y.open().rep().to_u128(), 5);
    // thirteen raised by 128 is 141, and 141 mod 256 is 141
    let x = SecretInteger::new(Secret::new(13, &f), 8, &f).unwrap();
    let mut source = BitSource::new(tape(4, 48));
    let y = x.mod2m(8, true, &mut source, &f).unwrap();
    assert_eq!(y.open().rep().to_u128(), 141);
}

#[test]
fn mod2_is_the_parity() {
    let f = Field::new(MERSENNE_61, 40, 64).unwrap();
    for value in [0u128, 1, 12, 13, 255] {
        for seed in 0..8u64 {
            let x = SecretInteger::new(Secret::new(value, &f), 8, &f).unwrap();
            let mut source = BitSource::new(tape(seed, 48));
            let y = x.mod2(false, &mut source, &f).unwrap();
            assert_eq!(y.open().rep().to_u128(), value % 2);
        }
    }
}

#[test]
fn widths_must_leave_room_in_the_field() {
    let f = Field::new(MERSENNE_61, 40, 64).unwrap();
    assert!(SecretInteger::new(Secret::new(1, &f), 60, &f).is_ok());
    assert!(matches!(
        SecretInteger::new(Secret::new(1, &f), 61, &f),
        Err(ProtocolError::WidthExceedsField)
    ));
    assert!(ClearInteger::new(Clear::new(1, &f), 60, &f).is_ok());
    assert!(matches!(
        ClearInteger::new(Clear::new(1, &f), 61, &f),
        Err(ProtocolError::WidthExceedsField)
    ));
    let power = Field::new(1 << 20, 40, 64).unwrap();
    assert!(SecretInteger::new(Secret::new(1, &power), 19, &power).is_ok());
    assert!(SecretInteger::new(Secret::new(1, &power), 20, &power).is_err());
    assert!(power.has_room(19));
    assert!(!power.has_room(20));
    assert!(!f.has_room(usize::MAX));
    let wide = SecretInteger::new(Secret::new(1, &f), 19, &f).unwrap();
    let mut source = BitSource::new(tape(1, 100));
    assert!(matches!(
        wide.mod2m(3, false, &mut source, &f),
        Err(ProtocolError::WidthExceedsField)
    ));
    let empty = SecretInteger::new(Secret::new(0, &f), 0, &f).unwrap();
    assert!(matches!(
        empty.mod2m(0, true, &mut source, &f),
        Err(ProtocolError::WidthExceedsField)
    ));
    assert_eq!(source.remaining(), 100);
}

#[test]
fn mod2m_needs_enough_random_bits() {
    let f = Field::new(MERSENNE_61, 40, 64).unwrap();
    let x = SecretInteger::new(Secret::new(13, &f), 8, &f).unwrap();
    let mut source = BitSource::new(tape(1, 47));
    assert!(matches!(
        x.mod2m(3, false, &mut source, &f),
        Err(ProtocolError::RandomnessExhausted)
    ));
    assert_eq!(source.remaining(), 47);
}

#[test]
fn clear_integers_reduce_in_the_open() {
    let f = Field::new(MERSENNE_61, 40, 64).unwrap();
    let x = ClearInteger::new(Clear::new(13, &f), 8, &f).unwrap();
    assert_eq!(x.mod2m(3, &f).rep().to_u128(), 5);
    assert_eq!(x.mod2m(0, &f).rep().to_u128(), 0);
    assert_eq!(x.mod2m(200, &f).rep().to_u128(), 13);
    assert_eq!(x.mod2(&f).rep().to_u128(), 1);
    assert_eq!(x.width(), 8);
    let s = SecretInteger::from_clear(&x);
    assert_eq!(s.rep().open().to_u128(), 13);
    assert_eq!(s.width(), 8);
}
