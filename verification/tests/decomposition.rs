use mpc_bits::decompose::{
    decompose_low, decompose_signed, draw_below_modulus, full_decompose, select_bits,
    unmask_narrow, unmask_wide,
};
use mpc_bits::error::ProtocolError;
use mpc_bits::field::Field;
use mpc_bits::masking::BitSource;
use mpc_bits::value::{Clear, Secret};

const MERSENNE_61: u128 = 2305843009213693951;
const MERSENNE_127: u128 = 170141183460469231731687303715884105727;

struct Lcg(u64);

impl Lcg {
    fn next(&mut self) -> u64 {
        self.0 = self.0.wrapping_mul(6364136223846793005).wrapping_add(1442695040888963407);
        self.0 >> 11
    }

    fn bits(&mut self, n: usize) -> Vec<bool> {
        (0..n).map(|_| self.next() & 1 == 1).collect()
    }

    fn below(&mut self, p: u128) -> u128 {
        let wide = ((self.next() as u128) << 80) ^ ((self.next() as u128) << 40) ^ (self.next() as u128);
        wide % p
    }
}

fn opened_le(bits: &[Secret]) -> u128 {
    let mut total: u128 = 0;
    for (i, b) in bits.iter().enumerate() {
        let v = b.open().to_u128();
        assert!(v <= 1);
        total += v << i;
    }
    total
}

fn secret_bits_le(value: u128, k: usize, f: &Field) -> Vec<Secret> {
    (0..k).map(|i| Secret::new((value >> i) & 1, f)).collect()
}

#[test]
fn decompose_low_gives_the_low_bits() {
    let f = Field::new(MERSENNE_61, 40, 64).unwrap();
    let mut rng = Lcg(1);
    for value in [0u128, 1, 13, 200, 255] {
        for m in 0..=8usize {
            let mut source = BitSource::new(rng.bits(48));
            let low = decompose_low(&Secret::new(value, &f), 8, m, 40, &mut source, &f).unwrap();
            assert_eq!(low.len(), m);
            assert_eq!(opened_le(&low), value % (1 << m));
            assert_eq!(source.remaining(), 0);
        }
    }
}

#[test]
fn decompose_low_holds_for_every_mask() {
    let f = Field::new(1021, 2, 64).unwrap();
    // k = 4, kappa = 2: six mask bits, every pattern
    for tape in 0..64u128 {
        for value in 0..16u128 {
            for m in 0..=4usize {
                let bits: Vec<bool> = (0..6).map(|i| (tape >> i) & 1 == 1).collect();
                let mut source = BitSource::new(bits);
                let low = decompose_low(&Secret::new(value, &f), 4, m, 2, &mut source, &f).unwrap();
                assert_eq!(opened_le(&low), value % (1 << m));
            }
        }
    }
}

#[test]
fn decompose_low_checks_widths_and_supply() {
    let f = Field::new(MERSENNE_61, 40, 64).unwrap();
    let a = Secret::new(13, &f);
    let mut source = BitSource::new(vec![false; 100]);
    assert!(matches!(
        decompose_low(&a, 19, 3, 40, &mut source, &f),
        Err(ProtocolError::WidthExceedsField)
    ));
    assert!(matches!(
        decompose_low(&a, 8, 9, 40, &mut source, &f),
        Err(ProtocolError::WidthExceedsField)
    ));
    assert_eq!(source.remaining(), 100);
    let mut short = BitSource::new(vec![false; 47]);
    assert!(matches!(
        decompose_low(&a, 8, 3, 40, &mut short, &f),
        Err(ProtocolError::RandomnessExhausted)
    ));
    assert_eq!(short.remaining(), 47);
}

#[test]
fn select_bits_picks_one_of_two_patterns() {
    let f = Field::new(251, 40, 64).unwrap();
    let on: Vec<Clear> = [1u128, 0, 1, 1].iter().map(|b| Clear::new(*b, &f)).collect();
    let off: Vec<Clear> = [0u128, 0, 1, 0].iter().map(|b| Clear::new(*b, &f)).collect();
    let picked = select_bits(&Secret::new(1, &f), &on, &off, &f);
    assert_eq!(opened_le(&picked), 0b1101);
    let picked = select_bits(&Secret::new(0, &f), &on, &off, &f);
    assert_eq!(opened_le(&picked), 0b0100);
}

#[test]
fn both_ways_of_unmasking_agree_on_small_fields() {
    for p in [2u128, 3, 5, 7, 11, 13, 16, 251] {
        let f = Field::new(p, 40, 64).unwrap();
        let n = f.bit_length();
        for b in 0..p {
            for c in 0..p {
                let mask_bits = secret_bits_le(b, n, &f);
                let narrow = unmask_narrow(&mask_bits, &Clear::new(c, &f), &f);
                let wide = unmask_wide(&mask_bits, &Clear::new(c, &f), &f);
                assert_eq!(narrow.len(), n);
                assert_eq!(wide.len(), n);
                assert_eq!(opened_le(&narrow), (b + c) % p, "narrow p={} b={} c={}", p, b, c);
                assert_eq!(opened_le(&wide), (b + c) % p, "wide p={} b={} c={}", p, b, c);
            }
        }
    }
}

#[test]
fn rejection_sampling_skips_candidates_that_are_too_large() {
    let f = Field::new(5, 40, 4).unwrap();
    // candidates 7, 5, 4: the third is accepted
    let tape = vec![true, true, true, true, false, true, false, false, true, true];
    let mut source = BitSource::new(tape);
    let candidate = draw_below_modulus(&mut source, &f).unwrap();
    assert_eq!(opened_le(&candidate), 4);
    assert_eq!(source.remaining(), 1);
}

#[test]
fn rejection_sampling_stops_at_the_retry_cap() {
    let f = Field::new(5, 40, 4).unwrap();
    let mut source = BitSource::new(vec![true; 30]);
    assert!(matches!(draw_below_modulus(&mut source, &f), Err(ProtocolError::MaskingExhausted)));
    assert_eq!(source.remaining(), 18);
    let none = Field::new(5, 40, 0).unwrap();
    let mut untouched = BitSource::new(vec![false; 30]);
    assert!(matches!(
        draw_below_modulus(&mut untouched, &none),
        Err(ProtocolError::MaskingExhausted)
    ));
    assert_eq!(untouched.remaining(), 30);
}

#[test]
fn rejection_sampling_reports_a_dry_supply() {
    let f = Field::new(5, 40, 4).unwrap();
    let mut source = BitSource::new(vec![true; 8]);
    assert!(matches!(
        draw_below_modulus(&mut source, &f),
        Err(ProtocolError::RandomnessExhausted)
    ));
    assert_eq!(source.remaining(), 2);
}

#[test]
fn full_decompose_round_trip_on_a_small_field() {
    let f = Field::new(251, 40, 64).unwrap();
    let mut rng = Lcg(7);
    for x in 0..251u128 {
        let mut source = BitSource::new(rng.bits(8 * 64));
        let bits = full_decompose(&Secret::new(x, &f), &mut source, &f).unwrap();
        assert_eq!(bits.len(), 8);
        assert_eq!(opened_le(&bits), x);
    }
}

#[test]
fn full_decompose_round_trip_on_the_narrow_path() {
    let f = Field::new(MERSENNE_61, 40, 64).unwrap();
    assert!(f.bit_length() <= 63);
    let mut rng = Lcg(11);
    let mut inputs = vec![0u128, 1, 2, MERSENNE_61 - 1, MERSENNE_61 - 2, MERSENNE_61 / 2];
    for _ in 0..20 {
        inputs.push(rng.below(MERSENNE_61));
    }
    for x in inputs {
        let mut source = BitSource::new(rng.bits(61 * 64));
        let bits = full_decompose(&Secret::new(x, &f), &mut source, &f).unwrap();
        assert_eq!(bits.len(), 61);
        assert_eq!(opened_le(&bits), x);
    }
}

#[test]
fn full_decompose_round_trip_on_the_wide_path() {
    let f = Field::new(MERSENNE_127, 40, 64).unwrap();
    assert!(f.bit_length() > 63);
    let mut rng = Lcg(13);
    let mut inputs = vec![0u128, 1, 2, MERSENNE_127 - 1, MERSENNE_127 - 2, MERSENNE_127 / 2];
    for _ in 0..10 {
        inputs.push(rng.below(MERSENNE_127));
    }
    for x in inputs {
        let mut source = BitSource::new(rng.bits(127 * 64));
        let bits = full_decompose(&Secret::new(x, &f), &mut source, &f).unwrap();
        assert_eq!(bits.len(), 127);
        assert_eq!(opened_le(&bits), x);
    }
}

#[test]
fn full_decompose_with_a_mask_equal_to_the_secret() {
    let f = Field::new(251, 40, 64).unwrap();
    // the candidate is 13 and so is the secret: the opened difference is zero
    let tape: Vec<bool> = (0..8).map(|i| (13u128 >> i) & 1 == 1).collect();
    let mut source = BitSource::new(tape);
    let bits = full_decompose(&Secret::new(13, &f), &mut source, &f).unwrap();
    assert_eq!(opened_le(&bits), 13);
    assert_eq!(source.remaining(), 0);
}

#[test]
fn full_decompose_passes_the_errors_of_sampling_on() {
    let f = Field::new(5, 40, 4).unwrap();
    let a = Secret::new(3, &f);
    let mut ones = BitSource::new(vec![true; 30]);
    assert!(matches!(full_decompose(&a, &mut ones, &f), Err(ProtocolError::MaskingExhausted)));
    let mut short = BitSource::new(vec![true; 5]);
    assert!(matches!(full_decompose(&a, &mut short, &f), Err(ProtocolError::RandomnessExhausted)));
}

#[test]
fn decompose_low_of_a_negative_number_gives_its_twos_complement() {
    let f = Field::new(MERSENNE_61, 40, 64).unwrap();
    let mut rng = Lcg(3);
    // minus three on eight bits is 0b1111_1101
    let minus_three = Secret::new(MERSENNE_61 - 3, &f);
    let mut source = BitSource::new(rng.bits(48));
    let low = decompose_low(&minus_three, 8, 8, 40, &mut source, &f).unwrap();
    assert_eq!(opened_le(&low), 0b1111_1101);
    let mut source = BitSource::new(rng.bits(48));
    let low = decompose_low(&minus_three, 8, 3, 40, &mut source, &f).unwrap();
    assert_eq!(opened_le(&low), 0b101);
    // minus 256 is the least number that eight bits and a sign allow
    let least = Secret::new(MERSENNE_61 - 256, &f);
    let mut source = BitSource::new(rng.bits(48));
    let low = decompose_low(&least, 8, 8, 40, &mut source, &f).unwrap();
    assert_eq!(opened_le(&low), 0);
}

#[test]
fn full_decompose_round_trip_where_the_modulus_fills_the_machine_word() {
    let p: u128 = u128::MAX - 158;
    let f = Field::new(p, 40, 64).unwrap();
    assert_eq!(f.bit_length(), 128);
    let mut rng = Lcg(17);
    for x in [0u128, 1, p - 1, p - 2, p / 2, 1 << 127, (1 << 127) - 1] {
        let mut source = BitSource::new(rng.bits(128 * 64));
        let bits = full_decompose(&Secret::new(x, &f), &mut source, &f).unwrap();
        assert_eq!(bits.len(), 128);
        assert_eq!(opened_le(&bits), x);
    }
}

#[test]
fn full_decompose_uses_exactly_the_candidates_it_looks_at() {
    let f = Field::new(5, 40, 4).unwrap();
    // candidates 7 and 6 are rejected, 2 is accepted
    let tape = vec![true, true, true, false, true, true, false, true, false, true, true];
    let mut source = BitSource::new(tape);
    let bits = full_decompose(&Secret::new(4, &f), &mut source, &f).unwrap();
    assert_eq!(opened_le(&bits), 4);
    assert_eq!(source.remaining(), 2);
}

#[test]
fn decompose_signed_raises_by_half_the_range() {
    let f = Field::new(MERSENNE_61, 40, 64).unwrap();
    let mut rng = Lcg(5);
    for v in [-128i64, -3, -1, 0, 1, 13, 127] {
        let mut source = BitSource::new(rng.bits(48));
        let bits = decompose_signed(&Secret::new_signed(v, &f), 8, 40, &mut source, &f).unwrap();
        assert_eq!(bits.len(), 8);
        assert_eq!(opened_le(&bits) as i64, v + 128);
        assert_eq!(source.remaining(), 0);
    }
}

#[test]
fn decompose_signed_checks_widths_and_supply() {
    let f = Field::new(MERSENNE_61, 40, 64).unwrap();
    let a = Secret::new(1, &f);
    let mut source = BitSource::new(vec![false; 100]);
    assert!(matches!(
        decompose_signed(&a, 0, 40, &mut source, &f),
        Err(ProtocolError::WidthExceedsField)
    ));
    assert!(matches!(
        decompose_signed(&a, 19, 40, &mut source, &f),
        Err(ProtocolError::WidthExceedsField)
    ));
    assert_eq!(source.remaining(), 100);
    let mut short = BitSource::new(vec![false; 47]);
    assert!(matches!(
        decompose_signed(&a, 8, 40, &mut short, &f),
        Err(ProtocolError::RandomnessExhausted)
    ));
    assert_eq!(short.remaining(), 47);
}
