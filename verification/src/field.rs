//! The field of a computation: its public configuration and the arithmetic
//! modulo its modulus on machine integers.

use crate::arith::{
    be_value, bit_values, lemma_be_prefix_le, lemma_congruent_rem, lemma_congruent_sum,
};
use vstd::arithmetic::div_mod::*;
use vstd::arithmetic::power2::*;
use vstd::prelude::*;

verus! {

/// The statistical security parameter that is used where nothing else is
/// agreed on.
pub const DEFAULT_KAPPA: u64 = 40;

/// Sum of two field elements.
pub open spec fn sum_mod(p: nat, a: nat, b: nat) -> nat {
    (a + b) % p
}

/// Difference of two field elements.
pub open spec fn diff_mod(p: nat, a: nat, b: nat) -> nat {
    ((a - b) % (p as int)) as nat
}

/// Product of two field elements.
pub open spec fn prod_mod(p: nat, a: nat, b: nat) -> nat {
    (a * b) % p
}

/// The integer of least absolute value that the field element `x` stands for:
/// elements in the upper half of the field stand for negative integers.
pub open spec fn centered(p: nat, x: nat) -> int {
    if 2 * x < p {
        x as int
    } else {
        x - p
    }
}

/// Whether the integer `c` is the centred value of some field element: the
/// field has room for it together with its sign.
pub open spec fn is_centered(p: nat, c: int) -> bool {
    -p <= 2 * c < p
}

/// The field element that stands for the integer `c`.
pub open spec fn element_of(p: nat, c: int) -> nat {
    (c % (p as int)) as nat
}

/// The arithmetic shift by one position to the right, on the integer that a
/// field element stands for: the element of the lower half of that integer.
pub open spec fn halved_value(p: nat, x: nat) -> nat {
    element_of(p, centered(p, x) / 2)
}

/// An integer that the field has room for is the centred value of its
/// element.
pub proof fn lemma_centered_element(p: nat, c: int)
    requires
        p >= 2,
        is_centered(p, c),
    ensures
        centered(p, element_of(p, c)) == c,
        element_of(p, c) < p,
        c >= 0 ==> element_of(p, c) == c,
        c < 0 ==> element_of(p, c) == c + p,
{
    if c >= 0 {
        lemma_small_mod(c as nat, p);
    } else {
        lemma_fundamental_div_mod_converse_mod(c, p as int, -1, c + p);
    }
}

/// Raising a field element by `shift` raises the integer it stands for by
/// `shift`, where the field has room for the raised integer.
pub proof fn lemma_raised(p: nat, v: nat, shift: nat)
    requires
        p >= 2,
        v < p,
        is_centered(p, centered(p, v) + shift),
    ensures
        centered(p, sum_mod(p, v, shift % p)) == centered(p, v) + shift,
{
    let m = p as int;
    let c = centered(p, v);
    let s = c + shift;
    lemma_mod_sub_multiples_vanish(v as int, m);
    lemma_congruent_rem(shift as int, m);
    lemma_congruent_sum(v as int, c, (shift % p) as int, shift as int, m);
    lemma_centered_element(p, s);
}

/// `(a + b) mod p` on reduced operands, without leaving 128 bits.
pub fn add_mod(a: u128, b: u128, p: u128) -> (r: u128)
    requires
        a < p,
        b < p,
    ensures
        r == sum_mod(p as nat, a as nat, b as nat),
        r < p,
{
    let gap: u128 = p - b;
    if a >= gap {
        let r: u128 = a - gap;
        proof {
            lemma_fundamental_div_mod_converse_mod(a + b, p as int, 1, r as int);
        }
        r
    } else {
        let r: u128 = a + b;
        proof {
            lemma_small_mod(r as nat, p as nat);
        }
        r
    }
}

/// `(a - b) mod p` on reduced operands.
pub fn sub_mod(a: u128, b: u128, p: u128) -> (r: u128)
    requires
        a < p,
        b < p,
    ensures
        r == diff_mod(p as nat, a as nat, b as nat),
        r < p,
{
    if a >= b {
        let r: u128 = a - b;
        proof {
            lemma_small_mod(r as nat, p as nat);
        }
        r
    } else {
        let r: u128 = p - b + a;
        proof {
            lemma_fundamental_div_mod_converse_mod(a - b, p as int, -1, r as int);
        }
        r
    }
}

/// `(a * b) mod p` on reduced operands, by doubling and adding so that no
/// intermediate value leaves 128 bits.
pub fn mul_mod(a: u128, b: u128, p: u128) -> (r: u128)
    requires
        a < p,
        b < p,
    ensures
        r == prod_mod(p as nat, a as nat, b as nat),
        r < p,
{
    let mut acc: u128 = 0;
    let mut addend: u128 = a;
    let mut rest: u128 = b;
    while rest > 0
        invariant
            acc < p,
            addend < p,
            a < p,
            (acc + addend * rest) % (p as int) == (a * b) % (p as int),
        decreases rest,
    {
        let ghost acc0: int = acc as int;
        let ghost addend0: int = addend as int;
        let ghost rest0: int = rest as int;
        if rest % 2 == 1 {
            acc = add_mod(acc, addend, p);
        }
        addend = add_mod(addend, addend, p);
        rest = rest / 2;
        proof {
            let m: int = p as int;
            let bit: int = rest0 % 2;
            let q: int = rest0 / 2;
            assert(rest0 == 2 * q + bit);
            assert(acc as int == (acc0 + bit * addend0) % m) by {
                if bit == 0 {
                    assert(bit * addend0 == 0) by (nonlinear_arith)
                        requires
                            bit == 0,
                    ;
                    lemma_small_mod(acc0 as nat, m as nat);
                } else {
                    assert(bit * addend0 == addend0) by (nonlinear_arith)
                        requires
                            bit == 1,
                    ;
                }
            }
            assert(addend as int == (2 * addend0) % m);
            // acc + addend * q  is congruent to  acc0 + bit*addend0 + 2*addend0*q
            lemma_mul_mod_noop_left(2 * addend0, q, m);
            lemma_add_mod_noop(acc0 + bit * addend0, (2 * addend0) * q, m);
            lemma_add_mod_noop(acc as int, (addend as int) * q, m);
            lemma_mod_twice(acc0 + bit * addend0, m);
            lemma_mod_twice((2 * addend0) * q, m);
            assert(acc0 + bit * addend0 + (2 * addend0) * q == acc0 + addend0 * rest0)
                by (nonlinear_arith)
                requires
                    rest0 == 2 * q + bit,
            ;
        }
    }
    proof {
        lemma_small_mod(acc as nat, p as nat);
    }
    acc
}

/// Two to the power 128 as a literal.
pub proof fn lemma_pow2_128()
    ensures
        pow2(128) == 0x1_0000_0000_0000_0000_0000_0000_0000_0000,
        pow2(64) == 0x1_0000_0000_0000_0000,
{
    lemma2_to64();
    lemma_pow2_adds(64, 64);
}

/// Two to the power `n` as a machine integer.
pub fn two_power(n: usize) -> (r: u128)
    requires
        n < 128,
    ensures
        r == pow2(n as nat),
{
    let mut r: u128 = 1;
    let mut i: usize = 0;
    proof {
        lemma2_to64();
    }
    while i < n
        invariant
            i <= n,
            n < 128,
            r == pow2(i as nat),
        decreases n - i,
    {
        proof {
            lemma_pow2_unfold((i + 1) as nat);
            lemma_pow2_128();
            if i + 1 < 128 {
                lemma_pow2_strictly_increases((i + 1) as nat, 128);
            }
        }
        r = r * 2;
        i = i + 1;
    }
    r
}

/// The public parameters that every participant agrees on before a computation
/// starts, as mathematical values.
pub struct FieldParams {
    /// The modulus of the field.
    pub modulus: nat,
    /// The number of bits of the modulus.
    pub bit_length: nat,
    /// The statistical security parameter: the number of slack bits of every
    /// mask.
    pub kappa: nat,
    /// How many candidate masks a full decomposition may draw.
    pub retry_cap: nat,
}

/// The public configuration of a computation: the modulus, the statistical
/// security parameter and the retry cap of rejection sampling. It is set up once
/// and only read afterwards.
pub struct Field {
    modulus: u128,
    bit_length: usize,
    kappa: u64,
    retry_cap: u64,
}

impl View for Field {
    type V = FieldParams;

    closed spec fn view(&self) -> FieldParams {
        FieldParams {
            modulus: self.modulus as nat,
            bit_length: self.bit_length as nat,
            kappa: self.kappa as nat,
            retry_cap: self.retry_cap as nat,
        }
    }
}

impl Field {
    /// The modulus is at least two and `bit_length` is the length of its
    /// binary representation.
    pub open spec fn wf(&self) -> bool {
        &&& 2 <= self@.modulus
        &&& 2 <= self@.bit_length <= 128
        &&& pow2((self@.bit_length - 1) as nat) <= self@.modulus < pow2(self@.bit_length)
    }

    /// Whether `v` is a reduced element of this field.
    pub open spec fn holds(&self, v: nat) -> bool {
        v < self@.modulus
    }

    /// Whether the field has room for every integer of `width` bits, that is
    /// whether two to the power `width` is less than the modulus.
    pub open spec fn fits(&self, width: nat) -> bool {
        pow2(width) < self@.modulus
    }

    /// A configuration for the given modulus, or `None` where the modulus is
    /// below two.
    pub fn new(modulus: u128, kappa: u64, retry_cap: u64) -> (r: Option<Field>)
        ensures
            modulus < 2 <==> r is None,
            r matches Some(f) ==> f.wf() && f@.modulus == modulus && f@.kappa == kappa
                && f@.retry_cap == retry_cap,
    {
        if modulus < 2 {
            return None;
        }
        let mut bit_length: usize = 0;
        let mut rest: u128 = modulus;
        proof {
            lemma2_to64();
        }
        while rest > 0
            invariant
                bit_length <= 128,
                rest == modulus as nat / pow2(bit_length as nat),
                bit_length > 0 ==> pow2((bit_length - 1) as nat) <= modulus,
            decreases rest,
        {
            proof {
                let n: nat = bit_length as nat;
                lemma_pow2_pos(n);
                lemma_pow2_unfold(n + 1);
                lemma_div_denominator(modulus as int, pow2(n) as int, 2);
                lemma_fundamental_div_mod(modulus as int, pow2(n) as int);
                assert(pow2(n) * rest <= modulus) by (nonlinear_arith)
                    requires
                        modulus == pow2(n) * (modulus as int / pow2(n) as int) + (modulus as int
                            % pow2(n) as int),
                        rest == modulus as int / pow2(n) as int,
                        0 <= modulus as int % pow2(n) as int,
                ;
                assert(pow2(n) <= pow2(n) * rest) by (nonlinear_arith)
                    requires
                        rest >= 1,
                        pow2(n) > 0,
                ;
                if n >= 128 {
                    lemma_pow2_128();
                    if n > 128 {
                        lemma_pow2_strictly_increases(128, n);
                    }
                }
            }
            rest = rest / 2;
            bit_length = bit_length + 1;
        }
        proof {
            let n: nat = bit_length as nat;
            lemma_pow2_pos(n);
            lemma_fundamental_div_mod(modulus as int, pow2(n) as int);
            lemma_mod_bound(modulus as int, pow2(n) as int);
            assert(pow2(n) * 0 == 0);
            if n < 2 {
                assert(pow2(n) <= 2);
            }
        }
        Some(Field { modulus, bit_length, kappa, retry_cap })
    }

    /// A configuration for the modulus that is given by its bits, most
    /// significant bit first; leading zeros are allowed. `None` where the modulus
    /// is below two or does not fit 128 bits.
    pub fn from_modulus_bits(bits: &Vec<bool>, kappa: u64, retry_cap: u64) -> (r: Option<Field>)
        ensures
            be_value(bit_values(bits@)) < 2 || be_value(bit_values(bits@)) >= pow2(128) <==> r
                is None,
            r matches Some(f) ==> f.wf() && f@.modulus == be_value(bit_values(bits@)) && f@.kappa
                == kappa && f@.retry_cap == retry_cap,
    {
        let n: usize = bits.len();
        let ghost vals = bit_values(bits@);
        let mut acc: u128 = 0;
        let mut i: usize = 0;
        proof {
            lemma_pow2_128();
            assert(vals.subrange(0, 0).len() == 0);
        }
        while i < n
            invariant
                n == bits.len(),
                i <= n,
                vals == bit_values(bits@),
                acc == be_value(vals.subrange(0, i as int)),
            decreases n - i,
        {
            let bit: u128 = if bits[i] { 1 } else { 0 };
            proof {
                let next = vals.subrange(0, i + 1);
                assert(next.drop_last() =~= vals.subrange(0, i as int));
                assert(next.last() == bit);
                assert(be_value(next) == 2 * acc + bit);
                lemma_be_prefix_le(vals, i + 1);
                lemma_pow2_128();
            }
            if acc > (u128::MAX - bit) / 2 {
                return None;
            }
            acc = 2 * acc + bit;
            i = i + 1;
        }
        assert(vals.subrange(0, n as int) =~= vals);
        Field::new(acc, kappa, retry_cap)
    }

    /// Decides `fits`.
    pub fn has_room(&self, width: usize) -> (b: bool)
        requires
            self.wf(),
        ensures
            b == self.fits(width as nat),
    {
        if width >= 128 {
            proof {
                lemma_pow2_128();
                if width > 128 {
                    lemma_pow2_strictly_increases(128, width as nat);
                }
                lemma_pow2_strictly_increases(self@.bit_length, 129);
                lemma_pow2_unfold(129);
            }
            false
        } else {
            two_power(width) < self.modulus
        }
    }

    /// The modulus.
    pub fn modulus(&self) -> (m: u128)
        ensures
            m == self@.modulus,
    {
        self.modulus
    }

    /// The number of bits of the modulus.
    pub fn bit_length(&self) -> (n: usize)
        ensures
            n == self@.bit_length,
    {
        self.bit_length
    }

    /// The statistical security parameter.
    pub fn kappa(&self) -> (k: u64)
        ensures
            k == self@.kappa,
    {
        self.kappa
    }

    /// The retry cap of rejection sampling.
    pub fn retry_cap(&self) -> (c: u64)
        ensures
            c == self@.retry_cap,
    {
        self.retry_cap
    }
}

} // verus!
