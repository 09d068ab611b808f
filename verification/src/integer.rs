//! Integers of a declared width that are held in the field, public or secret,
//! and their reduction modulo a power of two.

use crate::arith::{
    all_bits, bit_values, le_value, lemma_congruent_rem, lemma_congruent_sum, lemma_le_bound,
};
use crate::codec::modp_two_power;
use crate::compare::less_than_public;
use crate::error::ProtocolError;
use crate::field::{centered, sum_mod, two_power, Field};
use crate::masking::{mask, mask_fits, BitSource, Mask};
use crate::ops::{lemma_bit_operators, xor_op};
use crate::value::{secret_values, Clear, Secret};
use vstd::arithmetic::div_mod::*;
use vstd::arithmetic::mul::*;
use vstd::arithmetic::power2::*;
use vstd::prelude::*;

verus! {

/// A public integer of a declared width in bits, held as a field element.
#[derive(Clone, Copy)]
pub struct ClearInteger {
    x: Clear,
    width: usize,
}

/// A secret integer of a declared width in bits, held as a secret field
/// element. The width is public.
#[derive(Clone, Copy)]
pub struct SecretInteger {
    x: Secret,
    width: usize,
}

/// What an integer of a declared width is, mathematically.
pub struct IntegerView {
    /// The field element that holds the integer.
    pub value: nat,
    /// The declared width in bits.
    pub width: nat,
}

impl View for ClearInteger {
    type V = IntegerView;

    closed spec fn view(&self) -> IntegerView {
        IntegerView { value: self.x@, width: self.width as nat }
    }
}

impl View for SecretInteger {
    type V = IntegerView;

    closed spec fn view(&self) -> IntegerView {
        IntegerView { value: self.x@, width: self.width as nat }
    }
}

impl ClearInteger {
    /// A public integer of `width` bits held in `x`. Two to the `width` must
    /// be less than the modulus.
    pub fn new(x: Clear, width: usize, f: &Field) -> (r: Result<ClearInteger, ProtocolError>)
        requires
            f.wf(),
        ensures
            !f.fits(width as nat) <==> r is Err,
            r matches Err(e) ==> e == ProtocolError::WidthExceedsField,
            r matches Ok(v) ==> v@.value == x@ && v@.width == width,
    {
        if f.has_room(width) {
            Ok(ClearInteger { x, width })
        } else {
            Err(ProtocolError::WidthExceedsField)
        }
    }

    /// The field element that holds the integer.
    pub fn rep(&self) -> (x: Clear)
        ensures
            x@ == self@.value,
    {
        self.x
    }

    /// The declared width in bits.
    pub fn width(&self) -> (w: usize)
        ensures
            w == self@.width,
    {
        self.width
    }

    /// The integer reduced modulo two to the `m`.
    pub fn mod2m(&self, m: usize, f: &Field) -> (r: ClearInteger)
        requires
            f.wf(),
            f.holds(self@.value),
        ensures
            r@.value == self@.value % pow2(m as nat),
            r@.width == self@.width,
            f.holds(r@.value),
    {
        let v: u128 = self.x.to_u128();
        proof {
            lemma_pow2_pos(m as nat);
            lemma_mod_decreases(v as nat, pow2(m as nat));
        }
        let reduced: u128 = if m >= 128 {
            proof {
                crate::field::lemma_pow2_128();
                if m > 128 {
                    lemma_pow2_strictly_increases(128, m as nat);
                }
                lemma_small_mod(v as nat, pow2(m as nat));
            }
            v
        } else {
            v % two_power(m)
        };
        proof {
            lemma_small_mod(reduced as nat, f@.modulus);
        }
        ClearInteger { x: Clear::new(reduced, f), width: self.width }
    }

    /// The integer reduced modulo two.
    pub fn mod2(&self, f: &Field) -> (r: ClearInteger)
        requires
            f.wf(),
            f.holds(self@.value),
        ensures
            r@.value == self@.value % 2,
            r@.width == self@.width,
            f.holds(r@.value),
    {
        proof {
            lemma2_to64();
        }
        self.mod2m(1, f)
    }
}

/// The field element that is masked and opened in a reduction: the integer
/// itself or, for a signed integer, the integer raised by two to the width less
/// one, which makes it nonnegative.
pub open spec fn shifted(f: &Field, x: IntegerView, signed: bool) -> nat {
    if signed {
        sum_mod(f@.modulus, x.value, pow2((x.width - 1) as nat))
    } else {
        x.value
    }
}

/// A signed integer of `width` bits, held as the field element of which it is
/// the centred value, is raised to the nonnegative integer of `width` bits that
/// lies two to the `width - 1` higher.
pub proof fn lemma_shifted_signed(f: &Field, x: IntegerView)
    requires
        f.wf(),
        f.fits(x.width),
        x.width >= 1,
        f.holds(x.value),
        -pow2((x.width - 1) as nat) <= centered(f@.modulus, x.value) < pow2((x.width - 1) as nat),
    ensures
        shifted(f, x, true) == centered(f@.modulus, x.value) + pow2((x.width - 1) as nat),
        shifted(f, x, true) < pow2(x.width),
{
    let p = f@.modulus;
    let half = pow2((x.width - 1) as nat);
    let v = centered(p, x.value);
    lemma_pow2_unfold(x.width);
    if v >= 0 {
        lemma_small_mod((v + half) as nat, p);
    } else {
        lemma_fundamental_div_mod_converse_mod((x.value + half) as int, p as int, 1, v + half);
    }
}

/// Whether a reduction modulo two to the `m` can be run on an integer of the
/// given width: the mask must fit the field, and a signed integer has at least
/// one bit.
pub open spec fn reducible(f: &Field, width: nat, m: nat, signed: bool) -> bool {
    mask_fits(f, width, m, f@.kappa) && (signed ==> width >= 1)
}

/// The masked sum that a reduction opens stays in the field, and what is left
/// of it modulo two to the `m` is the low part of the integer plus the low part
/// of the mask.
pub proof fn lemma_masked_sum(f: &Field, x: nat, k: nat, m: nat, top: nat, bottom: nat)
    requires
        f.wf(),
        mask_fits(f, k, m, f@.kappa),
        x < pow2(k),
        top < pow2((k + f@.kappa - m) as nat),
        bottom < pow2(m),
    ensures
        x + pow2(m) * top + bottom < f@.modulus,
        pow2(m) < f@.modulus,
        (x + pow2(m) * top + bottom) % pow2(m) == (x % pow2(m) + bottom) % pow2(m),
        x % pow2(m) + bottom < 2 * pow2(m),
{
    let n = f@.bit_length;
    let kappa = f@.kappa;
    let d = pow2(m) as int;
    lemma_pow2_pos(m);
    lemma_pow2_adds(m, (k + kappa - m) as nat);
    lemma_pow2_unfold(k + kappa + 1);
    lemma_pow2_unfold(k + kappa + 2);
    if kappa > 0 {
        lemma_pow2_strictly_increases(k, k + kappa);
    }
    lemma_pow2_strictly_increases(m, k + kappa + 2);
    if k + kappa + 2 < n - 1 {
        lemma_pow2_strictly_increases(k + kappa + 2, (n - 1) as nat);
    }
    let hi = pow2((k + kappa - m) as nat) as int;
    assert(d * top <= d * (hi - 1)) by (nonlinear_arith)
        requires
            top <= hi - 1,
            d > 0,
    ;
    assert(d * (hi - 1) == d * hi - d) by (nonlinear_arith);
    lemma_mod_multiples_vanish(top as int, (x + bottom) as int, d);
    lemma_add_mod_noop(x as int, bottom as int, d);
    lemma_mod_bound(x as int, d);
    lemma_small_mod(bottom, pow2(m));
    lemma_mod_twice(x as int, d);
    lemma_add_mod_noop(x as int % d, bottom as int, d);
}

/// The sum of two numbers below `d` is taken modulo `d`: it wrapped around
/// exactly where what is left is below the second number, and adding `d` back
/// in that case gives the first number again.
pub proof fn lemma_unwrap_low(d: nat, y: nat, r: nat, low: nat)
    requires
        d >= 1,
        y < d,
        r < d,
        low == (y + r) % d,
    ensures
        low < d,
        low < r ==> low + d == y + r,
        low >= r ==> low == y + r,
{
    if y + r >= d {
        lemma_fundamental_div_mod_converse_mod((y + r) as int, d as int, 1, y + r - d);
    } else {
        lemma_small_mod(y + r, d);
    }
}

/// Opens a value under a mask and keeps the low `m` bits of the opened
/// number: for a value of `k` bits they are the low bits of the value plus the low
/// part of the mask, modulo two to the `m`.
fn open_low(value: &Secret, mk: &Mask, m: usize, f: &Field, Ghost(k): Ghost<nat>) -> (low: Clear)
    requires
        f.wf(),
        f.holds(value@),
        mask_fits(f, k, m as nat, f@.kappa),
        f.holds(mk.top@),
        f.holds(mk.bottom@),
        mk.top@ < pow2((k + f@.kappa - m) as nat),
        mk.bottom@ < pow2(m as nat),
    ensures
        low@ < pow2(m as nat),
        f.holds(low@),
        pow2(m as nat) < f@.modulus,
        value@ < pow2(k) ==> low@ == (value@ % pow2(m as nat) + mk.bottom@) % pow2(m as nat),
{
    let ghost p = f@.modulus;
    let ghost d = pow2(m as nat);
    let two_m = modp_two_power(m as u64, f);
    let high = mk.top.times_public(&two_m, f);
    let masked = high.plus(value, f).plus(&mk.bottom, f);
    let opened: u128 = masked.open().to_u128();
    proof {
        crate::field::lemma_pow2_128();
        lemma_pow2_strictly_increases(m as nat, 128);
        lemma_pow2_strictly_increases(m as nat, f@.bit_length);
        lemma_pow2_strictly_increases(m as nat, (f@.bit_length - 1) as nat);
        lemma_pow2_pos(m as nat);
    }
    let low: u128 = opened % two_power(m);
    proof {
        lemma_mod_bound(opened as int, d as int);
        lemma_small_mod(low as nat, p);
        lemma_small_mod(d, p);
        if value@ < pow2(k) {
            lemma_masked_sum(f, value@, k, m as nat, mk.top@, mk.bottom@);
            lemma_mul_is_commutative(mk.top@ as int, d as int);
            lemma_small_mod((d * mk.top@) as nat, p);
            lemma_small_mod((d * mk.top@ + value@) as nat, p);
            lemma_small_mod((d * mk.top@ + value@ + mk.bottom@) as nat, p);
            assert(opened == value@ + d * mk.top@ + mk.bottom@);
        }
    }
    Clear::new(low, f)
}

/// Takes the low part of the mask off the low bits of an opened number. The
/// low bits are `y` plus the low part of the mask, modulo two to the `m`; the
/// result is `y`, and it is secret.
fn take_mask_off(low: &Clear, mk: &Mask, m: usize, f: &Field, Ghost(y): Ghost<nat>) -> (answer:
    Secret)
    requires
        f.wf(),
        mk.bits.len() == m,
        all_bits(secret_values(mk.bits@)),
        mk.bottom@ == le_value(secret_values(mk.bits@)),
        f.holds(mk.bottom@),
        mk.bottom@ < pow2(m as nat),
        pow2(m as nat) < f@.modulus,
        low@ < pow2(m as nat),
    ensures
        f.holds(answer@),
        y < pow2(m as nat) && low@ == (y + mk.bottom@) % pow2(m as nat) ==> answer@ == y,
{
    let ghost p = f@.modulus;
    let ghost d = pow2(m as nat);
    let ghost r = mk.bottom@;
    proof {
        lemma_pow2_pos(m as nat);
        lemma_small_mod(d, p);
        lemma_small_mod(low@, d);
    }
    if m != 1 {
        let two_m = modp_two_power(m as u64, f);
        let wrapped = less_than_public(low, &mk.bits, f);
        let back = wrapped.times_public(&two_m, f);
        let lowered = Secret::from_clear(low).minus(&mk.bottom, f);
        let answer = lowered.plus(&back, f);
        proof {
            if y < d && low@ == (y + r) % d {
                let pm = p as int;
                lemma_unwrap_low(d, y, r, low@);
                assert(wrapped@ * d == (if wrapped@ == 1 { d } else { 0 })) by (nonlinear_arith)
                    requires
                        wrapped@ <= 1,
                ;
                lemma_congruent_rem(low@ - r, pm);
                lemma_congruent_rem((wrapped@ * d) as int, pm);
                lemma_congruent_sum(
                    lowered@ as int,
                    low@ - r,
                    back@ as int,
                    (wrapped@ * d) as int,
                    pm,
                );
                assert(low@ - r + wrapped@ * d == y);
                lemma_small_mod(y, p);
            }
        }
        answer
    } else {
        let ghost rb = secret_values(mk.bits@);
        proof {
            lemma2_to64();
            assert(rb[0] == mk.bits@[0]@);
            assert(rb[0] <= 1);
            assert(rb.drop_last().len() == 0);
            assert(le_value(rb.drop_last()) == 0);
            assert(rb.last() == rb[0]);
            assert(rb[0] * pow2(0) == rb[0]) by (nonlinear_arith)
                requires
                    pow2(0) == 1,
            ;
            assert(r == rb[0]);
            lemma_small_mod(0, p);
            lemma_small_mod(1, p);
        }
        let answer = xor_op(&Secret::from_clear(low), &mk.bits[0], f);
        proof {
            lemma_bit_operators(p, low@, rb[0]);
            if y < d && low@ == (y + r) % d {
                lemma_unwrap_low(d, y, r, low@);
            }
        }
        answer
    }
}

impl SecretInteger {
    /// A secret integer of `width` bits held in `x`. Two to the `width` must
    /// be less than the modulus.
    pub fn new(x: Secret, width: usize, f: &Field) -> (r: Result<SecretInteger, ProtocolError>)
        requires
            f.wf(),
        ensures
            !f.fits(width as nat) <==> r is Err,
            r matches Err(e) ==> e == ProtocolError::WidthExceedsField,
            r matches Ok(v) ==> v@.value == x@ && v@.width == width,
    {
        if f.has_room(width) {
            Ok(SecretInteger { x, width })
        } else {
            Err(ProtocolError::WidthExceedsField)
        }
    }

    /// A sharing of a public integer.
    pub fn from_clear(c: &ClearInteger) -> (r: SecretInteger)
        ensures
            r@ == c@,
    {
        SecretInteger { x: Secret::from_clear(&c.rep()), width: c.width() }
    }

    /// The secret field element that holds the integer.
    pub fn rep(&self) -> (x: Secret)
        ensures
            x@ == self@.value,
    {
        self.x
    }

    /// The declared width in bits.
    pub fn width(&self) -> (w: usize)
        ensures
            w == self@.width,
    {
        self.width
    }

    /// Opens the integer.
    pub fn open(&self) -> (c: ClearInteger)
        ensures
            c@ == self@,
    {
        ClearInteger { x: self.x.open(), width: self.width }
    }

    /// The integer reduced modulo two to the `m`, still secret: for an unsigned
    /// integer `x` the result holds `x mod 2^m`; a signed integer is first raised
    /// by two to the width less one.
    ///
    /// The integer is opened under a mask with `kappa` bits of slack. The low
    /// `m` bits of the opened number are those of the integer plus the low part
    /// of the mask; where that sum wrapped around two to the `m`, which a
    /// comparison of the public low bits with the secret low part of the mask
    /// tells, two to the `m` is added back. For `m == 1` the comparison is
    /// replaced by an exclusive or with the one mask bit.
    pub fn mod2m(&self, m: usize, signed: bool, source: &mut BitSource, f: &Field) -> (r: Result<
        SecretInteger,
        ProtocolError,
    >)
        requires
            f.wf(),
            f.holds(self@.value),
        ensures
            r is Ok <==> reducible(f, self@.width, m as nat, signed) && old(source)@.len()
                >= self@.width + f@.kappa,
            r is Err ==> final(source)@ == old(source)@,
            !reducible(f, self@.width, m as nat, signed) <==> r == Err::<
                SecretInteger,
                ProtocolError,
            >(ProtocolError::WidthExceedsField),
            reducible(f, self@.width, m as nat, signed) && old(source)@.len() < self@.width
                + f@.kappa <==> r == Err::<SecretInteger, ProtocolError>(
                ProtocolError::RandomnessExhausted,
            ),
            r matches Ok(y) ==> ({
                &&& y@.width == self@.width
                &&& f.holds(y@.value)
                &&& shifted(f, self@, signed) < pow2(self@.width) ==> y@.value == shifted(
                    f,
                    self@,
                    signed,
                ) % pow2(m as nat)
                &&& final(source)@ == old(source)@.subrange(
                    (self@.width + f@.kappa) as int,
                    old(source)@.len() as int,
                )
            }),
    {
        let k: usize = self.width;
        let kappa: u64 = f.kappa();
        if signed && k == 0 {
            return Err(ProtocolError::WidthExceedsField);
        }
        let ghost start = source@;
        let mk = match mask(k, m, kappa, source, f) {
            Ok(mk) => mk,
            Err(e) => {
                return Err(e);
            },
        };
        proof {
            let drawn = bit_values(start);
            assert(all_bits(drawn.subrange(0, m as int)));
            assert(all_bits(drawn.subrange(m as int, k + kappa)));
            lemma_le_bound(drawn.subrange(0, m as int));
            lemma_le_bound(drawn.subrange(m as int, k + kappa));
            if signed {
                let n = f@.bit_length;
                lemma_pow2_strictly_increases((k - 1) as nat, (n - 1) as nat);
                lemma_small_mod(pow2((k - 1) as nat), f@.modulus);
            }
        }
        let start_value = if signed {
            self.x.plus_public(&modp_two_power((k - 1) as u64, f), f)
        } else {
            self.x
        };
        let low = open_low(&start_value, &mk, m, f, Ghost(k as nat));
        let answer = take_mask_off(&low, &mk, m, f, Ghost(start_value@ % pow2(m as nat)));
        proof {
            lemma_pow2_pos(m as nat);
            lemma_mod_bound(start_value@ as int, pow2(m as nat) as int);
        }
        Ok(SecretInteger { x: answer, width: k })
    }

    /// The integer reduced modulo two, still secret.
    pub fn mod2(&self, signed: bool, source: &mut BitSource, f: &Field) -> (r: Result<
        SecretInteger,
        ProtocolError,
    >)
        requires
            f.wf(),
            f.holds(self@.value),
        ensures
            r is Ok <==> reducible(f, self@.width, 1, signed) && old(source)@.len()
                >= self@.width + f@.kappa,
            r is Err ==> final(source)@ == old(source)@,
            !reducible(f, self@.width, 1, signed) <==> r == Err::<SecretInteger, ProtocolError>(
                ProtocolError::WidthExceedsField,
            ),
            reducible(f, self@.width, 1, signed) && old(source)@.len() < self@.width + f@.kappa
                <==> r == Err::<SecretInteger, ProtocolError>(ProtocolError::RandomnessExhausted),
            r matches Ok(y) ==> ({
                &&& y@.width == self@.width
                &&& f.holds(y@.value)
                &&& shifted(f, self@, signed) < pow2(self@.width) ==> y@.value == shifted(
                    f,
                    self@,
                    signed,
                ) % 2
                &&& final(source)@ == old(source)@.subrange(
                    (self@.width + f@.kappa) as int,
                    old(source)@.len() as int,
                )
            }),
    {
        proof {
            lemma2_to64();
        }
        self.mod2m(1, signed, source, f)
    }
}

} // verus!
