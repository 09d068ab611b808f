//! Public field elements and their bit vectors, in both orders; powers of
//! two; the bit patterns of the modulus and of its two's complement.

use crate::arith::{
    all_bits, be_value, bit_values, le_value, lemma_be_is_reversed_le, lemma_congruent_rem,
    lemma_congruent_sum, lemma_le_first,
};
use crate::field::{add_mod, lemma_pow2_128, two_power, Field};
use crate::value::{clear_values, Clear};
use vstd::arithmetic::div_mod::*;
use vstd::arithmetic::mul::*;
use vstd::arithmetic::power2::*;
use vstd::prelude::*;

verus! {

/// Two to the power `n` as a field element, for any `n`.
pub fn modp_two_power(n: u64, f: &Field) -> (r: Clear)
    requires
        f.wf(),
    ensures
        r@ == pow2(n as nat) % f@.modulus,
        f.holds(r@),
{
    let p: u128 = f.modulus();
    let mut r: u128 = 1;
    let mut i: u64 = 0;
    proof {
        lemma2_to64();
        lemma_small_mod(1, p as nat);
    }
    while i < n
        invariant
            i <= n,
            p == f@.modulus,
            p >= 2,
            r < p,
            r == pow2(i as nat) % (p as nat),
        decreases n - i,
    {
        proof {
            lemma_pow2_unfold((i + 1) as nat);
            let x = pow2(i as nat) as int;
            lemma_congruent_rem(x, p as int);
            lemma_congruent_sum(r as int, x, r as int, x, p as int);
        }
        r = add_mod(r, r, p);
        i = i + 1;
    }
    proof {
        lemma_small_mod(r as nat, p as nat);
    }
    Clear::new(r, f)
}

/// The lowest `m` bits of `x`, least significant bit first, as field elements.
pub fn bits_of(x: u128, m: usize, f: &Field) -> (out: Vec<Clear>)
    requires
        f.wf(),
    ensures
        out.len() == m,
        all_bits(clear_values(out@)),
        le_value(clear_values(out@)) == x as nat % pow2(m as nat),
{
    let mut out: Vec<Clear> = Vec::new();
    let mut rest: u128 = x;
    let mut i: usize = 0;
    proof {
        lemma2_to64();
        assert(x as nat % 1 == 0);
        assert(x as nat / 1 == x);
    }
    while i < m
        invariant
            f.wf(),
            i <= m,
            out.len() == i,
            rest == x as nat / pow2(i as nat),
            all_bits(clear_values(out@)),
            le_value(clear_values(out@)) == x as nat % pow2(i as nat),
        decreases m - i,
    {
        let ghost before = clear_values(out@);
        let bit: u128 = rest % 2;
        proof {
            lemma_small_mod(bit as nat, f@.modulus);
        }
        out.push(Clear::new(bit, f));
        proof {
            let d = pow2(i as nat) as int;
            lemma_pow2_pos(i as nat);
            lemma_pow2_unfold((i + 1) as nat);
            lemma_div_denominator(x as int, d, 2);
            lemma_mod_breakdown(x as int, d, 2);
            lemma_mul_is_commutative(d, 2);
            let after = clear_values(out@);
            assert(after.drop_last() =~= before);
            assert(after.last() == bit);
            assert forall|t: int| 0 <= t < after.len() implies #[trigger] after[t] <= 1 by {
                if t < before.len() {
                    assert(after[t] == before[t]);
                }
            }
            lemma_mul_is_commutative(d, bit as int);
        }
        rest = rest / 2;
        i = i + 1;
    }
    out
}

/// The lowest `m` bits of a public element, least significant bit first.
pub fn bits(a: &Clear, m: usize, f: &Field) -> (out: Vec<Clear>)
    requires
        f.wf(),
    ensures
        out.len() == m,
        all_bits(clear_values(out@)),
        le_value(clear_values(out@)) == a@ % pow2(m as nat),
{
    bits_of(a.to_u128(), m, f)
}

/// The same sequence in the opposite order.
pub fn reversed(v: &Vec<Clear>) -> (out: Vec<Clear>)
    ensures
        out@ == v@.reverse(),
{
    let n: usize = v.len();
    let mut out: Vec<Clear> = Vec::new();
    let mut i: usize = 0;
    while i < n
        invariant
            n == v.len(),
            i <= n,
            out.len() == i,
            forall|t: int| 0 <= t < i ==> out@[t] == v@[n - 1 - t],
        decreases n - i,
    {
        out.push(v[n - 1 - i]);
        i = i + 1;
    }
    assert(out@ =~= v@.reverse());
    out
}

/// The lowest `m` bits of a public element, most significant bit first.
pub fn bits_be(a: &Clear, m: usize, f: &Field) -> (out: Vec<Clear>)
    requires
        f.wf(),
    ensures
        out.len() == m,
        all_bits(clear_values(out@)),
        be_value(clear_values(out@)) == a@ % pow2(m as nat),
{
    let le = bits(a, m, f);
    let out = reversed(&le);
    proof {
        let lv = clear_values(le@);
        let ov = clear_values(out@);
        assert(ov =~= lv.reverse());
        assert(ov.reverse() =~= lv);
        lemma_be_is_reversed_le(ov);
        assert forall|t: int| 0 <= t < ov.len() implies #[trigger] ov[t] <= 1 by {
            assert(ov[t] == lv[m - 1 - t]);
        }
    }
    out
}

/// The field element that a sequence of public elements represents when it is
/// read as digits to the base two, least significant first.
pub fn from_bits(digits: &Vec<Clear>, f: &Field) -> (r: Clear)
    requires
        f.wf(),
        forall|i: int| 0 <= i < digits.len() ==> f.holds(#[trigger] digits@[i]@),
    ensures
        r@ == le_value(clear_values(digits@)) % f@.modulus,
        f.holds(r@),
{
    let n: usize = digits.len();
    let ghost vals = clear_values(digits@);
    let mut acc = Clear::new(0, f);
    let mut i: usize = n;
    proof {
        lemma_small_mod(0, f@.modulus);
        assert(vals.subrange(n as int, n as int).len() == 0);
    }
    while i > 0
        invariant
            f.wf(),
            n == digits.len(),
            i <= n,
            vals == clear_values(digits@),
            forall|t: int| 0 <= t < n ==> f.holds(#[trigger] digits@[t]@),
            f.holds(acc@),
            acc@ == le_value(vals.subrange(i as int, n as int)) % f@.modulus,
        decreases i,
    {
        i = i - 1;
        let doubled = acc.plus(&acc, f);
        let ghost old_acc = acc@;
        acc = doubled.plus(&digits[i], f);
        proof {
            let m = f@.modulus as int;
            let tail = vals.subrange(i as int, n as int);
            let rest = vals.subrange(i + 1, n as int);
            lemma_le_first(tail);
            assert(tail.drop_first() =~= rest);
            let x = le_value(rest) as int;
            lemma_congruent_rem(x, m);
            lemma_congruent_sum(old_acc as int, x, old_acc as int, x, m);
            lemma_congruent_rem((old_acc + old_acc) as int, m);
            lemma_congruent_sum(doubled@ as int, 2 * x, vals[i as int] as int, vals[i as int] as int, m);
        }
    }
    assert(vals.subrange(0, n as int) =~= vals);
    acc
}

/// The field element that a sequence of public elements represents when it is
/// read as digits to the base two, most significant first.
pub fn from_bits_be(digits: &Vec<Clear>, f: &Field) -> (r: Clear)
    requires
        f.wf(),
        forall|i: int| 0 <= i < digits.len() ==> f.holds(#[trigger] digits@[i]@),
    ensures
        r@ == be_value(clear_values(digits@)) % f@.modulus,
        f.holds(r@),
{
    let le = reversed(digits);
    proof {
        assert(clear_values(le@) =~= clear_values(digits@).reverse());
        lemma_be_is_reversed_le(clear_values(digits@));
    }
    from_bits(&le, f)
}

/// The bits of the modulus, least significant bit first.
pub fn modulus_bits(f: &Field) -> (out: Vec<Clear>)
    requires
        f.wf(),
    ensures
        out.len() == f@.bit_length,
        all_bits(clear_values(out@)),
        le_value(clear_values(out@)) == f@.modulus,
{
    proof {
        lemma_small_mod(f@.modulus, pow2(f@.bit_length));
    }
    bits_of(f.modulus(), f.bit_length(), f)
}

/// The bits of the two's complement of the modulus on as many positions as the
/// modulus has bits, least significant bit first: the bits of two to the bit
/// length, less the modulus.
pub fn prime_complement(f: &Field) -> (out: Vec<Clear>)
    requires
        f.wf(),
    ensures
        out.len() == f@.bit_length,
        all_bits(clear_values(out@)),
        le_value(clear_values(out@)) == pow2(f@.bit_length) - f@.modulus,
{
    let n: usize = f.bit_length();
    let p: u128 = f.modulus();
    proof {
        lemma_pow2_128();
    }
    let complement: u128 = if n == 128 {
        (u128::MAX - p) + 1
    } else {
        two_power(n) - p
    };
    proof {
        lemma_small_mod(complement as nat, pow2(n as nat));
    }
    bits_of(complement, n, f)
}

/// The bits of the modulus as a plain bit array, most significant bit first
/// and without leading zeros.
pub fn modulus_bits_msb(f: &Field) -> (out: Vec<bool>)
    requires
        f.wf(),
    ensures
        out.len() == f@.bit_length,
        be_value(bit_values(out@)) == f@.modulus,
        out@[0],
{
    let n: usize = f.bit_length();
    let le = modulus_bits(f);
    let mut out: Vec<bool> = Vec::new();
    let mut i: usize = 0;
    while i < n
        invariant
            n == le.len(),
            i <= n,
            out.len() == i,
            all_bits(clear_values(le@)),
            forall|t: int| 0 <= t < i ==> bit_values(out@)[t] == clear_values(le@)[n - 1 - t],
        decreases n - i,
    {
        let ghost before = bit_values(out@);
        assert(clear_values(le@)[n - 1 - i] <= 1);
        out.push(le[n - 1 - i].to_u128() == 1);
        proof {
            let after = bit_values(out@);
            assert forall|t: int| 0 <= t < i + 1 implies after[t] == clear_values(le@)[n - 1 - t] by {
                if t < i {
                    assert(after[t] == before[t]);
                }
            }
        }
        i = i + 1;
    }
    proof {
        let ov = bit_values(out@);
        let lv = clear_values(le@);
        assert(ov =~= lv.reverse());
        assert(ov.reverse() =~= lv);
        lemma_be_is_reversed_le(ov);
        // the top bit is set: the modulus is at least two to the bit length less one
        let top = lv.last();
        assert(lv.drop_last().len() == n - 1);
        crate::arith::lemma_le_bound(lv.drop_last());
        assert(all_bits(lv.drop_last()));
        if top == 0 {
            assert(top * pow2((n - 1) as nat) == 0) by (nonlinear_arith)
                requires
                    top == 0,
            ;
        }
        assert(ov[0] == lv[n - 1]);
    }
    out
}

} // verus!
