//! Masking randomness: the supply of fresh random bits, the secret integers
//! made of them, and the masks that the decomposition and truncation protocols
//! draw.

use crate::arith::{
    all_bits, bit_values, le_value, lemma_congruent_prod, lemma_congruent_rem,
    lemma_congruent_sum, lemma_le_bound,
};
use crate::error::ProtocolError;
use crate::field::{prod_mod, Field};
use crate::ops::AddOp;
use crate::prefix::{combined, fold, item_values};
use crate::value::{secret_values, Clear, Secret};
use vstd::arithmetic::div_mod::*;
use vstd::arithmetic::power2::*;
use vstd::prelude::*;

verus! {

/// A supply of jointly generated random bits. Every bit is handed out once:
/// what has been drawn is gone from the supply.
pub struct BitSource {
    // the bits that are left, the next one last
    stack: Vec<bool>,
}

impl View for BitSource {
    type V = Seq<bool>;

    /// The bits that are left, the next one first.
    closed spec fn view(&self) -> Seq<bool> {
        self.stack@.reverse()
    }
}

impl BitSource {
    /// A supply that hands out `bits` in their order.
    pub fn new(bits: Vec<bool>) -> (r: BitSource)
        ensures
            r@ == bits@,
    {
        let n: usize = bits.len();
        let mut stack: Vec<bool> = Vec::new();
        let mut i: usize = 0;
        while i < n
            invariant
                n == bits.len(),
                i <= n,
                stack.len() == i,
                forall|t: int| 0 <= t < i ==> stack@[t] == bits@[n - 1 - t],
            decreases n - i,
        {
            stack.push(bits[n - 1 - i]);
            i = i + 1;
        }
        assert(stack@.reverse() =~= bits@);
        BitSource { stack }
    }

    /// How many bits are left.
    pub fn remaining(&self) -> (n: usize)
        ensures
            n == self@.len(),
    {
        self.stack.len()
    }

    /// The next bit as a secret, or `None` where the supply is empty.
    pub fn next_bit(&mut self, f: &Field) -> (r: Option<Secret>)
        requires
            f.wf(),
        ensures
            old(self)@.len() == 0 <==> r is None,
            r is None ==> final(self)@ == old(self)@,
            r matches Some(s) ==> s@ == bit_values(old(self)@)[0] && final(self)@ == old(
                self,
            )@.drop_first(),
    {
        let ghost before = self.stack@;
        match self.stack.pop() {
            Some(b) => {
                proof {
                    lemma_small_mod(0, f@.modulus);
                    lemma_small_mod(1, f@.modulus);
                    assert(self.stack@.reverse() =~= before.reverse().drop_first());
                }
                Some(Secret::new(if b { 1 } else { 0 }, f))
            },
            None => None,
        }
    }

    /// The next `n` bits as secrets, in the order in which they leave the
    /// supply. Where fewer than `n` are left, none is drawn.
    pub fn draw(&mut self, n: usize, f: &Field) -> (r: Result<Vec<Secret>, ProtocolError>)
        requires
            f.wf(),
        ensures
            old(self)@.len() < n <==> r is Err,
            r matches Err(e) ==> e == ProtocolError::RandomnessExhausted && final(self)@ == old(
                self,
            )@,
            r matches Ok(v) ==> secret_values(v@) == bit_values(old(self)@.subrange(0, n as int))
                && final(self)@ == old(self)@.subrange(n as int, old(self)@.len() as int),
    {
        if self.remaining() < n {
            return Err(ProtocolError::RandomnessExhausted);
        }
        let ghost start = self@;
        let mut out: Vec<Secret> = Vec::new();
        let mut i: usize = 0;
        proof {
            assert(start.subrange(0, start.len() as int) =~= start);
        }
        while i < n
            invariant
                f.wf(),
                i <= n,
                n <= start.len(),
                out.len() == i,
                self@ == start.subrange(i as int, start.len() as int),
                forall|t: int| 0 <= t < i ==> (#[trigger] out@[t])@ == bit_values(start)[t],
            decreases n - i,
        {
            let ghost cur = self@;
            match self.next_bit(f) {
                Some(s) => {
                    proof {
                        assert(cur[0] == start[i as int]);
                        assert(cur.drop_first() =~= start.subrange(i + 1, start.len() as int));
                    }
                    out.push(s);
                },
                None => {
                    proof {
                        assert(false);
                    }
                },
            }
            i = i + 1;
        }
        proof {
            assert(secret_values(out@) =~= bit_values(start.subrange(0, n as int)));
        }
        Ok(out)
    }
}

/// Adding up the entries of `x`, entry `i` weighted by two to the `i`, gives
/// the number that `x` represents, reduced into the field.
pub proof fn lemma_weighted_sum(f: &Field, x: Seq<nat>, weighted: Seq<nat>)
    requires
        f.wf(),
        x.len() == weighted.len(),
        x.len() >= 1,
        forall|i: int|
            0 <= i < x.len() ==> #[trigger] weighted[i] == prod_mod(
                f@.modulus,
                x[i],
                pow2(i as nat) % f@.modulus,
            ),
    ensures
        combined::<AddOp>(f, weighted) == le_value(x) % f@.modulus,
    decreases x.len(),
{
    let p = f@.modulus;
    let m = p as int;
    let n = (x.len() - 1) as nat;
    let top = x.last() as int;
    let weight = pow2(n) as int;
    lemma_congruent_rem(weight, m);
    lemma_congruent_prod(top, top, weight % m, weight, m);
    lemma_congruent_rem(top * (weight % m), m);
    assert(weighted.last() == prod_mod(p, x[n as int], pow2(n) % p));
    if x.len() == 1 {
        assert(x.drop_last().len() == 0);
        assert(le_value(x.drop_last()) == 0);
    } else {
        lemma_weighted_sum(f, x.drop_last(), weighted.drop_last());
        let below = le_value(x.drop_last()) as int;
        lemma_congruent_rem(below, m);
        lemma_congruent_sum(below % m, below, weighted.last() as int, top * weight, m);
    }
}

/// The secret number that secret bits represent, least significant bit first:
/// entry `i` times two to the `i`, all added up in the field.
pub fn sum_bits(x: &Vec<Secret>, f: &Field) -> (r: Secret)
    requires
        f.wf(),
        forall|i: int| 0 <= i < x.len() ==> f.holds(#[trigger] x@[i]@),
    ensures
        r@ == le_value(secret_values(x@)) % f@.modulus,
        f.holds(r@),
{
    let k: usize = x.len();
    let ghost xv = secret_values(x@);
    let ghost p = f@.modulus;
    let mut weighted: Vec<Secret> = Vec::new();
    let mut weight: Clear = Clear::new(1, f);
    let mut i: usize = 0;
    proof {
        lemma2_to64();
        lemma_small_mod(0, p);
    }
    while i < k
        invariant
            f.wf(),
            p == f@.modulus,
            k == x.len(),
            i <= k,
            weighted.len() == i,
            xv == secret_values(x@),
            forall|t: int| 0 <= t < k ==> f.holds(#[trigger] x@[t]@),
            weight@ == pow2(i as nat) % p,
            f.holds(weight@),
            forall|t: int|
                0 <= t < i ==> (#[trigger] weighted@[t])@ == prod_mod(
                    p,
                    xv[t],
                    pow2(t as nat) % p,
                ),
            forall|t: int| 0 <= t < i ==> f.holds((#[trigger] weighted@[t])@),
        decreases k - i,
    {
        weighted.push(x[i].times_public(&weight, f));
        proof {
            lemma_pow2_unfold((i + 1) as nat);
            let w = pow2(i as nat) as int;
            lemma_congruent_rem(w, p as int);
            lemma_congruent_sum(weight@ as int, w, weight@ as int, w, p as int);
        }
        weight = weight.plus(&weight, f);
        i = i + 1;
    }
    proof {
        if k > 0 {
            lemma_weighted_sum(f, xv, item_values::<AddOp>(weighted@));
        }
    }
    match fold(&AddOp, f, &weighted) {
        Some(total) => total,
        None => Secret::new(0, f),
    }
}

/// A secret random integer of `k` bits, from as many fresh bits of the supply.
pub fn random_int(k: usize, source: &mut BitSource, f: &Field) -> (r: Result<
    Secret,
    ProtocolError,
>)
    requires
        f.wf(),
    ensures
        old(source)@.len() < k <==> r is Err,
        r matches Err(e) ==> e == ProtocolError::RandomnessExhausted && final(source)@ == old(
            source,
        )@,
        r matches Ok(x) ==> x@ == le_value(bit_values(old(source)@.subrange(0, k as int)))
            % f@.modulus && final(source)@ == old(source)@.subrange(
            k as int,
            old(source)@.len() as int,
        ),
{
    let ghost start = source@;
    match source.draw(k, f) {
        Ok(drawn) => {
            proof {
                lemma_small_mod(0, f@.modulus);
                lemma_small_mod(1, f@.modulus);
                assert forall|i: int| 0 <= i < drawn.len() implies f.holds(
                    #[trigger] drawn@[i]@,
                ) by {
                    assert(secret_values(drawn@).len() == drawn.len());
                    assert(secret_values(drawn@)[i] == drawn@[i]@);
                    assert(bit_values(start.subrange(0, k as int))[i] <= 1);
                }
            }
            Ok(sum_bits(&drawn, f))
        },
        Err(e) => Err(e),
    }
}

/// The randomness that masks one value of `k` bits of which the low `m` bits
/// are of interest.
pub struct Mask {
    /// A random integer of `k + kappa - m` bits: it hides the high part.
    pub top: Secret,
    /// The random integer of `m` bits that `bits` represents: it hides the
    /// low part.
    pub bottom: Secret,
    /// The bits of `bottom`, least significant bit first.
    pub bits: Vec<Secret>,
}

/// Whether the field has room for a value of `k` bits under a mask with
/// `kappa` bits of slack, of which the low `m` bits are of interest: the masked
/// value stays below two to the `k + kappa + 2`, which must not exceed the
/// modulus.
pub open spec fn mask_fits(f: &Field, k: nat, m: nat, kappa: nat) -> bool {
    m <= k && k + kappa + 2 < f@.bit_length
}

/// Decides `mask_fits`.
pub fn has_room_for_mask(f: &Field, k: usize, m: usize, kappa: u64) -> (b: bool)
    requires
        f.wf(),
    ensures
        b == mask_fits(f, k as nat, m as nat, kappa as nat),
{
    let n: usize = f.bit_length();
    m <= k && k < 128 && kappa < 128 && k + (kappa as usize) + 2 < n
}

/// How many fresh bits the mask for a value of `k` bits takes: `k + kappa`.
/// `None` where that number does not fit the machine word.
pub fn mask_length(k: usize, kappa: u64) -> (n: Option<usize>)
    ensures
        k + kappa > usize::MAX <==> n is None,
        n matches Some(v) ==> v == k + kappa,
{
    if kappa > usize::MAX as u64 {
        return None;
    }
    k.checked_add(kappa as usize)
}

/// Draws the mask for a value of `k` bits whose low `m` bits are of interest:
/// first the `m` bits of the low part, then the `k + kappa - m` bits of the
/// high part, every one of them fresh.
pub fn mask(k: usize, m: usize, kappa: u64, source: &mut BitSource, f: &Field) -> (r: Result<
    Mask,
    ProtocolError,
>)
    requires
        f.wf(),
    ensures
        r is Ok <==> mask_fits(f, k as nat, m as nat, kappa as nat) && old(source)@.len() >= k
            + kappa,
        r matches Err(e) ==> final(source)@ == old(source)@,
        !mask_fits(f, k as nat, m as nat, kappa as nat) <==> r == Err::<Mask, ProtocolError>(
            ProtocolError::WidthExceedsField,
        ),
        mask_fits(f, k as nat, m as nat, kappa as nat) && old(source)@.len() < k + kappa <==> r
            == Err::<Mask, ProtocolError>(ProtocolError::RandomnessExhausted),
        r matches Ok(mk) ==> ({
            let drawn = bit_values(old(source)@);
            &&& secret_values(mk.bits@) == drawn.subrange(0, m as int)
            &&& mk.bottom@ == le_value(drawn.subrange(0, m as int))
            &&& mk.top@ == le_value(drawn.subrange(m as int, k + kappa))
            &&& f.holds(mk.top@)
            &&& f.holds(mk.bottom@)
            &&& final(source)@ == old(source)@.subrange(k + kappa, old(source)@.len() as int)
        }),
{
    if !has_room_for_mask(f, k, m, kappa) {
        return Err(ProtocolError::WidthExceedsField);
    }
    let total: usize = k + (kappa as usize);
    if source.remaining() < total {
        return Err(ProtocolError::RandomnessExhausted);
    }
    let ghost start = source@;
    let ghost drawn = bit_values(start);
    let ghost p = f@.modulus;
    let bits = match source.draw(m, f) {
        Ok(v) => v,
        Err(e) => {
            return Err(e);
        },
    };
    let ghost middle = source@;
    proof {
        lemma_small_mod(0, p);
        lemma_small_mod(1, p);
        assert(secret_values(bits@) =~= drawn.subrange(0, m as int));
        assert forall|i: int| 0 <= i < bits.len() implies f.holds(#[trigger] bits@[i]@) by {
            assert(secret_values(bits@).len() == bits.len());
            assert(secret_values(bits@)[i] == bits@[i]@);
            assert(drawn.subrange(0, m as int)[i] <= 1);
        }
    }
    let bottom = sum_bits(&bits, f);
    let top = match random_int(total - m, source, f) {
        Ok(x) => x,
        Err(e) => {
            proof {
                assert(false);
            }
            return Err(e);
        },
    };
    proof {
        let low = drawn.subrange(0, m as int);
        let high = drawn.subrange(m as int, total as int);
        assert(bit_values(middle.subrange(0, total - m)) =~= high);
        assert(source@ =~= start.subrange(total as int, start.len() as int));
        assert(all_bits(low));
        assert(all_bits(high));
        lemma_le_bound(low);
        lemma_le_bound(high);
        let n = f@.bit_length;
        lemma_pow2_strictly_increases(m as nat, (n - 1) as nat);
        lemma_pow2_strictly_increases((total - m) as nat, (n - 1) as nat);
        lemma_small_mod(le_value(low), p);
        lemma_small_mod(le_value(high), p);
    }
    Ok(Mask { top, bottom, bits })
}

} // verus!
