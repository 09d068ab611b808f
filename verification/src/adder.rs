//! Addition of two numbers that are held as vectors of bits, least
//! significant bit first.

use crate::arith::{
    all_bits, le_value, lemma_congruent_diff, lemma_congruent_rem, lemma_congruent_sum,
    lemma_div_bit,
};
use crate::carry::{
    half_adder, pair_value, pairs_of, scan_paired, CarryPair, CarryUp,
};
use crate::error::ProtocolError;
use crate::field::{sum_mod, Field};
use crate::ops::lemma_bit_operators;
use crate::prefix::{combined, item_values};
use crate::value::{operand_values, secret_values, Operand, Secret};
use vstd::arithmetic::div_mod::*;
use vstd::arithmetic::power2::*;
use vstd::prelude::*;

verus! {

/// The carry out of position `i` in the sum of `a` and `b`, which are least
/// significant bit first. There is no carry into position zero.
pub open spec fn carry_at(a: Seq<nat>, b: Seq<nat>, i: int) -> nat
    decreases i + 1,
{
    if i < 0 {
        0
    } else {
        (a[i] + b[i] + carry_at(a, b, i - 1)) / 2
    }
}

/// A carry is a bit.
pub proof fn lemma_carry_is_bit(a: Seq<nat>, b: Seq<nat>, i: int)
    requires
        a.len() == b.len(),
        i < a.len(),
        all_bits(a),
        all_bits(b),
    ensures
        carry_at(a, b, i) <= 1,
    decreases i + 1,
{
    if i >= 0 {
        lemma_carry_is_bit(a, b, i - 1);
        lemma_div_bit((a[i] + b[i] + carry_at(a, b, i - 1)) as int, 2);
    }
}

/// The generate component of the composition of the pairs of positions `0..=i`
/// is the carry out of position `i`.
pub proof fn lemma_chain_up(f: &Field, a: Seq<nat>, b: Seq<nat>, i: int)
    requires
        f.wf(),
        a.len() == b.len(),
        0 <= i < a.len(),
        all_bits(a),
        all_bits(b),
    ensures
        combined::<CarryUp>(f, pairs_of(f@.modulus, a, b).subrange(0, i + 1)).1 == carry_at(
            a,
            b,
            i,
        ),
    decreases i,
{
    let p = f@.modulus;
    let s = pairs_of(p, a, b).subrange(0, i + 1);
    lemma_bit_operators(p, a[i], b[i]);
    lemma_small_mod(0, p);
    lemma_small_mod(1, p);
    assert(s.last() == pairs_of(p, a, b)[i]);
    if i == 0 {
        lemma_div_bit((a[i] + b[i]) as int, 2);
    } else {
        assert(s.drop_last() =~= pairs_of(p, a, b).subrange(0, i));
        lemma_chain_up(f, a, b, i - 1);
        lemma_carry_is_bit(a, b, i - 1);
        let below = carry_at(a, b, i - 1);
        let p0 = s.last().0;
        assert(p0 * below == (if p0 == 1 && below == 1 { 1nat } else { 0nat }))
            by (nonlinear_arith)
            requires
                p0 <= 1,
                below <= 1,
        ;
        lemma_div_bit((a[i] + b[i] + below) as int, 2);
    }
}

/// The bits of a sum, from the sums of the operands' bits position by position
/// and the carries out of every position.
fn sum_from_carries(
    both: &Vec<Secret>,
    carries: &Vec<CarryPair>,
    f: &Field,
    Ghost(a): Ghost<Seq<nat>>,
    Ghost(b): Ghost<Seq<nat>>,
) -> (sum: Vec<Secret>)
    requires
        f.wf(),
        a.len() == b.len(),
        both.len() == a.len(),
        carries.len() == a.len(),
        a.len() >= 1,
        all_bits(a),
        all_bits(b),
        forall|i: int|
            0 <= i < a.len() ==> (#[trigger] both@[i])@ == sum_mod(f@.modulus, a[i], b[i]),
        forall|i: int| 0 <= i < a.len() ==> (#[trigger] carries@[i]).generate@ == carry_at(a, b, i),
    ensures
        sum.len() == a.len() + 1,
        all_bits(secret_values(sum@)),
        le_value(secret_values(sum@)) == le_value(a) + le_value(b),
{
    let k: usize = both.len();
    let ghost p = f@.modulus;
    let mut sum: Vec<Secret> = Vec::new();
    let mut i: usize = 0;
    proof {
        lemma2_to64();
        assert(a.subrange(0, 0).len() == 0);
        assert(b.subrange(0, 0).len() == 0);
    }
    while i < k
        invariant
            f.wf(),
            p == f@.modulus,
            k == a.len(),
            a.len() == b.len(),
            both.len() == k,
            carries.len() == k,
            i <= k,
            sum.len() == i,
            all_bits(a),
            all_bits(b),
            forall|t: int| 0 <= t < k ==> (#[trigger] both@[t])@ == sum_mod(p, a[t], b[t]),
            forall|t: int| 0 <= t < k ==> (#[trigger] carries@[t]).generate@ == carry_at(a, b, t),
            all_bits(secret_values(sum@)),
            le_value(secret_values(sum@)) + carry_at(a, b, i - 1) * pow2(i as nat) == le_value(
                a.subrange(0, i as int),
            ) + le_value(b.subrange(0, i as int)),
        decreases k - i,
    {
        let ghost before = secret_values(sum@);
        let ghost below = carry_at(a, b, i - 1);
        let ghost above = carry_at(a, b, i as int);
        proof {
            lemma_carry_is_bit(a, b, i - 1);
            lemma_carry_is_bit(a, b, i as int);
            lemma_small_mod(0, p);
            lemma_small_mod(1, p);
            lemma_mod_bound((a[i as int] + b[i as int]) as int, p as int);
        }
        let out: Secret = carries[i].generate;
        let twice = out.plus(&out, f);
        let with_carry = if i == 0 {
            both[i]
        } else {
            both[i].plus(&carries[i - 1].generate, f)
        };
        let bit = with_carry.minus(&twice, f);
        proof {
            let m = p as int;
            let ai = a[i as int] as int;
            let bi = b[i as int] as int;
            let total = ai + bi + below;
            lemma_div_bit(total, 2);
            lemma_congruent_rem(ai + bi, m);
            lemma_congruent_rem(2 * (above as int), m);
            if i == 0 {
                lemma_congruent_diff(with_carry@ as int, total, twice@ as int, 2 * (above as int), m);
            } else {
                lemma_congruent_rem((both@[i as int]@ + below) as int, m);
                lemma_congruent_sum(both@[i as int]@ as int, ai + bi, below as int, below as int, m);
                lemma_congruent_diff(with_carry@ as int, total, twice@ as int, 2 * (above as int), m);
            }
            lemma_small_mod((total - 2 * above) as nat, p);
            assert(bit@ == total - 2 * above);
        }
        sum.push(bit);
        proof {
            let after = secret_values(sum@);
            assert(after.drop_last() =~= before);
            assert(after.last() == bit@);
            assert forall|t: int| 0 <= t < after.len() implies #[trigger] after[t] <= 1 by {
                if t < before.len() {
                    assert(after[t] == before[t]);
                }
            }
            let a1 = a.subrange(0, i + 1);
            let b1 = b.subrange(0, i + 1);
            assert(a1.drop_last() =~= a.subrange(0, i as int));
            assert(b1.drop_last() =~= b.subrange(0, i as int));
            assert(a1.last() == a[i as int]);
            assert(b1.last() == b[i as int]);
            lemma_pow2_unfold((i + 1) as nat);
            let d = pow2(i as nat) as int;
            let ai = a[i as int] as int;
            let bi = b[i as int] as int;
            assert((ai + bi + below - 2 * above) * d + above * (2 * d) == ai * d + bi * d + below
                * d) by (nonlinear_arith);
        }
        i = i + 1;
    }
    let ghost before = secret_values(sum@);
    sum.push(carries[k - 1].generate);
    proof {
        let after = secret_values(sum@);
        assert(after.drop_last() =~= before);
        lemma_carry_is_bit(a, b, k - 1);
        assert forall|t: int| 0 <= t < after.len() implies #[trigger] after[t] <= 1 by {
            if t < before.len() {
                assert(after[t] == before[t]);
            }
        }
        assert(a.subrange(0, k as int) =~= a);
        assert(b.subrange(0, k as int) =~= b);
    }
    sum
}

/// The sum of two numbers that are given by their bits, least significant bit
/// first. Either operand may be public or secret, bit by bit. The result has one
/// bit more than the operands, so that the sum never overflows. All carries are
/// found by one prefix network over the pairs of the positions.
pub fn bit_add(a: &Vec<Operand>, b: &Vec<Operand>, f: &Field) -> (r: Result<
    Vec<Secret>,
    ProtocolError,
>)
    requires
        f.wf(),
        all_bits(operand_values(a@)),
        all_bits(operand_values(b@)),
    ensures
        a.len() != b.len() <==> r is Err,
        r matches Err(e) ==> e == ProtocolError::LengthMismatch,
        r matches Ok(sum) ==> ({
            &&& sum.len() == a.len() + 1
            &&& all_bits(secret_values(sum@))
            &&& le_value(secret_values(sum@)) == le_value(operand_values(a@)) + le_value(
                operand_values(b@),
            )
        }),
{
    if a.len() != b.len() {
        return Err(ProtocolError::LengthMismatch);
    }
    let k: usize = a.len();
    let ghost av = operand_values(a@);
    let ghost bv = operand_values(b@);
    let ghost p = f@.modulus;
    if k == 0 {
        let mut sum: Vec<Secret> = Vec::new();
        sum.push(Secret::new(0, f));
        proof {
            lemma_small_mod(0, p);
            let sv = secret_values(sum@);
            assert(sv.len() == 1);
            assert(sv[0] == 0);
            assert(sv.drop_last().len() == 0);
            assert(le_value(sv.drop_last()) == 0);
            assert(sv.last() * pow2(0) == 0) by (nonlinear_arith)
                requires
                    sv.last() == 0,
            ;
            assert(le_value(sv) == 0);
            assert(av.len() == 0 && bv.len() == 0);
        }
        return Ok(sum);
    }
    let mut pairs: Vec<CarryPair> = Vec::new();
    let mut both: Vec<Secret> = Vec::new();
    let mut i: usize = 0;
    while i < k
        invariant
            f.wf(),
            k == a.len(),
            k == b.len(),
            i <= k,
            pairs.len() == i,
            both.len() == i,
            av == operand_values(a@),
            bv == operand_values(b@),
            all_bits(av),
            all_bits(bv),
            p == f@.modulus,
            forall|t: int| 0 <= t < i ==> pair_value(#[trigger] pairs@[t]) == pairs_of(p, av, bv)[t],
            forall|t: int|
                0 <= t < i ==> f.holds((#[trigger] pairs@[t]).propagate@) && f.holds(
                    pairs@[t].generate@,
                ),
            forall|t: int| 0 <= t < i ==> (#[trigger] both@[t])@ == sum_mod(p, av[t], bv[t]),
        decreases k - i,
    {
        assert(av[i as int] <= 1 && bv[i as int] <= 1);
        pairs.push(half_adder(&a[i], &b[i], f));
        both.push(a[i].plus(&b[i], f).to_secret());
        i = i + 1;
    }
    assert(item_values::<CarryUp>(pairs@) =~= pairs_of(p, av, bv));
    let carries = scan_paired(&pairs, f);
    proof {
        assert forall|t: int| 0 <= t < k implies (#[trigger] carries@[t]).generate@ == carry_at(
            av,
            bv,
            t,
        ) by {
            assert(pair_value(carries@[t]).1 == carries@[t].generate@);
            lemma_chain_up(f, av, bv, t);
        }
    }
    Ok(sum_from_carries(&both, &carries, f, Ghost(av), Ghost(bv)))
}

/// The bits of the number one, least significant bit first, on `k` positions.
pub open spec fn unit_bits(k: nat) -> Seq<nat> {
    Seq::new(k, |i: int| if i == 0 { 1nat } else { 0nat })
}

/// `unit_bits` represents the number one.
pub proof fn lemma_unit_value(k: nat)
    requires
        k >= 1,
    ensures
        le_value(unit_bits(k)) == 1,
        all_bits(unit_bits(k)),
    decreases k,
{
    let u = unit_bits(k);
    lemma2_to64();
    if k == 1 {
        assert(u.drop_last().len() == 0);
        assert(le_value(u.drop_last()) == 0);
        assert(u.last() * pow2(0) == 1) by (nonlinear_arith)
            requires
                u.last() == 1,
                pow2(0) == 1,
        ;
    } else {
        lemma_unit_value((k - 1) as nat);
        assert(u.drop_last() =~= unit_bits((k - 1) as nat));
        assert(u.last() * pow2((k - 1) as nat) == 0) by (nonlinear_arith)
            requires
                u.last() == 0,
        ;
    }
}

/// The successor of a number that is given by its secret bits, least
/// significant bit first. The result has one bit more than the operand. The
/// pairs of the positions are written down directly for the constant addend one,
/// without any multiplication, and the carries come from the same prefix network
/// as in an addition.
pub fn bit_increment(a: &Vec<Secret>, f: &Field) -> (sum: Vec<Secret>)
    requires
        f.wf(),
        all_bits(secret_values(a@)),
    ensures
        sum.len() == a.len() + 1,
        all_bits(secret_values(sum@)),
        le_value(secret_values(sum@)) == le_value(secret_values(a@)) + 1,
{
    let k: usize = a.len();
    let ghost av = secret_values(a@);
    let ghost bv = unit_bits(k as nat);
    let ghost p = f@.modulus;
    let one = Secret::new(1, f);
    let zero = Secret::new(0, f);
    proof {
        lemma_small_mod(0, p);
        lemma_small_mod(1, p);
        lemma2_to64();
    }
    if k == 0 {
        let mut sum: Vec<Secret> = Vec::new();
        sum.push(one);
        proof {
            let sv = secret_values(sum@);
            assert(sv.len() == 1);
            assert(sv[0] == 1);
            assert(sv.drop_last().len() == 0);
            assert(le_value(sv.drop_last()) == 0);
            assert(sv.last() * pow2(0) == 1) by (nonlinear_arith)
                requires
                    sv.last() == 1,
                    pow2(0) == 1,
            ;
            assert(av.len() == 0);
        }
        return sum;
    }
    let mut pairs: Vec<CarryPair> = Vec::new();
    let mut both: Vec<Secret> = Vec::new();
    let mut i: usize = 0;
    while i < k
        invariant
            f.wf(),
            k == a.len(),
            i <= k,
            pairs.len() == i,
            both.len() == i,
            av == secret_values(a@),
            bv == unit_bits(k as nat),
            all_bits(av),
            p == f@.modulus,
            one@ == 1,
            zero@ == 0,
            forall|t: int| 0 <= t < i ==> pair_value(#[trigger] pairs@[t]) == pairs_of(p, av, bv)[t],
            forall|t: int|
                0 <= t < i ==> f.holds((#[trigger] pairs@[t]).propagate@) && f.holds(
                    pairs@[t].generate@,
                ),
            forall|t: int| 0 <= t < i ==> (#[trigger] both@[t])@ == sum_mod(p, av[t], bv[t]),
        decreases k - i,
    {
        proof {
            assert(av[i as int] <= 1);
            lemma_bit_operators(p, av[i as int], bv[i as int]);
            lemma_small_mod(0, p);
            lemma_small_mod(1, p);
        }
        if i == 0 {
            pairs.push(CarryPair { propagate: one.minus(&a[i], f), generate: a[i] });
            both.push(a[i].plus(&one, f));
        } else {
            pairs.push(CarryPair { propagate: a[i], generate: zero });
            both.push(a[i]);
        }
        i = i + 1;
    }
    assert(item_values::<CarryUp>(pairs@) =~= pairs_of(p, av, bv));
    let carries = scan_paired(&pairs, f);
    proof {
        lemma_unit_value(k as nat);
        assert forall|t: int| 0 <= t < k implies (#[trigger] carries@[t]).generate@ == carry_at(
            av,
            bv,
            t,
        ) by {
            assert(pair_value(carries@[t]).1 == carries@[t].generate@);
            lemma_chain_up(f, av, bv, t);
        }
    }
    sum_from_carries(&both, &carries, f, Ghost(av), Ghost(bv))
}

} // verus!
