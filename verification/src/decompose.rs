//! Bit decomposition of a secret: the secret is opened under a random mask,
//! and the bits of the opened number are added to the secret bits of the mask.

use crate::adder::bit_add;
use crate::arith::{
    all_bits, bit_values, le_value, lemma_congruent_diff, lemma_congruent_rem,
    lemma_congruent_sum, lemma_le_bound, lemma_le_prefix_mod,
};
use crate::codec::{bits, bits_of, modp_two_power, modulus_bits, prime_complement};
use crate::compare::full_compare;
use crate::error::ProtocolError;
use crate::field::{centered, lemma_raised, two_power, Field};
use crate::masking::{has_room_for_mask, mask, mask_fits, sum_bits, BitSource};
use crate::value::{
    clear_values, operand_values, public_operands, secret_operands, secret_values, truncated,
    Clear, Secret,
};
use vstd::arithmetic::div_mod::*;
use vstd::arithmetic::mul::*;
use vstd::arithmetic::power2::*;
use vstd::prelude::*;

verus! {

/// What is opened in a decomposition of the low bits: the value, raised by
/// two public powers of two so that it cannot turn negative, less the mask.
pub open spec fn masked_low(a: int, k: nat, m: nat, kappa: nat, top: nat, bottom: nat) -> int {
    a + pow2(k) + pow2(k + kappa) - bottom - pow2(m) * top
}

/// The opened number lies in the field, and its low `m` bits are those of
/// `a - bottom`. The value `a` may be negative.
pub proof fn lemma_masked_low(
    f: &Field,
    a: int,
    k: nat,
    m: nat,
    kappa: nat,
    top: nat,
    bottom: nat,
)
    requires
        f.wf(),
        mask_fits(f, k, m, kappa),
        -pow2(k) <= a < pow2(k),
        top < pow2((k + kappa - m) as nat),
        bottom < pow2(m),
    ensures
        0 <= masked_low(a, k, m, kappa, top, bottom) < f@.modulus,
        2 * pow2(k) + pow2(k + kappa) < f@.modulus,
        pow2(m) < f@.modulus,
        pow2(m) * top < f@.modulus,
        (masked_low(a, k, m, kappa, top, bottom) + bottom) % (pow2(m) as int) == a % (pow2(
            m,
        ) as int),
{
    let n = f@.bit_length;
    let d = pow2(m) as int;
    lemma_pow2_pos(m);
    lemma_pow2_adds(m, (k + kappa - m) as nat);
    lemma_pow2_adds(m, (k - m) as nat);
    lemma_pow2_unfold(k + kappa + 1);
    lemma_pow2_unfold(k + kappa + 2);
    if kappa > 0 {
        lemma_pow2_strictly_increases(k, k + kappa);
    }
    lemma_pow2_strictly_increases(m, k + kappa + 2);
    if k + kappa + 2 < n - 1 {
        lemma_pow2_strictly_increases(k + kappa + 2, (n - 1) as nat);
    }
    let hi = pow2((k + kappa - m) as nat) as int;
    assert(d * top <= d * (hi - 1)) by (nonlinear_arith)
        requires
            top <= hi - 1,
            d > 0,
    ;
    assert(d * (hi - 1) == d * hi - d) by (nonlinear_arith);
    // multiples of two to the m vanish
    let steps = pow2((k - m) as nat) + hi - top;
    assert(a + d * steps == masked_low(a, k, m, kappa, top, bottom) + bottom) by (nonlinear_arith)
        requires
            steps == pow2((k - m) as nat) + hi - top,
            pow2(k) == d * pow2((k - m) as nat),
            pow2(k + kappa) == d * hi,
            masked_low(a, k, m, kappa, top, bottom) == a + pow2(k) + pow2(k + kappa) - bottom - d
                * top,
    ;
    lemma_mod_multiples_vanish(steps, a, d);
}

/// The low `m` bits of a secret that holds a number of `k` bits, as secret
/// bits, least significant bit first.
///
/// A mask is drawn from `source`: `m` bits for the low part and
/// `k + kappa - m` bits for the high part. The secret is opened under that mask;
/// `kappa` bits of slack hide it statistically. The low bits of the opened
/// number and the low bits of the mask are then added bit by bit.
///
/// The secret may hold a negative number, down to minus two to the `k`: a
/// negative number is held as the modulus less its absolute value, and its low
/// bits are those of its two's complement. For a secret outside that range the
/// result is still a vector of `m` bits, of which nothing more is said.
pub fn decompose_low(
    a: &Secret,
    k: usize,
    m: usize,
    kappa: u64,
    source: &mut BitSource,
    f: &Field,
) -> (r: Result<Vec<Secret>, ProtocolError>)
    requires
        f.wf(),
        f.holds(a@),
    ensures
        r is Ok <==> mask_fits(f, k as nat, m as nat, kappa as nat) && old(source)@.len() >= k
            + kappa,
        r is Err ==> final(source)@ == old(source)@,
        !mask_fits(f, k as nat, m as nat, kappa as nat) <==> r == Err::<
            Vec<Secret>,
            ProtocolError,
        >(ProtocolError::WidthExceedsField),
        mask_fits(f, k as nat, m as nat, kappa as nat) && old(source)@.len() < k + kappa <==> r
            == Err::<Vec<Secret>, ProtocolError>(ProtocolError::RandomnessExhausted),
        r matches Ok(low) ==> ({
            &&& low.len() == m
            &&& all_bits(secret_values(low@))
            &&& a@ < pow2(k as nat) ==> le_value(secret_values(low@)) == a@ % pow2(m as nat)
            &&& -pow2(k as nat) <= centered(f@.modulus, a@) < pow2(k as nat) ==> le_value(
                secret_values(low@),
            ) == centered(f@.modulus, a@) % (pow2(m as nat) as int)
            &&& final(source)@ == old(source)@.subrange(k + kappa, old(source)@.len() as int)
        }),
{
    let ghost start = source@;
    let mk = match mask(k, m, kappa, source, f) {
        Ok(mk) => mk,
        Err(e) => {
            return Err(e);
        },
    };
    let ghost p = f@.modulus;
    let ghost drawn = bit_values(start);
    proof {
        assert(all_bits(drawn.subrange(0, m as int)));
        assert(all_bits(drawn.subrange(m as int, k + kappa)));
        lemma_le_bound(drawn.subrange(0, m as int));
        lemma_le_bound(drawn.subrange(m as int, k + kappa));
        let n = f@.bit_length;
        lemma_pow2_strictly_increases(m as nat, n);
        lemma_pow2_strictly_increases((k + kappa - m) as nat, n);
        lemma_pow2_strictly_increases((k + kappa + 2) as nat, n);
        lemma_pow2_unfold(n);
    }
    let two_k = modp_two_power(k as u64, f);
    let two_k_kappa = modp_two_power(k as u64 + kappa, f);
    let two_m = modp_two_power(m as u64, f);
    let offset = two_k.plus(&two_k_kappa, f);
    let high = mk.top.times_public(&two_m, f);
    let raised = a.plus_public(&offset, f);
    let lowered = raised.minus(&mk.bottom, f);
    let masked = lowered.minus(&high, f);
    let c = masked.open();
    let cb = bits(&c, m, f);
    let sum = match bit_add(&public_operands(&cb), &secret_operands(&mk.bits), f) {
        Ok(sum) => sum,
        Err(e) => {
            proof {
                assert(false);
            }
            return Err(e);
        },
    };
    let low = truncated(&sum, m);
    proof {
        let sv = secret_values(sum@);
        let lv = secret_values(low@);
        assert(lv =~= sv.subrange(0, m as int));
        assert forall|t: int| 0 <= t < lv.len() implies #[trigger] lv[t] <= 1 by {
            assert(lv[t] == sv[t]);
        }
        let v = centered(p, a@);
        if -pow2(k as nat) <= v < pow2(k as nat) {
            let top = mk.top@;
            let bottom = mk.bottom@;
            let d = pow2(m as nat) as int;
            let pm = p as int;
            lemma_masked_low(f, v, k as nat, m as nat, kappa as nat, top, bottom);
            let c_int = masked_low(v, k as nat, m as nat, kappa as nat, top, bottom);
            lemma_mod_sub_multiples_vanish(a@ as int, pm);
            // every power of two in play is below the modulus
            lemma_small_mod(pow2(k as nat), p);
            lemma_small_mod(pow2((k + kappa) as nat), p);
            lemma_small_mod(pow2(m as nat), p);
            lemma_small_mod((pow2(k as nat) + pow2((k + kappa) as nat)) as nat, p);
            lemma_mul_is_commutative(top as int, d);
            lemma_small_mod((d * top) as nat, p);
            // the opened element is the masked number itself
            lemma_congruent_rem((a@ + offset@) as int, pm);
            lemma_congruent_sum(a@ as int, v, offset@ as int, offset@ as int, pm);
            lemma_congruent_diff(raised@ as int, v + offset@, bottom as int, bottom as int, pm);
            lemma_congruent_rem(raised@ - bottom, pm);
            lemma_congruent_diff(
                lowered@ as int,
                v + offset@ - bottom,
                high@ as int,
                high@ as int,
                pm,
            );
            lemma_small_mod(c_int as nat, p);
            assert(c@ == c_int);
            // add the low bits back
            lemma_pow2_pos(m as nat);
            lemma_le_prefix_mod(sv, m as int);
            lemma_congruent_rem(c_int, d);
            lemma_congruent_sum(c_int % d, c_int, bottom as int, bottom as int, d);
        }
    }
    Ok(low)
}

/// The bits of a secret that holds a signed number of `k` bits, least
/// significant bit first, after the number has been raised by two to the
/// `k - 1`: the raised number is nonnegative and has `k` bits, and raising keeps
/// the order of the numbers. A negative number is held as the modulus less its
/// absolute value. This is how a signed number is brought into the form that the
/// comparators take.
pub fn decompose_signed(
    a: &Secret,
    k: usize,
    kappa: u64,
    source: &mut BitSource,
    f: &Field,
) -> (r: Result<Vec<Secret>, ProtocolError>)
    requires
        f.wf(),
        f.holds(a@),
    ensures
        r is Ok <==> k >= 1 && mask_fits(f, k as nat, k as nat, kappa as nat) && old(
            source,
        )@.len() >= k + kappa,
        r is Err ==> final(source)@ == old(source)@,
        k == 0 || !mask_fits(f, k as nat, k as nat, kappa as nat) <==> r == Err::<
            Vec<Secret>,
            ProtocolError,
        >(ProtocolError::WidthExceedsField),
        k >= 1 && mask_fits(f, k as nat, k as nat, kappa as nat) && old(source)@.len() < k + kappa
            <==> r == Err::<Vec<Secret>, ProtocolError>(ProtocolError::RandomnessExhausted),
        r matches Ok(raised) ==> ({
            &&& raised.len() == k
            &&& all_bits(secret_values(raised@))
            &&& -pow2((k - 1) as nat) <= centered(f@.modulus, a@) < pow2((k - 1) as nat)
                ==> le_value(secret_values(raised@)) == centered(f@.modulus, a@) + pow2(
                (k - 1) as nat,
            )
            &&& final(source)@ == old(source)@.subrange(k + kappa, old(source)@.len() as int)
        }),
{
    if k == 0 || !has_room_for_mask(f, k, k, kappa) {
        return Err(ProtocolError::WidthExceedsField);
    }
    let offset = modp_two_power((k - 1) as u64, f);
    let lifted = a.plus_public(&offset, f);
    proof {
        let p = f@.modulus;
        let c = centered(p, a@);
        let half = pow2((k - 1) as nat);
        if -half <= c < half {
            lemma_pow2_unfold(k as nat);
            lemma_pow2_unfold((k + 1) as nat);
            lemma_pow2_strictly_increases((k + 1) as nat, (k + kappa + 2) as nat);
            if k + kappa + 2 < f@.bit_length - 1 {
                lemma_pow2_strictly_increases(
                    (k + kappa + 2) as nat,
                    (f@.bit_length - 1) as nat,
                );
            }
            lemma_raised(p, a@, half);
            lemma_small_mod(lifted@, pow2(k as nat));
        }
    }
    decompose_low(&lifted, k, k, kappa, source, f)
}

/// How many of the leading candidates on `tape` are rejected: a candidate is
/// the number that the next `n` bits represent, least significant bit first, and
/// it is rejected where it is not below `p`. The count stops at the first
/// accepted candidate, at `cap`, or where fewer than `n` bits are left.
pub open spec fn rejected_run(p: nat, n: nat, tape: Seq<bool>, cap: nat) -> nat
    decreases cap,
{
    if cap == 0 || tape.len() < n || le_value(bit_values(tape.subrange(0, n as int))) < p {
        0
    } else {
        1 + rejected_run(p, n, tape.subrange(n as int, tape.len() as int), (cap - 1) as nat)
    }
}

/// Draws the bits of a uniformly random number below the modulus, least
/// significant bit first, by rejection sampling: a candidate of as many fresh
/// bits as the modulus has is compared with the modulus, without being opened;
/// only the outcome of the comparison is opened. At most `retry_cap` candidates
/// are drawn.
pub fn draw_below_modulus(source: &mut BitSource, f: &Field) -> (r: Result<
    Vec<Secret>,
    ProtocolError,
>)
    requires
        f.wf(),
    ensures
        ({
            let n = f@.bit_length as int;
            let j = rejected_run(f@.modulus, f@.bit_length, old(source)@, f@.retry_cap) as int;
            let len = old(source)@.len() as int;
            &&& j * n <= len
            &&& r is Ok <==> j < f@.retry_cap && (j + 1) * n <= len
            &&& j == f@.retry_cap <==> r == Err::<Vec<Secret>, ProtocolError>(
                ProtocolError::MaskingExhausted,
            )
            &&& j < f@.retry_cap && len < (j + 1) * n <==> r == Err::<Vec<Secret>, ProtocolError>(
                ProtocolError::RandomnessExhausted,
            )
            &&& r is Err ==> final(source)@ == old(source)@.subrange(j * n, len)
            &&& r matches Ok(candidate) ==> ({
                &&& (j + 1) * n <= len
                &&& candidate.len() == n
                &&& all_bits(secret_values(candidate@))
                &&& secret_values(candidate@) == bit_values(
                    old(source)@.subrange(j * n, (j + 1) * n),
                )
                &&& le_value(secret_values(candidate@)) < f@.modulus
                &&& final(source)@ == old(source)@.subrange((j + 1) * n, len)
            })
        }),
{
    let n: usize = f.bit_length();
    let cap: u64 = f.retry_cap();
    let ghost p = f@.modulus;
    let ghost start = source@;
    let ghost len = start.len() as int;
    let pbits = public_operands(&modulus_bits(f));
    let mut tries: u64 = 0;
    proof {
        assert(start.subrange(0, len) =~= start);
        assert(0 * n == 0) by (nonlinear_arith);
    }
    while tries < cap
        invariant
            f.wf(),
            n == f@.bit_length,
            cap == f@.retry_cap,
            p == f@.modulus,
            start == old(source)@,
            len == start.len(),
            pbits.len() == n,
            all_bits(operand_values(pbits@)),
            le_value(operand_values(pbits@)) == p,
            tries <= cap,
            tries * n <= len,
            source@ == start.subrange(tries * n, len),
            rejected_run(p, n as nat, start, cap as nat) == tries + rejected_run(
                p,
                n as nat,
                source@,
                (cap - tries) as nat,
            ),
        decreases cap - tries,
    {
        let ghost before = source@;
        proof {
            assert((tries + 1) * n == tries * n + n) by (nonlinear_arith);
        }
        let candidate = match source.draw(n, f) {
            Ok(v) => v,
            Err(e) => {
                proof {
                    assert(before.len() == len - tries * n);
                    assert(rejected_run(p, n as nat, before, (cap - tries) as nat) == 0);
                    assert(rejected_run(p, n as nat, start, cap as nat) == tries);
                }
                return Err(e);
            },
        };
        proof {
            assert(before.subrange(0, n as int) =~= start.subrange(tries * n, (tries + 1) * n));
            assert(before.subrange(n as int, before.len() as int) =~= start.subrange(
                (tries + 1) * n,
                len,
            ));
            assert(all_bits(secret_values(candidate@)));
            assert(secret_values(candidate@).len() == candidate.len());
            assert(bit_values(before.subrange(0, n as int)).len() == n);
        }
        let below = match full_compare(&secret_operands(&candidate), &pbits, f) {
            Ok(bit) => bit.open().to_u128(),
            Err(_) => 0,
        };
        if below == 1 {
            proof {
                assert(rejected_run(p, n as nat, before, (cap - tries) as nat) == 0);
                assert(rejected_run(p, n as nat, start, cap as nat) == tries);
            }
            return Ok(candidate);
        }
        proof {
            assert(rejected_run(p, n as nat, before, (cap - tries) as nat) == 1 + rejected_run(
                p,
                n as nat,
                before.subrange(n as int, before.len() as int),
                (cap - tries - 1) as nat,
            ));
        }
        tries = tries + 1;
    }
    proof {
        assert(rejected_run(p, n as nat, source@, 0) == 0);
    }
    Err(ProtocolError::MaskingExhausted)
}

/// The bits of one of two public numbers, chosen by a secret bit: those of
/// `on` where `q` is one, those of `off` where it is zero. Position by position,
/// `(on - off) * q + off`.
pub fn select_bits(q: &Secret, on: &Vec<Clear>, off: &Vec<Clear>, f: &Field) -> (out: Vec<
    Secret,
>)
    requires
        f.wf(),
        q@ <= 1,
        on.len() == off.len(),
        all_bits(clear_values(on@)),
        all_bits(clear_values(off@)),
    ensures
        out.len() == on.len(),
        secret_values(out@) == (if q@ == 1 {
            clear_values(on@)
        } else {
            clear_values(off@)
        }),
{
    let n: usize = on.len();
    let ghost p = f@.modulus;
    let mut out: Vec<Secret> = Vec::new();
    let mut i: usize = 0;
    while i < n
        invariant
            f.wf(),
            p == f@.modulus,
            q@ <= 1,
            n == on.len(),
            n == off.len(),
            all_bits(clear_values(on@)),
            all_bits(clear_values(off@)),
            i <= n,
            out.len() == i,
            forall|t: int|
                0 <= t < i ==> (#[trigger] out@[t])@ == (if q@ == 1 {
                    on@[t]@
                } else {
                    off@[t]@
                }),
        decreases n - i,
    {
        proof {
            assert(clear_values(on@)[i as int] <= 1);
            assert(clear_values(off@)[i as int] <= 1);
            lemma_small_mod(0, p);
            lemma_small_mod(1, p);
        }
        let gap = on[i].minus(&off[i], f);
        let scaled = q.times_public(&gap, f);
        let chosen = scaled.plus_public(&off[i], f);
        proof {
            let m = p as int;
            let x = on@[i as int]@ as int;
            let y = off@[i as int]@ as int;
            if q@ == 1 {
                assert(q@ * gap@ == gap@) by (nonlinear_arith)
                    requires
                        q@ == 1,
                ;
                lemma_small_mod(gap@, p);
                lemma_congruent_rem(x - y, m);
                lemma_congruent_sum(gap@ as int, x - y, y, y, m);
                lemma_small_mod(x as nat, p);
            } else {
                assert(q@ * gap@ == 0) by (nonlinear_arith)
                    requires
                        q@ == 0,
                ;
            }
        }
        out.push(chosen);
        i = i + 1;
    }
    proof {
        if q@ == 1 {
            assert(secret_values(out@) =~= clear_values(on@));
        } else {
            assert(secret_values(out@) =~= clear_values(off@));
        }
    }
    out
}

/// Undoing the reduction of a masked difference: with `c = (a - b) mod p`, the
/// sum `b + c` is `a` or `a + p`.
pub proof fn lemma_unmask(p: nat, a: nat, b: nat, c: nat)
    requires
        a < p,
        b < p,
        c == (a - b) % (p as int),
    ensures
        b + c < p ==> a == b + c,
        b + c >= p ==> a + p == b + c,
        c == 0 ==> a == b,
{
    if a >= b {
        lemma_small_mod((a - b) as nat, p);
    } else {
        lemma_fundamental_div_mod_converse_mod(a - b, p as int, -1, a - b + p);
    }
}

/// A zero on top does not change the number that bits represent.
pub proof fn lemma_le_push_zero(s: Seq<nat>)
    ensures
        le_value(s.push(0)) == le_value(s),
{
    let t = s.push(0);
    assert(t.drop_last() =~= s);
    assert(t.last() * pow2((t.len() - 1) as nat) == 0) by (nonlinear_arith)
        requires
            t.last() == 0,
    ;
}

/// What both ways of undoing the mask come to: the sum of the mask and the
/// opened difference, with two to the `n` in place of the modulus where the sum
/// reaches the modulus, has `(b + c) mod p` in its low `n` bits.
pub proof fn lemma_wrap_in_low_bits(p: nat, n: nat, b: nat, c: nat)
    requires
        0 < p < pow2(n),
        b < p,
        c < p,
    ensures
        b + c >= p ==> (b + c + pow2(n) - p) % (pow2(n) as int) == (b + c) % p,
        b + c < p ==> (b + c) % pow2(n) == (b + c) % p,
{
    let d = pow2(n) as int;
    if b + c >= p {
        lemma_fundamental_div_mod_converse_mod((b + c) as int, p as int, 1, b + c - p);
        lemma_fundamental_div_mod_converse_mod(b + c + d - p, d, 1, b + c - p);
    } else {
        lemma_small_mod(b + c, p);
        lemma_small_mod(b + c, pow2(n));
    }
}

/// Undoes the mask of a full decomposition where the modulus has at most 63
/// bits, so that the public side of the work fits machine integers: the bits of
/// `(b + c) mod p`, where `b` is the mask, given by its secret bits, and `c` the
/// opened difference.
///
/// Whether `b + c` reaches the modulus is found by comparing the secret mask
/// with the public `p - c`. The public numbers `c` and `c + 2^n - p` are both
/// written in bits, the secret outcome of the comparison selects one of them bit
/// by bit, and the selected bits are added to those of the mask.
pub fn unmask_narrow(mask_bits: &Vec<Secret>, c: &Clear, f: &Field) -> (out: Vec<Secret>)
    requires
        f.wf(),
        f@.bit_length <= 63,
        mask_bits.len() == f@.bit_length,
        all_bits(secret_values(mask_bits@)),
        le_value(secret_values(mask_bits@)) < f@.modulus,
        f.holds(c@),
    ensures
        out.len() == f@.bit_length,
        all_bits(secret_values(out@)),
        le_value(secret_values(out@)) == (le_value(secret_values(mask_bits@)) + c@) % f@.modulus,
{
    let n: usize = f.bit_length();
    let p: u128 = f.modulus();
    let cu: u128 = c.to_u128();
    let ghost b = le_value(secret_values(mask_bits@));
    let ghost d = pow2(n as nat);
    proof {
        lemma_small_mod(0, p as nat);
        lemma_small_mod(1, p as nat);
        lemma_small_mod((p - cu) as nat, d);
        lemma_small_mod(cu as nat, d);
        lemma_small_mod((d - (p - cu)) as nat, d);
    }
    let one = Secret::new(1, f);
    let mask_ops = secret_operands(mask_bits);
    let room = bits_of(p - cu, n, f);
    let below = match full_compare(&mask_ops, &public_operands(&room), f) {
        Ok(bit) => bit,
        Err(_) => one,
    };
    let wraps = one.minus(&below, f);
    let wrapped = bits_of(two_power(n) - (p - cu), n, f);
    let plain = bits_of(cu, n, f);
    let chosen = select_bits(&wraps, &wrapped, &plain, f);
    let sum = match bit_add(&mask_ops, &secret_operands(&chosen), f) {
        Ok(sum) => sum,
        Err(_) => Vec::new(),
    };
    let out = truncated(&sum, n);
    proof {
        let sv = secret_values(sum@);
        let ov = secret_values(out@);
        assert(ov =~= sv.subrange(0, n as int));
        assert forall|t: int| 0 <= t < ov.len() implies #[trigger] ov[t] <= 1 by {
            assert(ov[t] == sv[t]);
        }
        lemma_le_prefix_mod(sv, n as int);
        lemma_wrap_in_low_bits(p as nat, n as nat, b, cu as nat);
    }
    out
}

/// Undoes the mask of a full decomposition without any arithmetic on the
/// modulus as a machine integer: the bits of `(b + c) mod p`, where `b` is the
/// mask, given by its secret bits, and `c` the opened difference.
///
/// The bits of `c` are added to those of the mask; the sum is compared with the
/// bit pattern of the modulus; where it is not below, the bit pattern of the
/// two's complement of the modulus is added, which takes the modulus off in the
/// low bits.
pub fn unmask_wide(mask_bits: &Vec<Secret>, c: &Clear, f: &Field) -> (out: Vec<Secret>)
    requires
        f.wf(),
        mask_bits.len() == f@.bit_length,
        all_bits(secret_values(mask_bits@)),
        le_value(secret_values(mask_bits@)) < f@.modulus,
        f.holds(c@),
    ensures
        out.len() == f@.bit_length,
        all_bits(secret_values(out@)),
        le_value(secret_values(out@)) == (le_value(secret_values(mask_bits@)) + c@) % f@.modulus,
{
    let n: usize = f.bit_length();
    let ghost p = f@.modulus;
    let ghost b = le_value(secret_values(mask_bits@));
    let ghost d = pow2(n as nat);
    proof {
        lemma_small_mod(0, p);
        lemma_small_mod(1, p);
        lemma_small_mod(c@, d);
        lemma_small_mod(0, d);
        lemma_pow2_pos(n as nat);
    }
    let one = Secret::new(1, f);
    let zero = Secret::new(0, f);
    let cb = bits(c, n, f);
    let total = match bit_add(&public_operands(&cb), &secret_operands(mask_bits), f) {
        Ok(sum) => sum,
        Err(_) => Vec::new(),
    };
    let mut modulus = modulus_bits(f);
    let ghost short = clear_values(modulus@);
    modulus.push(Clear::new(0, f));
    proof {
        let long = clear_values(modulus@);
        assert(long =~= short.push(0));
        lemma_le_push_zero(short);
        assert forall|t: int| 0 <= t < long.len() implies #[trigger] long[t] <= 1 by {
            if t < short.len() {
                assert(long[t] == short[t]);
            }
        }
    }
    let total_ops = secret_operands(&total);
    let below = match full_compare(&total_ops, &public_operands(&modulus), f) {
        Ok(bit) => bit,
        Err(_) => one,
    };
    let wraps = one.minus(&below, f);
    let complement = prime_complement(f);
    let nothing = bits_of(0, n, f);
    let mut chosen = select_bits(&wraps, &complement, &nothing, f);
    let ghost picked = secret_values(chosen@);
    chosen.push(zero);
    proof {
        let padded = secret_values(chosen@);
        assert(padded =~= picked.push(0));
        lemma_le_push_zero(picked);
        assert forall|t: int| 0 <= t < padded.len() implies #[trigger] padded[t] <= 1 by {
            if t < picked.len() {
                assert(padded[t] == picked[t]);
            }
        }
    }
    let sum = match bit_add(&total_ops, &secret_operands(&chosen), f) {
        Ok(sum) => sum,
        Err(_) => Vec::new(),
    };
    let out = truncated(&sum, n);
    proof {
        let sv = secret_values(sum@);
        let ov = secret_values(out@);
        assert(ov =~= sv.subrange(0, n as int));
        assert forall|t: int| 0 <= t < ov.len() implies #[trigger] ov[t] <= 1 by {
            assert(ov[t] == sv[t]);
        }
        lemma_le_prefix_mod(sv, n as int);
        lemma_wrap_in_low_bits(p, n as nat, b, c@);
    }
    out
}

/// All the bits of a secret field element, least significant bit first: as
/// many as the modulus has. The bits represent the element itself, the one
/// number below the modulus that is congruent to it.
///
/// A random mask below the modulus is drawn by rejection sampling, the
/// difference of the secret and the mask is opened, and the mask is undone on
/// the bits. Where the opened difference is zero, the bits of the mask are the
/// answer as they stand. Where the modulus has more than 63 bits, the mask is
/// undone on bit patterns alone.
pub fn full_decompose(a: &Secret, source: &mut BitSource, f: &Field) -> (r: Result<
    Vec<Secret>,
    ProtocolError,
>)
    requires
        f.wf(),
        f.holds(a@),
    ensures
        ({
            let n = f@.bit_length as int;
            let j = rejected_run(f@.modulus, f@.bit_length, old(source)@, f@.retry_cap) as int;
            let len = old(source)@.len() as int;
            &&& r is Ok <==> j < f@.retry_cap && (j + 1) * n <= len
            &&& j == f@.retry_cap <==> r == Err::<Vec<Secret>, ProtocolError>(
                ProtocolError::MaskingExhausted,
            )
            &&& j < f@.retry_cap && len < (j + 1) * n <==> r == Err::<Vec<Secret>, ProtocolError>(
                ProtocolError::RandomnessExhausted,
            )
            &&& r is Err ==> final(source)@ == old(source)@.subrange(j * n, len)
            &&& r matches Ok(out) ==> ({
                &&& out.len() == n
                &&& all_bits(secret_values(out@))
                &&& le_value(secret_values(out@)) == a@
                &&& le_value(secret_values(out@)) % f@.modulus == a@ % f@.modulus
                &&& final(source)@ == old(source)@.subrange((j + 1) * n, len)
            })
        }),
{
    let candidate = match draw_below_modulus(source, f) {
        Ok(v) => v,
        Err(e) => {
            return Err(e);
        },
    };
    let ghost b = le_value(secret_values(candidate@));
    proof {
        lemma_small_mod(0, f@.modulus);
        lemma_small_mod(1, f@.modulus);
        lemma_small_mod(b, f@.modulus);
        assert(secret_values(candidate@).len() == candidate.len());
        assert forall|i: int| 0 <= i < candidate.len() implies f.holds(
            #[trigger] candidate@[i]@,
        ) by {
            assert(secret_values(candidate@)[i] == candidate@[i]@);
        }
    }
    let shared = sum_bits(&candidate, f);
    let c = a.minus(&shared, f).open();
    proof {
        lemma_unmask(f@.modulus, a@, b, c@);
        lemma_fundamental_div_mod((b + c@) as int, f@.modulus as int);
        if b + c@ < f@.modulus {
            lemma_small_mod(b + c@, f@.modulus);
        } else {
            lemma_fundamental_div_mod_converse_mod((b + c@) as int, f@.modulus as int, 1, a@ as int);
        }
    }
    if c.to_u128() == 0 {
        return Ok(candidate);
    }
    if f.bit_length() > 63 {
        Ok(unmask_wide(&candidate, &c, f))
    } else {
        Ok(unmask_narrow(&candidate, &c, f))
    }
}

} // verus!
