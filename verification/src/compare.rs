//! Oblivious comparison of numbers that are held as vectors of bits: a public
//! number against a secret one, and two numbers of which either may be secret.

use crate::arith::{all_bits, le_value, lemma_be_is_reversed_le, lemma_div_bit, lemma_le_bound};
use crate::carry::carry_out;
use crate::codec::bits_be;
use crate::error::ProtocolError;
use crate::field::Field;
use crate::ops::{lemma_bit_operators, xor_op, OrOp};
use crate::prefix::{combined, item_values, scan, Associative};
use crate::value::{operand_values, secret_values, Clear, Operand, Secret};
use vstd::arithmetic::div_mod::*;
use vstd::arithmetic::power2::*;
use vstd::prelude::*;

verus! {

/// The bitwise complement of a sequence of bits.
pub open spec fn complement(s: Seq<nat>) -> Seq<nat> {
    Seq::new(s.len(), |i: int| (1 - s[i]) as nat)
}

/// A number and its complement on `n` bits add up to two to the `n`, less one.
pub proof fn lemma_complement_value(s: Seq<nat>)
    requires
        all_bits(s),
    ensures
        all_bits(complement(s)),
        le_value(complement(s)) + le_value(s) + 1 == pow2(s.len()),
    decreases s.len(),
{
    let c = complement(s);
    if s.len() == 0 {
        lemma2_to64();
    } else {
        lemma_complement_value(s.drop_last());
        assert(c.drop_last() =~= complement(s.drop_last()));
        let n = (s.len() - 1) as nat;
        lemma_pow2_unfold(s.len());
        let d = pow2(n);
        assert(c.last() * d + s.last() * d == d) by (nonlinear_arith)
            requires
                c.last() + s.last() == 1,
        ;
    }
}

/// Whether a public number is less than a secret one that is given by its
/// bits, least significant bit first. Of the public number the lowest bits
/// count, as many as the secret one has. The answer is a secret bit.
///
/// The public number and the complement of the secret one are brought into
/// the order with the most significant bit first, and added with a carry-in of
/// one: there is a carry out exactly where the public number is not less.
pub fn less_than_public(a: &Clear, b: &Vec<Secret>, f: &Field) -> (r: Secret)
    requires
        f.wf(),
        all_bits(secret_values(b@)),
    ensures
        r@ == (if a@ % pow2(b.len() as nat) < le_value(secret_values(b@)) {
            1nat
        } else {
            0nat
        }),
        a@ < pow2(b.len() as nat) ==> r@ == (if a@ < le_value(secret_values(b@)) {
            1nat
        } else {
            0nat
        }),
{
    let k: usize = b.len();
    let ghost bv = secret_values(b@);
    let ghost p = f@.modulus;
    let one = Secret::new(1, f);
    proof {
        lemma_small_mod(0, p);
        lemma_small_mod(1, p);
    }
    let ab = bits_be(a, k, f);
    let mut sb: Vec<Secret> = Vec::new();
    let mut i: usize = 0;
    while i < k
        invariant
            f.wf(),
            p == f@.modulus,
            k == b.len(),
            i <= k,
            sb.len() == i,
            one@ == 1,
            bv == secret_values(b@),
            all_bits(bv),
            forall|t: int| 0 <= t < i ==> (#[trigger] sb@[t])@ == complement(bv)[k - 1 - t],
        decreases k - i,
    {
        proof {
            assert(bv[k - 1 - i] <= 1);
            lemma_small_mod(0, p);
            lemma_small_mod(1, p);
        }
        sb.push(one.minus(&b[k - 1 - i], f));
        i = i + 1;
    }
    proof {
        let sv = secret_values(sb@);
        lemma_complement_value(bv);
        assert(sv =~= complement(bv).reverse());
        assert(sv.reverse() =~= complement(bv));
        lemma_be_is_reversed_le(sv);
        assert forall|t: int| 0 <= t < sv.len() implies #[trigger] sv[t] <= 1 by {
            assert(sv[t] == complement(bv)[k - 1 - t]);
        }
    }
    let carry = match carry_out(&ab, &sb, &one, f) {
        Ok(c) => c,
        Err(_) => one,
    };
    let r = one.minus(&carry, f);
    proof {
        let av = a@ % pow2(k as nat);
        let d = pow2(k as nat) as int;
        lemma_pow2_pos(k as nat);
        lemma_le_bound(bv);
        lemma_mod_bound(a@ as int, d);
        lemma_div_bit(av + d - le_value(bv), d);
        if a@ < pow2(k as nat) {
            lemma_small_mod(a@, pow2(k as nat));
        }
    }
    r
}

/// Whether `a` is less than `b`, decided at the most significant position
/// where they differ: there the bit of `b` is the answer. Both are least
/// significant bit first.
pub open spec fn less_bits(a: Seq<nat>, b: Seq<nat>) -> nat
    recommends
        a.len() == b.len(),
    decreases a.len(),
{
    if a.len() == 0 || b.len() == 0 {
        0
    } else if a.last() != b.last() {
        b.last()
    } else {
        less_bits(a.drop_last(), b.drop_last())
    }
}

/// `less_bits` compares the numbers that the bits represent.
pub proof fn lemma_less_bits(a: Seq<nat>, b: Seq<nat>)
    requires
        a.len() == b.len(),
        all_bits(a),
        all_bits(b),
    ensures
        less_bits(a, b) == (if le_value(a) < le_value(b) { 1nat } else { 0nat }),
    decreases a.len(),
{
    if a.len() > 0 {
        lemma_less_bits(a.drop_last(), b.drop_last());
        lemma_le_bound(a.drop_last());
        lemma_le_bound(b.drop_last());
        let d = pow2((a.len() - 1) as nat);
        assert(a.last() * d == (if a.last() == 1 { d } else { 0 })) by (nonlinear_arith)
            requires
                a.last() <= 1,
        ;
        assert(b.last() * d == (if b.last() == 1 { d } else { 0 })) by (nonlinear_arith)
            requires
                b.last() <= 1,
        ;
    }
}

/// The exclusive or of two bit vectors, in the opposite order.
pub open spec fn reversed_difference(p: nat, a: Seq<nat>, b: Seq<nat>) -> Seq<nat>
    recommends
        a.len() == b.len(),
{
    Seq::new(
        a.len(),
        |j: int| crate::ops::xor_value(p, a[a.len() - 1 - j], b[a.len() - 1 - j]),
    )
}

/// Whether one of the first `n` entries is one.
pub open spec fn any_set(s: Seq<nat>, n: int) -> bool {
    exists|t: int| 0 <= t < n && #[trigger] s[t] == 1
}

/// One more entry is looked at.
pub proof fn lemma_any_set_step(s: Seq<nat>, n: int)
    requires
        0 <= n < s.len(),
    ensures
        any_set(s, n + 1) == (any_set(s, n) || s[n] == 1),
        !any_set(s, 0),
{
    if any_set(s, n + 1) {
        let t = choose|t: int| 0 <= t < n + 1 && #[trigger] s[t] == 1;
        if t < n {
            assert(any_set(s, n));
        }
    }
    if any_set(s, n) {
        let t = choose|t: int| 0 <= t < n && #[trigger] s[t] == 1;
        assert(0 <= t < n + 1 && s[t] == 1);
    }
    if s[n] == 1 {
        assert(0 <= n < n + 1 && s[n] == 1);
    }
}

/// The logical or of the first `j + 1` entries of a sequence of bits is one
/// exactly where one of them is.
pub proof fn lemma_prefix_or(f: &Field, e: Seq<nat>, j: int)
    requires
        f.wf(),
        0 <= j < e.len(),
        all_bits(e),
    ensures
        combined::<OrOp>(f, e.subrange(0, j + 1)) == (if any_set(e, j + 1) {
            1nat
        } else {
            0nat
        }),
    decreases j,
{
    let s = e.subrange(0, j + 1);
    assert(s.last() == e[j]);
    lemma_any_set_step(e, j);
    if j > 0 {
        lemma_prefix_or(f, e, j - 1);
        assert(s.drop_last() =~= e.subrange(0, j));
        lemma_bit_operators(f@.modulus, combined::<OrOp>(f, e.subrange(0, j)), e[j]);
    } else {
        lemma_any_set_step(e, 0);
    }
}

/// The inclusive prefix or of secret bits: position `i` of the result is one
/// exactly where one of the bits at positions `0..=i` is.
pub fn prefix_or(bits: &Vec<Secret>, f: &Field) -> (out: Vec<Secret>)
    requires
        f.wf(),
        all_bits(secret_values(bits@)),
    ensures
        out.len() == bits.len(),
        forall|i: int|
            0 <= i < out.len() ==> (#[trigger] out@[i])@ == (if any_set(
                secret_values(bits@),
                i + 1,
            ) {
                1nat
            } else {
                0nat
            }),
{
    let ghost e = secret_values(bits@);
    proof {
        assert(item_values::<OrOp>(bits@) =~= e);
        assert forall|t: int| 0 <= t < e.len() implies OrOp::valid(f, #[trigger] e[t]) by {
            assert(e[t] <= 1);
        }
    }
    let out = scan(&OrOp, f, bits);
    proof {
        assert forall|i: int| 0 <= i < out.len() implies (#[trigger] out@[i])@ == (if any_set(
            e,
            i + 1,
        ) {
            1nat
        } else {
            0nat
        }) by {
            assert(OrOp::value(out@[i]) == out@[i]@);
            lemma_prefix_or(f, e, i);
        }
    }
    out
}

/// Whether `a` is less than `b`, for two numbers that are given by their bits,
/// least significant bit first; either may be public or secret, bit by bit. The
/// answer is a secret bit, and nothing is opened on the way.
///
/// The bitwise differences are put in the order with the most significant bit
/// first; their prefix or marks every position from the highest differing one
/// downwards; the difference of neighbouring marks singles that position out, and
/// the bit of `b` there is the answer.
pub fn full_compare(a: &Vec<Operand>, b: &Vec<Operand>, f: &Field) -> (r: Result<
    Secret,
    ProtocolError,
>)
    requires
        f.wf(),
        all_bits(operand_values(a@)),
        all_bits(operand_values(b@)),
    ensures
        a.len() != b.len() <==> r is Err,
        r matches Err(e) ==> e == ProtocolError::LengthMismatch,
        r matches Ok(bit) ==> bit@ == (if le_value(operand_values(a@)) < le_value(
            operand_values(b@),
        ) {
            1nat
        } else {
            0nat
        }),
{
    if a.len() != b.len() {
        return Err(ProtocolError::LengthMismatch);
    }
    let k: usize = a.len();
    let ghost av = operand_values(a@);
    let ghost bv = operand_values(b@);
    let ghost p = f@.modulus;
    let ghost ev = reversed_difference(p, av, bv);
    proof {
        lemma_small_mod(0, p);
        lemma_small_mod(1, p);
        lemma_less_bits(av, bv);
    }
    let mut e: Vec<Secret> = Vec::new();
    let mut i: usize = 0;
    while i < k
        invariant
            f.wf(),
            p == f@.modulus,
            k == a.len(),
            k == b.len(),
            i <= k,
            e.len() == i,
            av == operand_values(a@),
            bv == operand_values(b@),
            all_bits(av),
            all_bits(bv),
            ev == reversed_difference(p, av, bv),
            forall|t: int| 0 <= t < i ==> (#[trigger] e@[t])@ == ev[t],
        decreases k - i,
    {
        proof {
            assert(av[k - 1 - i] <= 1 && bv[k - 1 - i] <= 1);
        }
        let x = a[k - 1 - i].to_secret();
        let y = b[k - 1 - i].to_secret();
        e.push(xor_op(&x, &y, f));
        i = i + 1;
    }
    proof {
        assert(secret_values(e@) =~= ev);
        assert forall|t: int| 0 <= t < ev.len() implies #[trigger] ev[t] <= 1 by {
            lemma_bit_operators(p, av[k - 1 - t], bv[k - 1 - t]);
        }
    }
    let marks = prefix_or(&e, f);
    let mut acc = Secret::new(0, f);
    let mut j: usize = 0;
    proof {
        assert(av.subrange(0, k as int) =~= av);
        assert(bv.subrange(0, k as int) =~= bv);
    }
    while j < k
        invariant
            f.wf(),
            p == f@.modulus,
            k == a.len(),
            k == b.len(),
            j <= k,
            marks.len() == k,
            av == operand_values(a@),
            bv == operand_values(b@),
            all_bits(av),
            all_bits(bv),
            all_bits(ev),
            ev == reversed_difference(p, av, bv),
            forall|t: int|
                0 <= t < k ==> (#[trigger] marks@[t])@ == (if any_set(ev, t + 1) {
                    1nat
                } else {
                    0nat
                }),
            acc@ <= 1,
            j > 0 && marks@[j - 1]@ == 1 ==> acc@ == less_bits(av, bv),
            j == 0 || marks@[j - 1]@ != 1 ==> acc@ == 0 && less_bits(av, bv) == less_bits(
                av.subrange(0, k - j),
                bv.subrange(0, k - j),
            ),
        decreases k - j,
    {
        let pos: usize = k - 1 - j;
        proof {
            lemma_any_set_step(ev, j as int);
            assert(av[pos as int] <= 1 && bv[pos as int] <= 1);
            lemma_bit_operators(p, av[pos as int], bv[pos as int]);
            lemma_small_mod(0, p);
            lemma_small_mod(1, p);
        }
        let single = if j == 0 {
            marks[j]
        } else {
            marks[j].minus(&marks[j - 1], f)
        };
        let hit = b[pos].to_secret().times(&single, f);
        proof {
            lemma_bit_operators(p, bv[pos as int], single@);
            let a1 = av.subrange(0, k - j);
            let b1 = bv.subrange(0, k - j);
            assert(a1.last() == av[pos as int]);
            assert(b1.last() == bv[pos as int]);
            assert(a1.drop_last() =~= av.subrange(0, k - j - 1));
            assert(b1.drop_last() =~= bv.subrange(0, k - j - 1));
        }
        acc = acc.plus(&hit, f);
        j = j + 1;
    }
    proof {
        assert(av.subrange(0, 0).len() == 0);
    }
    Ok(acc)
}

} // verus!
