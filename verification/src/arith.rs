//! Facts about congruences and about the integer that a sequence of bits
//! represents.

use vstd::arithmetic::div_mod::*;
use vstd::arithmetic::power2::*;
use vstd::prelude::*;

verus! {

/// `a` and `b` leave the same remainder modulo `m`.
pub open spec fn congruent(a: int, b: int, m: int) -> bool {
    a % m == b % m
}

/// Sums of congruent numbers are congruent.
pub proof fn lemma_congruent_sum(a: int, a2: int, b: int, b2: int, m: int)
    requires
        m > 0,
        congruent(a, a2, m),
        congruent(b, b2, m),
    ensures
        congruent(a + b, a2 + b2, m),
{
    lemma_add_mod_noop(a, b, m);
    lemma_add_mod_noop(a2, b2, m);
}

/// Differences of congruent numbers are congruent.
pub proof fn lemma_congruent_diff(a: int, a2: int, b: int, b2: int, m: int)
    requires
        m > 0,
        congruent(a, a2, m),
        congruent(b, b2, m),
    ensures
        congruent(a - b, a2 - b2, m),
{
    lemma_sub_mod_noop(a, b, m);
    lemma_sub_mod_noop(a2, b2, m);
}

/// Products of congruent numbers are congruent.
pub proof fn lemma_congruent_prod(a: int, a2: int, b: int, b2: int, m: int)
    requires
        m > 0,
        congruent(a, a2, m),
        congruent(b, b2, m),
    ensures
        congruent(a * b, a2 * b2, m),
{
    lemma_mul_mod_noop(a, b, m);
    lemma_mul_mod_noop(a2, b2, m);
}

/// A number is congruent to its remainder.
pub proof fn lemma_congruent_rem(a: int, m: int)
    requires
        m > 0,
    ensures
        congruent(a % m, a, m),
{
    lemma_mod_twice(a, m);
}

/// The integer that a sequence of bits represents, least significant bit
/// first.
pub open spec fn le_value(s: Seq<nat>) -> nat
    decreases s.len(),
{
    if s.len() == 0 {
        0
    } else {
        le_value(s.drop_last()) + s.last() * pow2((s.len() - 1) as nat)
    }
}

/// The integer that a sequence of bits represents, most significant bit
/// first.
pub open spec fn be_value(s: Seq<nat>) -> nat
    decreases s.len(),
{
    if s.len() == 0 {
        0
    } else {
        2 * be_value(s.drop_last()) + s.last()
    }
}

/// Every entry is zero or one.
pub open spec fn all_bits(s: Seq<nat>) -> bool {
    forall|i: int| 0 <= i < s.len() ==> #[trigger] s[i] <= 1
}

/// A sequence of `n` bits, least significant first, represents a number below
/// two to the `n`.
pub proof fn lemma_le_bound(s: Seq<nat>)
    requires
        all_bits(s),
    ensures
        le_value(s) < pow2(s.len()),
    decreases s.len(),
{
    if s.len() == 0 {
        lemma2_to64();
    } else {
        lemma_le_bound(s.drop_last());
        lemma_pow2_unfold(s.len());
        let top = pow2((s.len() - 1) as nat);
        assert(s.last() * top <= top) by (nonlinear_arith)
            requires
                s.last() <= 1,
        ;
    }
}

/// A sequence of `n` bits, most significant first, represents a number below
/// two to the `n`.
pub proof fn lemma_be_bound(s: Seq<nat>)
    requires
        all_bits(s),
    ensures
        be_value(s) < pow2(s.len()),
    decreases s.len(),
{
    if s.len() == 0 {
        lemma2_to64();
    } else {
        lemma_be_bound(s.drop_last());
        lemma_pow2_unfold(s.len());
    }
}

/// The value of a little-endian sequence, taken from its first entry.
pub proof fn lemma_le_first(s: Seq<nat>)
    requires
        s.len() >= 1,
    ensures
        le_value(s) == s[0] + 2 * le_value(s.drop_first()),
    decreases s.len(),
{
    if s.len() == 1 {
        lemma2_to64();
        assert(s.drop_last().len() == 0);
        assert(s.drop_first().len() == 0);
        assert(le_value(s.drop_last()) == 0);
        assert(le_value(s.drop_first()) == 0);
        assert(s.last() * pow2(0) == s[0]) by (nonlinear_arith)
            requires
                pow2(0) == 1,
                s.last() == s[0],
        ;
    } else {
        let front = s.drop_last();
        lemma_le_first(front);
        assert(front.drop_first() =~= s.drop_first().drop_last());
        let n = (s.len() - 1) as nat;
        lemma_pow2_unfold(n);
        let rest = s.drop_first();
        assert(rest.last() == s.last());
        assert(rest.len() == n);
        assert(le_value(rest) == le_value(rest.drop_last()) + rest.last() * pow2((n - 1) as nat));
        assert(le_value(s) == le_value(front) + s.last() * pow2(n));
        assert(2 * (s.last() * pow2((n - 1) as nat)) == s.last() * pow2(n)) by (nonlinear_arith)
            requires
                pow2(n) == 2 * pow2((n - 1) as nat),
        ;
    }
}

/// Reading a sequence most significant bit first is reading its reversal
/// least significant bit first.
pub proof fn lemma_be_is_reversed_le(s: Seq<nat>)
    ensures
        be_value(s) == le_value(s.reverse()),
    decreases s.len(),
{
    if s.len() > 0 {
        let r = s.reverse();
        lemma_be_is_reversed_le(s.drop_last());
        lemma_le_first(r);
        assert(r.drop_first() =~= s.drop_last().reverse());
        assert(r[0] == s.last());
    } else {
        assert(s.reverse().len() == 0);
    }
}

/// The quotient of a number below `2 * d` by `d` is one or zero.
pub proof fn lemma_div_bit(x: int, d: int)
    requires
        d >= 1,
        0 <= x < 2 * d,
    ensures
        x / d == (if x >= d { 1int } else { 0int }),
{
    if x >= d {
        lemma_fundamental_div_mod_converse_div(x, d, 1, x - d);
    } else {
        lemma_fundamental_div_mod_converse_div(x, d, 0, x);
    }
}

/// The carry out of a sum whose lowest position is split off: `upper` is the
/// sum of the two operands without their lowest bits, `low` the sum of the lowest
/// bits and the carry-in. The whole produces a carry where the upper part does by
/// itself, or where it is all ones and the lowest position carries.
pub proof fn lemma_carry_from_below(upper: int, d: int, low: int)
    requires
        d >= 1,
        0 <= upper <= 2 * d - 2,
        0 <= low <= 3,
    ensures
        (2 * upper + low) / (2 * d) == upper / d + (if upper == d - 1 { low / 2 } else { 0 }),
        upper / d + (if upper == d - 1 { low / 2 } else { 0 }) <= 1,
{
    lemma_div_bit(upper, d);
    lemma_div_bit(2 * upper + low, 2 * d);
    lemma_div_bit(low, 2);
}

/// The first `m` bits of a little-endian bit sequence represent the value of
/// the whole sequence modulo two to the `m`.
pub proof fn lemma_le_prefix_mod(s: Seq<nat>, m: int)
    requires
        all_bits(s),
        0 <= m <= s.len(),
    ensures
        le_value(s.subrange(0, m)) == le_value(s) % pow2(m as nat),
    decreases s.len(),
{
    if m == s.len() {
        assert(s.subrange(0, m) =~= s);
        lemma_le_bound(s);
        lemma_small_mod(le_value(s), pow2(m as nat));
    } else {
        let front = s.drop_last();
        lemma_le_prefix_mod(front, m);
        assert(front.subrange(0, m) =~= s.subrange(0, m));
        let n = (s.len() - 1) as nat;
        let d = pow2(m as nat) as int;
        lemma_pow2_pos(m as nat);
        lemma_pow2_adds((n - m) as nat, m as nat);
        let q = s.last() * pow2((n - m) as nat);
        assert(s.last() * pow2(n) == d * q) by (nonlinear_arith)
            requires
                pow2(n) == pow2((n - m) as nat) * d,
                q == s.last() * pow2((n - m) as nat),
        ;
        lemma_mod_multiples_vanish(q as int, le_value(front) as int, d);
    }
}

/// The bits of a sequence as numbers: one for a set bit, zero for a clear
/// one.
pub open spec fn bit_values(s: Seq<bool>) -> Seq<nat> {
    Seq::new(s.len(), |i: int| if s[i] { 1nat } else { 0nat })
}

/// Read most significant bit first, a sequence represents at least what any of
/// its prefixes does.
pub proof fn lemma_be_prefix_le(s: Seq<nat>, n: int)
    requires
        0 <= n <= s.len(),
    ensures
        be_value(s.subrange(0, n)) <= be_value(s),
    decreases s.len(),
{
    if n == s.len() {
        assert(s.subrange(0, n) =~= s);
    } else {
        lemma_be_prefix_le(s.drop_last(), n);
        assert(s.drop_last().subrange(0, n) =~= s.subrange(0, n));
    }
}

} // verus!
