//! Carry propagation: the combinator on (propagate, generate) pairs, its
//! reduction to one carry-out bit and its prefix network.

use crate::arith::{
    all_bits, be_value, lemma_be_bound, lemma_carry_from_below, lemma_congruent_diff,
    lemma_congruent_prod, lemma_congruent_rem, lemma_congruent_sum, lemma_div_bit,
};
use crate::error::ProtocolError;
use crate::field::{prod_mod, Field};
use crate::ops::{lemma_bit_operators, xor_value};
use crate::prefix::{all_valid, combined, fold, item_values, scan, Associative};
use crate::value::{clear_values, secret_values, Clear, Operand, Secret};
use vstd::arithmetic::div_mod::*;
use vstd::arithmetic::power2::*;
use vstd::prelude::*;

verus! {

/// The carry behaviour of a run of bit positions: whether the run passes an
/// incoming carry on, and whether it produces a carry by itself.
#[derive(Clone, Copy)]
pub struct CarryPair {
    /// One where the run passes an incoming carry on.
    pub propagate: Secret,
    /// One where the run produces a carry by itself.
    pub generate: Secret,
}

/// The composition of two adjacent runs, `lower` on the less significant side:
/// `(p_lower * p_upper, g_upper + p_upper * g_lower)`.
pub open spec fn combine_value(p: nat, lower: (nat, nat), upper: (nat, nat)) -> (nat, nat) {
    (prod_mod(p, lower.0, upper.0), ((upper.1 + upper.0 * lower.1) % p) as nat)
}

/// The content of a pair: propagate first, generate second.
pub open spec fn pair_value(pair: CarryPair) -> (nat, nat) {
    (pair.propagate@, pair.generate@)
}

/// Composition of runs is associative.
pub proof fn lemma_combine_associative(p: nat, x: (nat, nat), y: (nat, nat), z: (nat, nat))
    requires
        p >= 2,
    ensures
        combine_value(p, combine_value(p, x, y), z) == combine_value(
            p,
            x,
            combine_value(p, y, z),
        ),
{
    let m = p as int;
    let xy = combine_value(p, x, y);
    let yz = combine_value(p, y, z);
    let (px, gx) = (x.0 as int, x.1 as int);
    let (py, gy) = (y.0 as int, y.1 as int);
    let (pz, gz) = (z.0 as int, z.1 as int);
    // propagate
    lemma_congruent_rem(px * py, m);
    lemma_congruent_rem(py * pz, m);
    lemma_congruent_prod(xy.0 as int, px * py, pz, pz, m);
    lemma_congruent_prod(px, px, yz.0 as int, py * pz, m);
    assert((px * py) * pz == px * (py * pz)) by (nonlinear_arith);
    // generate
    lemma_congruent_rem(gy + py * gx, m);
    lemma_congruent_prod(pz, pz, xy.1 as int, gy + py * gx, m);
    lemma_congruent_sum(gz, gz, pz * (xy.1 as int), pz * (gy + py * gx), m);
    lemma_congruent_rem(gz + pz * gy, m);
    lemma_congruent_prod(yz.0 as int, py * pz, gx, gx, m);
    lemma_congruent_sum(yz.1 as int, gz + pz * gy, (yz.0 as int) * gx, (py * pz) * gx, m);
    assert(gz + pz * (gy + py * gx) == (gz + pz * gy) + (py * pz) * gx) by (nonlinear_arith);
}

/// Composes two adjacent runs, `lower` on the less significant side.
pub fn combine(lower: &CarryPair, upper: &CarryPair, f: &Field) -> (r: CarryPair)
    requires
        f.wf(),
        f.holds(lower.propagate@),
        f.holds(lower.generate@),
        f.holds(upper.propagate@),
        f.holds(upper.generate@),
    ensures
        pair_value(r) == combine_value(f@.modulus, pair_value(*lower), pair_value(*upper)),
        f.holds(r.propagate@),
        f.holds(r.generate@),
{
    let propagate = lower.propagate.times(&upper.propagate, f);
    let passed = upper.propagate.times(&lower.generate, f);
    let generate = upper.generate.plus(&passed, f);
    proof {
        let m = f@.modulus as int;
        let x = upper.propagate@ as int;
        let y = lower.generate@ as int;
        let g = upper.generate@ as int;
        lemma_congruent_rem(x * y, m);
        lemma_congruent_sum(g, g, passed@ as int, x * y, m);
    }
    CarryPair { propagate, generate }
}

/// Composition with the less significant run on the left: the operator of a
/// prefix network over positions in ascending significance.
pub struct CarryUp;

/// Composition with the more significant run on the left: the operator of a
/// reduction over positions in descending significance.
pub struct CarryDown;

impl Associative for CarryUp {
    type Item = CarryPair;

    type Value = (nat, nat);

    open spec fn value(item: CarryPair) -> (nat, nat) {
        pair_value(item)
    }

    open spec fn valid(f: &Field, v: (nat, nat)) -> bool {
        f.holds(v.0) && f.holds(v.1)
    }

    open spec fn op(f: &Field, a: (nat, nat), b: (nat, nat)) -> (nat, nat) {
        combine_value(f@.modulus, a, b)
    }

    fn apply(&self, f: &Field, a: &CarryPair, b: &CarryPair) -> (r: CarryPair) {
        combine(a, b, f)
    }

    proof fn lemma_associative(f: &Field, a: (nat, nat), b: (nat, nat), c: (nat, nat)) {
        lemma_combine_associative(f@.modulus, a, b, c);
        lemma_mod_bound((a.0 * b.0) as int, f@.modulus as int);
        lemma_mod_bound((b.1 + b.0 * a.1) as int, f@.modulus as int);
    }
}

impl Associative for CarryDown {
    type Item = CarryPair;

    type Value = (nat, nat);

    open spec fn value(item: CarryPair) -> (nat, nat) {
        pair_value(item)
    }

    open spec fn valid(f: &Field, v: (nat, nat)) -> bool {
        f.holds(v.0) && f.holds(v.1)
    }

    open spec fn op(f: &Field, a: (nat, nat), b: (nat, nat)) -> (nat, nat) {
        combine_value(f@.modulus, b, a)
    }

    fn apply(&self, f: &Field, a: &CarryPair, b: &CarryPair) -> (r: CarryPair) {
        combine(b, a, f)
    }

    proof fn lemma_associative(f: &Field, a: (nat, nat), b: (nat, nat), c: (nat, nat)) {
        lemma_combine_associative(f@.modulus, c, b, a);
        lemma_mod_bound((b.0 * a.0) as int, f@.modulus as int);
        lemma_mod_bound((a.1 + a.0 * b.1) as int, f@.modulus as int);
    }
}

/// The inclusive prefix compositions of `pairs`, which are in ascending
/// significance: position `i` of the result describes the run of positions
/// `0..=i`.
pub fn scan_paired(pairs: &Vec<CarryPair>, f: &Field) -> (out: Vec<CarryPair>)
    requires
        f.wf(),
        all_valid::<CarryUp>(f, item_values::<CarryUp>(pairs@)),
    ensures
        out.len() == pairs.len(),
        all_valid::<CarryUp>(f, item_values::<CarryUp>(out@)),
        forall|i: int|
            0 <= i < out.len() ==> #[trigger] pair_value(out@[i]) == combined::<CarryUp>(
                f,
                item_values::<CarryUp>(pairs@).subrange(0, i + 1),
            ),
{
    let out = scan(&CarryUp, f, pairs);
    proof {
        assert forall|i: int| 0 <= i < out.len() implies #[trigger] pair_value(out@[i])
            == combined::<CarryUp>(f, item_values::<CarryUp>(pairs@).subrange(0, i + 1)) by {
            assert(CarryUp::value(out@[i]) == pair_value(out@[i]));
        }
    }
    out
}

/// The generate component of the composition of all of `pairs`, which are in
/// descending significance: the carry out of the whole run. Neighbours are
/// composed two by two, round after round, until one pair is left; the last
/// pair of an odd-length round is carried forward unchanged. Returns `None` for
/// an empty input.
pub fn reduce_carry(pairs: &Vec<CarryPair>, f: &Field) -> (r: Option<Secret>)
    requires
        f.wf(),
        all_valid::<CarryDown>(f, item_values::<CarryDown>(pairs@)),
    ensures
        pairs.len() == 0 <==> r is None,
        r matches Some(g) ==> g@ == combined::<CarryDown>(
            f,
            item_values::<CarryDown>(pairs@),
        ).1 && f.holds(g@),
{
    match fold(&CarryDown, f, pairs) {
        Some(whole) => Some(whole.generate),
        None => None,
    }
}

/// The pair of one bit position of a sum: it passes a carry on where exactly
/// one of the two bits is set, and produces one where both are.
pub fn half_adder(x: &Operand, y: &Operand, f: &Field) -> (r: CarryPair)
    requires
        f.wf(),
        f.holds(x@),
        f.holds(y@),
    ensures
        pair_value(r) == (xor_value(f@.modulus, x@, y@), prod_mod(f@.modulus, x@, y@)),
        f.holds(r.propagate@),
        f.holds(r.generate@),
{
    let generate = x.times(y, f).to_secret();
    let both = x.plus(y, f).to_secret();
    let twice = generate.plus(&generate, f);
    let propagate = both.minus(&twice, f);
    proof {
        let m = f@.modulus as int;
        let a = x@ as int;
        let b = y@ as int;
        lemma_congruent_rem(a + b, m);
        lemma_congruent_rem(a * b, m);
        lemma_congruent_sum(generate@ as int, a * b, generate@ as int, a * b, m);
        lemma_congruent_rem((generate@ + generate@) as int, m);
        lemma_congruent_diff(both@ as int, a + b, twice@ as int, 2 * (a * b), m);
    }
    CarryPair { propagate, generate }
}

/// The pairs of the bit positions of `a + b`.
pub open spec fn pairs_of(p: nat, a: Seq<nat>, b: Seq<nat>) -> Seq<(nat, nat)>
    recommends
        a.len() == b.len(),
{
    Seq::new(a.len(), |i: int| (xor_value(p, a[i], b[i]), prod_mod(p, a[i], b[i])))
}

/// The pairs of `a + b + c`, for operands that are most significant bit first:
/// the carry-in `c` is taken into the pair of the last position.
pub open spec fn pairs_with_carry(p: nat, a: Seq<nat>, b: Seq<nat>, c: nat) -> Seq<(nat, nat)>
    recommends
        a.len() == b.len(),
        a.len() >= 1,
{
    let plain = pairs_of(p, a, b);
    let last = plain.last();
    plain.update(plain.len() - 1, (last.0, ((last.1 + c * last.0) % p) as nat))
}

/// What the composition of the pairs of `a + b` says, for operands of bits that
/// are most significant bit first: its generate component is the carry out of
/// the sum, and its propagate component is one exactly where the sum is all
/// ones.
pub proof fn lemma_chain_down(f: &Field, a: Seq<nat>, b: Seq<nat>)
    requires
        f.wf(),
        a.len() == b.len(),
        a.len() >= 1,
        all_bits(a),
        all_bits(b),
    ensures
        combined::<CarryDown>(f, pairs_of(f@.modulus, a, b)).1 == (be_value(a) + be_value(b))
            / pow2(a.len()),
        combined::<CarryDown>(f, pairs_of(f@.modulus, a, b)).0 == (if be_value(a) + be_value(b)
            == pow2(a.len()) - 1 {
            1nat
        } else {
            0nat
        }),
    decreases a.len(),
{
    let p = f@.modulus;
    let n = a.len();
    let s = pairs_of(p, a, b);
    let a0 = a.last();
    let b0 = b.last();
    lemma_bit_operators(p, a0, b0);
    lemma2_to64();
    assert(all_bits(a.drop_last()));
    assert(all_bits(b.drop_last()));
    if n == 1 {
        assert(a.drop_last().len() == 0);
        assert(b.drop_last().len() == 0);
        assert(be_value(a) == a0);
        assert(be_value(b) == b0);
        lemma_div_bit((a0 + b0) as int, 2);
    } else {
        let front = pairs_of(p, a.drop_last(), b.drop_last());
        assert(s.drop_last() =~= front);
        lemma_chain_down(f, a.drop_last(), b.drop_last());
        let up = combined::<CarryDown>(f, front);
        let upper = (be_value(a.drop_last()) + be_value(b.drop_last())) as int;
        let d = pow2((n - 1) as nat) as int;
        lemma_pow2_unfold(n);
        lemma_pow2_pos((n - 1) as nat);
        lemma_be_bound(a.drop_last());
        lemma_be_bound(b.drop_last());
        lemma_carry_from_below(upper, d, (a0 + b0) as int);
        lemma_div_bit(upper, d);
        lemma_div_bit((a0 + b0) as int, 2);
        let g0 = s.last().1;
        let p0 = s.last().0;
        assert(up.0 * g0 == (if up.0 == 1 && g0 == 1 { 1nat } else { 0nat })) by (nonlinear_arith)
            requires
                up.0 <= 1,
                g0 <= 1,
        ;
        assert(p0 * up.0 == (if up.0 == 1 && p0 == 1 { 1nat } else { 0nat })) by (nonlinear_arith)
            requires
                up.0 <= 1,
                p0 <= 1,
        ;
        lemma_small_mod(0, p);
        lemma_small_mod(1, p);
    }
}

/// The same with a carry-in: the generate component of the composition is the
/// carry out of `a + b + c`.
pub proof fn lemma_chain_down_carry(f: &Field, a: Seq<nat>, b: Seq<nat>, c: nat)
    requires
        f.wf(),
        a.len() == b.len(),
        a.len() >= 1,
        all_bits(a),
        all_bits(b),
        c <= 1,
    ensures
        combined::<CarryDown>(f, pairs_with_carry(f@.modulus, a, b, c)).1 == (be_value(a)
            + be_value(b) + c) / pow2(a.len()),
        combined::<CarryDown>(f, pairs_with_carry(f@.modulus, a, b, c)).1 <= 1,
{
    let p = f@.modulus;
    let n = a.len();
    let plain = pairs_of(p, a, b);
    let s = pairs_with_carry(p, a, b, c);
    let a0 = a.last();
    let b0 = b.last();
    lemma_bit_operators(p, a0, b0);
    lemma2_to64();
    lemma_small_mod(0, p);
    lemma_small_mod(1, p);
    let p0 = plain.last().0;
    assert(c * p0 == (if c == 1 && p0 == 1 { 1nat } else { 0nat })) by (nonlinear_arith)
        requires
            c <= 1,
            p0 <= 1,
    ;
    let low = (a0 + b0 + c) as int;
    lemma_div_bit(low, 2);
    assert(s.last().1 == low / 2);
    assert(all_bits(a.drop_last()));
    assert(all_bits(b.drop_last()));
    if n == 1 {
        assert(a.drop_last().len() == 0);
        assert(b.drop_last().len() == 0);
        assert(be_value(a) == a0);
        assert(be_value(b) == b0);
    } else {
        let front = pairs_of(p, a.drop_last(), b.drop_last());
        assert(s.drop_last() =~= front);
        lemma_chain_down(f, a.drop_last(), b.drop_last());
        let up = combined::<CarryDown>(f, front);
        let upper = (be_value(a.drop_last()) + be_value(b.drop_last())) as int;
        let d = pow2((n - 1) as nat) as int;
        lemma_pow2_unfold(n);
        lemma_pow2_pos((n - 1) as nat);
        lemma_be_bound(a.drop_last());
        lemma_be_bound(b.drop_last());
        lemma_carry_from_below(upper, d, low);
        lemma_div_bit(upper, d);
        let g1 = s.last().1;
        assert(up.0 * g1 == (if up.0 == 1 && g1 == 1 { 1nat } else { 0nat })) by (nonlinear_arith)
            requires
                up.0 <= 1,
                g1 <= 1,
        ;
    }
}

/// The carry out of `a + b + c_in`, for a public and a secret operand of bits
/// that are both most significant bit first. The carry-in enters at the last
/// position, the least significant one.
pub fn carry_out(a: &Vec<Clear>, b: &Vec<Secret>, c_in: &Secret, f: &Field) -> (r: Result<
    Secret,
    ProtocolError,
>)
    requires
        f.wf(),
        all_bits(clear_values(a@)),
        all_bits(secret_values(b@)),
        c_in@ <= 1,
    ensures
        a.len() != b.len() <==> r is Err,
        r matches Err(e) ==> e == ProtocolError::LengthMismatch,
        r matches Ok(c) ==> c@ == (be_value(clear_values(a@)) + be_value(secret_values(b@))
            + c_in@) / pow2(a.len() as nat) && c@ <= 1,
{
    if a.len() != b.len() {
        return Err(ProtocolError::LengthMismatch);
    }
    let k: usize = a.len();
    let ghost av = clear_values(a@);
    let ghost bv = secret_values(b@);
    let ghost p = f@.modulus;
    if k == 0 {
        proof {
            lemma2_to64();
        }
        return Ok(*c_in);
    }
    let mut pairs: Vec<CarryPair> = Vec::new();
    let mut i: usize = 0;
    while i < k
        invariant
            f.wf(),
            k == a.len(),
            k == b.len(),
            i <= k,
            pairs.len() == i,
            av == clear_values(a@),
            bv == secret_values(b@),
            all_bits(av),
            all_bits(bv),
            p == f@.modulus,
            forall|t: int| 0 <= t < i ==> pair_value(#[trigger] pairs@[t]) == pairs_of(p, av, bv)[t],
            forall|t: int|
                0 <= t < i ==> f.holds((#[trigger] pairs@[t]).propagate@) && f.holds(
                    pairs@[t].generate@,
                ),
        decreases k - i,
    {
        assert(av[i as int] <= 1 && bv[i as int] <= 1);
        let pair = half_adder(&Operand::Public(a[i]), &Operand::Secret(b[i]), f);
        pairs.push(pair);
        i = i + 1;
    }
    let last = pairs[k - 1];
    proof {
        assert(pair_value(last) == pairs_of(p, av, bv)[k - 1]);
        lemma_bit_operators(p, av[k - 1], bv[k - 1]);
    }
    let passed = c_in.times(&last.propagate, f);
    let generate = last.generate.plus(&passed, f);
    proof {
        let m = p as int;
        let c = c_in@ as int;
        let p0 = last.propagate@ as int;
        let g0 = last.generate@ as int;
        lemma_congruent_rem(c * p0, m);
        lemma_congruent_sum(g0, g0, passed@ as int, c * p0, m);
    }
    pairs.set(k - 1, CarryPair { propagate: last.propagate, generate });
    proof {
        let vals = item_values::<CarryDown>(pairs@);
        assert(vals =~= pairs_with_carry(p, av, bv, c_in@));
        lemma_chain_down_carry(f, av, bv, c_in@);
    }
    match reduce_carry(&pairs, f) {
        Some(c) => Ok(c),
        None => Err(ProtocolError::LengthMismatch),
    }
}

} // verus!
