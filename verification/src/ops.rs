//! The basic operators on secret field elements, and their packaging as
//! associative operators for the prefix networks.

use crate::arith::{
    lemma_congruent_diff, lemma_congruent_prod, lemma_congruent_rem, lemma_congruent_sum,
};
use crate::field::{prod_mod, sum_mod, Field};
use crate::prefix::Associative;
use crate::value::Secret;
use vstd::arithmetic::div_mod::*;
use vstd::prelude::*;

verus! {

/// `a + b - a*b` in the field: the logical or of two bits.
pub open spec fn or_value(p: nat, a: nat, b: nat) -> nat {
    ((a + b - a * b) % (p as int)) as nat
}

/// `a + b - 2*a*b` in the field: the exclusive or of two bits.
pub open spec fn xor_value(p: nat, a: nat, b: nat) -> nat {
    ((a + b - 2 * (a * b)) % (p as int)) as nat
}

/// On bits, `or_value` is the logical or, `xor_value` the exclusive or and
/// `prod_mod` the logical and.
pub proof fn lemma_bit_operators(p: nat, a: nat, b: nat)
    requires
        p >= 2,
        a <= 1,
        b <= 1,
    ensures
        or_value(p, a, b) == (if a == 1 || b == 1 { 1nat } else { 0nat }),
        xor_value(p, a, b) == (if a != b { 1nat } else { 0nat }),
        prod_mod(p, a, b) == (if a == 1 && b == 1 { 1nat } else { 0nat }),
{
    assert(a * b == (if a == 1 && b == 1 { 1nat } else { 0nat })) by (nonlinear_arith)
        requires
            a <= 1,
            b <= 1,
    ;
    lemma_small_mod(0, p);
    lemma_small_mod(1, p);
}

/// The logical or of two secret bits: `a + b - a*b`.
pub fn or_op(a: &Secret, b: &Secret, f: &Field) -> (r: Secret)
    requires
        f.wf(),
        f.holds(a@),
        f.holds(b@),
    ensures
        r@ == or_value(f@.modulus, a@, b@),
        f.holds(r@),
{
    let s = a.plus(b, f);
    let t = a.times(b, f);
    let r = s.minus(&t, f);
    proof {
        let m = f@.modulus as int;
        let x = a@ as int;
        let y = b@ as int;
        lemma_congruent_rem(x + y, m);
        lemma_congruent_rem(x * y, m);
        lemma_congruent_diff(s@ as int, x + y, t@ as int, x * y, m);
    }
    r
}

/// The exclusive or of two secret bits: `a + b - 2*a*b`.
pub fn xor_op(a: &Secret, b: &Secret, f: &Field) -> (r: Secret)
    requires
        f.wf(),
        f.holds(a@),
        f.holds(b@),
    ensures
        r@ == xor_value(f@.modulus, a@, b@),
        f.holds(r@),
{
    let s = a.plus(b, f);
    let t = a.times(b, f);
    let u = t.plus(&t, f);
    let r = s.minus(&u, f);
    proof {
        let m = f@.modulus as int;
        let x = a@ as int;
        let y = b@ as int;
        lemma_congruent_rem(x + y, m);
        lemma_congruent_rem(x * y, m);
        lemma_congruent_sum(t@ as int, x * y, t@ as int, x * y, m);
        lemma_congruent_rem((t@ + t@) as int, m);
        lemma_congruent_diff(s@ as int, x + y, u@ as int, 2 * (x * y), m);
    }
    r
}

/// The product of two secrets: on bits, their logical and.
pub fn mul_op(a: &Secret, b: &Secret, f: &Field) -> (r: Secret)
    requires
        f.wf(),
        f.holds(a@),
        f.holds(b@),
    ensures
        r@ == prod_mod(f@.modulus, a@, b@),
        f.holds(r@),
{
    a.times(b, f)
}

/// The sum of two secrets.
pub fn addition_op(a: &Secret, b: &Secret, f: &Field) -> (r: Secret)
    requires
        f.wf(),
        f.holds(a@),
        f.holds(b@),
    ensures
        r@ == sum_mod(f@.modulus, a@, b@),
        f.holds(r@),
{
    a.plus(b, f)
}

/// `or_value` is associative on the whole field.
pub proof fn lemma_or_associative(p: nat, a: nat, b: nat, c: nat)
    requires
        p >= 2,
    ensures
        or_value(p, or_value(p, a, b), c) == or_value(p, a, or_value(p, b, c)),
{
    let m = p as int;
    let ab = or_value(p, a, b) as int;
    let bc = or_value(p, b, c) as int;
    let (a, b, c) = (a as int, b as int, c as int);
    let x = a + b - a * b;
    let y = b + c - b * c;
    lemma_congruent_rem(x, m);
    lemma_congruent_rem(y, m);
    lemma_congruent_sum(ab, x, c, c, m);
    lemma_congruent_prod(ab, x, c, c, m);
    lemma_congruent_diff(ab + c, x + c, ab * c, x * c, m);
    lemma_congruent_sum(a, a, bc, y, m);
    lemma_congruent_prod(a, a, bc, y, m);
    lemma_congruent_diff(a + bc, a + y, a * bc, a * y, m);
    assert(x + c - x * c == a + y - a * y) by (nonlinear_arith)
        requires
            x == a + b - a * b,
            y == b + c - b * c,
    ;
}

/// `xor_value` is associative on the whole field.
pub proof fn lemma_xor_associative(p: nat, a: nat, b: nat, c: nat)
    requires
        p >= 2,
    ensures
        xor_value(p, xor_value(p, a, b), c) == xor_value(p, a, xor_value(p, b, c)),
{
    let m = p as int;
    let ab = xor_value(p, a, b) as int;
    let bc = xor_value(p, b, c) as int;
    let (a, b, c) = (a as int, b as int, c as int);
    let x = a + b - 2 * (a * b);
    let y = b + c - 2 * (b * c);
    lemma_congruent_rem(x, m);
    lemma_congruent_rem(y, m);
    lemma_congruent_sum(ab, x, c, c, m);
    lemma_congruent_prod(ab, x, c, c, m);
    lemma_congruent_prod(2, 2, ab * c, x * c, m);
    lemma_congruent_diff(ab + c, x + c, 2 * (ab * c), 2 * (x * c), m);
    lemma_congruent_sum(a, a, bc, y, m);
    lemma_congruent_prod(a, a, bc, y, m);
    lemma_congruent_prod(2, 2, a * bc, a * y, m);
    lemma_congruent_diff(a + bc, a + y, 2 * (a * bc), 2 * (a * y), m);
    assert(x + c - 2 * (x * c) == a + y - 2 * (a * y)) by (nonlinear_arith)
        requires
            x == a + b - 2 * (a * b),
            y == b + c - 2 * (b * c),
    ;
}

/// `prod_mod` is associative.
pub proof fn lemma_prod_associative(p: nat, a: nat, b: nat, c: nat)
    requires
        p >= 2,
    ensures
        prod_mod(p, prod_mod(p, a, b), c) == prod_mod(p, a, prod_mod(p, b, c)),
{
    let m = p as int;
    let ab = prod_mod(p, a, b) as int;
    let bc = prod_mod(p, b, c) as int;
    let (a, b, c) = (a as int, b as int, c as int);
    lemma_congruent_rem(a * b, m);
    lemma_congruent_rem(b * c, m);
    lemma_congruent_prod(ab, a * b, c, c, m);
    lemma_congruent_prod(a, a, bc, b * c, m);
    assert((a * b) * c == a * (b * c)) by (nonlinear_arith);
}

/// `sum_mod` is associative.
pub proof fn lemma_sum_associative(p: nat, a: nat, b: nat, c: nat)
    requires
        p >= 2,
    ensures
        sum_mod(p, sum_mod(p, a, b), c) == sum_mod(p, a, sum_mod(p, b, c)),
{
    let m = p as int;
    let ab = sum_mod(p, a, b) as int;
    let bc = sum_mod(p, b, c) as int;
    let (a, b, c) = (a as int, b as int, c as int);
    lemma_congruent_rem(a + b, m);
    lemma_congruent_rem(b + c, m);
    lemma_congruent_sum(ab, a + b, c, c, m);
    lemma_congruent_sum(a, a, bc, b + c, m);
}

/// Logical or as an associative operator.
pub struct OrOp;

/// Exclusive or as an associative operator.
pub struct XorOp;

/// Multiplication as an associative operator.
pub struct MulOp;

/// Addition as an associative operator.
pub struct AddOp;

impl Associative for OrOp {
    type Item = Secret;

    type Value = nat;

    open spec fn value(item: Secret) -> nat {
        item@
    }

    open spec fn valid(f: &Field, v: nat) -> bool {
        f.holds(v)
    }

    open spec fn op(f: &Field, a: nat, b: nat) -> nat {
        or_value(f@.modulus, a, b)
    }

    fn apply(&self, f: &Field, a: &Secret, b: &Secret) -> (r: Secret) {
        or_op(a, b, f)
    }

    proof fn lemma_associative(f: &Field, a: nat, b: nat, c: nat) {
        lemma_or_associative(f@.modulus, a, b, c);
        lemma_mod_bound(a + b - a * b, f@.modulus as int);
    }
}

impl Associative for XorOp {
    type Item = Secret;

    type Value = nat;

    open spec fn value(item: Secret) -> nat {
        item@
    }

    open spec fn valid(f: &Field, v: nat) -> bool {
        f.holds(v)
    }

    open spec fn op(f: &Field, a: nat, b: nat) -> nat {
        xor_value(f@.modulus, a, b)
    }

    fn apply(&self, f: &Field, a: &Secret, b: &Secret) -> (r: Secret) {
        xor_op(a, b, f)
    }

    proof fn lemma_associative(f: &Field, a: nat, b: nat, c: nat) {
        lemma_xor_associative(f@.modulus, a, b, c);
        lemma_mod_bound(a + b - 2 * (a * b), f@.modulus as int);
    }
}

impl Associative for MulOp {
    type Item = Secret;

    type Value = nat;

    open spec fn value(item: Secret) -> nat {
        item@
    }

    open spec fn valid(f: &Field, v: nat) -> bool {
        f.holds(v)
    }

    open spec fn op(f: &Field, a: nat, b: nat) -> nat {
        prod_mod(f@.modulus, a, b)
    }

    fn apply(&self, f: &Field, a: &Secret, b: &Secret) -> (r: Secret) {
        mul_op(a, b, f)
    }

    proof fn lemma_associative(f: &Field, a: nat, b: nat, c: nat) {
        lemma_prod_associative(f@.modulus, a, b, c);
        lemma_mod_bound((a * b) as int, f@.modulus as int);
    }
}

impl Associative for AddOp {
    type Item = Secret;

    type Value = nat;

    open spec fn value(item: Secret) -> nat {
        item@
    }

    open spec fn valid(f: &Field, v: nat) -> bool {
        f.holds(v)
    }

    open spec fn op(f: &Field, a: nat, b: nat) -> nat {
        sum_mod(f@.modulus, a, b)
    }

    fn apply(&self, f: &Field, a: &Secret, b: &Secret) -> (r: Secret) {
        addition_op(a, b, f)
    }

    proof fn lemma_associative(f: &Field, a: nat, b: nat, c: nat) {
        lemma_sum_associative(f@.modulus, a, b, c);
        lemma_mod_bound((a + b) as int, f@.modulus as int);
    }
}

} // verus!
