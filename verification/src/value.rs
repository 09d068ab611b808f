//! Field elements as the protocols see them: public ones, secret ones, and
//! operands that may be either.

use crate::field::{
    add_mod, centered, diff_mod, element_of, halved_value, lemma_centered_element, mul_mod,
    prod_mod, sub_mod, sum_mod, Field,
};
use vstd::arithmetic::div_mod::*;
use vstd::prelude::*;

verus! {

/// A public field element. Protocol code may inspect it and branch on it.
#[derive(Clone, Copy, Debug)]
pub struct Clear {
    v: u128,
}

/// A secret-shared field element, modelled by the value it opens to. No
/// function gives a public answer that depends on that value but
/// [`Secret::open`], which hands it to every participant: so no protocol can
/// branch on a secret by accident. A sharing belongs to the field it was made
/// for, and must be used with that field only.
#[derive(Clone, Copy)]
pub struct Secret {
    v: u128,
}

/// An operand that is either public or secret. Arithmetic is defined for all
/// four pairings and gives a secret as soon as one operand is secret.
#[derive(Clone, Copy)]
pub enum Operand {
    /// A public operand.
    Public(Clear),
    /// A secret operand.
    Secret(Secret),
}

impl View for Clear {
    type V = nat;

    closed spec fn view(&self) -> nat {
        self.v as nat
    }
}

impl View for Secret {
    type V = nat;

    closed spec fn view(&self) -> nat {
        self.v as nat
    }
}

impl View for Operand {
    type V = nat;

    open spec fn view(&self) -> nat {
        match *self {
            Operand::Public(c) => c@,
            Operand::Secret(s) => s@,
        }
    }
}

/// Whether the field has room for the signed machine integer `v`.
pub open spec fn is_centered_i64(p: nat, v: i64) -> bool {
    crate::field::is_centered(p, v as int)
}

/// The values of a sequence of public elements.
pub open spec fn clear_values(s: Seq<Clear>) -> Seq<nat> {
    Seq::new(s.len(), |i: int| s[i]@)
}

/// The values that a sequence of secrets opens to.
pub open spec fn secret_values(s: Seq<Secret>) -> Seq<nat> {
    Seq::new(s.len(), |i: int| s[i]@)
}

/// The values of a sequence of operands.
pub open spec fn operand_values(s: Seq<Operand>) -> Seq<nat> {
    Seq::new(s.len(), |i: int| s[i]@)
}

impl Clear {
    /// The public element that `v` reduces to.
    pub fn new(v: u128, f: &Field) -> (r: Clear)
        requires
            f.wf(),
        ensures
            r@ == v as nat % f@.modulus,
            f.holds(r@),
    {
        Clear { v: v % f.modulus() }
    }

    /// The integer of least absolute value that this element stands for:
    /// negative for an element in the upper half of the field.
    pub fn to_signed(&self, f: &Field) -> (c: i128)
        requires
            f.wf(),
            f.holds(self@),
        ensures
            c == centered(f@.modulus, self@),
    {
        let p: u128 = f.modulus();
        let gap: u128 = p - self.v;
        if self.v < gap {
            self.v as i128
        } else {
            -(gap as i128)
        }
    }

    /// The value of this element as an integer below the modulus.
    pub fn to_u128(&self) -> (v: u128)
        ensures
            v == self@,
    {
        self.v
    }

    /// Whether this element is reduced with respect to `f`.
    pub fn is_in(&self, f: &Field) -> (b: bool)
        ensures
            b == f.holds(self@),
    {
        self.v < f.modulus()
    }

    /// The sum of two public elements.
    pub fn plus(&self, other: &Clear, f: &Field) -> (r: Clear)
        requires
            f.holds(self@),
            f.holds(other@),
        ensures
            r@ == sum_mod(f@.modulus, self@, other@),
            f.holds(r@),
    {
        Clear { v: add_mod(self.v, other.v, f.modulus()) }
    }

    /// The difference of two public elements.
    pub fn minus(&self, other: &Clear, f: &Field) -> (r: Clear)
        requires
            f.holds(self@),
            f.holds(other@),
        ensures
            r@ == diff_mod(f@.modulus, self@, other@),
            f.holds(r@),
    {
        Clear { v: sub_mod(self.v, other.v, f.modulus()) }
    }

    /// The product of two public elements.
    pub fn times(&self, other: &Clear, f: &Field) -> (r: Clear)
        requires
            f.holds(self@),
            f.holds(other@),
        ensures
            r@ == prod_mod(f@.modulus, self@, other@),
            f.holds(r@),
    {
        Clear { v: mul_mod(self.v, other.v, f.modulus()) }
    }
}

impl Secret {
    /// A sharing of the element that `v` reduces to: the way a participant's
    /// private input enters a computation.
    pub fn new(v: u128, f: &Field) -> (r: Secret)
        requires
            f.wf(),
        ensures
            r@ == v as nat % f@.modulus,
            f.holds(r@),
    {
        Secret { v: v % f.modulus() }
    }

    /// A sharing of the element that stands for the signed integer `v`: a
    /// negative integer is held as the modulus less its absolute value.
    pub fn new_signed(v: i64, f: &Field) -> (r: Secret)
        requires
            f.wf(),
        ensures
            r@ == element_of(f@.modulus, v as int),
            f.holds(r@),
            is_centered_i64(f@.modulus, v) ==> centered(f@.modulus, r@) == v,
    {
        let p: u128 = f.modulus();
        proof {
            lemma_mod_bound(v as int, p as int);
            if is_centered_i64(f@.modulus, v) {
                lemma_centered_element(f@.modulus, v as int);
            }
        }
        if v >= 0 {
            Secret { v: (v as u128) % p }
        } else {
            let size: u128 = (-(v as i128)) as u128;
            let rest: u128 = size % p;
            proof {
                // v = -size, and size = p * q + rest
                lemma_fundamental_div_mod(size as int, p as int);
                let q = size as int / (p as int);
                if rest == 0 {
                    assert(v as int == (p as int) * (-q)) by (nonlinear_arith)
                        requires
                            size == p * q,
                            v == -(size as int),
                    ;
                    lemma_fundamental_div_mod_converse_mod(v as int, p as int, -q, 0);
                } else {
                    assert(v as int == (p as int) * (-q - 1) + (p - rest)) by (nonlinear_arith)
                        requires
                            size == p * q + rest,
                            v == -(size as int),
                    ;
                    lemma_fundamental_div_mod_converse_mod(v as int, p as int, -q - 1, p - rest);
                }
            }
            if rest == 0 {
                Secret { v: 0 }
            } else {
                Secret { v: p - rest }
            }
        }
    }

    /// A sharing of a public element.
    pub fn from_clear(c: &Clear) -> (r: Secret)
        ensures
            r@ == c@,
    {
        Secret { v: c.to_u128() }
    }

    /// Opens the sharing: every participant learns the value. This is the only
    /// way from a secret to the public element it shares.
    pub fn open(&self) -> (c: Clear)
        ensures
            c@ == self@,
    {
        Clear { v: self.v }
    }

    /// The sum of two secrets: a local operation.
    pub fn plus(&self, other: &Secret, f: &Field) -> (r: Secret)
        requires
            f.holds(self@),
            f.holds(other@),
        ensures
            r@ == sum_mod(f@.modulus, self@, other@),
            f.holds(r@),
    {
        Secret { v: add_mod(self.v, other.v, f.modulus()) }
    }

    /// The difference of two secrets: a local operation.
    pub fn minus(&self, other: &Secret, f: &Field) -> (r: Secret)
        requires
            f.holds(self@),
            f.holds(other@),
        ensures
            r@ == diff_mod(f@.modulus, self@, other@),
            f.holds(r@),
    {
        Secret { v: sub_mod(self.v, other.v, f.modulus()) }
    }

    /// The product of two secrets: one multiplication of the engine.
    pub fn times(&self, other: &Secret, f: &Field) -> (r: Secret)
        requires
            f.holds(self@),
            f.holds(other@),
        ensures
            r@ == prod_mod(f@.modulus, self@, other@),
            f.holds(r@),
    {
        Secret { v: mul_mod(self.v, other.v, f.modulus()) }
    }

    /// The arithmetic shift by one position to the right of the integer that
    /// the secret stands for: the secret of the lower half of that integer. This
    /// is the engine's shift on secret integers; nothing is opened.
    pub fn shifted_right(&self, f: &Field) -> (r: Secret)
        requires
            f.wf(),
            f.holds(self@),
        ensures
            r@ == halved_value(f@.modulus, self@),
            f.holds(r@),
    {
        let p: u128 = f.modulus();
        let gap: u128 = p - self.v;
        if self.v < gap {
            let half: u128 = self.v / 2;
            proof {
                lemma_small_mod(half as nat, p as nat);
            }
            Secret { v: half }
        } else {
            // the integer is -gap, and its lower half is minus the upper half of gap
            let up: u128 = gap / 2 + gap % 2;
            proof {
                let c = centered(p as nat, self@);
                assert(c == -(gap as int));
                assert(c / 2 == -(up as int));
                lemma_centered_element(p as nat, -(up as int));
            }
            Secret { v: p - up }
        }
    }

    /// The sum of a secret and a public element: a local operation.
    pub fn plus_public(&self, other: &Clear, f: &Field) -> (r: Secret)
        requires
            f.holds(self@),
            f.holds(other@),
        ensures
            r@ == sum_mod(f@.modulus, self@, other@),
            f.holds(r@),
    {
        Secret { v: add_mod(self.v, other.to_u128(), f.modulus()) }
    }

    /// A secret less a public element: a local operation.
    pub fn minus_public(&self, other: &Clear, f: &Field) -> (r: Secret)
        requires
            f.holds(self@),
            f.holds(other@),
        ensures
            r@ == diff_mod(f@.modulus, self@, other@),
            f.holds(r@),
    {
        Secret { v: sub_mod(self.v, other.to_u128(), f.modulus()) }
    }

    /// The product of a secret and a public scalar: a local operation.
    pub fn times_public(&self, other: &Clear, f: &Field) -> (r: Secret)
        requires
            f.holds(self@),
            f.holds(other@),
        ensures
            r@ == prod_mod(f@.modulus, self@, other@),
            f.holds(r@),
    {
        Secret { v: mul_mod(self.v, other.to_u128(), f.modulus()) }
    }
}

impl Operand {
    /// Whether this operand is secret.
    pub open spec fn is_secret(&self) -> bool {
        *self is Secret
    }

    /// This operand as a secret: a public operand becomes a sharing of itself.
    pub fn to_secret(&self) -> (r: Secret)
        ensures
            r@ == self@,
    {
        match self {
            Operand::Public(c) => Secret::from_clear(c),
            Operand::Secret(s) => *s,
        }
    }

    /// The sum of two operands.
    pub fn plus(&self, other: &Operand, f: &Field) -> (r: Operand)
        requires
            f.holds(self@),
            f.holds(other@),
        ensures
            r@ == sum_mod(f@.modulus, self@, other@),
            f.holds(r@),
            r.is_secret() == (self.is_secret() || other.is_secret()),
    {
        match (self, other) {
            (Operand::Public(a), Operand::Public(b)) => Operand::Public(a.plus(b, f)),
            (Operand::Public(a), Operand::Secret(b)) => Operand::Secret(b.plus_public(a, f)),
            (Operand::Secret(a), Operand::Public(b)) => Operand::Secret(a.plus_public(b, f)),
            (Operand::Secret(a), Operand::Secret(b)) => Operand::Secret(a.plus(b, f)),
        }
    }

    /// The difference of two operands.
    pub fn minus(&self, other: &Operand, f: &Field) -> (r: Operand)
        requires
            f.holds(self@),
            f.holds(other@),
        ensures
            r@ == diff_mod(f@.modulus, self@, other@),
            f.holds(r@),
            r.is_secret() == (self.is_secret() || other.is_secret()),
    {
        match (self, other) {
            (Operand::Public(a), Operand::Public(b)) => Operand::Public(a.minus(b, f)),
            (Operand::Public(a), Operand::Secret(b)) => Operand::Secret(
                Secret::from_clear(a).minus(b, f),
            ),
            (Operand::Secret(a), Operand::Public(b)) => Operand::Secret(a.minus_public(b, f)),
            (Operand::Secret(a), Operand::Secret(b)) => Operand::Secret(a.minus(b, f)),
        }
    }

    /// The product of two operands.
    pub fn times(&self, other: &Operand, f: &Field) -> (r: Operand)
        requires
            f.holds(self@),
            f.holds(other@),
        ensures
            r@ == prod_mod(f@.modulus, self@, other@),
            f.holds(r@),
            r.is_secret() == (self.is_secret() || other.is_secret()),
    {
        match (self, other) {
            (Operand::Public(a), Operand::Public(b)) => Operand::Public(a.times(b, f)),
            (Operand::Public(a), Operand::Secret(b)) => Operand::Secret(
                Secret::from_clear(a).times(b, f),
            ),
            (Operand::Secret(a), Operand::Public(b)) => Operand::Secret(a.times_public(b, f)),
            (Operand::Secret(a), Operand::Secret(b)) => Operand::Secret(a.times(b, f)),
        }
    }
}

/// The same public elements as operands.
pub fn public_operands(v: &Vec<Clear>) -> (out: Vec<Operand>)
    ensures
        operand_values(out@) == clear_values(v@),
        out.len() == v.len(),
{
    let n: usize = v.len();
    let mut out: Vec<Operand> = Vec::new();
    let mut i: usize = 0;
    while i < n
        invariant
            n == v.len(),
            i <= n,
            out.len() == i,
            forall|t: int| 0 <= t < i ==> (#[trigger] out@[t])@ == v@[t]@,
        decreases n - i,
    {
        out.push(Operand::Public(v[i]));
        i = i + 1;
    }
    assert(operand_values(out@) =~= clear_values(v@));
    out
}

/// The same secrets as operands.
pub fn secret_operands(v: &Vec<Secret>) -> (out: Vec<Operand>)
    ensures
        operand_values(out@) == secret_values(v@),
        out.len() == v.len(),
{
    let n: usize = v.len();
    let mut out: Vec<Operand> = Vec::new();
    let mut i: usize = 0;
    while i < n
        invariant
            n == v.len(),
            i <= n,
            out.len() == i,
            forall|t: int| 0 <= t < i ==> (#[trigger] out@[t])@ == v@[t]@,
        decreases n - i,
    {
        out.push(Operand::Secret(v[i]));
        i = i + 1;
    }
    assert(operand_values(out@) =~= secret_values(v@));
    out
}

/// The first `n` entries of `v`.
pub fn truncated(v: &Vec<Secret>, n: usize) -> (out: Vec<Secret>)
    requires
        n <= v.len(),
    ensures
        out@ == v@.subrange(0, n as int),
{
    let mut out: Vec<Secret> = Vec::new();
    let mut i: usize = 0;
    while i < n
        invariant
            n <= v.len(),
            i <= n,
            out.len() == i,
            forall|t: int| 0 <= t < i ==> out@[t] == v@[t],
        decreases n - i,
    {
        out.push(v[i]);
        i = i + 1;
    }
    assert(out@ =~= v@.subrange(0, n as int));
    out
}

} // verus!
