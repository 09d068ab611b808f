//! Ranking of secret numbers by pairwise comparison: nothing about the numbers
//! is opened, and the ranks themselves stay secret.

use crate::arith::{
    all_bits, le_value, lemma_congruent_diff, lemma_congruent_rem, lemma_congruent_sum,
};
use crate::compare::full_compare;
use crate::decompose::decompose_signed;
use crate::error::ProtocolError;
use crate::field::{
    centered, element_of, is_centered, lemma_centered_element, lemma_raised, sum_mod, Field,
};
use crate::masking::{has_room_for_mask, mask_fits, BitSource};
use crate::value::{secret_operands, secret_values, Clear, Secret};
use vstd::arithmetic::div_mod::*;
use vstd::arithmetic::power2::*;
use vstd::prelude::*;

verus! {

/// How many of the numbers `0..n` satisfy `pred`.
pub open spec fn count(n: nat, pred: spec_fn(int) -> bool) -> nat
    decreases n,
{
    if n == 0 {
        0
    } else {
        count((n - 1) as nat, pred) + (if pred(n - 1) { 1nat } else { 0nat })
    }
}

/// Predicates that agree on `0..n` have the same count.
pub proof fn lemma_count_same(n: nat, p: spec_fn(int) -> bool, q: spec_fn(int) -> bool)
    requires
        forall|j: int| 0 <= j < n ==> #[trigger] p(j) == q(j),
    ensures
        count(n, p) == count(n, q),
    decreases n,
{
    if n > 0 {
        lemma_count_same((n - 1) as nat, p, q);
    }
}

/// A predicate that becomes true at one more number counts one more.
pub proof fn lemma_count_one_more(
    n: nat,
    p: spec_fn(int) -> bool,
    q: spec_fn(int) -> bool,
    at: int,
)
    requires
        0 <= at < n,
        !p(at),
        q(at),
        forall|j: int| 0 <= j < n && j != at ==> #[trigger] p(j) == q(j),
    ensures
        count(n, q) == count(n, p) + 1,
    decreases n,
{
    if at == n - 1 {
        lemma_count_same((n - 1) as nat, p, q);
    } else {
        lemma_count_one_more((n - 1) as nat, p, q, at);
    }
}

/// Of the numbers `0..n`, all but one differ from a given one of them.
pub proof fn lemma_count_others(n: nat, i: int)
    requires
        0 <= i < n,
    ensures
        count(n, |j: int| j != i) == n - 1,
    decreases n,
{
    let others = |j: int| j != i;
    if i == n - 1 {
        let all = |j: int| true;
        lemma_count_same((n - 1) as nat, others, all);
        lemma_count_all((n - 1) as nat);
    } else {
        lemma_count_others((n - 1) as nat, i);
    }
}

/// All of the numbers `0..n` satisfy the predicate that is always true.
pub proof fn lemma_count_all(n: nat)
    ensures
        count(n, |j: int| true) == n,
    decreases n,
{
    if n > 0 {
        lemma_count_all((n - 1) as nat);
    }
}

/// Whether entry `j` comes before entry `i` in ascending order; of two equal
/// entries the one with the lower index comes first.
pub open spec fn precedes(vals: Seq<nat>, j: int, i: int) -> bool {
    if j < i {
        vals[j] <= vals[i]
    } else {
        j > i && vals[j] < vals[i]
    }
}

/// How many entries come before entry `i` in ascending order.
pub open spec fn before_count(vals: Seq<nat>, i: int) -> nat {
    count(vals.len(), |j: int| precedes(vals, j, i))
}

/// The rank of entry `i`, counted from one: in ascending order the number of
/// entries before it plus one, in descending order the number of entries less
/// the number of entries before it in ascending order.
pub open spec fn rank_of(vals: Seq<nat>, i: int, descending: bool) -> nat {
    if descending {
        (vals.len() - before_count(vals, i)) as nat
    } else {
        before_count(vals, i) + 1
    }
}

/// The ranks of two entries stand in the order of the entries: of two entries
/// the one that stands first in the input has the lower rank in ascending order
/// exactly where it is at most the other, and the higher rank in descending
/// order. Every pairwise comparison can thus be read off the ranks.
pub proof fn lemma_ranks_in_order(vals: Seq<nat>, i: int, j: int)
    requires
        0 <= i < j < vals.len(),
    ensures
        vals[i] <= vals[j] <==> rank_of(vals, i, false) < rank_of(vals, j, false),
        vals[j] < vals[i] <==> rank_of(vals, j, false) < rank_of(vals, i, false),
        vals[i] <= vals[j] <==> rank_of(vals, j, true) < rank_of(vals, i, true),
        vals[j] < vals[i] <==> rank_of(vals, i, true) < rank_of(vals, j, true),
{
    let n = vals.len();
    let before_i = |k: int| precedes(vals, k, i);
    let before_j = |k: int| precedes(vals, k, j);
    lemma_count_le(n, before_i, |k: int| k != i);
    lemma_count_le(n, before_j, |k: int| k != j);
    lemma_count_others(n, i);
    lemma_count_others(n, j);
    if vals[i] <= vals[j] {
        let upto_i = |k: int| precedes(vals, k, i) || k == i;
        lemma_count_one_more(n, before_i, upto_i, i);
        lemma_count_le(n, upto_i, before_j);
    } else {
        let upto_j = |k: int| precedes(vals, k, j) || k == j;
        lemma_count_one_more(n, before_j, upto_j, j);
        lemma_count_le(n, upto_j, before_i);
    }
}

/// The numbers that vectors of secret bits represent, least significant bit
/// first.
pub open spec fn numbers(values: Seq<Vec<Secret>>) -> Seq<nat> {
    Seq::new(values.len(), |i: int| le_value(secret_values(values[i]@)))
}

/// The sign of the order of two secret nonnegative numbers that are given by
/// their bits, least significant bit first: minus one where `a` is at most `b`,
/// plus one otherwise. The sign is secret. For signed numbers see
/// [`compare_signed`].
pub fn compare_sign(a: &Vec<Secret>, b: &Vec<Secret>, f: &Field) -> (r: Result<
    Secret,
    ProtocolError,
>)
    requires
        f.wf(),
        all_bits(secret_values(a@)),
        all_bits(secret_values(b@)),
    ensures
        a.len() != b.len() <==> r is Err,
        r matches Err(e) ==> e == ProtocolError::LengthMismatch,
        r matches Ok(s) ==> f.holds(s@) && s@ == (if le_value(secret_values(a@)) <= le_value(
            secret_values(b@),
        ) {
            (f@.modulus - 1) as nat
        } else {
            1nat
        }),
{
    let greater = match full_compare(&secret_operands(b), &secret_operands(a), f) {
        Ok(bit) => bit,
        Err(e) => {
            return Err(e);
        },
    };
    proof {
        lemma_small_mod(0, f@.modulus);
        lemma_small_mod(1, f@.modulus);
        lemma_small_mod((f@.modulus - 1) as nat, f@.modulus);
    }
    let one = Secret::new(1, f);
    let at_most = one.minus(&greater, f);
    let twice = at_most.plus(&at_most, f);
    let sign = one.minus(&twice, f);
    proof {
        let p = f@.modulus as int;
        if greater@ == 0 {
            lemma_congruent_rem(2, p);
            lemma_congruent_diff(1, 1, twice@ as int, 2, p);
            lemma_fundamental_div_mod_converse_mod(-1, p, -1, p - 1);
        }
    }
    Ok(sign)
}

/// No number satisfies the predicate that is always false.
pub proof fn lemma_count_none(n: nat)
    ensures
        count(n, |j: int| false) == 0,
    decreases n,
{
    if n > 0 {
        lemma_count_none((n - 1) as nat);
    }
}

/// A predicate that implies another counts at most as many.
pub proof fn lemma_count_le(n: nat, p: spec_fn(int) -> bool, q: spec_fn(int) -> bool)
    requires
        forall|j: int| 0 <= j < n && #[trigger] p(j) ==> q(j),
    ensures
        count(n, p) <= count(n, q),
    decreases n,
{
    if n > 0 {
        lemma_count_le((n - 1) as nat, p, q);
    }
}

/// Whether the pair of entries `i` and `j` has been compared when all pairs
/// with a lower entry before `left` are done, and of the pairs with lower entry
/// `left` those with upper entry before `right`.
pub open spec fn processed(left: int, right: int, i: int, j: int) -> bool {
    let lower = if i < j { i } else { j };
    let upper = if i < j { j } else { i };
    i != j && (lower < left || (lower == left && upper < right))
}

/// What the comparisons made so far have added up to for entry `i`: plus one
/// for every partner that comes before it, minus one for every other partner.
pub open spec fn score(vals: Seq<nat>, left: int, right: int, i: int) -> int {
    2 * count(vals.len(), |j: int| processed(left, right, i, j) && precedes(vals, j, i)) - count(
        vals.len(),
        |j: int| processed(left, right, i, j),
    )
}

/// The sign of the order of two entries: minus one where the first is at most
/// the second, plus one otherwise.
pub open spec fn order_sign(vals: Seq<nat>, left: int, right: int) -> int {
    if vals[left] <= vals[right] {
        -1
    } else {
        1
    }
}

/// Before any comparison every score is zero.
pub proof fn lemma_score_start(vals: Seq<nat>, i: int)
    requires
        0 <= i < vals.len(),
    ensures
        score(vals, 0, 1, i) == 0,
{
    let n = vals.len();
    let none = |j: int| false;
    lemma_count_none(n);
    lemma_count_same(n, |j: int| processed(0, 1, i, j) && precedes(vals, j, i), none);
    lemma_count_same(n, |j: int| processed(0, 1, i, j), none);
}

/// One comparison adds its sign to the score of the lower entry and takes it
/// off the score of the upper entry; no other score changes.
pub proof fn lemma_score_step(vals: Seq<nat>, left: int, right: int, i: int)
    requires
        0 <= left < right < vals.len(),
        0 <= i < vals.len(),
    ensures
        score(vals, left, right + 1, i) == score(vals, left, right, i) + (if i == left {
            order_sign(vals, left, right)
        } else if i == right {
            -order_sign(vals, left, right)
        } else {
            0
        }),
{
    let n = vals.len();
    let partners0 = |j: int| processed(left, right, i, j);
    let partners1 = |j: int| processed(left, right + 1, i, j);
    let wins0 = |j: int| processed(left, right, i, j) && precedes(vals, j, i);
    let wins1 = |j: int| processed(left, right + 1, i, j) && precedes(vals, j, i);
    if i == left || i == right {
        let other = if i == left { right } else { left };
        lemma_count_one_more(n, partners0, partners1, other);
        if precedes(vals, other, i) {
            lemma_count_one_more(n, wins0, wins1, other);
        } else {
            lemma_count_same(n, wins0, wins1);
        }
    } else {
        lemma_count_same(n, partners0, partners1);
        lemma_count_same(n, wins0, wins1);
    }
}

/// Finishing a row is the same as standing at the start of the next one.
pub proof fn lemma_score_next_row(vals: Seq<nat>, left: int, i: int)
    requires
        0 <= left < vals.len(),
        0 <= i < vals.len(),
    ensures
        score(vals, left, vals.len() as int, i) == score(vals, left + 1, left + 2, i),
{
    let n = vals.len();
    lemma_count_same(
        n,
        |j: int| processed(left, n as int, i, j),
        |j: int| processed(left + 1, left + 2, i, j),
    );
    lemma_count_same(
        n,
        |j: int| processed(left, n as int, i, j) && precedes(vals, j, i),
        |j: int| processed(left + 1, left + 2, i, j) && precedes(vals, j, i),
    );
}

/// When every pair has been compared, the score of an entry is twice the
/// number of entries before it, less the number of its partners.
pub proof fn lemma_score_final(vals: Seq<nat>, i: int)
    requires
        0 <= i < vals.len(),
    ensures
        score(vals, vals.len() - 1, vals.len() as int, i) == 2 * before_count(vals, i) - (
        vals.len() - 1),
        before_count(vals, i) <= vals.len() - 1,
{
    let n = vals.len();
    lemma_count_others(n, i);
    lemma_count_same(n, |j: int| processed(n - 1, n as int, i, j), |j: int| j != i);
    lemma_count_same(
        n,
        |j: int| processed(n - 1, n as int, i, j) && precedes(vals, j, i),
        |j: int| precedes(vals, j, i),
    );
    lemma_count_le(n, |j: int| precedes(vals, j, i), |j: int| j != i);
}

/// The sign of the order of two secret signed numbers of `k` bits: minus one
/// where `a` is at most `b`, plus one otherwise; never zero. The sign is secret.
/// A negative number is held as the modulus less its absolute value.
///
/// Both numbers are raised to nonnegative ones and decomposed into bits under
/// fresh masks, which takes `2 * (k + kappa)` random bits, and the bits are
/// compared. Nothing but the masked numbers is opened.
pub fn compare_signed(
    a: &Secret,
    b: &Secret,
    k: usize,
    kappa: u64,
    source: &mut BitSource,
    f: &Field,
) -> (r: Result<Secret, ProtocolError>)
    requires
        f.wf(),
        f.holds(a@),
        f.holds(b@),
    ensures
        r is Ok <==> k >= 1 && mask_fits(f, k as nat, k as nat, kappa as nat) && old(
            source,
        )@.len() >= 2 * (k + kappa),
        r is Err ==> final(source)@ == old(source)@,
        k == 0 || !mask_fits(f, k as nat, k as nat, kappa as nat) <==> r == Err::<
            Secret,
            ProtocolError,
        >(ProtocolError::WidthExceedsField),
        k >= 1 && mask_fits(f, k as nat, k as nat, kappa as nat) && old(source)@.len() < 2 * (k
            + kappa) <==> r == Err::<Secret, ProtocolError>(ProtocolError::RandomnessExhausted),
        r matches Ok(s) ==> ({
            &&& s@ == 1 || s@ == f@.modulus - 1
            &&& final(source)@ == old(source)@.subrange(
                2 * (k + kappa),
                old(source)@.len() as int,
            )
            &&& (-pow2((k - 1) as nat) <= centered(f@.modulus, a@) < pow2((k - 1) as nat) && -pow2(
                (k - 1) as nat,
            ) <= centered(f@.modulus, b@) < pow2((k - 1) as nat)) ==> s@ == (if centered(
                f@.modulus,
                a@,
            ) <= centered(f@.modulus, b@) {
                (f@.modulus - 1) as nat
            } else {
                1nat
            })
        }),
{
    if k == 0 || !has_room_for_mask(f, k, k, kappa) {
        return Err(ProtocolError::WidthExceedsField);
    }
    let each: usize = k + kappa as usize;
    if source.remaining() < 2 * each {
        return Err(ProtocolError::RandomnessExhausted);
    }
    let ghost start = source@;
    let a_bits = match decompose_signed(a, k, kappa, source, f) {
        Ok(bits) => bits,
        Err(e) => {
            return Err(e);
        },
    };
    let b_bits = match decompose_signed(b, k, kappa, source, f) {
        Ok(bits) => bits,
        Err(e) => {
            return Err(e);
        },
    };
    proof {
        assert(source@ =~= start.subrange(2 * each, start.len() as int));
    }
    match compare_sign(&a_bits, &b_bits, f) {
        Ok(s) => Ok(s),
        Err(e) => Err(e),
    }
}

/// What rescaling makes of a score that has been raised by `n - 1`: its lower
/// half, plus one.
pub open spec fn rescaled(raised: int) -> int {
    raised / 2 + 1
}

/// What rescaling cuts off a raised score is its lowest bit: zero or one.
pub proof fn lemma_rescaled_cut(raised: int)
    ensures
        raised - 2 * (rescaled(raised) - 1) == raised % 2,
        0 <= raised - 2 * (rescaled(raised) - 1) <= 1,
{
    lemma_fundamental_div_mod(raised, 2);
}

/// A smaller score never gets a larger result, and a score that is smaller by
/// two or more gets a smaller result.
pub proof fn lemma_rescaled_in_order(low: int, high: int)
    requires
        low <= high,
    ensures
        rescaled(low) <= rescaled(high),
        low + 2 <= high ==> rescaled(low) < rescaled(high),
{
    lemma_fundamental_div_mod(low, 2);
    lemma_fundamental_div_mod(high, 2);
}

/// Brings the scores that pairwise comparison leaves behind, which lie between
/// `-(n - 1)` and `n - 1` for `n` entries, to ranks between one and `n`: every
/// score is raised by `n - 1`, shifted by one position to the right, which drops
/// its lowest bit and halves what is left, and raised by one.
///
/// A score is the integer of least absolute value that its field element
/// stands for. Where the field has room for the raised score, the result stands
/// for the lower half of the raised score, plus one.
pub fn rescale(indexes: &Vec<Secret>, f: &Field) -> (out: Vec<Secret>)
    requires
        f.wf(),
        forall|i: int| 0 <= i < indexes.len() ==> f.holds(#[trigger] indexes@[i]@),
    ensures
        out.len() == indexes.len(),
        forall|i: int| 0 <= i < out.len() ==> f.holds((#[trigger] out@[i])@),
        forall|i: int|
            0 <= i < out.len() ==> (#[trigger] out@[i])@ == element_of(
                f@.modulus,
                rescaled(
                    centered(
                        f@.modulus,
                        sum_mod(
                            f@.modulus,
                            indexes@[i]@,
                            ((indexes.len() - 1) as nat) % f@.modulus,
                        ),
                    ),
                ),
            ),
        forall|i: int|
            0 <= i < out.len() && is_centered(
                f@.modulus,
                centered(f@.modulus, indexes@[i]@) + (indexes.len() - 1),
            ) ==> (#[trigger] out@[i])@ == element_of(
                f@.modulus,
                rescaled(centered(f@.modulus, indexes@[i]@) + (indexes.len() - 1)),
            ),
        forall|i: int|
            0 <= i < out.len() && is_centered(
                f@.modulus,
                centered(f@.modulus, indexes@[i]@) + (indexes.len() - 1),
            ) && is_centered(
                f@.modulus,
                rescaled(centered(f@.modulus, indexes@[i]@) + (indexes.len() - 1)),
            ) ==> centered(f@.modulus, (#[trigger] out@[i])@) == rescaled(
                centered(f@.modulus, indexes@[i]@) + (indexes.len() - 1),
            ),
{
    let n: usize = indexes.len();
    let mut out: Vec<Secret> = Vec::new();
    if n == 0 {
        return out;
    }
    let ghost p = f@.modulus;
    let shift = Clear::new((n - 1) as u128, f);
    let one = Clear::new(1, f);
    let mut i: usize = 0;
    while i < n
        invariant
            f.wf(),
            p == f@.modulus,
            n == indexes.len(),
            n >= 1,
            i <= n,
            out.len() == i,
            shift@ == ((n - 1) as nat) % p,
            one@ == 1nat % p,
            f.holds(shift@),
            f.holds(one@),
            forall|t: int| 0 <= t < n ==> f.holds(#[trigger] indexes@[t]@),
            forall|t: int| 0 <= t < i ==> f.holds((#[trigger] out@[t])@),
            forall|t: int|
                0 <= t < i ==> (#[trigger] out@[t])@ == element_of(
                    p,
                    rescaled(centered(p, sum_mod(p, indexes@[t]@, ((n - 1) as nat) % p))),
                ),
            forall|t: int|
                0 <= t < i && is_centered(p, centered(p, indexes@[t]@) + (n - 1)) ==> (
                #[trigger] out@[t])@ == element_of(
                    p,
                    rescaled(centered(p, indexes@[t]@) + (n - 1)),
                ),
            forall|t: int|
                0 <= t < i && is_centered(p, centered(p, indexes@[t]@) + (n - 1)) && is_centered(
                    p,
                    rescaled(centered(p, indexes@[t]@) + (n - 1)),
                ) ==> centered(p, (#[trigger] out@[t])@) == rescaled(
                    centered(p, indexes@[t]@) + (n - 1),
                ),
        decreases n - i,
    {
        let raised = indexes[i].plus_public(&shift, f);
        let halved = raised.shifted_right(f);
        let ranked = halved.plus_public(&one, f);
        proof {
            let m = p as int;
            let half = centered(p, raised@) / 2;
            lemma_congruent_rem(half, m);
            lemma_congruent_rem(1, m);
            lemma_congruent_sum(halved@ as int, half, one@ as int, 1, m);
            assert(ranked@ == element_of(p, rescaled(centered(p, raised@))));
            let exact = centered(p, indexes@[i as int]@) + (n - 1);
            if is_centered(p, exact) {
                lemma_raised(p, indexes@[i as int]@, (n - 1) as nat);
                if is_centered(p, rescaled(exact)) {
                    lemma_centered_element(p, rescaled(exact));
                }
            }
        }
        out.push(ranked);
        i = i + 1;
    }
    out
}

/// Whether every vector has as many bits as the first one.
pub open spec fn same_widths(values: Seq<Vec<Secret>>) -> bool {
    forall|i: int| 0 <= i < values.len() ==> (#[trigger] values[i]).len() == values[0].len()
}

/// Decides `same_widths`.
pub fn have_same_widths(values: &Vec<Vec<Secret>>) -> (b: bool)
    ensures
        b == same_widths(values@),
{
    let n: usize = values.len();
    let mut i: usize = 0;
    while i < n
        invariant
            n == values.len(),
            i <= n,
            forall|t: int| 0 <= t < i ==> (#[trigger] values@[t]).len() == values@[0].len(),
        decreases n - i,
    {
        if values[i].len() != values[0].len() {
            return false;
        }
        i = i + 1;
    }
    true
}

/// The scores before any comparison: all zero.
fn zero_scores(n: usize, f: &Field) -> (out: Vec<Secret>)
    requires
        f.wf(),
    ensures
        out.len() == n,
        forall|i: int| 0 <= i < n ==> (#[trigger] out@[i])@ == 0,
{
    let mut out: Vec<Secret> = Vec::new();
    let mut i: usize = 0;
    proof {
        lemma_small_mod(0, f@.modulus);
    }
    while i < n
        invariant
            f.wf(),
            i <= n,
            out.len() == i,
            forall|t: int| 0 <= t < i ==> (#[trigger] out@[t])@ == 0,
        decreases n - i,
    {
        out.push(Secret::new(0, f));
        i = i + 1;
    }
    out
}

/// Every score is what the comparisons made so far call for, with the sign
/// turned around for a descending ranking.
pub open spec fn scores_match(
    f: &Field,
    vals: Seq<nat>,
    scores: Seq<Secret>,
    left: int,
    right: int,
    descending: bool,
) -> bool {
    &&& scores.len() == vals.len()
    &&& forall|i: int|
        0 <= i < vals.len() ==> f.holds((#[trigger] scores[i])@) && scores[i]@ == (if descending {
            -score(vals, left, right, i)
        } else {
            score(vals, left, right, i)
        }) % (f@.modulus as int)
}

/// Enters the outcome of one comparison into the scores: the sign is added to
/// the score of the lower entry and taken off that of the upper entry, or the
/// other way round for a descending ranking.
fn exchange(
    scores: &mut Vec<Secret>,
    left: usize,
    right: usize,
    sign: &Secret,
    descending: bool,
    f: &Field,
    Ghost(vals): Ghost<Seq<nat>>,
)
    requires
        f.wf(),
        0 <= left < right < vals.len(),
        scores_match(f, vals, old(scores)@, left as int, right as int, descending),
        f.holds(sign@),
        sign@ == order_sign(vals, left as int, right as int) % (f@.modulus as int),
    ensures
        scores_match(f, vals, final(scores)@, left as int, right + 1, descending),
{
    let ghost before = scores@;
    let ghost m = f@.modulus as int;
    let ghost c = order_sign(vals, left as int, right as int);
    let lower = scores[left];
    let upper = scores[right];
    let (new_lower, new_upper) = if descending {
        (lower.minus(sign, f), upper.plus(sign, f))
    } else {
        (lower.plus(sign, f), upper.minus(sign, f))
    };
    scores.set(left, new_lower);
    scores.set(right, new_upper);
    proof {
        let l = left as int;
        let r = right as int;
        lemma_congruent_rem(c, m);
        assert forall|i: int| 0 <= i < vals.len() implies f.holds((#[trigger] scores@[i])@)
            && scores@[i]@ == (if descending {
            -score(vals, l, r + 1, i)
        } else {
            score(vals, l, r + 1, i)
        }) % m by {
            lemma_score_step(vals, l, r, i);
            let s0 = score(vals, l, r, i);
            let old_i = before[i]@ as int;
            if descending {
                lemma_congruent_rem(-s0, m);
                if i == l {
                    lemma_congruent_diff(old_i, -s0, sign@ as int, c, m);
                } else if i == r {
                    lemma_congruent_sum(old_i, -s0, sign@ as int, c, m);
                }
            } else {
                lemma_congruent_rem(s0, m);
                if i == l {
                    lemma_congruent_sum(old_i, s0, sign@ as int, c, m);
                } else if i == r {
                    lemma_congruent_diff(old_i, s0, sign@ as int, c, m);
                }
            }
        }
    }
}

/// The ranks of secret numbers that are given by their bits, least
/// significant bit first, all on the same number of bits. Position `i` of the
/// result holds the rank of number `i`, counted from one: in ascending order, or
/// in descending order where `descending` is set. Of equal numbers the one that
/// stands first in the input comes first in ascending order. The ranks are
/// secret, and nothing is opened on the way. The bits stand for nonnegative
/// numbers; signed numbers are brought into this form, in their order, by
/// [`crate::decompose::decompose_signed`].
///
/// Every pair of numbers is compared once. The sign of each comparison is
/// entered into the scores of both numbers, and the scores are rescaled to ranks
/// at the end. The field must have room for the raised scores, which reach
/// twice the number of entries less two: four times the number of entries less
/// one must stay below the modulus.
pub fn secretly_rank(values: &Vec<Vec<Secret>>, descending: bool, f: &Field) -> (r: Result<
    Vec<Secret>,
    ProtocolError,
>)
    requires
        f.wf(),
        forall|i: int| 0 <= i < values.len() ==> all_bits(secret_values(#[trigger] values@[i]@)),
    ensures
        !same_widths(values@) <==> r is Err,
        r matches Err(e) ==> e == ProtocolError::LengthMismatch,
        r matches Ok(ranks) ==> ({
            &&& ranks.len() == values.len()
            &&& forall|i: int| 0 <= i < ranks.len() ==> f.holds((#[trigger] ranks@[i])@)
            &&& 4 * (values.len() - 1) < f@.modulus ==> forall|i: int|
                0 <= i < ranks.len() ==> (#[trigger] ranks@[i])@ == rank_of(
                    numbers(values@),
                    i,
                    descending,
                )
        }),
{
    if !have_same_widths(values) {
        return Err(ProtocolError::LengthMismatch);
    }
    let n: usize = values.len();
    let ghost vals = numbers(values@);
    let ghost m = f@.modulus as int;
    let mut scores = zero_scores(n, f);
    if n == 0 {
        return Ok(scores);
    }
    proof {
        lemma_small_mod(0, f@.modulus);
        assert forall|i: int| 0 <= i < n implies f.holds((#[trigger] scores@[i])@) && scores@[i]@
            == (if descending {
            -score(vals, 0, 1, i)
        } else {
            score(vals, 0, 1, i)
        }) % m by {
            lemma_score_start(vals, i);
        }
    }
    let mut left: usize = 0;
    while left < n - 1
        invariant
            f.wf(),
            n == values.len(),
            n >= 1,
            left <= n - 1,
            m == f@.modulus,
            vals == numbers(values@),
            same_widths(values@),
            forall|i: int| 0 <= i < n ==> all_bits(secret_values(#[trigger] values@[i]@)),
            scores_match(f, vals, scores@, left as int, left + 1, descending),
        decreases n - left,
    {
        let mut right: usize = left + 1;
        while right < n
            invariant
                f.wf(),
                n == values.len(),
                left < n - 1,
                left < right <= n,
                m == f@.modulus,
                vals == numbers(values@),
                same_widths(values@),
                forall|i: int| 0 <= i < n ==> all_bits(secret_values(#[trigger] values@[i]@)),
                scores_match(f, vals, scores@, left as int, right as int, descending),
            decreases n - right,
        {
            proof {
                assert(all_bits(secret_values(values@[left as int]@)));
                assert(all_bits(secret_values(values@[right as int]@)));
                assert(values@[left as int].len() == values@[0].len());
                assert(values@[right as int].len() == values@[0].len());
            }
            let sign = match compare_sign(&values[left], &values[right], f) {
                Ok(s) => s,
                Err(e) => {
                    return Err(e);
                },
            };
            proof {
                lemma_small_mod(1, f@.modulus);
                lemma_fundamental_div_mod_converse_mod(-1, m, -1, m - 1);
            }
            exchange(&mut scores, left, right, &sign, descending, f, Ghost(vals));
            right = right + 1;
        }
        proof {
            assert forall|i: int| 0 <= i < n implies f.holds((#[trigger] scores@[i])@)
                && scores@[i]@ == (if descending {
                -score(vals, left + 1, left + 2, i)
            } else {
                score(vals, left + 1, left + 2, i)
            }) % m by {
                lemma_score_next_row(vals, left as int, i);
            }
        }
        left = left + 1;
    }
    let ranks = rescale(&scores, f);
    proof {
        let p = f@.modulus;
        if 4 * (n - 1) < p {
            assert forall|i: int| 0 <= i < ranks.len() implies (#[trigger] ranks@[i])@ == rank_of(
                vals,
                i,
                descending,
            ) by {
                lemma_score_final(vals, i);
                let w = before_count(vals, i) as int;
                let x = if descending {
                    -score(vals, n - 1, n as int, i)
                } else {
                    score(vals, n - 1, n as int, i)
                };
                // the score itself, and not only its remainder, is what the field holds
                lemma_centered_element(p, x);
                assert(scores@[i]@ == element_of(p, x));
                lemma_small_mod(rank_of(vals, i, descending), p);
            }
        }
    }
    Ok(ranks)
}

/// Whether two secret numbers that are given by their bits are equal. The
/// answer is opened: every participant learns it, and nothing else.
pub fn equal_opened(a: &Vec<Secret>, b: &Vec<Secret>, f: &Field) -> (r: Result<
    bool,
    ProtocolError,
>)
    requires
        f.wf(),
        all_bits(secret_values(a@)),
        all_bits(secret_values(b@)),
    ensures
        a.len() != b.len() <==> r is Err,
        r matches Err(e) ==> e == ProtocolError::LengthMismatch,
        r matches Ok(same) ==> same == (le_value(secret_values(a@)) == le_value(
            secret_values(b@),
        )),
{
    let a_ops = secret_operands(a);
    let b_ops = secret_operands(b);
    let less = match full_compare(&a_ops, &b_ops, f) {
        Ok(bit) => bit,
        Err(e) => {
            return Err(e);
        },
    };
    let greater = match full_compare(&b_ops, &a_ops, f) {
        Ok(bit) => bit,
        Err(e) => {
            return Err(e);
        },
    };
    proof {
        lemma_small_mod(0, f@.modulus);
        lemma_small_mod(1, f@.modulus);
    }
    let differ = less.plus(&greater, f);
    Ok(differ.open().to_u128() == 0)
}

/// What a participant's input has to say about the next row of a table with
/// a fixed number of columns.
#[derive(Clone, Copy, Debug, PartialEq, Eq, Structural)]
pub enum RowStatus {
    /// All columns were there.
    Complete,
    /// There was no column at all: the data has come to its end.
    EndOfData,
    /// The row broke off after some columns: the input is malformed.
    Incomplete,
}

/// Classifies a row of which `found` columns could be read, where
/// `expected` columns make a row. A table without columns never ends.
pub fn row_status(found: u64, expected: u64) -> (status: RowStatus)
    requires
        found <= expected,
    ensures
        status == (if found == expected {
            RowStatus::Complete
        } else if found == 0 {
            RowStatus::EndOfData
        } else {
            RowStatus::Incomplete
        }),
{
    if found == expected {
        RowStatus::Complete
    } else if found == 0 {
        RowStatus::EndOfData
    } else {
        RowStatus::Incomplete
    }
}

} // verus!
