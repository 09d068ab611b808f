//! Reduction and inclusive prefix computation under an associative operator.
//! Which elements are combined in which round depends on the length of the
//! input alone, never on its contents.

use crate::field::Field;
use vstd::arithmetic::div_mod::*;
use vstd::arithmetic::mul::*;
use vstd::arithmetic::power2::*;
use vstd::prelude::*;

verus! {

/// An associative binary operator on items that carry field elements. The
/// operator need not be commutative.
pub trait Associative {
    /// What the operator combines.
    type Item: Copy;

    /// The mathematical content of an item.
    type Value;

    /// The content of `item`.
    spec fn value(item: Self::Item) -> Self::Value;

    /// Whether `v` is made of reduced elements of `f`.
    spec fn valid(f: &Field, v: Self::Value) -> bool;

    /// The result of the operator on `a` and `b`, in this order.
    spec fn op(f: &Field, a: Self::Value, b: Self::Value) -> Self::Value;

    /// Combines `a` and `b`, in this order.
    fn apply(&self, f: &Field, a: &Self::Item, b: &Self::Item) -> (r: Self::Item)
        requires
            f.wf(),
            Self::valid(f, Self::value(*a)),
            Self::valid(f, Self::value(*b)),
        ensures
            Self::value(r) == Self::op(f, Self::value(*a), Self::value(*b)),
            Self::valid(f, Self::value(r)),
    ;

    /// The operator stays inside the field and is associative.
    proof fn lemma_associative(f: &Field, a: Self::Value, b: Self::Value, c: Self::Value)
        requires
            f.wf(),
            Self::valid(f, a),
            Self::valid(f, b),
            Self::valid(f, c),
        ensures
            Self::valid(f, Self::op(f, a, b)),
            Self::op(f, Self::op(f, a, b), c) == Self::op(f, a, Self::op(f, b, c)),
    ;
}

/// The contents of a sequence of items.
pub open spec fn item_values<O: Associative>(s: Seq<O::Item>) -> Seq<O::Value> {
    Seq::new(s.len(), |i: int| O::value(s[i]))
}

/// Every entry is made of reduced elements of `f`.
pub open spec fn all_valid<O: Associative>(f: &Field, s: Seq<O::Value>) -> bool {
    forall|i: int| 0 <= i < s.len() ==> O::valid(f, #[trigger] s[i])
}

/// The combination of a nonempty sequence from left to right:
/// `((s[0] op s[1]) op s[2]) op ...`.
pub open spec fn combined<O: Associative>(f: &Field, s: Seq<O::Value>) -> O::Value
    recommends
        s.len() >= 1,
    decreases s.len(),
{
    if s.len() <= 1 {
        s[0]
    } else {
        O::op(f, combined::<O>(f, s.drop_last()), s.last())
    }
}

/// The combination of valid entries is valid.
pub proof fn lemma_combined_valid<O: Associative>(f: &Field, s: Seq<O::Value>)
    requires
        f.wf(),
        s.len() >= 1,
        all_valid::<O>(f, s),
    ensures
        O::valid(f, combined::<O>(f, s)),
    decreases s.len(),
{
    if s.len() > 1 {
        lemma_combined_valid::<O>(f, s.drop_last());
        O::lemma_associative(f, combined::<O>(f, s.drop_last()), s.last(), s.last());
    }
}

/// A sequence may be cut anywhere: the combination of the whole is the
/// combination of the two parts' combinations.
pub proof fn lemma_combined_split<O: Associative>(f: &Field, s: Seq<O::Value>, cut: int)
    requires
        f.wf(),
        0 < cut < s.len(),
        all_valid::<O>(f, s),
    ensures
        combined::<O>(f, s) == O::op(
            f,
            combined::<O>(f, s.subrange(0, cut)),
            combined::<O>(f, s.subrange(cut, s.len() as int)),
        ),
    decreases s.len(),
{
    let left = s.subrange(0, cut);
    let right = s.subrange(cut, s.len() as int);
    if cut == s.len() - 1 {
        assert(left =~= s.drop_last());
        assert(right.len() == 1);
        assert(right[0] == s.last());
    } else {
        let front = s.drop_last();
        lemma_combined_split::<O>(f, front, cut);
        assert(front.subrange(0, cut) =~= left);
        assert(front.subrange(cut, front.len() as int) =~= right.drop_last());
        assert(right.last() == s.last());
        lemma_combined_valid::<O>(f, left);
        lemma_combined_valid::<O>(f, right.drop_last());
        O::lemma_associative(
            f,
            combined::<O>(f, left),
            combined::<O>(f, right.drop_last()),
            s.last(),
        );
    }
}

/// One round of pairwise reduction: neighbours are combined two by two, and the
/// last entry of an odd-length sequence is carried forward unchanged.
fn halve<O: Associative>(op: &O, f: &Field, level: &Vec<O::Item>) -> (next: Vec<O::Item>)
    requires
        f.wf(),
        level.len() >= 2,
        all_valid::<O>(f, item_values::<O>(level@)),
    ensures
        next.len() == (level.len() + 1) / 2,
        all_valid::<O>(f, item_values::<O>(next@)),
        combined::<O>(f, item_values::<O>(next@)) == combined::<O>(f, item_values::<O>(level@)),
{
    let n: usize = level.len();
    let ghost vals = item_values::<O>(level@);
    let mut next: Vec<O::Item> = Vec::new();
    let mut i: usize = 0;
    while n - i >= 2
        invariant
            f.wf(),
            n == level.len(),
            n >= 2,
            i <= n,
            i % 2 == 0,
            next.len() == i / 2,
            vals == item_values::<O>(level@),
            all_valid::<O>(f, vals),
            all_valid::<O>(f, item_values::<O>(next@)),
            i > 0 ==> combined::<O>(f, item_values::<O>(next@)) == combined::<O>(
                f,
                vals.subrange(0, i as int),
            ),
        decreases n - i,
    {
        let ghost before = item_values::<O>(next@);
        assert(O::valid(f, vals[i as int]));
        assert(O::valid(f, vals[i + 1]));
        let pair = op.apply(f, &level[i], &level[i + 1]);
        next.push(pair);
        proof {
            let after = item_values::<O>(next@);
            let upto = vals.subrange(0, i + 2);
            assert(after.drop_last() =~= before);
            assert(after.last() == O::op(f, vals[i as int], vals[i + 1]));
            assert forall|t: int| 0 <= t < after.len() implies O::valid(f, #[trigger] after[t]) by {
                if t < before.len() {
                    assert(after[t] == before[t]);
                }
            }
            let tail = upto.subrange(i as int, i + 2);
            assert(tail.drop_last().len() == 1);
            assert(combined::<O>(f, tail) == O::op(f, vals[i as int], vals[i + 1])) by {
                assert(tail.drop_last()[0] == vals[i as int]);
                assert(tail.last() == vals[i + 1]);
                assert(combined::<O>(f, tail.drop_last()) == vals[i as int]);
            }
            if i > 0 {
                assert(upto.subrange(0, i as int) =~= vals.subrange(0, i as int));
                lemma_combined_split::<O>(f, upto, i as int);
            } else {
                assert(upto =~= tail);
            }
        }
        i = i + 2;
    }
    if i < n {
        let ghost before = item_values::<O>(next@);
        next.push(level[i]);
        proof {
            let after = item_values::<O>(next@);
            assert(after.drop_last() =~= before);
            assert(after.last() == vals[i as int]);
            assert forall|t: int| 0 <= t < after.len() implies O::valid(f, #[trigger] after[t]) by {
                if t < before.len() {
                    assert(after[t] == before[t]);
                }
            }
            assert(vals.drop_last() =~= vals.subrange(0, i as int));
        }
    } else {
        assert(vals.subrange(0, i as int) =~= vals);
    }
    next
}

/// Whether `r` is the least number of doublings that take one to `n` or
/// beyond: the logarithm of `n` to the base two, rounded up.
pub open spec fn is_ceil_log2(n: nat, r: nat) -> bool {
    pow2(r) >= n && (r > 0 ==> pow2((r - 1) as nat) < n)
}

/// The logarithm of `n` to the base two, rounded up; zero for `n` below two.
pub fn ceil_log_2(n: usize) -> (r: u32)
    ensures
        is_ceil_log2(n as nat, r as nat),
        r <= usize::BITS,
{
    let mut r: u32 = 0;
    let mut reach: usize = 1;
    proof {
        lemma2_to64();
    }
    while reach < n
        invariant
            reach == pow2(r as nat) || (reach == n && pow2(r as nat) >= n),
            r > 0 ==> pow2((r - 1) as nat) < n,
            reach >= 1,
            r <= usize::BITS,
            reach < n ==> r < usize::BITS,
        decreases n - reach,
    {
        proof {
            lemma_pow2_unfold((r + 1) as nat);
            if r + 1 == usize::BITS {
                // reach doubles to two to the word size, which no length reaches
                lemma_usize_below_pow2_bits(n);
            }
        }
        if n - reach <= reach {
            reach = n;
        } else {
            reach = 2 * reach;
        }
        r = r + 1;
    }
    r
}

/// A machine word is below two to the number of its bits.
pub proof fn lemma_usize_below_pow2_bits(n: usize)
    ensures
        n < pow2(usize::BITS as nat),
{
    lemma2_to64();
    assert(usize::BITS == 32 || usize::BITS == 64);
}

/// Reduces `items` to the combination of all of them, in their order. Returns
/// `None` for an empty input.
///
/// The reduction takes as many rounds as the logarithm of the number of items
/// to the base two, rounded up; every round combines neighbours two by two.
pub fn fold<O: Associative>(op: &O, f: &Field, items: &Vec<O::Item>) -> (r: Option<O::Item>)
    requires
        f.wf(),
        all_valid::<O>(f, item_values::<O>(items@)),
    ensures
        items.len() == 0 <==> r is None,
        r matches Some(x) ==> O::value(x) == combined::<O>(f, item_values::<O>(items@))
            && O::valid(f, O::value(x)),
{
    let n: usize = items.len();
    if n == 0 {
        return None;
    }
    let rounds: u32 = ceil_log_2(n);
    if rounds == 0 {
        proof {
            lemma2_to64();
        }
        assert(O::valid(f, item_values::<O>(items@)[0]));
        return Some(items[0]);
    }
    proof {
        lemma2_to64();
        lemma_pow2_pos((rounds - 1) as nat);
    }
    let mut level: Vec<O::Item> = halve(op, f, items);
    let mut round: u32 = 1;
    while round < rounds
        invariant
            f.wf(),
            n == items.len(),
            1 <= round <= rounds,
            is_ceil_log2(n as nat, rounds as nat),
            level.len() >= 1,
            level.len() * pow2(round as nat) >= n,
            (level.len() - 1) * pow2(round as nat) < n,
            all_valid::<O>(f, item_values::<O>(level@)),
            combined::<O>(f, item_values::<O>(level@)) == combined::<O>(
                f,
                item_values::<O>(items@),
            ),
        decreases rounds - round,
    {
        proof {
            lemma_round_not_last(n as nat, rounds as nat, round as nat, level.len() as nat);
            lemma_pow2_unfold((round + 1) as nat);
            lemma_pow2_pos(round as nat);
            lemma_halved_bounds(n as int, level.len() as int, pow2(round as nat) as int);
        }
        level = halve(op, f, &level);
        round = round + 1;
    }
    proof {
        lemma_last_round(n as nat, rounds as nat, level.len() as nat);
    }
    assert(O::valid(f, item_values::<O>(level@)[0]));
    Some(level[0])
}

/// Before the last round more than one item is left.
pub proof fn lemma_round_not_last(n: nat, rounds: nat, round: nat, len: nat)
    requires
        is_ceil_log2(n, rounds),
        round < rounds,
        len * pow2(round) >= n,
    ensures
        len >= 2,
{
    if round < rounds - 1 {
        lemma_pow2_strictly_increases(round, (rounds - 1) as nat);
    }
    if len <= 1 {
        assert(len * pow2(round) <= pow2(round)) by (nonlinear_arith)
            requires
                len <= 1,
        ;
    }
}

/// After the last round one item is left.
pub proof fn lemma_last_round(n: nat, rounds: nat, len: nat)
    requires
        is_ceil_log2(n, rounds),
        len >= 1,
        (len - 1) * pow2(rounds) < n,
    ensures
        len == 1,
{
    if len >= 2 {
        assert((len - 1) * pow2(rounds) >= pow2(rounds)) by (nonlinear_arith)
            requires
                len >= 2,
        ;
    }
}

/// Halving the number of items, rounded up, keeps it the quotient, rounded
/// up, of the number of inputs by the doubled block size.
pub proof fn lemma_halved_bounds(n: int, len: int, d: int)
    requires
        d >= 1,
        len >= 1,
        len * d >= n,
        (len - 1) * d < n,
    ensures
        ((len + 1) / 2) * (2 * d) >= n,
        ((len + 1) / 2 - 1) * (2 * d) < n,
{
    let h = (len + 1) / 2;
    assert(2 * h >= len && 2 * h <= len + 1);
    assert(h * (2 * d) >= len * d) by (nonlinear_arith)
        requires
            2 * h >= len,
            d >= 1,
    ;
    assert((h - 1) * (2 * d) <= (len - 1) * d) by (nonlinear_arith)
        requires
            2 * h <= len + 1,
            d >= 1,
    ;
}

/// Where the partial combination held at position `t` starts, when positions
/// before `frontier` have been merged into blocks of `2 * span` and the others
/// into blocks of `span`.
pub open spec fn block_start(t: int, span: int, frontier: int) -> int {
    if t < frontier {
        t - t % (2 * span)
    } else {
        t - t % span
    }
}

/// Every position holds the combination of the input from the start of its
/// block up to itself.
pub open spec fn settled<O: Associative>(
    f: &Field,
    vals: Seq<O::Value>,
    out: Seq<O::Value>,
    span: int,
    frontier: int,
) -> bool {
    &&& out.len() == vals.len()
    &&& forall|t: int|
        0 <= t < out.len() ==> #[trigger] out[t] == combined::<O>(
            f,
            vals.subrange(block_start(t, span, frontier), t + 1),
        )
}

/// The remainder of a multiple of `size` plus an offset below `size`.
pub proof fn lemma_offset_in_block(size: int, blocks: int, offset: int)
    requires
        size > 0,
        0 <= offset < size,
    ensures
        (size * blocks + offset) % size == offset,
{
    lemma_mul_is_commutative(size, blocks);
    lemma_fundamental_div_mod_converse_mod(size * blocks + offset, size, blocks, offset);
}

/// One round of a prefix network on blocks of `span` positions: every block
/// with an even number is merged with its right neighbour, by combining the last
/// item of the left block into every item of the right one. Which items are
/// combined depends on `span` and on the number of items alone.
fn merge_round<O: Associative>(
    op: &O,
    f: &Field,
    out: &mut Vec<O::Item>,
    span: usize,
    Ghost(vals): Ghost<Seq<O::Value>>,
)
    requires
        f.wf(),
        old(out).len() == vals.len(),
        1 <= span < vals.len(),
        all_valid::<O>(f, vals),
        all_valid::<O>(f, item_values::<O>(old(out)@)),
        settled::<O>(f, vals, item_values::<O>(old(out)@), span as int, 0),
    ensures
        final(out).len() == vals.len(),
        all_valid::<O>(f, item_values::<O>(final(out)@)),
        settled::<O>(
            f,
            vals,
            item_values::<O>(final(out)@),
            if vals.len() - span <= span {
                vals.len() as int
            } else {
                2 * span
            },
            0,
        ),
{
    let k: usize = out.len();
    let mut base: usize = 0;
    let ghost mut blocks: int = 0;
    let mut more: bool = true;
    while more
        invariant
            f.wf(),
            k == vals.len(),
            out.len() == k,
            1 <= span < k,
            more ==> base < k,
            more ==> base == 2 * span * blocks,
            !more ==> base == k,
            0 <= blocks,
            all_valid::<O>(f, vals),
            all_valid::<O>(f, item_values::<O>(out@)),
            settled::<O>(f, vals, item_values::<O>(out@), span as int, base as int),
        decreases k - base + (if more { 1int } else { 0int }),
    {
        if k - base <= span {
            // only a lower half is left: nothing to merge
            proof {
                let cur = item_values::<O>(out@);
                assert forall|t: int| 0 <= t < k implies #[trigger] cur[t] == combined::<O>(
                    f,
                    vals.subrange(block_start(t, span as int, k as int), t + 1),
                ) by {
                    if t >= base {
                        lemma_mul_is_associative(2, span as int, blocks);
                        lemma_offset_in_block(2 * span, blocks, t - base);
                        lemma_mul_is_associative(span as int, 2, blocks);
                        lemma_mul_is_commutative(2, span as int);
                        lemma_offset_in_block(span as int, 2 * blocks, t - base);
                        assert(span * (2 * blocks) == 2 * span * blocks) by (nonlinear_arith);
                        assert(block_start(t, span as int, base as int) == base);
                        assert(block_start(t, span as int, k as int) == base);
                    }
                }
            }
            base = k;
            more = false;
        } else {
            let low: usize = base + span - 1;
            let first: usize = base + span;
            let mut z: usize = 0;
            proof {
                // the lower half may be counted as merged already
                let cur = item_values::<O>(out@);
                assert forall|t: int| 0 <= t < k implies #[trigger] cur[t] == combined::<O>(
                    f,
                    vals.subrange(block_start(t, span as int, first as int), t + 1),
                ) by {
                    if base <= t < first {
                        lemma_offset_in_block(2 * span, blocks, t - base);
                        lemma_offset_in_block(span as int, 2 * blocks, t - base);
                        assert(span * (2 * blocks) == 2 * span * blocks) by (nonlinear_arith);
                        assert(block_start(t, span as int, base as int) == base);
                        assert(block_start(t, span as int, first as int) == base);
                    }
                }
            }
            while z < span && z < k - first
                invariant
                    f.wf(),
                    k == vals.len(),
                    out.len() == k,
                    1 <= span < k,
                    base < k,
                    base == 2 * span * blocks,
                    0 <= blocks,
                    k - base > span,
                    low == base + span - 1,
                    first == base + span,
                    z <= span,
                    z <= k - first,
                            all_valid::<O>(f, vals),
                    all_valid::<O>(f, item_values::<O>(out@)),
                    settled::<O>(f, vals, item_values::<O>(out@), span as int, first + z),
                decreases span - z,
            {
                let idx: usize = first + z;
                let ghost cur = item_values::<O>(out@);
                proof {
                    assert(span * (2 * blocks) == 2 * span * blocks) by (nonlinear_arith);
                    assert(span * (2 * blocks + 1) == 2 * span * blocks + span)
                        by (nonlinear_arith);
                    lemma_offset_in_block(2 * span, blocks, span - 1);
                    lemma_offset_in_block(span as int, 2 * blocks + 1, z as int);
                    assert(block_start(low as int, span as int, first + z) == base);
                    assert(block_start(idx as int, span as int, first + z) == first);
                    assert(cur[low as int] == combined::<O>(
                        f,
                        vals.subrange(base as int, low + 1),
                    ));
                    assert(cur[idx as int] == combined::<O>(
                        f,
                        vals.subrange(first as int, idx + 1),
                    ));
                    assert(O::valid(f, cur[low as int]));
                    assert(O::valid(f, cur[idx as int]));
                }
                let merged = op.apply(f, &out[low], &out[idx]);
                out.set(idx, merged);
                proof {
                    let now = item_values::<O>(out@);
                    let whole = vals.subrange(base as int, idx + 1);
                    assert forall|t: int| 0 <= t < whole.len() implies O::valid(
                        f,
                        #[trigger] whole[t],
                    ) by {
                        assert(whole[t] == vals[base + t]);
                    }
                    lemma_combined_split::<O>(f, whole, span as int);
                    assert(whole.subrange(0, span as int) =~= vals.subrange(
                        base as int,
                        low + 1,
                    ));
                    assert(whole.subrange(span as int, whole.len() as int) =~= vals.subrange(
                        first as int,
                        idx + 1,
                    ));
                    assert(now[idx as int] == combined::<O>(f, whole));
                    lemma_offset_in_block(2 * span, blocks, span + z);
                    assert(block_start(idx as int, span as int, first + z + 1) == base);
                    assert forall|t: int| 0 <= t < k implies O::valid(f, #[trigger] now[t]) by {
                        if t != idx {
                            assert(now[t] == cur[t]);
                        }
                    }
                    assert forall|t: int| 0 <= t < k implies #[trigger] now[t] == combined::<O>(
                        f,
                        vals.subrange(block_start(t, span as int, first + z + 1), t + 1),
                    ) by {
                        if t != idx {
                            assert(now[t] == cur[t]);
                            assert(block_start(t, span as int, first + z + 1) == block_start(
                                t,
                                span as int,
                                first + z,
                            ));
                        }
                    }
                }
                z = z + 1;
            }
            if k - first <= span {
                proof {
                    // the block reaches the end of the input
                    let cur = item_values::<O>(out@);
                    assert forall|t: int| 0 <= t < k implies #[trigger] cur[t] == combined::<O>(
                        f,
                        vals.subrange(block_start(t, span as int, k as int), t + 1),
                    ) by {
                        assert(block_start(t, span as int, k as int) == block_start(
                            t,
                            span as int,
                            first + z,
                        ));
                    }
                }
                base = k;
                more = false;
            } else {
                proof {
                    assert(2 * span * (blocks + 1) == 2 * span * blocks + 2 * span)
                        by (nonlinear_arith);
                    blocks = blocks + 1;
                }
                base = first + span;
            }
        }
    }
    proof {
        // blocks of twice the size, seen from a frontier at zero
        let cur = item_values::<O>(out@);
        let wide: int = if k - span <= span { k as int } else { 2 * span };
        assert forall|t: int| 0 <= t < k implies #[trigger] cur[t] == combined::<O>(
            f,
            vals.subrange(block_start(t, wide, 0), t + 1),
        ) by {
            if k - span <= span {
                lemma_small_mod(t as nat, (2 * span) as nat);
                lemma_small_mod(t as nat, k as nat);
            }
            assert(block_start(t, wide, 0) == block_start(t, span as int, k as int));
        }
    }
}

/// The inclusive prefix combinations of `items`: position `i` of the result
/// holds the combination of `items[0..=i]`, in their order.
///
/// The network takes as many rounds as the logarithm of the number of items to
/// the base two, rounded up. Round `r` merges neighbouring blocks of `2^r`
/// positions; the positions touched depend on the length of the input alone.
pub fn scan<O: Associative>(op: &O, f: &Field, items: &Vec<O::Item>) -> (out: Vec<O::Item>)
    requires
        f.wf(),
        all_valid::<O>(f, item_values::<O>(items@)),
    ensures
        out.len() == items.len(),
        all_valid::<O>(f, item_values::<O>(out@)),
        forall|i: int|
            0 <= i < out.len() ==> #[trigger] O::value(out@[i]) == combined::<O>(
                f,
                item_values::<O>(items@).subrange(0, i + 1),
            ),
{
    let k: usize = items.len();
    let ghost vals = item_values::<O>(items@);
    let mut out: Vec<O::Item> = Vec::new();
    let mut c: usize = 0;
    while c < k
        invariant
            k == items.len(),
            c <= k,
            out.len() == c,
            forall|t: int| 0 <= t < c ==> out@[t] == items@[t],
        decreases k - c,
    {
        out.push(items[c]);
        c = c + 1;
    }
    assert(item_values::<O>(out@) =~= vals);
    let rounds: u32 = ceil_log_2(k);
    let mut round: u32 = 0;
    let mut span: usize = 1;
    proof {
        lemma2_to64();
        assert forall|t: int| 0 <= t < k implies #[trigger] vals[t] == combined::<O>(
            f,
            vals.subrange(block_start(t, 1, 0), t + 1),
        ) by {
            assert(vals.subrange(t, t + 1)[0] == vals[t]);
        }
    }
    while round < rounds
        invariant
            f.wf(),
            k == items.len(),
            out.len() == k,
            round <= rounds,
            is_ceil_log2(k as nat, rounds as nat),
            1 <= span,
            span < k ==> span == pow2(round as nat),
            span >= k ==> pow2(round as nat) >= k,
            vals == item_values::<O>(items@),
            all_valid::<O>(f, vals),
            all_valid::<O>(f, item_values::<O>(out@)),
            settled::<O>(f, vals, item_values::<O>(out@), span as int, 0),
        decreases rounds - round,
    {
        proof {
            if round < rounds - 1 {
                lemma_pow2_strictly_increases(round as nat, (rounds - 1) as nat);
            }
            lemma_pow2_unfold((round + 1) as nat);
        }
        merge_round(op, f, &mut out, span, Ghost(vals));
        if k - span <= span {
            span = k;
        } else {
            span = 2 * span;
        }
        round = round + 1;
    }
    proof {
        let cur = item_values::<O>(out@);
        assert forall|i: int| 0 <= i < out.len() implies #[trigger] O::value(out@[i])
            == combined::<O>(f, vals.subrange(0, i + 1)) by {
            assert(cur[i] == O::value(out@[i]));
            lemma_small_mod(i as nat, span as nat);
            assert(block_start(i, span as int, 0) == 0);
        }
    }
    out
}

} // verus!
