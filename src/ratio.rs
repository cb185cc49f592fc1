//! The doubling walk that decides a flip of probability `num / den` from a
//! stream of fair flips.
use vstd::prelude::*;
use vstd::arithmetic::power2::{pow2, lemma_pow2_adds, lemma_pow2_pos, lemma_pow2_unfold};
use crate::flips::all_heads;

verus! {

/// Where the walk stands: still undecided with the numerator it has reached,
/// or decided.
pub enum Walk {
    Undecided(int),
    Decided(bool),
}

/// How many fair flips one walk may consume before it gives up and reports
/// `false`. A walk stays undecided after `k` flips with probability `2^-k`.
pub const FLIP_LIMIT: u64 = 0xffff_ffff_ffff_ffff;

/// A numerator that has reached the denominator decides `true`.
pub open spec fn settle(m: int, den: int) -> Walk {
    if m >= den {
        Walk::Decided(true)
    } else {
        Walk::Undecided(m)
    }
}

/// The state of the walk for `num / den` after the fair flips `flips`
/// (heads is `true`). While undecided at `m`, heads doubles `m`; tails
/// decides `false` if `2m < den` and otherwise goes on at `2m - den`.
pub open spec fn walk(num: int, den: int, flips: Seq<bool>) -> Walk
    decreases flips.len(),
{
    if flips.len() == 0 {
        settle(num, den)
    } else {
        match walk(num, den, flips.drop_last()) {
            Walk::Decided(r) => Walk::Decided(r),
            Walk::Undecided(m) => if flips.last() {
                settle(2 * m, den)
            } else if 2 * m < den {
                Walk::Decided(false)
            } else {
                settle(2 * m - den, den)
            },
        }
    }
}

/// `flips` is exactly what the walk for `num / den` consumed before it
/// returned `r`: it decided `r` on the last of them, or it gave up undecided
/// after `FLIP_LIMIT` flips and returned `false`.
pub open spec fn ratio_outcome(num: int, den: int, flips: Seq<bool>, r: bool) -> bool {
    ||| {
        &&& flips.len() <= FLIP_LIMIT
        &&& walk(num, den, flips) == Walk::Decided(r)
        &&& flips.len() > 0 ==> walk(num, den, flips.drop_last()) is Undecided
    }
    ||| {
        &&& flips.len() == FLIP_LIMIT
        &&& walk(num, den, flips) is Undecided
        &&& !r
    }
}

/// The position of the highest set bit of `d`: `2^n <= d < 2^(n+1)`.
pub open spec fn log2_floor(d: int) -> nat
    decreases d,
{
    if d <= 1 {
        0
    } else {
        1 + log2_floor(d / 2)
    }
}

/// The exponent `k` with `2^k <= d < 2^(k+1)` is `log2_floor(d)`.
pub proof fn lemma_log2_floor(d: int, k: nat)
    requires
        pow2(k) <= d < pow2(k + 1),
    ensures
        log2_floor(d) == k,
    decreases k,
{
    lemma_pow2_unfold(k + 1);
    lemma_pow2_pos(k);
    if k == 0 {
        assert(pow2(0) == 1) by {
            vstd::arithmetic::power2::lemma2_to64();
        }
    } else {
        lemma_pow2_unfold(k);
        lemma_log2_floor(d / 2, (k - 1) as nat);
    }
}

/// `flips` is exactly what a flip of probability `1 / den` consumed before
/// it returned `r`. With `n = log2_floor(den)`, it first asks whether the
/// next `n` flips are all heads: the first tails among them decides `false`.
/// If they are, the walk for `2^n / den` decides on the flips that follow.
pub open spec fn one_over_outcome(den: int, flips: Seq<bool>, r: bool) -> bool {
    let n = log2_floor(den) as int;
    ||| {
        &&& !r
        &&& 0 < flips.len() <= n
        &&& all_heads(flips, 0, flips.len() - 1)
        &&& !flips.last()
    }
    ||| {
        &&& n <= flips.len()
        &&& all_heads(flips, 0, n)
        &&& ratio_outcome(pow2(n as nat) as int, den, flips.subrange(n, flips.len() as int), r)
    }
}

/// Once decided, the walk stays decided whatever flips follow.
pub proof fn lemma_walk_sticky(num: int, den: int, s: Seq<bool>, j: int, k: int)
    requires
        0 <= j <= k <= s.len(),
        walk(num, den, s.take(j)) is Decided,
    ensures
        walk(num, den, s.take(k)) == walk(num, den, s.take(j)),
    decreases k - j,
{
    if j < k {
        lemma_walk_sticky(num, den, s, j, k - 1);
        assert(s.take(k).drop_last() =~= s.take(k - 1));
    }
}

/// The same flips give the same outcome: a walk consumes the same number of
/// them and returns the same result.
pub proof fn law_ratio_outcome_determined(
    num: int,
    den: int,
    s: Seq<bool>,
    k1: int,
    k2: int,
    r1: bool,
    r2: bool,
)
    requires
        0 <= k1 <= s.len(),
        0 <= k2 <= s.len(),
        ratio_outcome(num, den, s.take(k1), r1),
        ratio_outcome(num, den, s.take(k2), r2),
    ensures
        k1 == k2,
        r1 == r2,
{
    if k1 != k2 {
        let (a, b, ra) = if k1 < k2 { (k1, k2, r1) } else { (k2, k1, r2) };
        assert(s.take(b).drop_last() =~= s.take(b - 1));
        if walk(num, den, s.take(a)) is Decided {
            lemma_walk_sticky(num, den, s, a, b - 1);
            lemma_walk_sticky(num, den, s, a, b);
        }
    }
}

/// The same flips give the same outcome for a flip of probability
/// `1 / den`: the same number of them is consumed and the same result
/// returned.
pub proof fn law_one_over_outcome_determined(
    den: int,
    s: Seq<bool>,
    k1: int,
    k2: int,
    r1: bool,
    r2: bool,
)
    requires
        0 <= k1 <= s.len(),
        0 <= k2 <= s.len(),
        one_over_outcome(den, s.take(k1), r1),
        one_over_outcome(den, s.take(k2), r2),
    ensures
        k1 == k2,
        r1 == r2,
{
    let n = log2_floor(den) as int;
    let short1 = 0 < k1 <= n && all_heads(s.take(k1), 0, k1 - 1) && !s.take(k1).last();
    let short2 = 0 < k2 <= n && all_heads(s.take(k2), 0, k2 - 1) && !s.take(k2).last();
    if short1 && short2 {
        if k1 < k2 {
            assert(s.take(k2)[k1 - 1]);
        } else if k2 < k1 {
            assert(s.take(k1)[k2 - 1]);
        }
    } else if short1 {
        assert(s.take(k2)[k1 - 1]);
    } else if short2 {
        assert(s.take(k1)[k2 - 1]);
        assert(false);
    } else {
        let t = s.subrange(n, s.len() as int);
        assert(s.take(k1).subrange(n, k1) =~= t.take(k1 - n));
        assert(s.take(k2).subrange(n, k2) =~= t.take(k2 - n));
        law_ratio_outcome_determined(pow2(n as nat) as int, den, t, k1 - n, k2 - n, r1, r2);
    }
}

/// How many of the `2^k` ways to follow `prefix` with `k` more flips leave
/// the walk for `num / den` decided `true`.
pub open spec fn count_true(num: int, den: int, prefix: Seq<bool>, k: nat) -> nat
    decreases k,
{
    if k == 0 {
        if walk(num, den, prefix) == Walk::Decided(true) {
            1
        } else {
            0
        }
    } else {
        count_true(num, den, prefix.push(false), (k - 1) as nat) + count_true(
            num,
            den,
            prefix.push(true),
            (k - 1) as nat,
        )
    }
}

/// How many of the `2^k` ways to follow `prefix` with `k` more flips leave
/// the walk for `num / den` undecided.
pub open spec fn count_undecided(num: int, den: int, prefix: Seq<bool>, k: nat) -> nat
    decreases k,
{
    if k == 0 {
        if walk(num, den, prefix) is Undecided {
            1
        } else {
            0
        }
    } else {
        count_undecided(num, den, prefix.push(false), (k - 1) as nat) + count_undecided(
            num,
            den,
            prefix.push(true),
            (k - 1) as nat,
        )
    }
}

/// An undecided walk for `num / den` with `0 <= num` stands at some
/// `0 <= m < den`.
pub proof fn lemma_walk_range(num: int, den: int, flips: Seq<bool>)
    requires
        0 <= num,
    ensures
        walk(num, den, flips) is Undecided ==> 0 <= walk(num, den, flips)->Undecided_0 < den,
    decreases flips.len(),
{
    if flips.len() > 0 {
        lemma_walk_range(num, den, flips.drop_last());
    }
}

proof fn lemma_walk_push(num: int, den: int, p: Seq<bool>, b: bool)
    ensures
        walk(num, den, p.push(b)) == match walk(num, den, p) {
            Walk::Decided(r) => Walk::Decided(r),
            Walk::Undecided(m) => if b {
                settle(2 * m, den)
            } else if 2 * m < den {
                Walk::Decided(false)
            } else {
                settle(2 * m - den, den)
            },
        },
{
    assert(p.push(b).drop_last() =~= p);
}

proof fn lemma_count_from(num: int, den: int, p: Seq<bool>, k: nat)
    requires
        0 <= num,
        den >= 1,
    ensures
        walk(num, den, p) == Walk::Decided(true) ==> count_true(num, den, p, k) == pow2(k)
            && count_undecided(num, den, p, k) == 0,
        walk(num, den, p) == Walk::Decided(false) ==> count_true(num, den, p, k) == 0
            && count_undecided(num, den, p, k) == 0,
        walk(num, den, p) is Undecided ==> count_true(num, den, p, k) == (walk(num, den, p)->Undecided_0
            * pow2(k)) / den && count_undecided(num, den, p, k) == 1,
    decreases k,
{
    lemma_walk_range(num, den, p);
    lemma_walk_push(num, den, p, false);
    lemma_walk_push(num, den, p, true);
    if k == 0 {
        assert(pow2(0) == 1) by {
            vstd::arithmetic::power2::lemma2_to64();
        }
        if walk(num, den, p) is Undecided {
            let m = walk(num, den, p)->Undecided_0;
            vstd::arithmetic::div_mod::lemma_fundamental_div_mod_converse(m * 1, den, 0, m);
        }
    } else {
        let k1 = (k - 1) as nat;
        lemma_count_from(num, den, p.push(false), k1);
        lemma_count_from(num, den, p.push(true), k1);
        lemma_pow2_unfold(k);
        lemma_pow2_pos(k1);
        if walk(num, den, p) is Undecided {
            let m = walk(num, den, p)->Undecided_0;
            let q = pow2(k1) as int;
            assert(m * pow2(k) == 2 * m * q) by (nonlinear_arith)
                requires pow2(k) == 2 * q;
            if 2 * m >= den {
                // Tails goes on at 2m - den: (2m q - den q) / den == 2m q / den - q.
                vstd::arithmetic::div_mod::lemma_fundamental_div_mod(2 * m * q, den);
                let d0 = (2 * m * q) / den;
                let r0 = (2 * m * q) % den;
                assert((2 * m - den) * q == den * (d0 - q) + r0) by (nonlinear_arith)
                    requires 2 * m * q == den * d0 + r0;
                vstd::arithmetic::div_mod::lemma_fundamental_div_mod_converse(
                    (2 * m - den) * q,
                    den,
                    d0 - q,
                    r0,
                );
            }
        }
    }
}

/// The walk decides `true` with probability exactly `num / den`: of the
/// `2^k` ways the first `k` fair flips can fall, exactly
/// `floor(num * 2^k / den)` leave it decided `true`, and, while
/// `num < den`, exactly one leaves it undecided; every other way decides
/// `false`.
pub proof fn law_ratio_probability(num: int, den: int, k: nat)
    requires
        0 <= num <= den,
        den >= 1,
    ensures
        count_true(num, den, Seq::empty(), k) == (num * pow2(k)) / den,
        count_undecided(num, den, Seq::empty(), k) == if num < den {
            1nat
        } else {
            0nat
        },
{
    lemma_count_from(num, den, Seq::empty(), k);
    if num == den {
        lemma_pow2_pos(k);
        vstd::arithmetic::div_mod::lemma_fundamental_div_mod_converse(den * pow2(k), den, pow2(k) as int, 0);
        assert(num * pow2(k) == den * pow2(k));
    }
}

/// `2^log2_floor(d) <= d < 2^(log2_floor(d) + 1)`.
pub proof fn lemma_log2_floor_bounds(d: int)
    requires
        d >= 1,
    ensures
        pow2(log2_floor(d)) <= d < pow2(log2_floor(d) + 1),
    decreases d,
{
    let n = log2_floor(d);
    lemma_pow2_unfold(n + 1);
    if d == 1 {
        assert(pow2(0) == 1) by {
            vstd::arithmetic::power2::lemma2_to64();
        }
    } else {
        lemma_log2_floor_bounds(d / 2);
        lemma_pow2_unfold(n);
    }
}

/// A flip of probability `1 / den` is true with probability exactly
/// `1 / den`. With `n = log2_floor(den)`, it is true only when the first `n`
/// flips are all heads, one way out of `2^n`, and the walk for
/// `2^n / den` then decides `true`: of the `2^k` ways its first `k` flips
/// can fall, `floor(2^(n+k) / den)` do. So of the `2^(n+k)` ways the first
/// `n + k` flips can fall, exactly `floor(2^(n+k) / den)` give `true`.
pub proof fn law_one_over_probability(den: int, k: nat)
    requires
        den >= 1,
    ensures
        pow2(log2_floor(den)) <= den,
        count_true(pow2(log2_floor(den)) as int, den, Seq::empty(), k) == (pow2(log2_floor(den) + k)
            as int) / den,
{
    let n = log2_floor(den);
    lemma_log2_floor_bounds(den);
    law_ratio_probability(pow2(n) as int, den, k);
    lemma_pow2_adds(n, k);
}

} // verus!
