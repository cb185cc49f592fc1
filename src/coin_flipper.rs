//! A buffer of random bits and the biased coin flips drawn from it.
use vstd::prelude::*;
use crate::ratio::{
    lemma_log2_floor, one_over_outcome, ratio_outcome, settle, walk, Walk, FLIP_LIMIT,
};
use crate::flips::{
    all_heads, bit_is_zero, flips_of, lemma_flip_kept, lemma_shr_shr, lemma_word_index, words_needed,
};

verus! {

broadcast use vstd::std_specs::bits::axiom_u32_trailing_zeros, vstd::std_specs::bits::axiom_u64_leading_zeros;

/// A source of uniformly distributed 32-bit words.
pub trait RngCore {
    /// The next word of the source.
    fn next_u32(&mut self) -> u32;
}

/// Draws biased coin flips from a random source, one bit at a time, keeping
/// the unused bits of the last word it drew.
pub struct CoinFlipper<R: RngCore> {
    pub rng: R,
    chunk: u32,
    chunk_remaining: u32,
    drawn: Ghost<Seq<u32>>,
}

impl<R: RngCore> CoinFlipper<R> {
    /// The random source.
    pub closed spec fn source(&self) -> R {
        self.rng
    }

    /// Every word drawn from the source so far, oldest first.
    pub closed spec fn words(&self) -> Seq<u32> {
        self.drawn@
    }

    /// How many flips of `flips_of(self.words())` have been consumed.
    pub closed spec fn position(&self) -> int {
        32 * self.drawn@.len() - self.chunk_remaining
    }

    /// The flips drawn so far, consumed or not.
    pub open spec fn flips(&self) -> Seq<bool> {
        flips_of(self.words())
    }

    /// The unconsumed bits of the last word are the low bits of `chunk`.
    pub closed spec fn well_formed(&self) -> bool {
        &&& self.chunk_remaining <= 32
        &&& self.chunk_remaining > 0 ==> {
            &&& self.drawn@.len() > 0
            &&& self.chunk == self.drawn@.last() >> ((32 - self.chunk_remaining) as u32)
        }
    }

    /// How the state after a call relates to the state `prev` before it: the
    /// earlier words are kept, words are drawn only once the buffer ran out,
    /// and the position has not gone back.
    pub open spec fn advanced_from(&self, prev: &Self) -> bool {
        &&& self.well_formed()
        &&& prev.words().len() <= self.words().len()
        &&& self.words().subrange(0, prev.words().len() as int) == prev.words()
        &&& prev.position() <= self.position() <= self.flips().len()
        &&& self.words().len() == words_needed(prev.words().len(), self.position())
    }

    proof fn lemma_position(&self)
        requires
            self.well_formed(),
        ensures
            0 <= self.position() <= self.flips().len(),
            self.position() == self.flips().len() - self.chunk_remaining,
    {
    }

    /// The flip `j` places after the position is the bit `j` of `chunk`.
    proof fn lemma_chunk_bit(&self, j: u32)
        requires
            self.well_formed(),
            j < self.chunk_remaining,
        ensures
            bit_is_zero(self.chunk, j as int) == self.flips()[self.position() + j],
    {
        let w = self.drawn@.last();
        let s = (32 - self.chunk_remaining) as u32;
        let n = self.drawn@.len() - 1;
        assert(((w >> s) >> j) & 1u32 == (w >> ((s + j) as u32)) & 1u32) by (bit_vector)
            requires s + j < 32;
        lemma_word_index(n, s + j);
    }

    /// The buffered flips are heads up to the lowest one bit of `chunk`, which
    /// is tails.
    proof fn lemma_chunk_run(&self)
        requires
            self.well_formed(),
        ensures
            forall|j: int|
                0 <= j < self.chunk_remaining && j < self.chunk.trailing_zeros()
                    ==> #[trigger] self.flips()[self.position() + j],
            self.chunk.trailing_zeros() < self.chunk_remaining
                ==> !self.flips()[self.position() + self.chunk.trailing_zeros()],
    {
        let z = self.chunk.trailing_zeros();
        assert forall|j: int|
            0 <= j < self.chunk_remaining && j < z implies #[trigger] self.flips()[self.position() + j] by {
            self.lemma_chunk_bit(j as u32);
        }
        if z < self.chunk_remaining {
            self.lemma_chunk_bit(z);
        }
    }

    /// A flipper over `rng` that has drawn nothing yet.
    pub fn new(rng: R) -> (r: Self)
        ensures
            r.well_formed(),
            r.words() == Seq::<u32>::empty(),
            r.position() == 0,
            r.source() == rng,
    {
        Self { rng, chunk: 0, chunk_remaining: 0, drawn: Ghost(Seq::empty()) }
    }

    /// Consumes one flip: heads (`true`) when its bit is zero.
    pub fn next(&mut self) -> (r: bool)
        requires
            old(self).well_formed(),
        ensures
            final(self).advanced_from(old(self)),
            final(self).position() == old(self).position() + 1,
            r == final(self).flips()[old(self).position()],
    {
        let ghost start = *self;
        if let Some(new_rem) = self.chunk_remaining.checked_sub(1) {
            proof {
                start.lemma_chunk_bit(0);
            }
            self.chunk_remaining = new_rem;
        } else {
            self.chunk = self.rng.next_u32();
            self.drawn = Ghost(self.drawn@.push(self.chunk));
            self.chunk_remaining = u32::BITS - 1;
            proof {
                lemma_word_index(start.drawn@.len() as int, 0);
                lemma_word_index(start.drawn@.len() + 1int, 0);
            }
        }
        let c = self.chunk;
        let result = self.chunk.trailing_zeros() > 0;
        self.chunk = self.chunk.wrapping_shr(1);
        proof {
            assert(c == 0 || (c >> 0u32) & 1u32 == 0u32 <==> c.trailing_zeros() > 0);
            assert(c == 0 ==> (c >> 0u32) & 1u32 == 0u32) by (bit_vector);
            let s = (32 - start.chunk_remaining) as u32;
            if start.chunk_remaining > 0 {
                let w = start.drawn@.last();
                assert(s < 32 ==> (w >> s) >> 1u32 == w >> ((s + 1) as u32)) by (bit_vector);
            }
            assert(self.drawn@.subrange(0, start.drawn@.len() as int) =~= start.drawn@);
        }
        result
    }

    /// Consumes `b` of the `chunk_remaining` buffered flips.
    fn consume(&mut self, b: u32)
        requires
            old(self).well_formed(),
            b <= old(self).chunk_remaining,
        ensures
            final(self).well_formed(),
            final(self).words() == old(self).words(),
            final(self).position() == old(self).position() + b,
            final(self).rng == old(self).rng,
            b == 0 ==> *final(self) == *old(self),
    {
        proof {
            if b < old(self).chunk_remaining {
                lemma_shr_shr(self.drawn@.last(), (32 - self.chunk_remaining) as u32, b);
            }
        }
        let c = self.chunk;
        proof {
            assert(c >> 0u32 == c) by (bit_vector);
        }
        self.chunk = self.chunk.wrapping_shr(b);
        self.chunk_remaining = self.chunk_remaining - b;
    }

    /// If the next `n` flips are all heads, consumes them and returns `true`.
    /// Otherwise consumes the flips up to and including the first tails, and
    /// returns `false`.
    pub fn all_next(&mut self, n: u32) -> (r: bool)
        requires
            old(self).well_formed(),
        ensures
            final(self).advanced_from(old(self)),
            r ==> final(self).position() == old(self).position() + n,
            r ==> all_heads(final(self).flips(), old(self).position(), old(self).position() + n),
            !r ==> old(self).position() < final(self).position(),
            !r ==> final(self).position() <= old(self).position() + n,
            !r ==> all_heads(final(self).flips(), old(self).position(), final(self).position() - 1),
            !r ==> !final(self).flips()[final(self).position() - 1],
            n == 0 ==> r && *final(self) == *old(self),
    {
        let ghost start = *self;
        let ghost total = n;
        let mut left = n;
        let mut zeros = self.chunk.trailing_zeros();
        while self.chunk_remaining < left
            invariant
                start == *old(self),
                total == n,
                total == 0 ==> *self == start,
                0 <= start.position(),
                self.well_formed(),
                zeros == self.chunk.trailing_zeros(),
                start.words().len() <= self.words().len(),
                self.words().subrange(0, start.words().len() as int) == start.words(),
                self.words().len() == start.words().len() || (self.chunk_remaining == 32 && left >= 1),
                start.position() <= self.position(),
                self.position() + left == start.position() + total,
                all_heads(self.flips(), start.position(), self.position()),
            decreases left + 32 - self.chunk_remaining,
        {
            proof {
                self.lemma_chunk_run();
            }
            let ghost before = *self;
            if zeros >= self.chunk_remaining {
                left -= self.chunk_remaining;
            } else {
                self.consume(zeros + 1);
                proof {
                    assert forall|i: int| start.position() <= i < self.position() - 1 implies #[trigger] self.flips()[i] by {
                        if i >= before.position() {
                            assert(before.flips()[before.position() + (i - before.position())]);
                        } else {
                            assert(before.flips()[i]);
                        }
                    }
                    assert(!before.flips()[before.position() + zeros]);
                    if self.words().len() > start.words().len() {
                        lemma_word_index(self.words().len() as int, zeros as int);
                    }
                }
                return false;
            }
            self.chunk = self.rng.next_u32();
            self.drawn = Ghost(self.drawn@.push(self.chunk));
            self.chunk_remaining = u32::BITS;
            zeros = self.chunk.trailing_zeros();
            proof {
                let w = self.chunk;
                assert(w >> 0u32 == w) by (bit_vector);
                assert(self.words().subrange(0, before.words().len() as int) =~= before.words());
                assert(self.words().subrange(0, start.words().len() as int) =~= start.words());
                assert forall|i: int| start.position() <= i < self.position() implies #[trigger] self.flips()[i] by {
                    if i >= before.position() {
                        assert(before.flips()[before.position() + (i - before.position())]);
                    } else {
                        assert(before.flips()[i]);
                    }
                    lemma_flip_kept(before.words(), self.words(), i);
                }
            }
        }
        proof {
            self.lemma_chunk_run();
        }
        let result = zeros >= left;
        let bits_to_consume = if result { left } else { zeros + 1 };
        let ghost before = *self;
        self.consume(bits_to_consume);
        proof {
            assert forall|i: int| start.position() <= i < before.position() + bits_to_consume - (if result { 0int } else { 1int }) implies #[trigger] self.flips()[i] by {
                if i >= before.position() {
                    assert(before.flips()[before.position() + (i - before.position())]);
                } else {
                    assert(before.flips()[i]);
                }
            }
            if !result {
                assert(!before.flips()[before.position() + zeros]);
            }
            if self.words().len() > start.words().len() {
                lemma_word_index(self.words().len() as int, bits_to_consume as int - 1);
            }
        }
        result
    }

    /// Returns `true` with probability `numerator / denominator`: certainly
    /// when `numerator >= denominator`, without consuming a flip. Each flip
    /// it consumes decides with probability one half; a walk still undecided
    /// after `FLIP_LIMIT` flips gives up and returns `false`.
    pub fn gen_ratio(&mut self, numerator: usize, denominator: usize) -> (r: bool)
        requires
            old(self).well_formed(),
            denominator >= 1,
        ensures
            final(self).advanced_from(old(self)),
            ratio_outcome(
                numerator as int,
                denominator as int,
                final(self).flips().subrange(old(self).position(), final(self).position()),
                r,
            ),
            numerator >= denominator ==> r && *final(self) == *old(self),
            numerator == 0 ==> !r,
    {
        let ghost start = *self;
        let ghost num0 = numerator as int;
        let mut num = numerator;
        let mut budget: u64 = FLIP_LIMIT;
        proof {
            assert(self.flips().subrange(start.position(), self.position()) =~= Seq::<bool>::empty());
            assert(self.words().subrange(0, start.words().len() as int) =~= start.words());
        }
        while num < denominator
            invariant
                start == *old(self),
                num0 == numerator as int,
                num0 >= denominator ==> (*self == start && num as int == num0),
                self.advanced_from(&start),
                0 <= start.position(),
                denominator >= 1,
                walk(num0, denominator as int, self.flips().subrange(start.position(), self.position()))
                    == settle(num as int, denominator as int),
                self.position() > start.position() ==> walk(
                    num0,
                    denominator as int,
                    self.flips().subrange(start.position(), self.position()).drop_last(),
                ) is Undecided,
                self.position() - start.position() + budget == FLIP_LIMIT,
                num0 == 0 ==> num == 0,
            decreases budget,
        {
            if budget == 0 {
                return false;
            }
            budget = budget - 1;
            let ghost before = *self;
            let ghost m = num as int;
            if let Some(next_numerator) = num.checked_mul(2) {
                if self.next() {
                    num = next_numerator;
                } else {
                    if next_numerator < denominator {
                        proof {
                            self.lemma_walk_step(&before, &start, num0, denominator as int, m);
                        }
                        return false;
                    }
                    num = next_numerator - denominator;
                }
            } else {
                if self.next() {
                    proof {
                        self.lemma_walk_step(&before, &start, num0, denominator as int, m);
                    }
                    return true;
                }
                num = num.wrapping_sub(denominator).wrapping_add(num);
            }
            proof {
                self.lemma_walk_step(&before, &start, num0, denominator as int, m);
            }
        }
        true
    }

    /// One flip taken by the walk: the flips consumed since `start` are those
    /// consumed up to `before` and one more.
    proof fn lemma_walk_step(&self, before: &Self, start: &Self, num: int, den: int, m: int)
        requires
            before.advanced_from(start),
            self.advanced_from(before),
            self.position() == before.position() + 1,
            0 <= start.position(),
            walk(num, den, before.flips().subrange(start.position(), before.position())) == settle(m, den),
            m < den,
        ensures
            self.advanced_from(start),
            self.flips().subrange(start.position(), self.position()).drop_last()
                == before.flips().subrange(start.position(), before.position()),
            self.flips().subrange(start.position(), self.position()).last()
                == self.flips()[before.position()],
            walk(num, den, self.flips().subrange(start.position(), self.position())) == (
                if self.flips()[before.position()] {
                    settle(2 * m, den)
                } else if 2 * m < den {
                    Walk::Decided(false)
                } else {
                    settle(2 * m - den, den)
                }),
    {
        assert(self.words().subrange(0, start.words().len() as int) =~= start.words());
        let s = self.flips().subrange(start.position(), self.position());
        let t = before.flips().subrange(start.position(), before.position());
        assert forall|i: int| 0 <= i < t.len() implies s.drop_last()[i] == t[i] by {
            lemma_flip_kept(before.words(), self.words(), start.position() + i);
        }
        assert(s.drop_last() =~= t);
    }

    /// Chaining two calls: what the second keeps of the first's state.
    proof fn lemma_advanced_trans(&self, mid: &Self, start: &Self)
        requires
            start.well_formed(),
            mid.advanced_from(start),
            self.advanced_from(mid),
        ensures
            self.advanced_from(start),
            forall|i: int|
                start.position() <= i < mid.position() ==> #[trigger] self.flips()[i] == mid.flips()[i],
    {
        assert(self.words().subrange(0, start.words().len() as int) =~= start.words());
        assert forall|i: int| start.position() <= i < mid.position() implies #[trigger] self.flips()[i] == mid.flips()[i] by {
            mid.lemma_position();
            start.lemma_position();
            lemma_flip_kept(mid.words(), self.words(), i);
        }
        if mid.words().len() > start.words().len() {
            assert((mid.position() + 31) / 32 <= (self.position() + 31) / 32);
        }
    }

    /// Returns `true` with probability `1 / denominator`.
    pub fn gen_ratio_one_over(&mut self, denominator: usize) -> (r: bool)
        requires
            old(self).well_formed(),
            denominator >= 1,
        ensures
            final(self).advanced_from(old(self)),
            one_over_outcome(
                denominator as int,
                final(self).flips().subrange(old(self).position(), final(self).position()),
                r,
            ),
            denominator == 1 ==> r && *final(self) == *old(self),
    {
        let d = denominator as u64;
        let n: u32 = 63 - d.leading_zeros();
        let power: u64 = 1u64 << n;
        proof {
            let s = n as u64;
            assert((d >> s) & 1u64 != 0u64 ==> d >= (1u64 << s)) by (bit_vector)
                requires s < 64;
            assert(s < 63 && d >> ((s + 1) as u64) == 0u64 ==> d < (1u64 << ((s + 1) as u64))) by (bit_vector);
            vstd::bits::lemma_u64_pow2_no_overflow(s as nat);
            vstd::bits::lemma_u64_shl_is_mul(1, s);
            vstd::arithmetic::power2::lemma_pow2_unfold(n as nat + 1);
            if s < 63 {
                vstd::bits::lemma_u64_pow2_no_overflow((s + 1) as nat);
                vstd::bits::lemma_u64_shl_is_mul(1, (s + 1) as u64);
            } else {
                vstd::arithmetic::power2::lemma2_to64_rest();
            }
            lemma_log2_floor(denominator as int, n as nat);
        }
        let ghost start = *self;
        if !self.all_next(n) {
            proof {
                let f = self.flips().subrange(start.position(), self.position());
                assert forall|i: int| 0 <= i < f.len() - 1 implies #[trigger] f[i] by {
                    assert(self.flips()[start.position() + i]);
                }
            }
            return false;
        }
        let ghost mid = *self;
        let r = self.gen_ratio(power as usize, denominator);
        proof {
            self.lemma_advanced_trans(&mid, &start);
            let f = self.flips().subrange(start.position(), self.position());
            assert forall|i: int| 0 <= i < n implies #[trigger] f[i] by {
                assert(mid.flips()[start.position() + i]);
            }
            assert(f.subrange(n as int, f.len() as int) =~= self.flips().subrange(mid.position(), self.position()));
            if denominator == 1 {
                assert(mid == start);
            }
        }
        r
    }
}

} // verus!
