//! The stream of coin flips that a sequence of random words stands for.
use vstd::prelude::*;

verus! {

/// Whether bit `k` (counted from the least significant end) of `w` is zero.
pub open spec fn bit_is_zero(w: u32, k: int) -> bool {
    (w >> (k as u32)) & 1u32 == 0u32
}

/// The flips that `words` hold, in the order they are consumed: the bits of
/// each word from the least significant one up, word after word. A flip is
/// heads (`true`) when its bit is zero.
pub open spec fn flips_of(words: Seq<u32>) -> Seq<bool> {
    Seq::new((32 * words.len()) as nat, |i: int| bit_is_zero(words[i / 32], i % 32))
}

/// How many words a reader that had drawn `drawn` words and now stands at flip
/// `pos` must have drawn when it draws a word only once it has run out.
pub open spec fn words_needed(drawn: nat, pos: int) -> nat {
    if pos <= 32 * drawn {
        drawn
    } else {
        ((pos + 31) / 32) as nat
    }
}

/// Whether every flip of `s` in `[lo, hi)` is heads.
pub open spec fn all_heads(s: Seq<bool>, lo: int, hi: int) -> bool {
    forall|i: int| lo <= i < hi ==> #[trigger] s[i]
}

/// Flip `32 * k + o` is bit `o` of word `k`.
pub proof fn lemma_word_index(k: int, o: int)
    requires
        0 <= k,
        0 <= o < 32,
    ensures
        (32 * k + o) / 32 == k,
        (32 * k + o) % 32 == o,
{
    vstd::arithmetic::div_mod::lemma_fundamental_div_mod_converse(32 * k + o, 32, k, o);
}

/// Drawing more words leaves the flips of the earlier ones as they were.
pub proof fn lemma_flip_kept(a: Seq<u32>, b: Seq<u32>, i: int)
    requires
        a.len() <= b.len(),
        a == b.subrange(0, a.len() as int),
        0 <= i < 32 * a.len(),
    ensures
        i < flips_of(b).len(),
        flips_of(a)[i] == flips_of(b)[i],
{
    vstd::arithmetic::div_mod::lemma_fundamental_div_mod(i, 32);
    assert(i / 32 < a.len()) by (nonlinear_arith)
        requires
            0 <= i < 32 * a.len(),
            i == 32 * (i / 32) + i % 32,
            0 <= i % 32 < 32,
    ;
    assert(a[i / 32] == b[i / 32]);
}

/// Shifting right twice is shifting right once by the sum.
pub proof fn lemma_shr_shr(w: u32, s: u32, b: u32)
    requires
        s + b < 32,
    ensures
        (w >> s) >> b == w >> ((s + b) as u32),
{
    assert((w >> s) >> b == w >> ((s + b) as u32)) by (bit_vector)
        requires s + b < 32;
}

} // verus!
