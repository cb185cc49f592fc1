use std::ops::Range;

use coin_flipper::{CoinFlipper, RngCore};

/// How many runs to do
const RUNS: usize = 10000;
/// Different length arrays to use
const LENGTH: usize = 10000;
const START: usize = 1;
const SEED: u64 = 123;

/// A small seeded generator (SplitMix64) for reproducible tests.
struct SplitMix64 {
    state: u64,
}

impl SplitMix64 {
    fn seed_from_u64(seed: u64) -> Self {
        SplitMix64 { state: seed }
    }

    fn next_u64(&mut self) -> u64 {
        self.state = self.state.wrapping_add(0x9e37_79b9_7f4a_7c15);
        let mut z = self.state;
        z = (z ^ (z >> 30)).wrapping_mul(0xbf58_476d_1ce4_e5b9);
        z = (z ^ (z >> 27)).wrapping_mul(0x94d0_49bb_1331_11eb);
        z ^ (z >> 31)
    }
}

struct CountingRng {
    rng: SplitMix64,
    count: usize,
}

impl RngCore for CountingRng {
    fn next_u32(&mut self) -> u32 {
        self.count += 1;
        (self.rng.next_u64() >> 32) as u32
    }
}

/// Hands out the given words in turn, then zeros.
struct ScriptedRng {
    words: Vec<u32>,
    next: usize,
}

impl RngCore for ScriptedRng {
    fn next_u32(&mut self) -> u32 {
        let w = self.words.get(self.next).copied().unwrap_or(0);
        self.next += 1;
        w
    }
}

fn get_rng() -> CountingRng {
    CountingRng { rng: SplitMix64::seed_from_u64(SEED), count: 0 }
}

fn scripted(words: &[u32]) -> CoinFlipper<ScriptedRng> {
    CoinFlipper::new(ScriptedRng { words: words.to_vec(), next: 0 })
}

fn get_stats(vec: Vec<f64>) -> (f64, f64, f64) {
    let mean: f64 = vec.iter().map(|&x| x / (vec.len() as f64)).sum();
    let variance: f64 = vec.iter().map(|&x| f64::powi(x - mean, 2) / (vec.len() as f64)).sum();
    let standard_deviation = f64::sqrt(variance);
    (mean, variance, standard_deviation)
}

fn assert_contains(range: Range<f64>, n: &f64) {
    if !range.contains(n) {
        panic!("The range {:?} does not contain {n}", range)
    }
}

#[test]
fn test_one_over_for_big_numbers() {
    let rng = get_rng();
    let mut coin_flipper = CoinFlipper::new(rng);

    let mut count = 0;
    for _ in 0..LENGTH {
        if coin_flipper.gen_ratio_one_over((2_i64.pow(33) + 1) as usize) {
            count += 1;
        }
    }

    let average_gens = (LENGTH as f64) / (coin_flipper.rng.count as f64);
    assert_contains(15.5..16.5, &average_gens);
    assert!(count < 2);
}

#[test]
fn test_gen_ratio_for_big_numbers() {
    let rng = get_rng();
    let mut coin_flipper = CoinFlipper::new(rng);

    let mut count = 0;
    for _ in 0..RUNS {
        if coin_flipper.gen_ratio((usize::MAX / 2) + 1, usize::MAX) {
            count += 1;
        }
    }

    let average_gens = (RUNS as f64) / (coin_flipper.rng.count as f64);
    let mean = (count as f64) / RUNS as f64;
    assert_contains(15.5..16.5, &average_gens);
    assert_contains(0.45..0.55, &mean);
}

#[test]
fn test_coin_flipper_gen_ratio() {
    let rng = get_rng();
    let mut coin_flipper = CoinFlipper::new(rng);

    let mut counts: Vec<usize> = Vec::new();
    for d in START..=LENGTH {
        let mut count = 0;
        for _ in 0..RUNS {
            if coin_flipper.gen_ratio_one_over(d) {
                count += 1;
            }
        }
        counts.push(count);
    }

    let adjusted_counts: Vec<f64> = counts
        .iter()
        .enumerate()
        .map(|(i, &x)| (i + START) * x)
        .map(|z| (z as f64) / (RUNS as f64))
        .collect();

    let average_gens = ((RUNS * LENGTH) as f64) / (coin_flipper.rng.count as f64);
    let (mean, _variance, standard_deviation) = get_stats(adjusted_counts);

    assert_contains(15.5..16.5, &average_gens);
    assert_contains(0.95..1.05, &mean);
    assert_contains(0.0..10.0, &standard_deviation);
}

#[test]
fn next_reads_low_bits_first_and_refills_on_demand() {
    // 0b...0110: flips are heads, tails, tails, heads, then heads to the top.
    let mut f = scripted(&[0b0110, 1]);
    assert!(f.next());
    assert!(!f.next());
    assert!(!f.next());
    for _ in 3..32 {
        assert!(f.next());
    }
    assert_eq!(f.rng.next, 1);
    // The second word starts with a one bit: tails.
    assert!(!f.next());
    assert_eq!(f.rng.next, 2);
}

#[test]
fn zero_run_of_length_zero_is_true_and_draws_nothing() {
    let mut f = scripted(&[u32::MAX]);
    assert!(f.all_next(0));
    assert_eq!(f.rng.next, 0);
    // Nothing was consumed: the first flip is still the first bit.
    assert!(!f.next());
}

#[test]
fn zero_run_stops_after_first_one_bit() {
    // Bits 0..=4 are zero, bit 5 is one.
    let mut f = scripted(&[0b10_0000]);
    assert!(!f.all_next(10));
    // Six flips consumed: the next one is bit 6, which is zero.
    assert!(f.next());
    assert_eq!(f.rng.next, 1);
}

#[test]
fn zero_run_spanning_words() {
    // 32 zero bits, then 8 more zero bits before a one at bit 8 of the second word.
    let mut f = scripted(&[0, 0b1_0000_0000]);
    assert!(f.all_next(40));
    assert_eq!(f.rng.next, 2);
    assert!(!f.next());

    let mut g = scripted(&[0, 0b1_0000_0000]);
    assert!(!g.all_next(41));
    assert_eq!(g.rng.next, 2);
    // The one bit was consumed: bit 9 of the second word is zero.
    assert!(g.next());
}

#[test]
fn zero_run_whose_one_bit_is_the_last_of_a_fresh_word() {
    let mut f = scripted(&[0, 0x8000_0000, 0b1]);
    assert!(!f.all_next(64));
    assert_eq!(f.rng.next, 2);
    // The next flip comes from a new word.
    assert!(!f.next());
    assert_eq!(f.rng.next, 3);
}

#[test]
fn gen_ratio_certain_when_numerator_reaches_denominator() {
    let mut f = scripted(&[u32::MAX]);
    assert!(f.gen_ratio(5, 5));
    assert!(f.gen_ratio(7, 5));
    assert!(f.gen_ratio(usize::MAX, 1));
    assert_eq!(f.rng.next, 0);
}

#[test]
fn gen_ratio_zero_is_never_true() {
    let mut f = get_rng_flipper();
    for d in 1..200usize {
        assert!(!f.gen_ratio(0, d));
    }
}

fn get_rng_flipper() -> CoinFlipper<CountingRng> {
    CoinFlipper::new(get_rng())
}

#[test]
fn gen_ratio_follows_the_doubling_walk() {
    // 1/3: heads doubles to 2/3, heads again reaches 4 >= 3: true after two flips.
    let mut f = scripted(&[0b00]);
    assert!(f.gen_ratio(1, 3));
    // 1/3: tails with 2 < 3 is false after one flip.
    let mut g = scripted(&[0b1]);
    assert!(!g.gen_ratio(1, 3));
    assert!(g.next());
    // 2/3: tails goes on at 4 - 3 = 1, then tails with 2 < 3 is false.
    let mut h = scripted(&[0b11, 0]);
    assert!(!h.gen_ratio(2, 3));
    assert!(h.next());
}

#[test]
fn gen_ratio_overflow_branch() {
    // Doubling MAX/2 + 1 overflows; heads is true at once.
    let mut f = scripted(&[0b0]);
    assert!(f.gen_ratio(usize::MAX / 2 + 1, usize::MAX));
    // Tails goes on at 2n - d = 1; then tails with 2 < d is false.
    let mut g = scripted(&[0b11]);
    assert!(!g.gen_ratio(usize::MAX / 2 + 1, usize::MAX));
    assert!(g.next());
}

#[test]
fn gen_ratio_overflow_branch_is_fair() {
    let mut f = get_rng_flipper();
    let mut count = 0usize;
    for _ in 0..20000 {
        if f.gen_ratio(usize::MAX / 2 + 1, usize::MAX) {
            count += 1;
        }
    }
    let mean = count as f64 / 20000.0;
    assert_contains(0.47..0.53, &mean);
}

#[test]
fn one_over_one_is_always_true_and_draws_nothing() {
    let mut f = scripted(&[u32::MAX]);
    for _ in 0..100 {
        assert!(f.gen_ratio_one_over(1));
    }
    assert_eq!(f.rng.next, 0);
}

#[test]
fn one_over_takes_the_zero_run_first() {
    // d = 5: n = 2. Two heads, then the walk for 4/5: heads gives 8 >= 5, true.
    let mut f = scripted(&[0b000]);
    assert!(f.gen_ratio_one_over(5));
    // A tails among the first two flips is false.
    let mut g = scripted(&[0b10]);
    assert!(!g.gen_ratio_one_over(5));
    assert!(g.next());
    // d = 4 is a power of two: two heads and then 4/4 is certain.
    let mut h = scripted(&[0b100]);
    assert!(h.gen_ratio_one_over(4));
    assert!(!h.next());
}

#[test]
fn one_over_success_rate_is_near_one_over_d() {
    let mut f = get_rng_flipper();
    for &d in &[2usize, 3, 7, 10, 100] {
        let n = 200_000usize;
        let mut count = 0usize;
        for _ in 0..n {
            if f.gen_ratio_one_over(d) {
                count += 1;
            }
        }
        let expected = n as f64 / d as f64;
        let tolerance = 5.0 * (expected * (1.0 - 1.0 / d as f64)).sqrt();
        assert!((count as f64 - expected).abs() < tolerance, "d = {d}: {count}");
    }
}

#[test]
fn gen_ratio_success_rate_is_near_n_over_d() {
    let mut f = get_rng_flipper();
    for &(num, den) in &[(1usize, 2usize), (2, 3), (3, 10), (999, 1000)] {
        let n = 100_000usize;
        let mut count = 0usize;
        for _ in 0..n {
            if f.gen_ratio(num, den) {
                count += 1;
            }
        }
        let p = num as f64 / den as f64;
        let expected = n as f64 * p;
        let tolerance = 5.0 * (n as f64 * p * (1.0 - p)).sqrt() + 1.0;
        assert!((count as f64 - expected).abs() < tolerance, "{num}/{den}: {count}");
    }
}

#[test]
fn identical_flippers_give_identical_flips() {
    let mut a = get_rng_flipper();
    let mut b = get_rng_flipper();
    for d in 1..2000usize {
        assert_eq!(a.gen_ratio_one_over(d), b.gen_ratio_one_over(d));
        assert_eq!(a.gen_ratio(d / 3, d), b.gen_ratio(d / 3, d));
        assert_eq!(a.all_next((d % 40) as u32), b.all_next((d % 40) as u32));
        assert_eq!(a.rng.count, b.rng.count);
    }
    for _ in 0..100 {
        assert_eq!(a.next(), b.next());
    }
}
