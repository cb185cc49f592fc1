//! Biased coin flips drawn from a uniform source of 32-bit words, using about
//! two bits of randomness per flip whatever the probability asked for.
use vstd::prelude::*;

pub mod flips;
pub mod ratio;
pub mod coin_flipper;

pub use coin_flipper::{CoinFlipper, RngCore};
