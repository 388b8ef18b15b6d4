//! Dice and a coin, rolled with a generator that is seeded anew, with the
//! same seed, for every roll.

use vstd::prelude::*;
use rand::Rng;
use rand::SeedableRng;
use rand_chacha::ChaCha20Rng;

verus! {

/// A die, named by the number of its sides.
pub enum Die {
    D4,
    D6,
    D8,
    D10,
    D12,
    D20,
}

/// A coin.
pub struct Coin;

/// The number that the generator gives first, after it was seeded, when it
/// is asked for a number from 1 to `max`.
pub uninterp spec fn seeded_value(max: u8) -> u8;

/// `ChaCha20Rng::seed_from_u64` and `Rng::gen_range`: a generator is made
/// from the seed 2 and asked for one number from 1 to `max`, both ends
/// counted. The range must hold a number. The seed is fixed, so the number
/// depends on `max` alone.
#[verifier::external_body]
pub(crate) fn get_random_value(max: u8) -> (value: u8)
    requires
        max >= 1,
    ensures
        value == seeded_value(max),
        1 <= value <= max,
{
    let mut rng = ChaCha20Rng::seed_from_u64(2);
    rng.gen_range(1..=max)
}

/// What can be rolled.
pub trait Roll {
    /// The largest number that a roll can give.
    spec fn sides(&self) -> u8;

    /// Rolls once.
    fn roll_trait_fn(&self) -> (value: u8)
        ensures
            self.sides() >= 1 ==> value == seeded_value(self.sides()) && 1 <= value
                <= self.sides(),
    ;
}

impl Roll for Coin {
    open spec fn sides(&self) -> u8 {
        2
    }

    fn roll_trait_fn(&self) -> (value: u8) {
        get_random_value(2)
    }
}

impl Roll for Die {
    open spec fn sides(&self) -> u8 {
        match self {
            Die::D4 => 4,
            Die::D6 => 6,
            Die::D8 => 8,
            Die::D10 => 10,
            Die::D12 => 12,
            Die::D20 => 20,
        }
    }

    fn roll_trait_fn(&self) -> (value: u8) {
        let val: u8 = match self {
            Die::D4 => 4,
            Die::D6 => 6,
            Die::D8 => 8,
            Die::D10 => 10,
            Die::D12 => 12,
            Die::D20 => 20,
        };
        get_random_value(val)
    }
}

/// Rolls the item once.
pub fn roll<T>(item: T) -> (value: u8) where T: Roll
    ensures
        item.sides() >= 1 ==> value == seeded_value(item.sides()) && 1 <= value <= item.sides(),
{
    item.roll_trait_fn()
}

} // verus!
