//! The one source of chance in the game.
use vstd::prelude::*;
use rand::Rng;
use crate::rules::{drawn_from, Draw};

verus! {

/// A number drawn by `rand::thread_rng().gen_range(low..high)`, handed back together with the
/// range it was asked for. rand documents the draw as uniform over the half-open range
/// `low..high`, and panics when that range is empty. Which number comes back is left to chance:
/// the contract states only that the draw records exactly `low..high` and lies in that range.
#[verifier::external_body]
pub(crate) fn random_in_range(low: i32, high: i32) -> (d: Draw)
    requires
        low < high,
    ensures
        drawn_from(d, low as int, high as int),
{
    Draw { low, high, value: rand::thread_rng().gen_range(low..high) }
}

} // verus!
