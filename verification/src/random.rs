//! Random numbers, drawn from the thread-local generator of the `rand` crate.

use rand::{Rng, ThreadRng};
use vstd::prelude::*;

verus! {

/// `rand::ThreadRng`, a handle to the thread-local generator. Nothing is
/// known of what it holds.
#[verifier::external_type_specification]
#[verifier::external_body]
pub struct ExThreadRng(ThreadRng);

/// `rand::thread_rng` hands out the thread-local generator, which the
/// operating system seeds. Nothing is claimed of the handle. The call panics
/// if the system offers no entropy at all.
pub assume_specification[ rand::thread_rng ]() -> (rng: ThreadRng);

/// `Rng::gen_range` on a `ThreadRng`, with `usize` bounds: a value drawn
/// uniformly from `low..high`. The contract claims only the range. The call
/// panics when the range is empty, which the precondition rules out.
#[verifier::external_body]
pub(crate) fn sample_range(rng: &mut ThreadRng, low: usize, high: usize) -> (value: usize)
    requires
        low < high,
    ensures
        low <= value < high,
{
    rng.gen_range(low, high)
}

/// `Rng::gen` on a `ThreadRng`, for `u64`: the generator's next 64 bits.
/// Nothing is claimed of the value.
#[verifier::external_body]
fn sample_u64(rng: &mut ThreadRng) -> (value: u64) {
    rng.gen()
}

/// A vector of `n` random numbers; it is empty when `n` is not positive.
pub fn random_vec(n: i64) -> (values: Vec<u64>)
    ensures
        values@.len() == if n > 0 {
            n as nat
        } else {
            0
        },
{
    let mut values: Vec<u64> = Vec::new();
    let mut rng = rand::thread_rng();
    let mut drawn: i64 = 0;
    while drawn < n
        invariant
            0 <= drawn,
            drawn <= n || drawn == 0,
            values@.len() == drawn,
        decreases n - drawn,
    {
        let value = sample_u64(&mut rng);
        values.push(value);
        drawn = drawn + 1;
    }
    values
}

} // verus!
