//! The random stream that every stochastic step draws from.
//!
//! The generator itself is `rand::XorShiftRng`; it is threaded through the
//! library as an explicit `&mut` handle.  Nothing is known here about which
//! numbers it yields, only the ranges that the drawn values fall in.

use vstd::prelude::*;
use rand::{Rng, SeedableRng};

verus! {

/// `rand::XorShiftRng`, carried through the library as an opaque value.
#[verifier::external_type_specification]
#[verifier::external_body]
pub struct ExXorShiftRng(rand::XorShiftRng);

/// Draws an index below `high` with `Rng::gen_range(0, high)`.
///
/// `gen_range` panics when the range is empty, so `high` must be positive;
/// the value it returns lies in `[0, high)`.  Which value is drawn is left
/// open.
#[verifier::external_body]
pub(crate) fn draw_below(rng: &mut rand::XorShiftRng, high: usize) -> (r: usize)
    requires
        high > 0,
    ensures
        r < high,
{
    rng.gen_range(0, high)
}

/// Draws the next 32-bit word with `Rng::next_u32`.  Nothing is promised of it.
#[verifier::external_body]
pub(crate) fn draw_word(rng: &mut rand::XorShiftRng) -> (r: u32)
{
    rng.next_u32()
}

/// Creates a generator with `XorShiftRng::new_unseeded`.  Its state is a
/// constant of `rand`; nothing is promised of it.
#[verifier::external_body]
pub(crate) fn unseeded() -> (rng: rand::XorShiftRng) {
    rand::XorShiftRng::new_unseeded()
}

/// Sets the generator's state with `SeedableRng::reseed`, which panics on a
/// seed that is entirely zero.  Nothing is promised of the state.
#[verifier::external_body]
pub(crate) fn reseed(rng: &mut rand::XorShiftRng, seed: [u32; 4])
    requires
        usable_seed(seed@),
{
    rng.reseed(seed)
}

/// A seed is usable unless all its words are zero.
pub open spec fn usable_seed(seed: Seq<u32>) -> bool {
    exists|k: int| 0 <= k < seed.len() && seed[k] != 0
}

/// The stream that the seed gives; none where the seed is entirely zero.
pub fn seeded_stream(seed: [u32; 4]) -> (stream: Option<rand::XorShiftRng>)
    ensures
        stream is Some <==> usable_seed(seed@),
{
    if seed[0] == 0 && seed[1] == 0 && seed[2] == 0 && seed[3] == 0 {
        assert(!usable_seed(seed@)) by {
            if usable_seed(seed@) {
                let k = choose|k: int| 0 <= k < seed@.len() && seed@[k] != 0;
                assert(k == 0 || k == 1 || k == 2 || k == 3);
            }
        }
        None
    } else {
        assert(usable_seed(seed@)) by {
            assert(seed@[0] != 0 || seed@[1] != 0 || seed@[2] != 0 || seed@[3] != 0);
        }
        let mut rng = unseeded();
        reseed(&mut rng, seed);
        Some(rng)
    }
}

} // verus!
