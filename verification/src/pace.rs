//! Picking delays.

use vstd::prelude::*;

verus! {

/// The seed of every recording, so that its delays are the same each time.
pub const RNG_SEED: u64 = 12345;

/// The generator that delays are picked with.
#[verifier::external_type_specification]
#[verifier::external_body]
pub struct ExStdRng(rand::rngs::StdRng);

/// What a generator holds: its key, its stream and how far it has come in that. Two generators
/// that hold the same go on in the same way.
pub uninterp spec fn generator_state(rng: rand::rngs::StdRng) -> Seq<u8>;

/// What a generator holds that was made from a seed and has given nothing yet.
pub uninterp spec fn seeded_state(seed: u64) -> Seq<u8>;

/// The number that a generator picks from a range, both ends among them, and what it holds then.
pub uninterp spec fn picked(state: Seq<u8>, low: i64, high: i64) -> (i64, Seq<u8>);

/// `SeedableRng::seed_from_u64` makes a generator from a seed. What the generator holds depends on
/// the seed alone.
#[verifier::external_body]
fn seeded(seed: u64) -> (r: rand::rngs::StdRng)
    ensures
        generator_state(r) == seeded_state(seed),
{
    <rand::rngs::StdRng as rand::SeedableRng>::seed_from_u64(seed)
}

/// `RngExt::random_range` picks a number from a range, both ends among them. It panics on an
/// empty range. Which number comes, and what the generator holds then, depends on the range and
/// on what the generator held, and on nothing else; which number that is, is left to the name.
#[verifier::external_body]
fn pick(rng: &mut rand::rngs::StdRng, low: i64, high: i64) -> (r: i64)
    requires
        low <= high,
    ensures
        low <= r <= high,
        (r, generator_state(*final(rng))) == picked(generator_state(*old(rng)), low, high),
{
    rand::RngExt::random_range(rng, low..=high)
}

/// Picks the delays of one recording.
pub struct Pace {
    rng: rand::rngs::StdRng,
}

/// The delay that is picked from a range, and what the generator holds then. A range without width
/// gives its lower end, and the generator is left alone.
pub open spec fn sampled(state: Seq<u8>, range: (i64, i64)) -> (i64, Seq<u8>) {
    if range.1 <= range.0 {
        (range.0, state)
    } else {
        picked(state, range.0, range.1)
    }
}

impl Pace {
    /// What the generator holds: all that the delays to come depend on.
    pub closed spec fn state(self) -> Seq<u8> {
        generator_state(self.rng)
    }

    /// The pace of a recording from its beginning, which is the same for every recording.
    pub fn new() -> (r: Pace)
        ensures
            r.state() == seeded_state(RNG_SEED),
    {
        Pace { rng: seeded(RNG_SEED) }
    }

    /// Picks a number from a range, both ends among them. A range without width gives its lower
    /// end. The same pace gives the same numbers.
    pub fn sample(&mut self, range: (i64, i64)) -> (r: i64)
        ensures
            (r, final(self).state()) == sampled(old(self).state(), range),
            range.1 <= range.0 ==> r == range.0,
            range.0 < range.1 ==> range.0 <= r <= range.1,
    {
        let (low, high) = range;
        if high <= low {
            low
        } else {
            pick(&mut self.rng, low, high)
        }
    }
}

/// A range without width leaves the generator alone and gives its lower end. Any other asks the
/// generator once, for a number between the two ends.
pub proof fn law_delays_are_picked_once(state: Seq<u8>, low: i64, high: i64)
    ensures
        high <= low ==> sampled(state, (low, high)) == (low, state),
        low < high ==> sampled(state, (low, high)) == picked(state, low, high),
        RNG_SEED == 12345,
{
}

} // verus!
