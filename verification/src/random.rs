//! Seedable source of random numbers, backed by `rand`'s small fast generator.

use vstd::prelude::*;
use rand::rngs::SmallRng;
use rand::{RngExt, SeedableRng, TryRng};
use std::ops::Range;

verus! {

#[verifier::external_type_specification]
#[verifier::external_body]
pub struct ExSmallRng(SmallRng);

/// Wrapper that keeps the choice of generator out of the rest of the code.
pub struct Random {
    /// The underlying generator; floating-point draws are taken from it directly.
    pub rng: SmallRng,
}

/// The generator state that `SmallRng::seed_from_u64(seed)` builds; the state,
/// and so the whole stream drawn from it, depends on the seed alone.
pub uninterp spec fn seeded_small_rng(seed: u64) -> SmallRng;

/// `rand::SeedableRng::seed_from_u64` for `SmallRng`: the contract claims only
/// that the generator is a function of `seed` (it expands the seed with a
/// fixed mixing function); what it later draws is not stated.
#[verifier::external_body]
fn small_rng_from_seed(seed: u64) -> (r: SmallRng)
    ensures
        r == seeded_small_rng(seed),
{
    SmallRng::seed_from_u64(seed)
}

/// `rand::rngs::SysRng::try_next_u64`: a seed read from the operating
/// system's random source, or `None` when that source fails. Nothing is
/// promised of the value, nor that the read succeeds.
#[verifier::external_body]
fn os_entropy_seed() -> (s: Option<u64>) {
    rand::rngs::SysRng.try_next_u64().ok()
}

/// The value that `random_range(start..end)` draws from the generator state
/// `rng`, paired with the state the generator is left in: rand computes both
/// from the state and the range alone.
pub uninterp spec fn small_rng_range_usize_step(rng: SmallRng, start: usize, end: usize) -> (usize, SmallRng);

/// `rand::RngExt::random_range` on a half-open `usize` range. The source
/// asserts that the range is not empty and samples uniformly from it, so the
/// result lies in `[start, end)`; the value and the next state are named by
/// `small_rng_range_usize_step`, which distribution they follow is not stated.
#[verifier::external_body]
fn small_rng_range_usize(rng: &mut SmallRng, range: Range<usize>) -> (r: usize)
    requires
        range.start < range.end,
    ensures
        range.start <= r < range.end,
        (r, *final(rng)) == small_rng_range_usize_step(*old(rng), range.start, range.end),
{
    rng.random_range(range)
}

/// The values drawn from `rng` by successive calls of `range` over `ranges`.
pub open spec fn usize_draws(rng: SmallRng, ranges: Seq<(usize, usize)>) -> Seq<usize>
    decreases ranges.len(),
{
    if ranges.len() == 0 {
        Seq::empty()
    } else {
        let (v, next) = small_rng_range_usize_step(rng, ranges[0].0, ranges[0].1);
        seq![v] + usize_draws(next, ranges.drop_first())
    }
}

impl Random {
    /// Deterministic generator: the state depends on the seed alone, and so
    /// does every draw made from it (see `lemma_same_seed_same_draws`).
    pub fn new(seed: u64) -> (r: Random)
        ensures
            r.rng == seeded_small_rng(seed),
    {
        Random { rng: small_rng_from_seed(seed) }
    }

    /// Generator seeded with the value read from the operating system's
    /// entropy source; `None` when the read failed.
    pub fn from_os_seed(read: Option<u64>) -> (r: Option<Random>)
        ensures
            read matches Some(s) ==> r matches Some(g) && g.rng == seeded_small_rng(s),
            read is None ==> r is None,
    {
        match read {
            Some(seed) => Some(Random::new(seed)),
            None => None,
        }
    }

    /// Nondeterministic generator, seeded from operating-system entropy;
    /// `None` when the operating system gives no entropy. Which seed the
    /// operating system gives is not known here; what is done with it is
    /// `from_os_seed`.
    pub fn from_os() -> (r: Option<Random>)
        ensures
            r matches Some(g) ==> exists|seed: u64| g.rng == #[trigger] seeded_small_rng(seed),
    {
        Random::from_os_seed(os_entropy_seed())
    }

    /// Seeded generator when a seed is given, else one seeded from the OS
    /// (`None` when the operating system gives no entropy).
    pub fn from_os_or_seeded(seed: Option<u64>) -> (r: Option<Random>)
        ensures
            seed matches Some(s) ==> r matches Some(g) && g.rng == seeded_small_rng(s),
            seed is None ==> (r matches Some(g) ==> exists|s: u64| g.rng == #[trigger] seeded_small_rng(s)),
    {
        match seed {
            Some(s) => Some(Random::new(s)),
            None => Random::from_os(),
        }
    }

    /// A uniformly drawn `usize` in the half-open `range`.
    pub fn range(&mut self, range: Range<usize>) -> (r: usize)
        requires
            range.start < range.end,
        ensures
            range.start <= r < range.end,
            (r, final(self).rng) == small_rng_range_usize_step(old(self).rng, range.start, range.end),
    {
        small_rng_range_usize(&mut self.rng, range)
    }
}

/// Generators built from the same seed are the same generator, and any run of
/// draws made from them gives the same values.
pub proof fn lemma_same_seed_same_draws(a: Random, b: Random, seed: u64, ranges: Seq<(usize, usize)>)
    requires
        a.rng == seeded_small_rng(seed),
        b.rng == seeded_small_rng(seed),
    ensures
        a == b,
        usize_draws(a.rng, ranges) == usize_draws(b.rng, ranges),
{
}

} // verus!
