use rand::{Rng, SeedableRng};
use rand_pcg::Lcg64Xsh32;
use vstd::prelude::*;

use crate::skip_list::NOTE_SKIP_LIST_LEVELS;

verus! {

#[verifier::external_type_specification]
#[verifier::external_body]
pub struct ExLcg64Xsh32(Lcg64Xsh32);

/// Relies on `SeedableRng::seed_from_u64` for rand_pcg's `Pcg32`: a generator whose
/// draws are fixed by `seed`.
#[verifier::external_body]
fn seeded_pcg32(seed: u64) -> (r: Lcg64Xsh32) {
    Lcg64Xsh32::seed_from_u64(seed)
}

/// Relies on `Rng::gen::<bool>` on rand_pcg's `Pcg32`: one fair coin flip.
#[verifier::external_body]
fn flip_coin(rng: &mut Lcg64Xsh32) -> (r: bool) {
    rng.gen::<bool>()
}

/// The level that a run of coin flips selects: the number of flips that came up `false`
/// before the first `true`, counting at most `NOTE_SKIP_LIST_LEVELS - 1` of them.
pub open spec fn level_of_flips(flips: Seq<bool>) -> nat
    decreases flips.len(),
{
    if flips.len() == 0 || flips[0] {
        0
    } else {
        1 + level_of_flips(flips.drop_first())
    }
}

/// Draws the level of each new node from a seeded PCG generator.
///
/// Level `k` comes with probability `2^-(k+1)` below the top level, and the top level takes
/// what remains, as for a coin flipped until it first comes up `true`.
pub struct LevelGenerator {
    rng: Lcg64Xsh32,
}

impl LevelGenerator {
    /// A generator whose sequence of levels is fixed by `seed`.
    pub fn new(seed: u64) -> (r: Self) {
        LevelGenerator { rng: seeded_pcg32(seed) }
    }

    /// The level chosen by `flips`, one coin flip per level below the top one, the flips
    /// read in order until one comes up `true`.
    pub fn level_from_flips(flips: &Vec<bool>) -> (r: usize)
        requires
            flips@.len() == NOTE_SKIP_LIST_LEVELS - 1,
        ensures
            r == level_of_flips(flips@),
            r < NOTE_SKIP_LIST_LEVELS,
    {
        let mut level: usize = 0;
        assert(flips@.subrange(0, flips@.len() as int) =~= flips@);
        while level < NOTE_SKIP_LIST_LEVELS - 1
            invariant
                flips@.len() == NOTE_SKIP_LIST_LEVELS - 1,
                level <= NOTE_SKIP_LIST_LEVELS - 1,
                level_of_flips(flips@) == level + level_of_flips(flips@.subrange(level as int, flips@.len() as int)),
            decreases NOTE_SKIP_LIST_LEVELS - 1 - level,
        {
            let ghost rest = flips@.subrange(level as int, flips@.len() as int);
            assert(rest.drop_first() =~= flips@.subrange(level + 1, flips@.len() as int));
            if flips[level] {
                return level;
            }
            level += 1;
        }
        assert(flips@.subrange(level as int, flips@.len() as int).len() == 0);
        level
    }

    /// Draws the level of a new node: up to `NOTE_SKIP_LIST_LEVELS - 1` coin flips, stopping
    /// at the first that comes up `true`.
    pub fn next_level(&mut self) -> (r: usize)
        ensures
            r < NOTE_SKIP_LIST_LEVELS,
    {
        let mut flips: Vec<bool> = Vec::new();
        let mut stopped = false;
        while flips.len() < NOTE_SKIP_LIST_LEVELS - 1
            invariant
                flips@.len() <= NOTE_SKIP_LIST_LEVELS - 1,
            decreases NOTE_SKIP_LIST_LEVELS - 1 - flips@.len(),
        {
            if stopped {
                // the flips after the first `true` are never drawn and do not count
                flips.push(true);
            } else {
                let f = flip_coin(&mut self.rng);
                stopped = f;
                flips.push(f);
            }
        }
        LevelGenerator::level_from_flips(&flips)
    }
}

} // verus!
