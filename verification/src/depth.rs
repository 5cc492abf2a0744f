//! The budget that keeps recursive light transport finite.
//!
//! Every ray carries a depth: the number of further bounces it may cause.
//! A ray from the camera starts with [`MAX_REFLECTIONS`]; a reflected or
//! refracted ray gets one less than the ray whose hit spawned it; a hit
//! whose ray has depth zero spawns none. Nothing else ends the recursion.

use vstd::prelude::*;

verus! {

/// The depth of a ray from the camera.
pub const MAX_REFLECTIONS: usize = 10;

/// The depth of the secondary ray spawned at a hit, if one is spawned.
///
/// `depth` is the depth of the ray that hit; `contributes` says whether
/// the material's coefficient for this kind of ray (reflective, or
/// transparency) is other than zero. Without a secondary ray the
/// contribution is black.
pub fn secondary(depth: usize, contributes: bool) -> (next: Option<usize>)
    ensures
        next == if depth == 0 || !contributes {
            None::<usize>
        } else {
            Some((depth - 1) as usize)
        },
{
    if depth == 0 || !contributes {
        None
    } else {
        Some(depth - 1)
    }
}

/// The depth of the `n`-th ray in a chain of secondary rays that starts
/// with a ray of depth `depth`, every hit on the way contributing; `None`
/// once the chain has ended.
pub open spec fn chain(depth: nat, n: nat) -> Option<nat>
    decreases n,
{
    if n == 0 {
        Some(depth)
    } else {
        match chain(depth, (n - 1) as nat) {
            Some(d) => if d == 0 {
                None
            } else {
                Some((d - 1) as nat)
            },
            None => None,
        }
    }
}

/// A chain of secondary rays that starts at depth `depth` has exactly
/// `depth` secondary rays: the `n`-th exists, with depth `depth - n`, as
/// long as `n <= depth`, and none after that.
pub proof fn lemma_chain_ends(depth: nat, n: nat)
    ensures
        chain(depth, n) == if n <= depth {
            Some((depth - n) as nat)
        } else {
            None::<nat>
        },
    decreases n,
{
    if n > 0 {
        lemma_chain_ends(depth, (n - 1) as nat);
    }
}

} // verus!
