//! The payload of a cell and the counter its identities are drawn from.

use crate::grid::lemma_cell_count;
use vstd::arithmetic::power::pow;
use vstd::arithmetic::power2::lemma2_to64;
use vstd::arithmetic::power2::lemma2_to64_rest;
use vstd::arithmetic::power2::lemma_pow2_strictly_increases;
use vstd::bits::lemma_u64_shl_is_mul;
use vstd::prelude::*;

verus! {

/// The payload of a cell. Its `index` is the identity it was given when it
/// was minted; it tells payloads apart and plays no part in addressing.
#[derive(Debug, Clone, Copy, PartialEq, Eq, Structural)]
pub struct Voxel {
    pub index: u32,
}

/// The source of payload identities: a counter that only moves forward, so
/// that no two payloads minted from one counter share an identity.
#[derive(Debug)]
pub struct VoxelCounter {
    next: u32,
}

impl View for VoxelCounter {
    type V = nat;

    /// The identity that the next minted payload receives.
    closed spec fn view(&self) -> nat {
        self.next as nat
    }
}

impl VoxelCounter {
    /// A counter whose first identity is 0.
    pub fn new() -> (counter: Self)
        ensures
            counter@ == 0,
    {
        VoxelCounter { next: 0 }
    }

    /// A counter whose first identity is `first`.
    pub fn starting_at(first: u32) -> (counter: Self)
        ensures
            counter@ == first,
    {
        VoxelCounter { next: first }
    }

    /// The identity that the next minted payload receives.
    pub fn peek(&self) -> (next: u32)
        ensures
            next == self@,
    {
        self.next
    }

    /// Whether the counter has the `8^depth` steps left that a full tree of
    /// the given depth takes.
    pub fn has_room(&self, depth: u32) -> (enough: bool)
        ensures
            enough == (self@ + pow(8, depth as nat) <= u32::MAX),
    {
        proof {
            lemma_cell_count(depth as nat);
            lemma2_to64();
            lemma2_to64_rest();
        }
        if depth > 10 {
            proof {
                lemma_pow2_strictly_increases(32, 3 * depth as nat);
            }
            return false;
        }
        proof {
            if depth < 10 {
                lemma_pow2_strictly_increases(3 * depth as nat, 30);
            }
            lemma_u64_shl_is_mul(1, (3 * depth) as u64);
        }
        let cells: u64 = 1u64 << (3 * depth);
        self.next as u64 + cells <= u32::MAX as u64
    }
}

impl Voxel {
    /// Mints a payload: it takes the counter's current identity and moves the
    /// counter one step on. The counter must have a step left.
    pub fn new(counter: &mut VoxelCounter) -> (voxel: Voxel)
        requires
            old(counter)@ < u32::MAX,
        ensures
            voxel.index == old(counter)@,
            final(counter)@ == old(counter)@ + 1,
    {
        let index = counter.next;
        counter.next = index + 1;
        Voxel { index }
    }
}

} // verus!
