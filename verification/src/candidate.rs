//! Candidates of a search and the two orders in which the search keeps them.

use vstd::prelude::*;
use crate::heap::Ranked;
use crate::ordered_f32::OrderedF32;

verus! {

/// A vector that the search has met: its internal id and its distance from the
/// query.
#[derive(Clone, Copy, Debug)]
pub struct Candidate {
    pub id: u32,
    pub distance: OrderedF32,
}

impl Candidate {
    /// The place of a candidate among all candidates: by distance, equal
    /// distances by id, and last by bit pattern, so that no two candidates
    /// share a place.
    pub open spec fn place(self) -> int {
        self.distance.key() * 0x1_0000_0000_0000_0000 + self.id * 0x1_0000_0000
            + self.distance.bits
    }

    /// Whether this candidate comes after the other one.
    pub fn comes_after(self, other: Self) -> (r: bool)
        ensures
            r == (self.place() > other.place()),
    {
        let a = self.distance.order_key();
        let b = other.distance.order_key();
        if a != b {
            a > b
        } else if self.id != other.id {
            self.id > other.id
        } else {
            self.distance.bits > other.distance.bits
        }
    }
}

/// In a heap of candidates the farthest one is on top.
impl Ranked for Candidate {
    open spec fn rank(self) -> int {
        self.place()
    }

    proof fn rank_is_injective(a: Self, b: Self) {
    }

    fn outranks(self, other: Self) -> (r: bool) {
        self.comes_after(other)
    }
}

/// A candidate in a heap that has the nearest one on top.
#[derive(Clone, Copy, Debug)]
pub struct Nearest {
    pub candidate: Candidate,
}

impl Ranked for Nearest {
    open spec fn rank(self) -> int {
        -self.candidate.place()
    }

    proof fn rank_is_injective(a: Self, b: Self) {
    }

    fn outranks(self, other: Self) -> (r: bool) {
        other.candidate.comes_after(self.candidate)
    }
}

} // verus!
