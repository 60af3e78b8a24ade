//! The four compass rotations and the frame changes between a piece's local
//! reference frame and the world frame.
//!
//! Every piece defines its beam interactions as if it faced North.  A beam
//! arriving in the world frame is first rotated into the piece's local frame
//! (`reorient_inbound_laser`), the interaction table is consulted there, and
//! each outgoing direction is rotated back (`reorient_outbound_laser`).

use vstd::prelude::*;

verus! {

/// A rotation or travel direction, ordinal 0..3 clockwise from North.
#[derive(Clone, Copy, Debug, PartialEq, Eq, Hash, Structural)]
pub enum Orientation {
    North,
    East,
    South,
    West,
}

/// Ordinal of an orientation: 0 North, 1 East, 2 South, 3 West.
pub open spec fn ord_of(o: Orientation) -> int {
    match o {
        Orientation::North => 0,
        Orientation::East => 1,
        Orientation::South => 2,
        Orientation::West => 3,
    }
}

/// Orientation with the given ordinal; North for arguments outside 0..3.
pub open spec fn orientation_of(i: int) -> Orientation {
    if i == 1 {
        Orientation::East
    } else if i == 2 {
        Orientation::South
    } else if i == 3 {
        Orientation::West
    } else {
        Orientation::North
    }
}

/// A world direction seen from the local frame of a piece rotated to
/// `piece`: the piece's rotation is subtracted, modulo 4.
pub open spec fn spec_reorient_inbound(piece: Orientation, world: Orientation) -> Orientation {
    orientation_of((ord_of(world) - ord_of(piece) + 4) % 4)
}

/// A local direction carried back to the world frame of a piece rotated to
/// `piece`: the piece's rotation is added, modulo 4.
pub open spec fn spec_reorient_outbound(piece: Orientation, local: Orientation) -> Orientation {
    orientation_of((ord_of(piece) + ord_of(local)) % 4)
}

impl Orientation {
    /// Ordinal of this orientation, 0..3 clockwise from North.
    pub fn to_index(&self) -> (r: usize)
        ensures
            r == ord_of(*self),
    {
        match self {
            Orientation::North => 0,
            Orientation::East => 1,
            Orientation::South => 2,
            Orientation::West => 3,
        }
    }

    /// Orientation with ordinal `idx`.
    pub fn from_index(idx: usize) -> (r: Orientation)
        requires
            idx < 4,
        ensures
            r == orientation_of(idx as int),
    {
        if idx == 1 {
            Orientation::East
        } else if idx == 2 {
            Orientation::South
        } else if idx == 3 {
            Orientation::West
        } else {
            Orientation::North
        }
    }

    /// Rotates a world-frame beam direction into the local frame of a piece
    /// rotated to `self`.
    pub fn reorient_inbound_laser(&self, inbound_orientation: &Orientation) -> (r: Orientation)
        ensures
            r == spec_reorient_inbound(*self, *inbound_orientation),
    {
        let idx: usize = (inbound_orientation.to_index() + 4 - self.to_index()) % 4;
        Orientation::from_index(idx)
    }

    /// Rotates a local-frame beam direction of a piece rotated to `self`
    /// back into the world frame.
    pub fn reorient_outbound_laser(&self, outbound_orientation: &Orientation) -> (r: Orientation)
        ensures
            r == spec_reorient_outbound(*self, *outbound_orientation),
    {
        self.reorient_by_offset(outbound_orientation.to_index())
    }

    fn reorient_by_offset(&self, offset: usize) -> (r: Orientation)
        requires
            offset < 4,
        ensures
            r == orientation_of((ord_of(*self) + offset) % 4),
    {
        let idx: usize = (self.to_index() + offset) % 4;
        Orientation::from_index(idx)
    }
}

/// Rotating a world direction into a piece's local frame and back out again
/// restores the original direction, whatever the piece's rotation: the two
/// frame changes compose to the identity.
pub proof fn lemma_reorient_round_trip(piece: Orientation, world: Orientation)
    ensures
        spec_reorient_outbound(piece, spec_reorient_inbound(piece, world)) == world,
{
}

/// The frame changes are inverse in the other order as well: a local
/// direction carried out to the world frame and read back in the local frame
/// is unchanged.
pub proof fn lemma_reorient_round_trip_outbound(piece: Orientation, local: Orientation)
    ensures
        spec_reorient_inbound(piece, spec_reorient_outbound(piece, local)) == local,
{
}

} // verus!
