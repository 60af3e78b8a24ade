//! Game pieces and their beam interactions.
//!
//! Each piece type defines how an inbound beam leaves it, assuming the piece
//! faces North (the reference interaction table).  The world-frame
//! interaction is obtained by rotating the beam into the piece's local frame,
//! consulting the table, and rotating each outgoing beam back.

use vstd::prelude::*;

use crate::orientation::{ord_of, spec_reorient_inbound, spec_reorient_outbound, Orientation};

verus! {

/// The closed set of piece kinds.
#[derive(Clone, Copy, Debug, PartialEq, Eq, Hash, PartialOrd, Ord, Structural)]
pub enum TokenType {
    Laser,
    TargetMirror,
    BeamSplitter,
    DoubleMirror,
    Checkpoint,
    CellBlocker,
}

/// What becomes of a beam after meeting a piece: either it is re-emitted in
/// some world direction, or it stops.  A stop is `valid` when the rules allow
/// it (a target absorbing the beam, a beam returning into the emitter) and
/// invalid when the beam hit a side the piece cannot accept.
#[derive(Clone, Copy, Debug, PartialEq, Eq, Structural)]
pub enum LaserTokenInteractionResult {
    OutboundLaser(Orientation),
    NoOutboundLaser { valid: bool },
}

/// A placed or to-be-placed game piece.
///
/// `orientation` is `None` only while the piece still awaits rotation during
/// the search.  `target_lit` is `Some` exactly for target mirrors.
/// `must_light` is only ever true on target mirrors.
#[derive(Clone, Copy, Debug, PartialEq)]
pub struct Token {
    pub type_: TokenType,
    pub orientation: Option<Orientation>,
    pub lit: bool,
    pub target_lit: Option<bool>,
    pub must_light: bool,
}

/// Structural well-formedness of a token: the `must_light` and `target_lit`
/// fields agree with the piece type, and a cell blocker always faces North.
pub open spec fn token_wf(t: Token) -> bool {
    &&& (t.must_light ==> t.type_ == TokenType::TargetMirror)
    &&& (t.target_lit is Some <==> t.type_ == TokenType::TargetMirror)
    &&& (t.type_ == TokenType::CellBlocker ==> t.orientation == Some(Orientation::North))
}

/// Whether a token carries the lit state it has at construction time:
/// lasers and cell blockers start lit, everything else unlit, and a target
/// mirror's target light is off.
pub open spec fn token_pristine(t: Token) -> bool {
    &&& t.lit == (t.type_ == TokenType::CellBlocker || t.type_ == TokenType::Laser)
    &&& (t.target_lit is Some ==> t.target_lit == Some(false))
}

/// The identity of a piece for counting purposes: its type and whether it
/// must be lit.  Rotation and lit state are not part of the identity.
pub open spec fn piece_of(t: Token) -> (TokenType, bool) {
    (t.type_, t.must_light)
}

/// The placement-relevant core of a token: everything except its lit state.
pub open spec fn token_core(t: Token) -> (TokenType, Option<Orientation>, bool) {
    (t.type_, t.orientation, t.must_light)
}

/// The token as `reset` leaves it: lit state restored to construction-time
/// defaults, all other fields kept.
pub open spec fn spec_reset(t: Token) -> Token {
    Token {
        lit: t.type_ == TokenType::CellBlocker || t.type_ == TokenType::Laser,
        target_lit: if t.target_lit is Some {
            Some(false)
        } else {
            None
        },
        ..t
    }
}

/// The reference interaction table: the two outcomes for a beam arriving
/// from local direction `local_in` at a piece of type `type_` facing North.
/// Only the beam splitter produces two live beams; for every other piece the
/// second slot is a valid no-beam filler.
pub open spec fn spec_reference_outbound(type_: TokenType, local_in: Orientation) -> (
    LaserTokenInteractionResult,
    LaserTokenInteractionResult,
) {
    let none_valid = LaserTokenInteractionResult::NoOutboundLaser { valid: true };
    let none_invalid = LaserTokenInteractionResult::NoOutboundLaser { valid: false };
    match type_ {
        TokenType::Laser => match local_in {
            Orientation::South => (none_valid, none_valid),
            _ => (none_invalid, none_invalid),
        },
        TokenType::Checkpoint => match local_in {
            Orientation::North | Orientation::South => (
                LaserTokenInteractionResult::OutboundLaser(local_in),
                none_valid,
            ),
            _ => (none_invalid, none_invalid),
        },
        TokenType::TargetMirror => match local_in {
            Orientation::North => (
                LaserTokenInteractionResult::OutboundLaser(Orientation::West),
                none_valid,
            ),
            Orientation::East => (
                LaserTokenInteractionResult::OutboundLaser(Orientation::South),
                none_valid,
            ),
            Orientation::South => (none_valid, none_valid),
            Orientation::West => (none_invalid, none_invalid),
        },
        TokenType::DoubleMirror => (
            LaserTokenInteractionResult::OutboundLaser(spec_mirror_deflection(local_in)),
            none_valid,
        ),
        TokenType::CellBlocker => (
            LaserTokenInteractionResult::OutboundLaser(local_in),
            none_valid,
        ),
        TokenType::BeamSplitter => (
            LaserTokenInteractionResult::OutboundLaser(spec_mirror_deflection(local_in)),
            LaserTokenInteractionResult::OutboundLaser(local_in),
        ),
    }
}

/// Deflection by the `\` mirror in its reference orientation:
/// North and West swap, South and East swap.
pub open spec fn spec_mirror_deflection(local_in: Orientation) -> Orientation {
    match local_in {
        Orientation::North => Orientation::West,
        Orientation::West => Orientation::North,
        Orientation::South => Orientation::East,
        Orientation::East => Orientation::South,
    }
}

/// Whether a beam arriving from local direction `local_in` marks a piece of
/// type `type_` as lit.  Pieces are marked when touched from a side the
/// rules accept; lasers and cell blockers are lit from construction and are
/// never re-marked.
pub open spec fn spec_marks_lit(type_: TokenType, local_in: Orientation) -> bool {
    match type_ {
        TokenType::Laser => false,
        TokenType::CellBlocker => false,
        TokenType::Checkpoint => local_in == Orientation::North || local_in == Orientation::South,
        TokenType::TargetMirror => local_in != Orientation::West,
        TokenType::DoubleMirror => true,
        TokenType::BeamSplitter => true,
    }
}

/// The token as a beam interaction leaves it: lit when touched from an
/// accepted side, and for a target mirror hit straight into its face the
/// target light turns on.
pub open spec fn spec_token_after_interaction(t: Token, world_in: Orientation) -> Token
    recommends
        t.orientation is Some,
{
    let local_in = spec_reorient_inbound(t.orientation->0, world_in);
    Token {
        lit: t.lit || spec_marks_lit(t.type_, local_in),
        target_lit: if t.type_ == TokenType::TargetMirror && local_in == Orientation::South {
            Some(true)
        } else {
            t.target_lit
        },
        ..t
    }
}

/// One world-frame interaction outcome: the reference outcome with its
/// outgoing direction carried back to the world frame.
pub open spec fn spec_world_result(
    piece: Orientation,
    r: LaserTokenInteractionResult,
) -> LaserTokenInteractionResult {
    match r {
        LaserTokenInteractionResult::OutboundLaser(d) => LaserTokenInteractionResult::OutboundLaser(
            spec_reorient_outbound(piece, d),
        ),
        LaserTokenInteractionResult::NoOutboundLaser { valid } => r,
    }
}

/// The two world-frame outcomes for a beam travelling in world direction
/// `world_in` when it meets token `t`.
pub open spec fn spec_world_outbound(t: Token, world_in: Orientation) -> (
    LaserTokenInteractionResult,
    LaserTokenInteractionResult,
)
    recommends
        t.orientation is Some,
{
    let piece = t.orientation->0;
    let local_in = spec_reorient_inbound(piece, world_in);
    let reference = spec_reference_outbound(t.type_, local_in);
    (spec_world_result(piece, reference.0), spec_world_result(piece, reference.1))
}

impl Token {
    /// Builds a token with type-specific defaults: only target mirrors keep
    /// `must_light` and get a target light (off), cell blockers are forced
    /// to face North, and lasers and cell blockers start lit.
    pub fn new(type_: TokenType, orientation: Option<Orientation>, must_light: bool) -> (r: Token)
        ensures
            r.type_ == type_,
            r.must_light == (type_ == TokenType::TargetMirror && must_light),
            r.target_lit == if type_ == TokenType::TargetMirror {
                Some(false)
            } else {
                None::<bool>
            },
            r.orientation == if type_ == TokenType::CellBlocker {
                Some(Orientation::North)
            } else {
                orientation
            },
            r.lit == (type_ == TokenType::CellBlocker || type_ == TokenType::Laser),
            token_wf(r),
            token_pristine(r),
    {
        let must_light = if type_ == TokenType::TargetMirror {
            must_light
        } else {
            false
        };
        let target_lit = if type_ == TokenType::TargetMirror {
            Some(false)
        } else {
            None
        };
        let orientation = if type_ == TokenType::CellBlocker {
            Some(Orientation::North)
        } else {
            orientation
        };
        let lit = type_ == TokenType::CellBlocker || type_ == TokenType::Laser;
        Token { type_, orientation, lit, target_lit, must_light }
    }

    /// Restores the lit state to its construction-time defaults so the board
    /// can be simulated again.
    pub fn reset(&mut self)
        ensures
            *final(self) == spec_reset(*old(self)),
    {
        self.lit = self.type_ == TokenType::CellBlocker || self.type_ == TokenType::Laser;
        if self.target_lit.is_some() {
            self.target_lit = Some(false);
        }
    }

    /// The piece type.
    pub fn type_(&self) -> (r: &TokenType)
        ensures
            *r == self.type_,
    {
        &self.type_
    }

    /// Whether this piece is required to end up lit.
    pub fn must_light(&self) -> (r: bool)
        ensures
            r == self.must_light,
    {
        self.must_light
    }

    /// The target light: `Some` exactly on target mirrors.
    pub fn target_lit(&self) -> (r: Option<bool>)
        ensures
            r == self.target_lit,
    {
        self.target_lit
    }

    /// The rotation, if one has been assigned.
    pub fn orientation(&self) -> (r: Option<&Orientation>)
        ensures
            r is Some <==> self.orientation is Some,
            r matches Some(o) ==> *o == self.orientation->0,
    {
        self.orientation.as_ref()
    }

    /// The two outcomes for a beam arriving in world direction
    /// `laser_inbound_orientation`, and the lit-state marks the touch leaves
    /// on the piece.  The piece must already be rotated; the search never
    /// interacts a beam with an unrotated piece.
    pub fn outbound_lasers_given_inbound_laser_direction(
        &mut self,
        laser_inbound_orientation: &Orientation,
    ) -> (r: (LaserTokenInteractionResult, LaserTokenInteractionResult))
        requires
            old(self).orientation is Some,
        ensures
            *final(self) == spec_token_after_interaction(*old(self), *laser_inbound_orientation),
            r == spec_world_outbound(*old(self), *laser_inbound_orientation),
    {
        let piece = match self.orientation {
            Some(o) => o,
            None => unreached(),
        };
        let reoriented_direction = piece.reorient_inbound_laser(laser_inbound_orientation);
        let reference = self.reference_outbound_lasers_given_inbound_laser_direction(
            reoriented_direction,
        );
        let r0 = match reference.0 {
            LaserTokenInteractionResult::OutboundLaser(d) => {
                LaserTokenInteractionResult::OutboundLaser(piece.reorient_outbound_laser(&d))
            },
            x => x,
        };
        let r1 = match reference.1 {
            LaserTokenInteractionResult::OutboundLaser(d) => {
                LaserTokenInteractionResult::OutboundLaser(piece.reorient_outbound_laser(&d))
            },
            x => x,
        };
        (r0, r1)
    }

    /// The reference interaction: outcomes for a beam arriving from local
    /// direction `laser_inbound_orientation` at this piece as if it faced
    /// North.  Marks the piece lit, and a target mirror's target light, as
    /// the table prescribes.
    fn reference_outbound_lasers_given_inbound_laser_direction(
        &mut self,
        laser_inbound_orientation: Orientation,
    ) -> (r: (LaserTokenInteractionResult, LaserTokenInteractionResult))
        ensures
            r == spec_reference_outbound(old(self).type_, laser_inbound_orientation),
            final(self).lit == (old(self).lit || spec_marks_lit(
                old(self).type_,
                laser_inbound_orientation,
            )),
            final(self).target_lit == if old(self).type_ == TokenType::TargetMirror
                && laser_inbound_orientation == Orientation::South {
                Some(true)
            } else {
                old(self).target_lit
            },
            final(self).type_ == old(self).type_,
            final(self).orientation == old(self).orientation,
            final(self).must_light == old(self).must_light,
    {
        let none_valid = LaserTokenInteractionResult::NoOutboundLaser { valid: true };
        let none_invalid = LaserTokenInteractionResult::NoOutboundLaser { valid: false };
        match self.type_ {
            TokenType::Laser => match laser_inbound_orientation {
                // The beam has looped all the way back into the emitter.
                Orientation::South => (none_valid, none_valid),
                // The beam returned into a wall side of the emitter.
                _ => (none_invalid, none_invalid),
            },
            TokenType::Checkpoint => match laser_inbound_orientation {
                Orientation::North | Orientation::South => {
                    self.lit = true;
                    (
                        LaserTokenInteractionResult::OutboundLaser(laser_inbound_orientation),
                        none_valid,
                    )
                },
                Orientation::West | Orientation::East => (none_invalid, none_invalid),
            },
            TokenType::TargetMirror => match laser_inbound_orientation {
                Orientation::North => {
                    self.lit = true;
                    (
                        LaserTokenInteractionResult::OutboundLaser(Orientation::West),
                        none_valid,
                    )
                },
                Orientation::East => {
                    self.lit = true;
                    (
                        LaserTokenInteractionResult::OutboundLaser(Orientation::South),
                        none_valid,
                    )
                },
                Orientation::South => {
                    self.lit = true;
                    self.target_lit = Some(true);
                    (none_valid, none_valid)
                },
                // The beam hit the mirror's back.
                Orientation::West => (none_invalid, none_invalid),
            },
            TokenType::DoubleMirror => {
                self.lit = true;
                match laser_inbound_orientation {
                    Orientation::North => (
                        LaserTokenInteractionResult::OutboundLaser(Orientation::West),
                        none_valid,
                    ),
                    Orientation::West => (
                        LaserTokenInteractionResult::OutboundLaser(Orientation::North),
                        none_valid,
                    ),
                    Orientation::South => (
                        LaserTokenInteractionResult::OutboundLaser(Orientation::East),
                        none_valid,
                    ),
                    Orientation::East => (
                        LaserTokenInteractionResult::OutboundLaser(Orientation::South),
                        none_valid,
                    ),
                }
            },
            TokenType::CellBlocker => (
                LaserTokenInteractionResult::OutboundLaser(laser_inbound_orientation),
                none_valid,
            ),
            TokenType::BeamSplitter => {
                self.lit = true;
                match laser_inbound_orientation {
                    // The first beam reflects like the double mirror, the
                    // second is transmitted straight through.
                    Orientation::North => (
                        LaserTokenInteractionResult::OutboundLaser(Orientation::West),
                        LaserTokenInteractionResult::OutboundLaser(laser_inbound_orientation),
                    ),
                    Orientation::West => (
                        LaserTokenInteractionResult::OutboundLaser(Orientation::North),
                        LaserTokenInteractionResult::OutboundLaser(laser_inbound_orientation),
                    ),
                    Orientation::South => (
                        LaserTokenInteractionResult::OutboundLaser(Orientation::East),
                        LaserTokenInteractionResult::OutboundLaser(laser_inbound_orientation),
                    ),
                    Orientation::East => (
                        LaserTokenInteractionResult::OutboundLaser(Orientation::South),
                        LaserTokenInteractionResult::OutboundLaser(laser_inbound_orientation),
                    ),
                }
            },
        }
    }

    /// Flips the must-light flag of a target mirror; a no-op on every other
    /// piece type.
    pub fn toggle_must_light(&mut self)
        ensures
            *final(self) == if old(self).type_ == TokenType::TargetMirror {
                Token { must_light: !old(self).must_light, ..*old(self) }
            } else {
                *old(self)
            },
    {
        if self.type_ == TokenType::TargetMirror {
            self.must_light = !self.must_light;
        }
    }

    /// The distinct rotation ordinals of this piece's type.
    pub fn orientation_range(&self) -> (r: Vec<usize>)
        ensures
            r@ == spec_orientation_range(self.type_),
    {
        self.type_.orientation_range()
    }
}

/// The distinct rotation ordinals of a piece type, by its symmetry class:
/// pieces with 180-degree symmetry have two distinct rotations, the fully
/// symmetric cell blocker has one, everything else has four.
pub open spec fn spec_orientation_range(type_: TokenType) -> Seq<usize> {
    match type_ {
        TokenType::BeamSplitter | TokenType::DoubleMirror | TokenType::Checkpoint => seq![
            0usize,
            1usize,
        ],
        TokenType::CellBlocker => seq![0usize],
        _ => seq![0usize, 1usize, 2usize, 3usize],
    }
}

impl TokenType {
    /// The distinct rotation ordinals of this piece type.
    pub fn orientation_range(&self) -> (r: Vec<usize>)
        ensures
            r@ == spec_orientation_range(*self),
    {
        match self {
            TokenType::BeamSplitter | TokenType::DoubleMirror | TokenType::Checkpoint => {
                let mut v: Vec<usize> = Vec::new();
                v.push(0);
                v.push(1);
                proof {
                    assert(v@ =~= seq![0usize, 1usize]);
                }
                v
            },
            TokenType::CellBlocker => {
                let mut v: Vec<usize> = Vec::new();
                v.push(0);
                proof {
                    assert(v@ =~= seq![0usize]);
                }
                v
            },
            _ => {
                let mut v: Vec<usize> = Vec::new();
                v.push(0);
                v.push(1);
                v.push(2);
                v.push(3);
                proof {
                    assert(v@ =~= seq![0usize, 1usize, 2usize, 3usize]);
                }
                v
            },
        }
    }
}

} // verus!
