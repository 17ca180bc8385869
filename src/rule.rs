//! The board's layout as data: for each placement step, the sides that the
//! new tile must match against tiles placed before it.
//!
//! Sides of a tile:      Order in which the board is filled:
//!     .  A  .               2  1  8
//!     D  .  B               3  0  7
//!     .  C  .               4  5  6
use vstd::prelude::*;
use crate::tile::Side;

verus! {

/// A constraint: (side of the new tile, index of an earlier tile, side of that tile).
pub type Constraint = (Side, usize, Side);

/// What the tile placed at one step must match: one constraint, and possibly a second.
#[derive(Clone, Copy, Debug)]
pub struct Rule {
    pub first: Constraint,
    pub second: Option<Constraint>,
}

/// The number of tiles on the board.
pub const BOARD_SIZE: usize = 9;

pub open spec fn single(own: Side, idx: usize, other: Side) -> Rule {
    Rule { first: (own, idx, other), second: None }
}

pub open spec fn double(own: Side, idx: usize, other: Side, own2: Side, idx2: usize, other2: Side) -> Rule {
    Rule { first: (own, idx, other), second: Some((own2, idx2, other2)) }
}

/// The rule for the tile placed at `step` (from 1 to 8; the tile at step 0
/// is the anchor and has none).
pub open spec fn step_rule(step: int) -> Rule {
    if step == 1 {
        single(Side::C, 0, Side::A)
    } else if step == 2 {
        single(Side::B, 1, Side::D)
    } else if step == 3 {
        double(Side::A, 2, Side::C, Side::B, 0, Side::D)
    } else if step == 4 {
        single(Side::A, 3, Side::C)
    } else if step == 5 {
        double(Side::D, 4, Side::B, Side::A, 0, Side::C)
    } else if step == 6 {
        single(Side::D, 5, Side::B)
    } else if step == 7 {
        double(Side::C, 6, Side::A, Side::D, 0, Side::B)
    } else {
        double(Side::C, 7, Side::A, Side::D, 1, Side::B)
    }
}

/// A rule only looks back: every tile it names was placed before `step`.
pub open spec fn refers_back(r: Rule, step: int) -> bool {
    &&& (r.first.1 as int) < step
    &&& match r.second {
        Some(c) => (c.1 as int) < step,
        None => true,
    }
}

impl Rule {
    /// A rule with the single constraint (`own_side`, `other_idx`, `other_side`).
    pub fn new(own_side: Side, other_idx: usize, other_side: Side) -> (r: Self)
        ensures
            r == single(own_side, other_idx, other_side),
    {
        Rule { first: (own_side, other_idx, other_side), second: None }
    }

    /// This rule with the second constraint (`other_side`, `other_idx`, `other_tile_side`).
    pub fn with_second(self, other_side: Side, other_idx: usize, other_tile_side: Side) -> (r: Self)
        ensures
            r.first == self.first,
            r.second == Some((other_side, other_idx, other_tile_side)),
    {
        let mut r = self;
        r.second = Some((other_side, other_idx, other_tile_side));
        r
    }
}

/// The rule for the tile placed at `step`.
pub fn rule_for(step: usize) -> (r: Rule)
    requires
        1 <= step < BOARD_SIZE,
    ensures
        r == step_rule(step as int),
        refers_back(r, step as int),
{
    if step == 1 {
        Rule::new(Side::C, 0, Side::A)
    } else if step == 2 {
        Rule::new(Side::B, 1, Side::D)
    } else if step == 3 {
        Rule::new(Side::A, 2, Side::C).with_second(Side::B, 0, Side::D)
    } else if step == 4 {
        Rule::new(Side::A, 3, Side::C)
    } else if step == 5 {
        Rule::new(Side::D, 4, Side::B).with_second(Side::A, 0, Side::C)
    } else if step == 6 {
        Rule::new(Side::D, 5, Side::B)
    } else if step == 7 {
        Rule::new(Side::C, 6, Side::A).with_second(Side::D, 0, Side::B)
    } else {
        Rule::new(Side::C, 7, Side::A).with_second(Side::D, 1, Side::B)
    }
}

} // verus!
