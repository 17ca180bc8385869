//! Tiles: an identity and four labels, one per side, that turn together.
use vstd::prelude::*;
use vstd::string::StringSliceAdditionalSpecFns;
use crate::part::{Part, is_label_char, label_of_char};

verus! {

/// A side of a tile. Going round the tile: `A` on top, `B` on the right,
/// `C` at the bottom, `D` on the left.
#[derive(Clone, Copy, Debug, PartialEq, Eq, Structural)]
pub enum Side {
    A,
    B,
    C,
    D,
}

/// A tile with its identity and the labels now on its sides `A` to `D`.
#[derive(Clone, Copy, Debug, PartialEq, Eq, Structural)]
pub struct Tile {
    pub id: u8,
    pub a: Part,
    pub b: Part,
    pub c: Part,
    pub d: Part,
}

/// The label on side `s` of `t`.
pub open spec fn label_at(t: Tile, s: Side) -> Part {
    match s {
        Side::A => t.a,
        Side::B => t.b,
        Side::C => t.c,
        Side::D => t.d,
    }
}

/// `t` turned by one quarter: each side takes the label of the side after it.
pub open spec fn turned(t: Tile) -> Tile {
    Tile { id: t.id, a: t.b, b: t.c, c: t.d, d: t.a }
}

/// `t` turned by `n` quarters.
pub open spec fn rotated(t: Tile, n: nat) -> Tile
    decreases n,
{
    if n == 0 {
        t
    } else {
        turned(rotated(t, (n - 1) as nat))
    }
}

/// `x` is `t` in one of its four orientations.
pub open spec fn is_orientation_of(x: Tile, t: Tile) -> bool {
    x == rotated(t, 0) || x == rotated(t, 1) || x == rotated(t, 2) || x == rotated(t, 3)
}

/// The bytes of a tile's text: exactly four label characters.
pub open spec fn is_tile_text(bytes: Seq<u8>) -> bool {
    bytes.len() == 4 && forall|i: int| 0 <= i < 4 ==> is_label_char(#[trigger] bytes[i] as char)
}

/// The tile with identity `id` that the text `bytes` describes, sides `A` to `D` in order.
pub open spec fn tile_of_text(id: u8, bytes: Seq<u8>) -> Tile {
    Tile {
        id,
        a: label_of_char(bytes[0] as char),
        b: label_of_char(bytes[1] as char),
        c: label_of_char(bytes[2] as char),
        d: label_of_char(bytes[3] as char),
    }
}

impl Tile {
    /// The tile `id` with the labels `parts` on its sides `A` to `D`.
    pub fn new(id: u8, parts: [Part; 4]) -> (r: Self)
        ensures
            r == (Tile { id, a: parts[0], b: parts[1], c: parts[2], d: parts[3] }),
    {
        Tile { id, a: parts[0], b: parts[1], c: parts[2], d: parts[3] }
    }

    /// The tile `id` described by four label characters, sides `A` to `D`.
    pub fn new_from_str(id: u8, parts_str: &str) -> (r: Self)
        requires
            is_tile_text(parts_str.spec_bytes()),
        ensures
            r == tile_of_text(id, parts_str.spec_bytes()),
    {
        let bytes = parts_str.as_bytes();
        let parts = [
            Part::from(bytes[0] as char),
            Part::from(bytes[1] as char),
            Part::from(bytes[2] as char),
            Part::from(bytes[3] as char),
        ];
        Tile::new(id, parts)
    }

    pub fn id(&self) -> (r: u8)
        ensures
            r == self.id,
    {
        self.id
    }

    /// The label now on side `side`.
    pub fn get(&self, side: Side) -> (r: Part)
        ensures
            r == label_at(*self, side),
    {
        match side {
            Side::A => self.a,
            Side::B => self.b,
            Side::C => self.c,
            Side::D => self.d,
        }
    }

    /// Turns the tile by one quarter.
    pub fn rotate(&mut self)
        ensures
            *final(self) == turned(*old(self)),
    {
        let first = self.a;
        self.a = self.b;
        self.b = self.c;
        self.c = self.d;
        self.d = first;
    }
}

/// Turning a tile four times gives it back; turning it one, two or three
/// times gives three different tiles unless its labels repeat with period
/// two (opposite sides equal), which includes a tile with four equal labels.
pub proof fn lemma_rotation_closure(t: Tile)
    ensures
        rotated(t, 4) == t,
        !(t.a == t.c && t.b == t.d) ==> {
            &&& rotated(t, 1) != rotated(t, 2)
            &&& rotated(t, 1) != rotated(t, 3)
            &&& rotated(t, 2) != rotated(t, 3)
        },
{
    reveal_with_fuel(rotated, 5);
}

/// Turning keeps a tile's identity and the labels it carries.
pub proof fn lemma_rotated_keeps_id(t: Tile, n: nat)
    ensures
        rotated(t, n).id == t.id,
    decreases n,
{
    if n > 0 {
        lemma_rotated_keeps_id(t, (n - 1) as nat);
    }
}

} // verus!
