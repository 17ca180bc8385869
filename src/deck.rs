//! Reading a deck of nine tiles from its text, one tile per line.
use vstd::prelude::*;
use vstd::string::StringSliceAdditionalSpecFns;
use vstd::utf8::encode_utf8;
use crate::part::is_label_char;
use crate::rule::BOARD_SIZE;
use crate::stack::{tiles_of, stack_new, stack_push, stack_into_inner};
use crate::tile::{Tile, is_tile_text, tile_of_text};

verus! {

/// Why a deck's text was refused.
#[derive(Clone, Copy, Debug, PartialEq, Eq, Structural)]
pub enum DeckError {
    /// The text does not hold exactly nine lines.
    WrongTileCount,
    /// The line at this index (from 0) is not four label characters.
    InvalidTile(usize),
}

/// The bytes of a line of text.
pub open spec fn line_bytes(line: String) -> Seq<u8> {
    encode_utf8(line@)
}

/// The first line of `lines` that does not describe a tile is at `k`.
pub open spec fn first_invalid(lines: Seq<String>, k: int) -> bool {
    &&& 0 <= k < lines.len()
    &&& !is_tile_text(line_bytes(lines[k]))
    &&& forall|j: int| 0 <= j < k ==> is_tile_text(line_bytes(#[trigger] lines[j]))
}

/// Every line of `lines` describes a tile.
pub open spec fn all_valid(lines: Seq<String>) -> bool {
    forall|j: int| 0 <= j < lines.len() ==> is_tile_text(line_bytes(#[trigger] lines[j]))
}

/// The tiles that `lines` describe, numbered from 1 in the order of the lines.
pub open spec fn deck_of_lines(lines: Seq<String>) -> Seq<Tile> {
    Seq::new(lines.len(), |j: int| tile_of_text((j + 1) as u8, line_bytes(lines[j])))
}

/// Whether the byte `b`, read as a character, names a label.
fn is_label_byte(b: u8) -> (r: bool)
    ensures
        r == is_label_char(b as char),
{
    let c = b as char;
    c == 'P' || c == 'p' || c == 'G' || c == 'g' || c == 'Y' || c == 'y' || c == 'B' || c == 'b'
}

/// Whether `parts_str` describes a tile: exactly four label characters.
pub fn is_tile_str(parts_str: &str) -> (r: bool)
    ensures
        r == is_tile_text(parts_str.spec_bytes()),
{
    let bytes = parts_str.as_bytes();
    if bytes.len() != 4 {
        return false;
    }
    let mut i: usize = 0;
    while i < 4
        invariant
            bytes@ == parts_str.spec_bytes(),
            bytes@.len() == 4,
            i <= 4,
            forall|j: int| 0 <= j < i ==> is_label_char(#[trigger] bytes@[j] as char),
        decreases 4 - i,
    {
        if !is_label_byte(bytes[i]) {
            return false;
        }
        i += 1;
    }
    true
}

/// The deck that `lines` describe, one tile per line, numbered from 1.
/// Refused when there are not nine lines, or else at the first line that
/// is not four label characters.
pub fn tiles_from_lines(lines: &Vec<String>) -> (r: Result<[Tile; 9], DeckError>)
    ensures
        lines@.len() != BOARD_SIZE ==> r == Err::<[Tile; 9], DeckError>(DeckError::WrongTileCount),
        lines@.len() == BOARD_SIZE && all_valid(lines@) ==> r is Ok && r->Ok_0@ == deck_of_lines(lines@),
        lines@.len() == BOARD_SIZE && !all_valid(lines@) ==> match r {
            Err(DeckError::InvalidTile(k)) => first_invalid(lines@, k as int),
            _ => false,
        },
{
    if lines.len() != BOARD_SIZE {
        return Err(DeckError::WrongTileCount);
    }
    let mut tiles = stack_new();
    let mut i: usize = 0;
    while i < BOARD_SIZE
        invariant
            lines@.len() == BOARD_SIZE,
            i <= BOARD_SIZE,
            forall|j: int| 0 <= j < i ==> is_tile_text(line_bytes(#[trigger] lines@[j])),
            tiles_of(tiles) == deck_of_lines(lines@).subrange(0, i as int),
        decreases BOARD_SIZE - i,
    {
        let line = lines[i].as_str();
        if !is_tile_str(line) {
            assert(first_invalid(lines@, i as int));
            return Err(DeckError::InvalidTile(i));
        }
        let tile = Tile::new_from_str((i + 1) as u8, line);
        stack_push(&mut tiles, tile);
        i += 1;
        assert(tiles_of(tiles) =~= deck_of_lines(lines@).subrange(0, i as int));
    }
    assert(deck_of_lines(lines@).subrange(0, 9) =~= deck_of_lines(lines@));
    match stack_into_inner(tiles) {
        Ok(deck) => Ok(deck),
        // Not reached: nine tiles were pushed.
        Err(_) => Err(DeckError::WrongTileCount),
    }
}

} // verus!
