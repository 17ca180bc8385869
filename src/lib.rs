//! Solver for a three-by-three edge-matching tile puzzle.
//!
//! Nine square tiles carry a coloured label of one of two polarities on each
//! of their four sides. A solution places every tile, possibly turned by
//! quarter turns, on the board so that each pair of touching sides matches:
//! same colour, opposite polarity.
pub mod part;
pub mod tile;
pub mod rule;
pub mod stack;
pub mod search;
pub mod deck;
