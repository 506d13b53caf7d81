//! Conway's Game of Life: a fixed-size board of cells advanced by the
//! classical "birth on 3, survive on 2 or 3" rule, together with a decoder
//! for the community-standard Run-Length-Encoded (RLE) pattern format and an
//! applier that paints a decoded pattern onto a board.
//!
//! Rules of the automaton:
//!   - a live cell with fewer than two live neighbours dies (underpopulation);
//!   - a live cell with two or three live neighbours lives on;
//!   - a live cell with more than three live neighbours dies (overpopulation);
//!   - a dead cell with exactly three live neighbours becomes live (reproduction).

pub mod board;
pub mod cell;
pub mod config;
