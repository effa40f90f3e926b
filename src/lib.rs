//! A Minesweeper board engine: mine placement that spares the first opened
//! cell, neighbour counts, flood-fill reveal and win detection, together with
//! the parser for the two-character coordinates that players type.

pub mod board;
pub mod count;
pub mod flood;
pub mod laws;
pub mod location;
pub mod mines;
