//! Encoding of Akari ("light up") puzzles as constraints over one integer
//! variable per horizontal run of empty cells, and decoding of a model back
//! onto the board.
pub mod board;
pub mod stripe;
pub mod formula;
pub mod encode;
pub mod counting;
pub mod dedup;
