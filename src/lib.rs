//! A text-mode minesweeper engine: a grid of hidden cells, mine placement
//! that spares the first move, neighbour counts, flood-fill reveal and the
//! turn-by-turn game controller.
pub mod controller;
pub mod flood;
pub mod grid;
pub mod placement;
