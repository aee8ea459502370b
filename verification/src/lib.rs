//! A 3-dimensional variant of Conway's Game of Life on a fixed cubic grid.
//!
//! The engine keeps two full copies of the grid: the active buffer holds the
//! current generation and is only read, the inactive buffer receives the next
//! generation cell by cell, and the active flag flips once per completed
//! sweep.  Every cell carries an age: 0 is dead, a positive age counts the
//! consecutive generations the cell has survived, starting at 1 on birth.

pub mod game;
pub mod model;

pub use game::Game;
pub use game::Life;
pub use game::Position;
pub use model::GameView;
