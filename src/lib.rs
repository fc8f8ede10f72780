//! Weighted grid path finding and frontier exploration for a turn-based
//! maze agent: a cost grid, an A* search with re-opening of settled cells,
//! a frontier selector and a two-state navigation controller.
pub mod point;
pub mod grid;
pub mod search;
pub mod frontier;
pub mod game;
