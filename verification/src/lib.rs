//! A generalized "Connect-N" board game engine: an M-row by N-column grid,
//! a configurable number of players, and a configurable winning-sequence
//! length. Players alternately drop tokens into columns; a token falls to
//! the lowest open row. The engine detects four-directional winning
//! sequences and turn exhaustion (full board means a tie).
//!
//! The `game` module holds the executable engine, the `model` module its
//! mathematical model (the board as a sequence of rows, and the placement
//! transition as a spec-level function), and the `laws` module the proved
//! properties of the transition: invariant preservation, cyclic turn
//! rotation, rejection of bad columns, and the equivalence of the local
//! run-counting win check with the existence of a winning line.

pub mod game;
pub mod laws;
pub mod model;

pub use game::GameState;
pub use game::GameEnd;
pub use game::PlacementError;
pub use game::PlacementResult;
pub use game::Player;
