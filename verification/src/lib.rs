//! A session server for a turn-based, connect-four-style board game played
//! inside chat rooms.
//!
//! Players join a room, split into two teams, and take alternating turns
//! dropping pieces into a shared grid.  The library keeps the whole server
//! state as one value ([`state::ServerState`]) and exposes every operation as
//! a verified transition on it: room and team membership, atomic turn
//! transitions, win detection over the grid, and cascading teardown of
//! everything a room owns.  Randomness (team labels, the starting team) and
//! timestamps are injected by the caller, so every transition is a pure,
//! deterministic function of its arguments.

pub mod game;
pub mod grid;
pub mod records;
pub mod rooms;
pub mod seqtools;
pub mod state;
pub mod tables;
