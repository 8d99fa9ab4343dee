//! The entity records the server keeps, and the error type every operation
//! reports its failures with.
//!
//! A player identity is a `u64` handed in by the session layer; a timestamp
//! is a `u64` supplied by the caller of each operation.  Rooms and teams are
//! numbered by the server itself from monotone counters, the way a store with
//! auto-incremented primary keys would number them.

use vstd::prelude::*;

verus! {

/// Number of rows in a game grid.
pub const ROWS: usize = 6;

/// Number of columns in a game grid.  It must be at least `STREAK_REQUIRED`,
/// so that the sliding windows of the win scan never leave the grid.
pub const COLS: usize = 20;

/// How many aligned same-owner cells make a winning streak.
pub const STREAK_REQUIRED: usize = 4;

/// Why an operation was refused.  Every failure leaves the state unchanged;
/// the contracts say exactly which inputs produce which variant.
#[derive(Clone, Copy, PartialEq, Eq, Structural, Debug)]
pub enum GameError {
    /// A player name must not be empty.
    EmptyName,
    /// The caller has no player record.
    UnknownPlayer,
    /// A room title must not be empty.
    EmptyTitle,
    /// The caller has not set a display name yet.
    PlayerUnnamed,
    /// The caller already belongs to a room.
    AlreadyInRoom,
    /// No room with the given id exists.
    RoomNotFound,
    /// A chat message must not be empty.
    EmptyMessage,
    /// A greeting text must not be empty.
    EmptyText,
    /// The caller belongs to no room.
    NotInRoom,
    /// The caller is already on a team.
    AlreadyInTeam,
    /// The caller's room already has a game.
    GameAlreadyExists,
    /// No team with the given id exists.
    TeamNotFound,
    /// The caller is already on that very team.
    AlreadyOnTeam,
    /// The caller is on no team.
    NotInTeam,
    /// The caller's room has no game.
    GameNotFound,
    /// The column index is outside the grid.
    ColumnOutOfBounds,
    /// The game already has a winner; no further drops are accepted.
    GameAlreadyWon,
    /// The game has no turn owner yet.
    NoCurrentTeam,
    /// It is not the caller's team's turn.
    NotYourTurn,
    /// The chosen column is full up to its top cell.
    ColumnFull,
    /// The grid still has an empty cell, so a draw restart is refused.
    TableNotFull,
    /// A winner is already recorded, so a draw restart is refused; the
    /// decisive restart is the entry point for that outcome.
    HasWinner,
    /// The game has no winner, so a decisive restart is refused.
    NoWinner,
}

/// A connected (or once-connected) player.  Created on first connection,
/// marked offline on disconnect, never deleted.
pub struct Player {
    /// Stable identity handed in by the session layer.
    pub identity: u64,
    /// Display name; must be set before creating or joining a room.
    pub name: Option<String>,
    /// Whether the player is currently connected.
    pub online: bool,
}

/// A chat room.  Owned by one of its members; deleted when the last member
/// leaves or when the presence sweep finds every member offline.
pub struct Room {
    pub id: u32,
    pub title: String,
    /// Identity of the owning player, always one of the room's members.
    pub owner: u64,
    pub created_at: u64,
}

/// Membership of one player in one room; a player belongs to at most one
/// room at a time.
pub struct JoinRoom {
    pub room_id: u32,
    pub joiner: u64,
    pub joined_at: u64,
}

/// A side in a game.  Exactly two teams exist per game.
pub struct Team {
    pub id: u32,
    /// The game the team belongs to, keyed by that game's room id.
    pub game_id: u32,
    /// Display label, an emoji drawn from a fixed pool.
    pub name: String,
}

/// Membership of one player on one team; a player is on at most one team.
pub struct JoinTeam {
    /// The room whose game the team plays in.
    pub room_id: u32,
    pub joiner: u64,
    pub team_id: u32,
}

/// The turn owner of a game: only members of this team may drop a piece.
pub struct GameCurrentTeam {
    /// The game, keyed by its room id.
    pub game_id: u32,
    pub team_id: u32,
}

/// A grid cell position: `x` is the row (0 is the top), `y` the column.
#[derive(Clone, Copy, PartialEq, Eq, Structural, Debug)]
pub struct Coord {
    pub x: u32,
    pub y: u32,
}

/// The recorded outcome of a decided game.
pub struct Winner {
    pub team_id: u32,
    /// The winning streak, in the order the win scan reports it.
    pub coordinates: Vec<Coord>,
}

/// A game, keyed 1:1 by the room it runs in.
pub struct Game {
    pub room_id: u32,
    /// Set once a winning streak is found; ends the game until a restart.
    pub winner: Option<Winner>,
    /// `ROWS` x `COLS` grid; a cell holds the identity of the player who
    /// filled it, or nothing.
    pub table: Vec<Vec<Option<u64>>>,
    /// The cell the most recent drop landed in.
    pub latest_move: Option<Coord>,
}

/// One chat message, kept until its room is deleted.
pub struct Message {
    pub room_id: u32,
    pub sender: u64,
    pub sent_at: u64,
    pub text: String,
}

} // verus!
