//! Tests of the game state machine: creation, team membership, turn-based
//! drops with win detection, and the two restart entry points.

use game_rooms::records::GameError;
use game_rooms::records::JoinTeam;
use game_rooms::records::Winner;
use game_rooms::records::COLS;
use game_rooms::records::ROWS;
use game_rooms::state::ServerState;

const ANN: u64 = 1;
const BEN: u64 = 2;
const CID: u64 = 3;

fn joined_player(st: &mut ServerState, id: u64, name: &str, room: u32) {
    st.identity_connected(id);
    st.set_name(id, name.to_string()).expect("name accepted");
    st.join_to_room(id, room, 50).expect("joined");
}

/// Ann's room with Ben joined: the lobby every game test starts from.
fn lobby() -> ServerState {
    let mut st = ServerState::new();
    st.identity_connected(ANN);
    st.set_name(ANN, "ann".to_string()).unwrap();
    st.create_room(ANN, "Lobby".to_string(), 10).unwrap();
    joined_player(&mut st, BEN, "ben", 1);
    st
}

/// The lobby with a game on: teams 1 ("😀", Ann) and 2 ("😃", Ben), and
/// team 1 starting.
fn game_on() -> ServerState {
    let mut st = lobby();
    st.create_game(ANN, "😀".to_string(), "😃".to_string(), true).unwrap();
    st.join_to_team(BEN, 2).unwrap();
    st
}

#[test]
fn create_game_builds_teams_grid_and_turn() {
    let mut st = lobby();
    st.create_game(ANN, "😀".to_string(), "😃".to_string(), true).unwrap();
    assert_eq!(st.games.len(), 1);
    assert_eq!(st.games[0].room_id, 1);
    assert!(st.games[0].winner.is_none());
    assert!(st.games[0].latest_move.is_none());
    assert_eq!(st.games[0].table.len(), ROWS);
    for row in &st.games[0].table {
        assert_eq!(row.len(), COLS);
        assert!(row.iter().all(|c| c.is_none()));
    }
    assert_eq!(st.teams.len(), 2);
    assert_eq!(st.teams[0].id, 1);
    assert_eq!(st.teams[0].game_id, 1);
    assert_eq!(st.teams[0].name, "😀");
    assert_eq!(st.teams[1].id, 2);
    assert_eq!(st.teams[1].name, "😃");
    assert_eq!(st.next_team_id, 3);
    // The creator lands on the first team.
    assert_eq!(st.join_teams.len(), 1);
    assert_eq!(st.join_teams[0].joiner, ANN);
    assert_eq!(st.join_teams[0].team_id, 1);
    // The injected toss chose the first team to start.
    assert_eq!(st.current_teams.len(), 1);
    assert_eq!(st.current_teams[0].game_id, 1);
    assert_eq!(st.current_teams[0].team_id, 1);
}

#[test]
fn create_game_second_team_can_start() {
    let mut st = lobby();
    st.create_game(ANN, "😀".to_string(), "😃".to_string(), false).unwrap();
    assert_eq!(st.current_teams[0].team_id, 2);
}

#[test]
fn create_game_rejections() {
    let mut st = lobby();
    st.identity_connected(CID);
    st.set_name(CID, "cid".to_string()).unwrap();
    assert_eq!(
        st.create_game(CID, "a".to_string(), "b".to_string(), true),
        Err(GameError::NotInRoom)
    );
    st.create_game(ANN, "😀".to_string(), "😃".to_string(), true).unwrap();
    assert_eq!(
        st.create_game(ANN, "x".to_string(), "y".to_string(), true),
        Err(GameError::AlreadyInTeam)
    );
    st.join_to_room(CID, 1, 60).unwrap();
    assert_eq!(
        st.create_game(CID, "x".to_string(), "y".to_string(), true),
        Err(GameError::GameAlreadyExists)
    );
}

#[test]
fn join_to_team_success_and_rejections() {
    let mut st = lobby();
    st.create_game(ANN, "😀".to_string(), "😃".to_string(), true).unwrap();
    assert_eq!(st.join_to_team(CID, 2), Err(GameError::NotInRoom));
    assert_eq!(st.join_to_team(BEN, 9), Err(GameError::TeamNotFound));
    assert_eq!(st.join_to_team(BEN, 2), Ok(()));
    assert_eq!(st.join_teams.len(), 2);
    assert_eq!(st.join_teams[1].joiner, BEN);
    assert_eq!(st.join_teams[1].team_id, 2);
    assert_eq!(st.join_to_team(BEN, 2), Err(GameError::AlreadyOnTeam));
    // Switching to the other team moves the membership instead.
    assert_eq!(st.join_to_team(BEN, 1), Ok(()));
    assert_eq!(st.join_teams.len(), 2);
    assert_eq!(st.join_teams[1].joiner, BEN);
    assert_eq!(st.join_teams[1].team_id, 1);
}

#[test]
fn drop_piece_lands_in_lowest_row_and_stacks() {
    let mut st = game_on();
    st.drop_piece(ANN, 0).unwrap();
    assert_eq!(st.games[0].table[ROWS - 1][0], Some(ANN));
    let latest = st.games[0].latest_move.expect("latest move recorded");
    assert_eq!((latest.x, latest.y), ((ROWS - 1) as u32, 0));
    st.drop_piece(BEN, 0).unwrap();
    assert_eq!(st.games[0].table[ROWS - 2][0], Some(BEN));
}

#[test]
fn drop_piece_out_of_turn_is_rejected() {
    let mut st = game_on();
    // Team 1 starts, so Ben (team 2) may not move yet.
    assert_eq!(st.drop_piece(BEN, 0), Err(GameError::NotYourTurn));
    assert_eq!(st.drop_piece(ANN, 0), Ok(()));
    // After Ann's non-winning drop the turn belongs to team 2.
    assert_eq!(st.current_teams[0].team_id, 2);
    assert_eq!(st.drop_piece(ANN, 1), Err(GameError::NotYourTurn));
    assert_eq!(st.drop_piece(BEN, 1), Ok(()));
    assert_eq!(st.current_teams[0].team_id, 1);
}

#[test]
fn drop_piece_rejections_without_state_change() {
    let mut st = game_on();
    assert_eq!(st.drop_piece(CID, 0), Err(GameError::NotInTeam));
    assert_eq!(st.drop_piece(ANN, COLS as u32), Err(GameError::ColumnOutOfBounds));
    let grid_before = st.games[0].table.clone();
    assert_eq!(st.drop_piece(BEN, 0), Err(GameError::NotYourTurn));
    assert_eq!(st.games[0].table, grid_before);
    assert!(st.games[0].latest_move.is_none());
}

#[test]
fn drop_piece_without_game_is_rejected() {
    let mut st = lobby();
    // A team membership whose room has no game.
    st.join_teams.push(JoinTeam { room_id: 1, joiner: ANN, team_id: 7 });
    assert_eq!(st.drop_piece(ANN, 0), Err(GameError::GameNotFound));
}

#[test]
fn drop_piece_without_turn_owner_is_rejected() {
    let mut st = game_on();
    st.current_teams.clear();
    assert_eq!(st.drop_piece(ANN, 0), Err(GameError::NoCurrentTeam));
}

#[test]
fn full_column_rejects_the_drop_and_keeps_the_grid() {
    let mut st = game_on();
    // Alternating drops fill column 0: Ann at rows 5, 3, 1 and Ben at
    // rows 4, 2, 0 — no streak for either side.
    for _ in 0..3 {
        st.drop_piece(ANN, 0).unwrap();
        st.drop_piece(BEN, 0).unwrap();
    }
    assert!(st.games[0].table[0][0].is_some());
    let grid_before = st.games[0].table.clone();
    let turn_before = st.current_teams[0].team_id;
    assert_eq!(st.drop_piece(ANN, 0), Err(GameError::ColumnFull));
    assert_eq!(st.games[0].table, grid_before);
    assert_eq!(st.current_teams[0].team_id, turn_before);
}

/// Four legal alternating-turn drops put Ann's pieces on the bottom row of
/// columns 0 through 3 (Ben plays far away); the fourth drop wins with
/// exactly those four cells.
#[test]
fn bottom_row_streak_wins_with_exact_coordinates() {
    let mut st = game_on();
    st.drop_piece(ANN, 0).unwrap();
    st.drop_piece(BEN, 10).unwrap();
    st.drop_piece(ANN, 1).unwrap();
    st.drop_piece(BEN, 11).unwrap();
    st.drop_piece(ANN, 2).unwrap();
    st.drop_piece(BEN, 12).unwrap();
    st.drop_piece(ANN, 3).unwrap();
    let winner = st.games[0].winner.as_ref().expect("winner recorded");
    assert_eq!(winner.team_id, 1);
    let got: Vec<(u32, u32)> = winner.coordinates.iter().map(|c| (c.x, c.y)).collect();
    let bottom = (ROWS - 1) as u32;
    assert_eq!(got, vec![(bottom, 0), (bottom, 1), (bottom, 2), (bottom, 3)]);
    // The turn owner does not move after a winning drop ...
    assert_eq!(st.current_teams[0].team_id, 1);
    // ... and no further drops are accepted.
    assert_eq!(st.drop_piece(BEN, 5), Err(GameError::GameAlreadyWon));
}

#[test]
fn restart_after_decisive_game_clears_the_grid() {
    let mut st = game_on();
    st.drop_piece(ANN, 0).unwrap();
    st.drop_piece(BEN, 10).unwrap();
    st.drop_piece(ANN, 1).unwrap();
    st.drop_piece(BEN, 11).unwrap();
    st.drop_piece(ANN, 2).unwrap();
    st.drop_piece(BEN, 12).unwrap();
    st.drop_piece(ANN, 3).unwrap();
    assert!(st.games[0].winner.is_some());
    st.restart_game_has_winner(BEN, false).unwrap();
    assert!(st.games[0].winner.is_none());
    assert!(st.games[0].latest_move.is_none());
    assert!(st.games[0].table.iter().all(|row| row.iter().all(|c| c.is_none())));
    // The re-randomized turn owner: the injected choice picked the
    // higher-numbered team.
    assert_eq!(st.current_teams[0].team_id, 2);
}

#[test]
fn restart_without_winner_is_rejected() {
    let mut st = game_on();
    assert_eq!(st.restart_game_has_winner(ANN, true), Err(GameError::NoWinner));
    assert_eq!(st.restart_game_has_winner(CID, true), Err(GameError::NotInTeam));
}

#[test]
fn restart_after_full_table_succeeds() {
    let mut st = game_on();
    // An exhausted, unwon table (the store holds it; no winner recorded).
    for row in st.games[0].table.iter_mut() {
        for cell in row.iter_mut() {
            *cell = Some(ANN);
        }
    }
    st.restart_game_table_full(ANN, true).unwrap();
    assert!(st.games[0].table.iter().all(|row| row.iter().all(|c| c.is_none())));
    assert!(st.games[0].winner.is_none());
    assert!(st.games[0].latest_move.is_none());
    // The injected choice picked the lower-numbered team.
    assert_eq!(st.current_teams[0].team_id, 1);
}

#[test]
fn draw_restart_rejects_a_decided_game() {
    let mut st = game_on();
    // A winning drop can fill the last cell: a full grid with a recorded
    // winner is a decisive outcome, not a draw, and the two restart
    // triggers are mutually exclusive.
    for row in st.games[0].table.iter_mut() {
        for cell in row.iter_mut() {
            *cell = Some(ANN);
        }
    }
    st.games[0].winner = Some(Winner { team_id: 1, coordinates: Vec::new() });
    assert_eq!(st.restart_game_table_full(ANN, true), Err(GameError::HasWinner));
    // The decisive entry point handles it.
    st.restart_game_has_winner(ANN, true).unwrap();
    assert!(st.games[0].winner.is_none());
    assert!(st.games[0].table.iter().all(|row| row.iter().all(|c| c.is_none())));
}

#[test]
fn restart_with_unfilled_table_is_rejected() {
    let mut st = game_on();
    st.drop_piece(ANN, 0).unwrap();
    assert_eq!(st.restart_game_table_full(ANN, true), Err(GameError::TableNotFull));
    assert_eq!(st.restart_game_table_full(CID, true), Err(GameError::NotInTeam));
}

#[test]
fn last_team_member_leaving_removes_the_game() {
    let mut st = lobby();
    st.create_game(ANN, "😀".to_string(), "😃".to_string(), true).unwrap();
    // Ann is the only player on any team; her departure removes the game,
    // its teams and its turn owner, but Ben keeps the room alive.
    st.leave_room(ANN);
    assert_eq!(st.rooms.len(), 1);
    assert_eq!(st.rooms[0].owner, BEN);
    assert!(st.games.is_empty());
    assert!(st.teams.is_empty());
    assert!(st.current_teams.is_empty());
    assert!(st.join_teams.is_empty());
}

#[test]
fn team_member_remaining_keeps_the_game() {
    let mut st = game_on();
    st.leave_room(BEN);
    assert_eq!(st.games.len(), 1);
    assert_eq!(st.teams.len(), 2);
    assert_eq!(st.join_teams.len(), 1);
    assert_eq!(st.join_teams[0].joiner, ANN);
}

/// The full concrete session: a room, two players, a game with auto
/// assigned teams, a deterministic starting team, one successful drop and
/// one out-of-turn rejection.
#[test]
fn two_player_session_runs_a_turn() {
    let mut st = ServerState::new();
    st.identity_connected(ANN);
    st.set_name(ANN, "ann".to_string()).unwrap();
    st.create_room(ANN, "Lobby".to_string(), 10).unwrap();
    st.identity_connected(BEN);
    st.set_name(BEN, "ben".to_string()).unwrap();
    st.join_to_room(BEN, 1, 20).unwrap();
    st.create_game(ANN, "😀".to_string(), "😃".to_string(), true).unwrap();
    st.join_to_team(BEN, 2).unwrap();
    // The turn owner is one of the two teams, fixed by the injected toss.
    let start = st.current_teams[0].team_id;
    assert!(start == 1 || start == 2);
    assert_eq!(start, 1);
    assert_eq!(st.drop_piece(BEN, 0), Err(GameError::NotYourTurn));
    assert_eq!(st.drop_piece(ANN, 0), Ok(()));
    assert_eq!(st.games[0].table[ROWS - 1][0], Some(ANN));
}
