//! Tests of the player and room lifecycle: naming, membership, chat,
//! ownership handover, cascading deletion, and the presence sweep.

use game_rooms::records::GameError;
use game_rooms::records::JoinRoom;
use game_rooms::state::ServerState;

const ALICE: u64 = 11;
const BOB: u64 = 22;
const CARA: u64 = 33;

fn named_player(st: &mut ServerState, id: u64, name: &str) {
    st.identity_connected(id);
    st.set_name(id, name.to_string()).expect("name accepted");
}

fn room_with_alice() -> ServerState {
    let mut st = ServerState::new();
    named_player(&mut st, ALICE, "alice");
    st.create_room(ALICE, "Lobby".to_string(), 100).expect("room created");
    st
}

#[test]
fn set_name_rejects_empty_and_unknown() {
    let mut st = ServerState::new();
    st.identity_connected(ALICE);
    assert_eq!(st.set_name(ALICE, "".to_string()), Err(GameError::EmptyName));
    assert_eq!(st.set_name(BOB, "bob".to_string()), Err(GameError::UnknownPlayer));
    assert_eq!(st.set_name(ALICE, "alice".to_string()), Ok(()));
    assert_eq!(st.players[0].name.as_deref(), Some("alice"));
}

#[test]
fn connect_and_disconnect_track_presence() {
    let mut st = ServerState::new();
    st.identity_connected(ALICE);
    assert_eq!(st.players.len(), 1);
    assert_eq!(st.players[0].identity, ALICE);
    assert!(st.players[0].online);
    assert!(st.players[0].name.is_none());
    st.identity_disconnected(ALICE);
    assert!(!st.players[0].online);
    st.identity_connected(ALICE);
    assert!(st.players[0].online);
    assert_eq!(st.players.len(), 1);
    // An unknown player's disconnect is ignored.
    st.identity_disconnected(BOB);
    assert_eq!(st.players.len(), 1);
}

#[test]
fn create_room_makes_owner_and_member() {
    let st = room_with_alice();
    assert_eq!(st.rooms.len(), 1);
    assert_eq!(st.rooms[0].id, 1);
    assert_eq!(st.rooms[0].title, "Lobby");
    assert_eq!(st.rooms[0].owner, ALICE);
    assert_eq!(st.rooms[0].created_at, 100);
    assert_eq!(st.join_rooms.len(), 1);
    assert_eq!(st.join_rooms[0].joiner, ALICE);
    assert_eq!(st.join_rooms[0].room_id, 1);
    assert_eq!(st.next_room_id, 2);
}

#[test]
fn create_room_rejections() {
    let mut st = ServerState::new();
    st.identity_connected(ALICE);
    assert_eq!(st.create_room(ALICE, "".to_string(), 1), Err(GameError::EmptyTitle));
    assert_eq!(st.create_room(BOB, "Lobby".to_string(), 1), Err(GameError::UnknownPlayer));
    assert_eq!(st.create_room(ALICE, "Lobby".to_string(), 1), Err(GameError::PlayerUnnamed));
    st.set_name(ALICE, "alice".to_string()).unwrap();
    st.create_room(ALICE, "Lobby".to_string(), 1).unwrap();
    assert_eq!(st.create_room(ALICE, "Another".to_string(), 2), Err(GameError::AlreadyInRoom));
    assert_eq!(st.rooms.len(), 1);
}

#[test]
fn join_to_room_success_and_rejections() {
    let mut st = room_with_alice();
    st.identity_connected(BOB);
    assert_eq!(st.join_to_room(BOB, 1, 200), Err(GameError::PlayerUnnamed));
    st.set_name(BOB, "bob".to_string()).unwrap();
    assert_eq!(st.join_to_room(BOB, 9, 200), Err(GameError::RoomNotFound));
    assert_eq!(st.join_to_room(BOB, 1, 200), Ok(()));
    assert_eq!(st.join_rooms.len(), 2);
    assert_eq!(st.join_rooms[1].joiner, BOB);
    assert_eq!(st.join_rooms[1].joined_at, 200);
    assert_eq!(st.join_to_room(BOB, 1, 201), Err(GameError::AlreadyInRoom));
    assert_eq!(st.join_to_room(CARA, 1, 202), Err(GameError::UnknownPlayer));
}

#[test]
fn send_message_appends_to_the_room_log() {
    let mut st = room_with_alice();
    assert_eq!(st.send_message(ALICE, "".to_string(), 300), Err(GameError::EmptyMessage));
    assert_eq!(st.send_message(BOB, "hi".to_string(), 300), Err(GameError::NotInRoom));
    assert_eq!(st.send_message(ALICE, "hi".to_string(), 300), Ok(()));
    assert_eq!(st.send_message(ALICE, "again".to_string(), 301), Ok(()));
    assert_eq!(st.messages.len(), 2);
    assert_eq!(st.messages[0].room_id, 1);
    assert_eq!(st.messages[0].sender, ALICE);
    assert_eq!(st.messages[0].sent_at, 300);
    assert_eq!(st.messages[0].text, "hi");
    assert_eq!(st.messages[1].text, "again");
}

#[test]
fn hello_with_text_requires_text() {
    assert_eq!(game_rooms::rooms::hello_with_text(""), Err(GameError::EmptyText));
    assert_eq!(game_rooms::rooms::hello_with_text("hi"), Ok(()));
}

#[test]
fn validators_accept_nonempty_only() {
    assert_eq!(game_rooms::rooms::validate_room_title(""), Err(GameError::EmptyTitle));
    assert_eq!(game_rooms::rooms::validate_room_title("t"), Ok(()));
    assert_eq!(game_rooms::rooms::validate_message_text(""), Err(GameError::EmptyMessage));
    assert_eq!(game_rooms::rooms::validate_message_text("m"), Ok(()));
    assert!(game_rooms::rooms::validate_name("".to_string()).is_err());
    assert_eq!(game_rooms::rooms::validate_name("n".to_string()), Ok("n".to_string()));
}

#[test]
fn sole_member_leaving_deletes_room_and_dependents() {
    let mut st = room_with_alice();
    st.send_message(ALICE, "hello".to_string(), 300).unwrap();
    st.create_game(ALICE, "red".to_string(), "blue".to_string(), true).unwrap();
    st.leave_room(ALICE);
    assert!(st.rooms.is_empty());
    assert!(st.join_rooms.is_empty());
    assert!(st.games.is_empty());
    assert!(st.teams.is_empty());
    assert!(st.join_teams.is_empty());
    assert!(st.current_teams.is_empty());
    assert!(st.messages.is_empty());
    // The player record itself is never deleted.
    assert_eq!(st.players.len(), 1);
}

#[test]
fn owner_leaving_hands_room_to_remaining_member() {
    let mut st = room_with_alice();
    named_player(&mut st, BOB, "bob");
    st.join_to_room(BOB, 1, 200).unwrap();
    st.leave_room(ALICE);
    assert_eq!(st.rooms.len(), 1);
    assert_eq!(st.rooms[0].owner, BOB);
    assert_eq!(st.rooms[0].title, "Lobby");
    assert_eq!(st.join_rooms.len(), 1);
    assert_eq!(st.join_rooms[0].joiner, BOB);
}

#[test]
fn owner_leaving_picks_earliest_remaining_member() {
    let mut st = room_with_alice();
    named_player(&mut st, BOB, "bob");
    named_player(&mut st, CARA, "cara");
    st.join_to_room(BOB, 1, 200).unwrap();
    st.join_to_room(CARA, 1, 201).unwrap();
    st.leave_room(ALICE);
    // Bob joined before Cara, so Bob inherits the room.
    assert_eq!(st.rooms[0].owner, BOB);
}

#[test]
fn non_owner_leaving_keeps_the_room() {
    let mut st = room_with_alice();
    named_player(&mut st, BOB, "bob");
    st.join_to_room(BOB, 1, 200).unwrap();
    st.leave_room(BOB);
    assert_eq!(st.rooms.len(), 1);
    assert_eq!(st.rooms[0].owner, ALICE);
    assert_eq!(st.join_rooms.len(), 1);
    assert_eq!(st.join_rooms[0].joiner, ALICE);
}

#[test]
fn leaving_without_membership_changes_nothing() {
    let mut st = room_with_alice();
    st.leave_room(BOB);
    assert_eq!(st.rooms.len(), 1);
    assert_eq!(st.join_rooms.len(), 1);
}

#[test]
fn sweep_deletes_fully_offline_room_with_cascade() {
    let mut st = room_with_alice();
    st.send_message(ALICE, "hello".to_string(), 300).unwrap();
    st.create_game(ALICE, "red".to_string(), "blue".to_string(), false).unwrap();
    st.identity_disconnected(ALICE);
    st.auto_delete_room_if_all_offline();
    assert!(st.rooms.is_empty());
    assert!(st.join_rooms.is_empty());
    assert!(st.games.is_empty());
    assert!(st.teams.is_empty());
    assert!(st.join_teams.is_empty());
    assert!(st.current_teams.is_empty());
    assert!(st.messages.is_empty());
    assert_eq!(st.players.len(), 1);
}

#[test]
fn sweep_keeps_room_with_one_online_member() {
    let mut st = room_with_alice();
    named_player(&mut st, BOB, "bob");
    st.join_to_room(BOB, 1, 200).unwrap();
    st.identity_disconnected(ALICE);
    // Bob is still online, so the room stays untouched.
    st.auto_delete_room_if_all_offline();
    assert_eq!(st.rooms.len(), 1);
    assert_eq!(st.join_rooms.len(), 2);
}

#[test]
fn sweep_keeps_room_with_recordless_member() {
    let mut st = room_with_alice();
    // A member whose player record is missing is not provably offline, so
    // the room must survive the sweep.
    st.join_rooms.push(JoinRoom { room_id: 1, joiner: 99, joined_at: 250 });
    st.identity_disconnected(ALICE);
    st.auto_delete_room_if_all_offline();
    assert_eq!(st.rooms.len(), 1);
    assert_eq!(st.join_rooms.len(), 2);
}

#[test]
fn sweep_deletes_only_the_offline_rooms() {
    let mut st = room_with_alice();
    named_player(&mut st, BOB, "bob");
    st.create_room(BOB, "Busy".to_string(), 150).unwrap();
    st.identity_disconnected(ALICE);
    st.auto_delete_room_if_all_offline();
    assert_eq!(st.rooms.len(), 1);
    assert_eq!(st.rooms[0].title, "Busy");
    assert_eq!(st.join_rooms.len(), 1);
    assert_eq!(st.join_rooms[0].joiner, BOB);
}
