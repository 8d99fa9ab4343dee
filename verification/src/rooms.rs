//! Player and room lifecycle: connection hooks, naming, room creation and
//! membership, chat, the cascading room teardown, and the presence sweep.

use vstd::prelude::*;

use crate::records::GameError;
use crate::records::JoinRoom;
use crate::records::Message;
use crate::records::Player;
use crate::records::Room;
use crate::seqtools::lemma_filter_agree;
use crate::seqtools::lemma_filter_all;
use crate::seqtools::lemma_filter_compose;
use crate::seqtools::lemma_filter_narrow;
use crate::seqtools::lemma_filter_subset;
use crate::seqtools::lemma_filter_unique;
use crate::seqtools::lemma_unique_push;
use crate::seqtools::lemma_unique_update;
use crate::seqtools::pand;
use crate::state::ServerState;
use crate::tables::all_members_offline;
use crate::tables::collect_offline_rooms;
use crate::tables::ct_kept;
use crate::tables::ct_kept_until;
use crate::tables::game_kept;
use crate::tables::game_kept_until;
use crate::tables::jr_kept;
use crate::tables::jr_kept_until;
use crate::tables::jt_kept;
use crate::tables::jt_kept_until;
use crate::tables::msg_kept;
use crate::tables::msg_kept_until;
use crate::tables::room_kept;
use crate::tables::room_kept_until;
use crate::tables::team_kept;
use crate::tables::team_kept_until;
use crate::tables::ct_key;
use crate::tables::ct_not_game;
use crate::tables::delete_current_team_by_game;
use crate::tables::delete_game_by_room;
use crate::tables::delete_join_room_by_joiner;
use crate::tables::delete_join_rooms_by_room;
use crate::tables::delete_join_teams_by_room;
use crate::tables::delete_messages_by_room;
use crate::tables::delete_room_by_id;
use crate::tables::delete_teams_by_game;
use crate::tables::find_join_room;
use crate::tables::find_join_room_by_room;
use crate::tables::find_player;
use crate::tables::find_room;
use crate::tables::find_room_by_owner;
use crate::tables::jr_not_joiner;
use crate::tables::jt_not_joiner;
use crate::tables::game_key;
use crate::tables::game_not_room;
use crate::tables::jr_not_room;
use crate::tables::jt_key;
use crate::tables::jt_not_room;
use crate::tables::member_key;
use crate::tables::msg_not_room;
use crate::tables::player_key;
use crate::tables::room_key;
use crate::tables::room_not_id;
use crate::tables::team_key;
use crate::tables::team_not_game;
use crate::tables::team_of_game;

verus! {

/// Takes a name and checks that it is acceptable as a player's name: it
/// must not be empty.
pub fn validate_name(name: String) -> (r: Result<String, GameError>)
    ensures
        r is Ok <==> name@.len() > 0,
        r matches Ok(n) ==> n == name,
        r is Err ==> r == Err::<String, GameError>(GameError::EmptyName),
{
    if name.as_str().is_empty() {
        Err(GameError::EmptyName)
    } else {
        Ok(name)
    }
}

/// Checks that a room title is acceptable: it must not be empty.
pub fn validate_room_title(title: &str) -> (r: Result<(), GameError>)
    ensures
        r is Ok <==> title@.len() > 0,
        r is Err ==> r == Err::<(), GameError>(GameError::EmptyTitle),
{
    if title.is_empty() {
        Err(GameError::EmptyTitle)
    } else {
        Ok(())
    }
}

/// Checks that a chat message is acceptable: it must not be empty.
pub fn validate_message_text(text: &str) -> (r: Result<(), GameError>)
    ensures
        r is Ok <==> text@.len() > 0,
        r is Err ==> r == Err::<(), GameError>(GameError::EmptyMessage),
{
    if text.is_empty() {
        Err(GameError::EmptyMessage)
    } else {
        Ok(())
    }
}

/// The checked part of the greeting call: a greeting must carry text.
pub fn hello_with_text(text: &str) -> (r: Result<(), GameError>)
    ensures
        r is Ok <==> text@.len() > 0,
        r is Err ==> r == Err::<(), GameError>(GameError::EmptyText),
{
    if text.is_empty() {
        Err(GameError::EmptyText)
    } else {
        Ok(())
    }
}

impl ServerState {
    /// A client connected: mark its player online, creating the record
    /// (with no name yet) on first connection.
    pub fn identity_connected(&mut self, caller: u64)
        requires
            old(self).wf(),
        ensures
            final(self).wf(),
            final(self).has_player(caller),
            old(self).has_player(caller) ==> final(self).players@ == old(self).players@.update(
                old(self).player_idx(caller),
                (Player {
                    identity: caller,
                    name: old(self).player_at(caller).name,
                    online: true,
                }),
            ),
            !old(self).has_player(caller) ==> final(self).players@ == old(self).players@.push(
                (Player { identity: caller, name: None, online: true }),
            ),
            final(self).rooms@ == old(self).rooms@,
            final(self).join_rooms@ == old(self).join_rooms@,
            final(self).games@ == old(self).games@,
            final(self).teams@ == old(self).teams@,
            final(self).join_teams@ == old(self).join_teams@,
            final(self).current_teams@ == old(self).current_teams@,
            final(self).messages@ == old(self).messages@,
            final(self).next_room_id == old(self).next_room_id,
            final(self).next_team_id == old(self).next_team_id,
    {
        match find_player(&self.players, caller) {
            Some(i) => {
                let p = self.players.remove(i);
                let name = p.name;
                self.players.insert(i, Player { identity: caller, name, online: true });
                proof {
                    old(self).lemma_player_idx_is(caller, i as int);
                    assert(self.players@ =~= old(self).players@.update(
                        i as int,
                        (Player {
                            identity: caller,
                            name: old(self).player_at(caller).name,
                            online: true,
                        }),
                    ));
                    lemma_unique_update(
                        old(self).players@,
                        i as int,
                        self.players@[i as int],
                        player_key(),
                    );
                    self.lemma_player_idx_is(caller, i as int);
                }
            }
            None => {
                self.players.push(Player { identity: caller, name: None, online: true });
                proof {
                    lemma_unique_push(
                        old(self).players@,
                        (Player { identity: caller, name: None, online: true }),
                        player_key(),
                    );
                    self.lemma_player_idx_is(caller, old(self).players@.len() as int);
                }
            }
        }
        proof {
            assert(self.wf()) by {
                assert(self.players_wf());
                assert(self.rooms_wf());
                assert(self.members_wf());
                assert(self.owners_wf());
                assert(self.games_wf());
                assert(self.teams_wf());
                assert(self.game_teams_wf());
                assert(self.join_teams_wf());
                assert(self.current_teams_wf());
                assert(self.messages_wf());
            }
        }
    }

    /// A client disconnected: mark its player offline.  A missing player
    /// record never fails the teardown path; the call is then a no-op.
    pub fn identity_disconnected(&mut self, caller: u64)
        requires
            old(self).wf(),
        ensures
            final(self).wf(),
            old(self).has_player(caller) ==> final(self).players@ == old(self).players@.update(
                old(self).player_idx(caller),
                (Player {
                    identity: caller,
                    name: old(self).player_at(caller).name,
                    online: false,
                }),
            ),
            !old(self).has_player(caller) ==> final(self).players@ == old(self).players@,
            final(self).rooms@ == old(self).rooms@,
            final(self).join_rooms@ == old(self).join_rooms@,
            final(self).games@ == old(self).games@,
            final(self).teams@ == old(self).teams@,
            final(self).join_teams@ == old(self).join_teams@,
            final(self).current_teams@ == old(self).current_teams@,
            final(self).messages@ == old(self).messages@,
            final(self).next_room_id == old(self).next_room_id,
            final(self).next_team_id == old(self).next_team_id,
    {
        match find_player(&self.players, caller) {
            Some(i) => {
                let p = self.players.remove(i);
                let name = p.name;
                self.players.insert(i, Player { identity: caller, name, online: false });
                proof {
                    old(self).lemma_player_idx_is(caller, i as int);
                    assert(self.players@ =~= old(self).players@.update(
                        i as int,
                        (Player {
                            identity: caller,
                            name: old(self).player_at(caller).name,
                            online: false,
                        }),
                    ));
                    lemma_unique_update(
                        old(self).players@,
                        i as int,
                        self.players@[i as int],
                        player_key(),
                    );
                }
            }
            None => {}
        }
        proof {
            assert(self.wf()) by {
                assert(self.players_wf());
                assert(self.rooms_wf());
                assert(self.members_wf());
                assert(self.owners_wf());
                assert(self.games_wf());
                assert(self.teams_wf());
                assert(self.game_teams_wf());
                assert(self.join_teams_wf());
                assert(self.current_teams_wf());
                assert(self.messages_wf());
            }
        }
    }

    /// Set the caller's display name.  Fails on an empty name or an unknown
    /// caller; otherwise replaces the name and touches nothing else.
    pub fn set_name(&mut self, caller: u64, name: String) -> (r: Result<(), GameError>)
        requires
            old(self).wf(),
        ensures
            final(self).wf(),
            r is Err ==> *final(self) == *old(self),
            r == Err::<(), GameError>(GameError::EmptyName) <==> name@.len() == 0,
            r == Err::<(), GameError>(GameError::UnknownPlayer) <==> name@.len() > 0 && !old(
                self,
            ).has_player(caller),
            r is Ok <==> name@.len() > 0 && old(self).has_player(caller),
            r is Ok ==> final(self).players@ == old(self).players@.update(
                old(self).player_idx(caller),
                (Player {
                    identity: caller,
                    name: Some(name),
                    online: old(self).player_at(caller).online,
                }),
            ),
            final(self).rooms@ == old(self).rooms@,
            final(self).join_rooms@ == old(self).join_rooms@,
            final(self).games@ == old(self).games@,
            final(self).teams@ == old(self).teams@,
            final(self).join_teams@ == old(self).join_teams@,
            final(self).current_teams@ == old(self).current_teams@,
            final(self).messages@ == old(self).messages@,
            final(self).next_room_id == old(self).next_room_id,
            final(self).next_team_id == old(self).next_team_id,
    {
        let name = match validate_name(name) {
            Ok(n) => n,
            Err(e) => {
                return Err(e);
            }
        };
        match find_player(&self.players, caller) {
            Some(i) => {
                let p = self.players.remove(i);
                let online = p.online;
                self.players.insert(i, Player { identity: caller, name: Some(name), online });
                proof {
                    old(self).lemma_player_idx_is(caller, i as int);
                    assert(self.players@ =~= old(self).players@.update(
                        i as int,
                        self.players@[i as int],
                    ));
                    lemma_unique_update(
                        old(self).players@,
                        i as int,
                        self.players@[i as int],
                        player_key(),
                    );
                }
                Ok(())
            }
            None => Err(GameError::UnknownPlayer),
        }
    }

    /// Create a room with the caller as owner and sole member.  Fails on an
    /// empty title, an unknown or unnamed caller, or a caller who already
    /// belongs to a room; the new room gets the next room id.
    pub fn create_room(&mut self, caller: u64, title: String, now: u64) -> (r: Result<
        (),
        GameError,
    >)
        requires
            old(self).wf(),
            old(self).next_room_id < u32::MAX,
        ensures
            final(self).wf(),
            r is Err ==> *final(self) == *old(self),
            r == Err::<(), GameError>(GameError::EmptyTitle) <==> title@.len() == 0,
            r == Err::<(), GameError>(GameError::UnknownPlayer) <==> title@.len() > 0 && !old(
                self,
            ).has_player(caller),
            r == Err::<(), GameError>(GameError::PlayerUnnamed) <==> title@.len() > 0 && old(
                self,
            ).has_player(caller) && old(self).player_at(caller).name is None,
            r == Err::<(), GameError>(GameError::AlreadyInRoom) <==> title@.len() > 0 && old(
                self,
            ).player_named(caller) && old(self).is_member(caller),
            r is Ok <==> title@.len() > 0 && old(self).player_named(caller) && !old(
                self,
            ).is_member(caller),
            r is Ok ==> final(self).rooms@ == old(self).rooms@.push(
                (Room { id: old(self).next_room_id, title: title, owner: caller, created_at: now }),
            ),
            r is Ok ==> final(self).join_rooms@ == old(self).join_rooms@.push(
                (JoinRoom { room_id: old(self).next_room_id, joiner: caller, joined_at: now }),
            ),
            r is Ok ==> final(self).next_room_id == old(self).next_room_id + 1,
            final(self).players@ == old(self).players@,
            final(self).games@ == old(self).games@,
            final(self).teams@ == old(self).teams@,
            final(self).join_teams@ == old(self).join_teams@,
            final(self).current_teams@ == old(self).current_teams@,
            final(self).messages@ == old(self).messages@,
            final(self).next_team_id == old(self).next_team_id,
    {
        match validate_room_title(title.as_str()) {
            Ok(()) => {}
            Err(e) => {
                return Err(e);
            }
        }
        let pi = match find_player(&self.players, caller) {
            Some(pi) => pi,
            None => {
                return Err(GameError::UnknownPlayer);
            }
        };
        proof {
            old(self).lemma_player_idx_is(caller, pi as int);
        }
        if self.players[pi].name.is_none() {
            return Err(GameError::PlayerUnnamed);
        }
        match find_join_room(&self.join_rooms, caller) {
            Some(mi) => {
                proof {
                    old(self).lemma_member_idx_is(caller, mi as int);
                }
                return Err(GameError::AlreadyInRoom);
            }
            None => {}
        }
        let rid = self.next_room_id;
        self.rooms.push(Room { id: rid, title, owner: caller, created_at: now });
        self.next_room_id = rid + 1;
        self.join_rooms.push(JoinRoom { room_id: rid, joiner: caller, joined_at: now });
        proof {
            lemma_unique_push(old(self).rooms@, self.rooms@.last(), room_key());
            lemma_unique_push(old(self).join_rooms@, self.join_rooms@.last(), member_key());
            assert forall|i: int| 0 <= i < self.join_rooms@.len() implies self.has_room(
                (#[trigger] self.join_rooms@[i]).room_id,
            ) by {
                if i < old(self).join_rooms@.len() {
                    assert(old(self).has_room(old(self).join_rooms@[i].room_id));
                    let k = old(self).room_idx(old(self).join_rooms@[i].room_id);
                    assert(self.rooms@[k] == old(self).rooms@[k]);
                } else {
                    assert(self.rooms@[old(self).rooms@.len() as int].id == rid);
                }
            }
            assert forall|i: int| 0 <= i < self.rooms@.len() implies self.member_in_room(
                (#[trigger] self.rooms@[i]).owner,
                self.rooms@[i].id,
            ) by {
                if i < old(self).rooms@.len() {
                    let k = choose|k: int|
                        0 <= k < old(self).join_rooms@.len() && (#[trigger] old(
                            self,
                        ).join_rooms@[k]).joiner == old(self).rooms@[i].owner && old(
                            self,
                        ).join_rooms@[k].room_id == old(self).rooms@[i].id;
                    assert(self.join_rooms@[k] == old(self).join_rooms@[k]);
                } else {
                    assert(self.join_rooms@.last().joiner == caller);
                }
            }
            assert forall|i: int| 0 <= i < self.games@.len() implies self.has_room(
                (#[trigger] self.games@[i]).room_id,
            ) by {
                assert(old(self).has_room(old(self).games@[i].room_id));
                let k = old(self).room_idx(old(self).games@[i].room_id);
                assert(self.rooms@[k] == old(self).rooms@[k]);
            }
            assert forall|i: int| 0 <= i < self.join_teams@.len() implies self.has_room(
                (#[trigger] self.join_teams@[i]).room_id,
            ) && self.member_in_room(
                self.join_teams@[i].joiner,
                self.join_teams@[i].room_id,
            ) by {
                assert(old(self).has_room(old(self).join_teams@[i].room_id));
                let k = old(self).room_idx(old(self).join_teams@[i].room_id);
                assert(self.rooms@[k] == old(self).rooms@[k]);
                assert(old(self).member_in_room(
                    old(self).join_teams@[i].joiner,
                    old(self).join_teams@[i].room_id,
                ));
                let mk = choose|m: int|
                    0 <= m < old(self).join_rooms@.len() && (#[trigger] old(
                        self,
                    ).join_rooms@[m]).joiner == old(self).join_teams@[i].joiner && old(
                        self,
                    ).join_rooms@[m].room_id == old(self).join_teams@[i].room_id;
                assert(self.join_rooms@[mk] == old(self).join_rooms@[mk]);
            }
            assert forall|i: int| 0 <= i < self.messages@.len() implies self.has_room(
                (#[trigger] self.messages@[i]).room_id,
            ) by {
                assert(old(self).has_room(old(self).messages@[i].room_id));
                let k = old(self).room_idx(old(self).messages@[i].room_id);
                assert(self.rooms@[k] == old(self).rooms@[k]);
            }
            assert(self.wf()) by {
                assert(self.players_wf());
                assert(self.rooms_wf());
                assert(self.members_wf());
                assert(self.owners_wf());
                assert(self.games_wf());
                assert(self.teams_wf());
                assert(self.game_teams_wf());
                assert(self.join_teams_wf());
                assert(self.current_teams_wf());
                assert(self.messages_wf());
            }
        }
        Ok(())
    }

    /// Join an existing room.  Fails if the caller already belongs to a
    /// room, the room does not exist, or the caller is unknown or unnamed.
    pub fn join_to_room(&mut self, caller: u64, room_id: u32, now: u64) -> (r: Result<
        (),
        GameError,
    >)
        requires
            old(self).wf(),
        ensures
            final(self).wf(),
            r is Err ==> *final(self) == *old(self),
            r == Err::<(), GameError>(GameError::AlreadyInRoom) <==> old(self).is_member(caller),
            r == Err::<(), GameError>(GameError::RoomNotFound) <==> !old(self).is_member(caller)
                && !old(self).has_room(room_id),
            r == Err::<(), GameError>(GameError::UnknownPlayer) <==> !old(self).is_member(caller)
                && old(self).has_room(room_id) && !old(self).has_player(caller),
            r == Err::<(), GameError>(GameError::PlayerUnnamed) <==> !old(self).is_member(caller)
                && old(self).has_room(room_id) && old(self).has_player(caller) && old(
                self,
            ).player_at(caller).name is None,
            r is Ok <==> !old(self).is_member(caller) && old(self).has_room(room_id) && old(
                self,
            ).player_named(caller),
            r is Ok ==> final(self).join_rooms@ == old(self).join_rooms@.push(
                (JoinRoom { room_id: room_id, joiner: caller, joined_at: now }),
            ),
            final(self).players@ == old(self).players@,
            final(self).rooms@ == old(self).rooms@,
            final(self).games@ == old(self).games@,
            final(self).teams@ == old(self).teams@,
            final(self).join_teams@ == old(self).join_teams@,
            final(self).current_teams@ == old(self).current_teams@,
            final(self).messages@ == old(self).messages@,
            final(self).next_room_id == old(self).next_room_id,
            final(self).next_team_id == old(self).next_team_id,
    {
        match find_join_room(&self.join_rooms, caller) {
            Some(mi) => {
                proof {
                    old(self).lemma_member_idx_is(caller, mi as int);
                }
                return Err(GameError::AlreadyInRoom);
            }
            None => {}
        }
        match find_room(&self.rooms, room_id) {
            Some(ri) => {
                proof {
                    old(self).lemma_room_idx_is(room_id, ri as int);
                }
            }
            None => {
                return Err(GameError::RoomNotFound);
            }
        }
        let pi = match find_player(&self.players, caller) {
            Some(pi) => pi,
            None => {
                return Err(GameError::UnknownPlayer);
            }
        };
        proof {
            old(self).lemma_player_idx_is(caller, pi as int);
        }
        if self.players[pi].name.is_none() {
            return Err(GameError::PlayerUnnamed);
        }
        self.join_rooms.push(JoinRoom { room_id, joiner: caller, joined_at: now });
        proof {
            lemma_unique_push(old(self).join_rooms@, self.join_rooms@.last(), member_key());
            assert forall|i: int| 0 <= i < self.join_rooms@.len() implies self.has_room(
                (#[trigger] self.join_rooms@[i]).room_id,
            ) by {
                if i < old(self).join_rooms@.len() {
                    assert(old(self).has_room(old(self).join_rooms@[i].room_id));
                } else {
                    assert(old(self).has_room(room_id));
                }
            }
            assert forall|i: int| 0 <= i < self.rooms@.len() implies self.member_in_room(
                (#[trigger] self.rooms@[i]).owner,
                self.rooms@[i].id,
            ) by {
                let k = choose|k: int|
                    0 <= k < old(self).join_rooms@.len() && (#[trigger] old(
                        self,
                    ).join_rooms@[k]).joiner == old(self).rooms@[i].owner && old(
                        self,
                    ).join_rooms@[k].room_id == old(self).rooms@[i].id;
                assert(self.join_rooms@[k] == old(self).join_rooms@[k]);
            }
            assert forall|i: int| 0 <= i < self.join_teams@.len() implies self.member_in_room(
                (#[trigger] self.join_teams@[i]).joiner,
                self.join_teams@[i].room_id,
            ) by {
                assert(old(self).member_in_room(
                    old(self).join_teams@[i].joiner,
                    old(self).join_teams@[i].room_id,
                ));
                let mk = choose|m: int|
                    0 <= m < old(self).join_rooms@.len() && (#[trigger] old(
                        self,
                    ).join_rooms@[m]).joiner == old(self).join_teams@[i].joiner && old(
                        self,
                    ).join_rooms@[m].room_id == old(self).join_teams@[i].room_id;
                assert(self.join_rooms@[mk] == old(self).join_rooms@[mk]);
            }
            assert(self.wf()) by {
                assert(self.players_wf());
                assert(self.rooms_wf());
                assert(self.members_wf());
                assert(self.owners_wf());
                assert(self.games_wf());
                assert(self.teams_wf());
                assert(self.game_teams_wf());
                assert(self.join_teams_wf());
                assert(self.current_teams_wf());
                assert(self.messages_wf());
            }
        }
        Ok(())
    }

    /// The one cascading cleanup routine: delete a room together with its
    /// memberships, its game, that game's teams and turn owner, its team
    /// memberships, and its chat history.  Every deletion path — the last
    /// member leaving, and the presence sweep — goes through this routine,
    /// so the cleanup logic exists exactly once.
    pub fn delete_room(&mut self, rid: u32)
        requires
            old(self).wf_except_owner(rid),
        ensures
            final(self).wf(),
            old(self).deleted_room(*final(self), rid),
    {
        delete_room_by_id(&mut self.rooms, rid);
        delete_join_teams_by_room(&mut self.join_teams, rid);
        delete_game_by_room(&mut self.games, rid);
        delete_teams_by_game(&mut self.teams, rid);
        delete_current_team_by_game(&mut self.current_teams, rid);
        delete_messages_by_room(&mut self.messages, rid);
        delete_join_rooms_by_room(&mut self.join_rooms, rid);
        proof {
            lemma_filter_unique(old(self).rooms@, room_not_id(rid), room_key());
            lemma_filter_unique(old(self).join_rooms@, jr_not_room(rid), member_key());
            lemma_filter_unique(old(self).games@, game_not_room(rid), game_key());
            lemma_filter_unique(old(self).teams@, team_not_game(rid), team_key());
            lemma_filter_unique(old(self).join_teams@, jt_not_room(rid), jt_key());
            lemma_filter_unique(old(self).current_teams@, ct_not_game(rid), ct_key());
            lemma_filter_subset(old(self).rooms@, room_not_id(rid));
            lemma_filter_subset(old(self).join_rooms@, jr_not_room(rid));
            lemma_filter_subset(old(self).games@, game_not_room(rid));
            lemma_filter_subset(old(self).teams@, team_not_game(rid));
            lemma_filter_subset(old(self).join_teams@, jt_not_room(rid));
            lemma_filter_subset(old(self).current_teams@, ct_not_game(rid));
            lemma_filter_subset(old(self).messages@, msg_not_room(rid));

            // Everything that referenced a surviving room or game still
            // finds it after the filters.
            assert forall|x: u32| #[trigger] old(self).has_room(x) && x != rid implies
                self.has_room(x) by {
                let k = old(self).room_idx(x);
                old(self).rooms@.lemma_filter_contains(room_not_id(rid), k);
                let e = old(self).rooms@[k];
                let j = choose|j: int| 0 <= j < self.rooms@.len() && self.rooms@[j] == e;
                assert(self.rooms@[j].id == x);
            }
            assert forall|x: u32| #[trigger] old(self).has_game(x) && x != rid implies
                self.has_game(x) by {
                let k = old(self).game_idx(x);
                old(self).games@.lemma_filter_contains(game_not_room(rid), k);
                let e = old(self).games@[k];
                let j = choose|j: int| 0 <= j < self.games@.len() && self.games@[j] == e;
                assert(self.games@[j].room_id == x);
            }
            assert forall|p: u64, x: u32| #[trigger] old(self).member_in_room(p, x) && x != rid
                implies self.member_in_room(p, x) by {
                let k = choose|k: int|
                    0 <= k < old(self).join_rooms@.len() && (#[trigger] old(
                        self,
                    ).join_rooms@[k]).joiner == p && old(self).join_rooms@[k].room_id == x;
                old(self).join_rooms@.lemma_filter_contains(jr_not_room(rid), k);
                let e = old(self).join_rooms@[k];
                let j = choose|j: int| 0 <= j < self.join_rooms@.len() && self.join_rooms@[j] == e;
                assert(self.join_rooms@[j].joiner == p);
            }
            assert forall|tid: u32, gid: u32| #[trigger] old(self).game_has_team(tid, gid) && gid
                != rid implies self.game_has_team(tid, gid) by {
                let k = choose|k: int|
                    0 <= k < old(self).teams@.len() && (#[trigger] old(self).teams@[k]).id == tid
                        && old(self).teams@[k].game_id == gid;
                old(self).teams@.lemma_filter_contains(team_not_game(rid), k);
                let e = old(self).teams@[k];
                let j = choose|j: int| 0 <= j < self.teams@.len() && self.teams@[j] == e;
                assert(self.teams@[j].id == tid);
            }

            // Each table clause of the invariant, over the filtered tables.
            assert(self.rooms_wf()) by {
                assert forall|i: int| 0 <= i < self.rooms@.len() implies (
                #[trigger] self.rooms@[i]).id < self.next_room_id by {
                    let k = choose|k: int|
                        0 <= k < old(self).rooms@.len() && old(self).rooms@[k] == self.rooms@[i];
                }
            }
            assert(self.members_wf()) by {
                assert forall|i: int| 0 <= i < self.join_rooms@.len() implies self.has_room(
                    (#[trigger] self.join_rooms@[i]).room_id,
                ) by {
                    old(self).join_rooms@.lemma_filter_pred(jr_not_room(rid), i);
                    let k = choose|k: int|
                        0 <= k < old(self).join_rooms@.len() && old(self).join_rooms@[k]
                            == self.join_rooms@[i];
                    assert(old(self).has_room(old(self).join_rooms@[k].room_id));
                }
            }
            assert(self.owners_wf()) by {
                assert forall|i: int| 0 <= i < self.rooms@.len() implies self.member_in_room(
                    (#[trigger] self.rooms@[i]).owner,
                    self.rooms@[i].id,
                ) by {
                    old(self).rooms@.lemma_filter_pred(room_not_id(rid), i);
                    let k = choose|k: int|
                        0 <= k < old(self).rooms@.len() && old(self).rooms@[k] == self.rooms@[i];
                    assert(old(self).member_in_room(
                        old(self).rooms@[k].owner,
                        old(self).rooms@[k].id,
                    ));
                }
            }
            assert(self.games_wf()) by {
                assert forall|i: int| 0 <= i < self.games@.len() implies self.has_room(
                    (#[trigger] self.games@[i]).room_id,
                ) && crate::grid::grid_dims(self.games@[i].table@) by {
                    old(self).games@.lemma_filter_pred(game_not_room(rid), i);
                    let k = choose|k: int|
                        0 <= k < old(self).games@.len() && old(self).games@[k] == self.games@[i];
                    assert(old(self).has_room(old(self).games@[k].room_id));
                    assert(crate::grid::grid_dims(old(self).games@[k].table@));
                }
            }
            assert(self.teams_wf()) by {
                assert forall|i: int| 0 <= i < self.teams@.len() implies (
                #[trigger] self.teams@[i]).id < self.next_team_id && self.has_game(
                    self.teams@[i].game_id,
                ) by {
                    old(self).teams@.lemma_filter_pred(team_not_game(rid), i);
                    let k = choose|k: int|
                        0 <= k < old(self).teams@.len() && old(self).teams@[k] == self.teams@[i];
                    assert(old(self).has_game(old(self).teams@[k].game_id));
                }
            }
            assert(self.game_teams_wf()) by {
                assert forall|i: int| 0 <= i < self.games@.len() implies self.teams_of(
                    (#[trigger] self.games@[i]).room_id,
                ).len() == 2 by {
                    old(self).games@.lemma_filter_pred(game_not_room(rid), i);
                    let k = choose|k: int|
                        0 <= k < old(self).games@.len() && old(self).games@[k] == self.games@[i];
                    let gid = self.games@[i].room_id;
                    assert(old(self).teams_of(gid).len() == 2);
                    lemma_filter_narrow(old(self).teams@, team_not_game(rid), team_of_game(gid));
                }
            }
            assert(self.join_teams_wf()) by {
                assert forall|i: int| 0 <= i < self.join_teams@.len() implies self.has_room(
                    (#[trigger] self.join_teams@[i]).room_id,
                ) by {
                    old(self).join_teams@.lemma_filter_pred(jt_not_room(rid), i);
                    let k = choose|k: int|
                        0 <= k < old(self).join_teams@.len() && old(self).join_teams@[k]
                            == self.join_teams@[i];
                    assert(old(self).has_room(old(self).join_teams@[k].room_id));
                }
            }
            assert(self.current_teams_wf()) by {
                assert forall|i: int| 0 <= i < self.current_teams@.len() implies self.has_game(
                    (#[trigger] self.current_teams@[i]).game_id,
                ) && self.game_has_team(
                    self.current_teams@[i].team_id,
                    self.current_teams@[i].game_id,
                ) by {
                    old(self).current_teams@.lemma_filter_pred(ct_not_game(rid), i);
                    let k = choose|k: int|
                        0 <= k < old(self).current_teams@.len() && old(self).current_teams@[k]
                            == self.current_teams@[i];
                    assert(old(self).has_game(old(self).current_teams@[k].game_id));
                    assert(old(self).game_has_team(
                        old(self).current_teams@[k].team_id,
                        old(self).current_teams@[k].game_id,
                    ));
                }
            }
            assert(self.messages_wf()) by {
                assert forall|i: int| 0 <= i < self.messages@.len() implies self.has_room(
                    (#[trigger] self.messages@[i]).room_id,
                ) by {
                    old(self).messages@.lemma_filter_pred(msg_not_room(rid), i);
                    let k = choose|k: int|
                        0 <= k < old(self).messages@.len() && old(self).messages@[k]
                            == self.messages@[i];
                    assert(old(self).has_room(old(self).messages@[k].room_id));
                }
            }
            assert(self.wf());
        }
    }

    /// Leave the caller's room, if any (a no-op for a caller who belongs to
    /// none).  Removes the caller's team membership first, with its cascade,
    /// then the room membership; a departing owner hands the room to the
    /// earliest remaining member, and the last member's departure deletes
    /// the room and everything it owns.
    pub fn leave_room(&mut self, caller: u64)
        requires
            old(self).wf(),
        ensures
            final(self).wf(),
            old(self).left_room(*final(self), caller),
    {
        self.leave_team(caller);
        let ghost s1 = *self;
        delete_join_room_by_joiner(&mut self.join_rooms, caller);
        let ghost s2 = *self;
        proof {
            lemma_filter_unique(s1.join_rooms@, jr_not_joiner(caller), member_key());
            lemma_filter_subset(s1.join_rooms@, jr_not_joiner(caller));
            assert(s2.members_wf()) by {
                assert forall|i: int| 0 <= i < s2.join_rooms@.len() implies s2.has_room(
                    (#[trigger] s2.join_rooms@[i]).room_id,
                ) by {
                    let k = choose|k: int|
                        0 <= k < s1.join_rooms@.len() && s1.join_rooms@[k] == s2.join_rooms@[i];
                    assert(s1.has_room(s1.join_rooms@[k].room_id));
                    let rk = s1.room_idx(s1.join_rooms@[k].room_id);
                    assert(s2.rooms@[rk] == s1.rooms@[rk]);
                }
            }
            // A membership of a player other than the caller survives.
            assert forall|p: u64, x: u32| #[trigger] s1.member_in_room(p, x) && p != caller
                implies s2.member_in_room(p, x) by {
                let k = choose|k: int|
                    0 <= k < s1.join_rooms@.len() && (#[trigger] s1.join_rooms@[k]).joiner == p
                        && s1.join_rooms@[k].room_id == x;
                s1.join_rooms@.lemma_filter_contains(jr_not_joiner(caller), k);
                let j = choose|j: int|
                    0 <= j < s2.join_rooms@.len() && s2.join_rooms@[j] == s1.join_rooms@[k];
                assert(s2.join_rooms@[j].joiner == p);
            }
        }
        match find_room_by_owner(&self.rooms, caller) {
            None => {
                proof {
                    assert(self.owners_wf()) by {
                        assert forall|i: int| 0 <= i < self.rooms@.len() implies
                            self.member_in_room(
                            (#[trigger] self.rooms@[i]).owner,
                            self.rooms@[i].id,
                        ) by {
                            assert(s1.member_in_room(s1.rooms@[i].owner, s1.rooms@[i].id));
                            assert(self.rooms@[i].owner != caller);
                        }
                    }
                    assert(self.wf()) by {
                        assert(self.players_wf());
                        assert(self.rooms_wf());
                        assert(self.members_wf());
                        assert(self.games_wf());
                        assert(self.teams_wf());
                        assert(self.game_teams_wf());
                        assert(self.join_teams_wf());
                        assert(self.current_teams_wf());
                        assert(self.messages_wf());
                    }
                    assert(!old(self).owns_room(caller)) by {
                        if old(self).owns_room(caller) {
                            let i = old(self).owned_room_idx(caller);
                            assert(self.rooms@[i].owner == caller);
                        }
                    }
                }
            }
            Some(oi) => {
                proof {
                    old(self).lemma_owner_idx_is(caller, oi as int);
                }
                let rid = self.rooms[oi].id;
                match find_join_room_by_room(&self.join_rooms, rid) {
                    Some(k) => {
                        let new_owner = self.join_rooms[k].joiner;
                        let room = self.rooms.remove(oi);
                        let title = room.title;
                        let created_at = room.created_at;
                        self.rooms.insert(
                            oi,
                            Room { id: rid, title, owner: new_owner, created_at },
                        );
                        proof {
                            assert(self.rooms@ =~= s2.rooms@.update(
                                oi as int,
                                self.rooms@[oi as int],
                            ));
                            lemma_unique_update(
                                s2.rooms@,
                                oi as int,
                                self.rooms@[oi as int],
                                room_key(),
                            );
                            assert forall|t: int| 0 <= t < self.rooms@.len() implies (
                            #[trigger] self.rooms@[t]).id == s2.rooms@[t].id by {
                                if t != oi {
                                    assert(self.rooms@[t] == s2.rooms@[t]);
                                }
                            }
                            assert forall|x: u32| #[trigger] s2.has_room(x) implies self.has_room(
                                x,
                            ) by {
                                let w = s2.room_idx(x);
                                assert(self.rooms@[w].id == s2.rooms@[w].id);
                            }
                            assert(self.rooms_wf()) by {
                                assert forall|i: int| 0 <= i < self.rooms@.len() implies (
                                #[trigger] self.rooms@[i]).id < self.next_room_id by {
                                    assert(self.rooms@[i].id == s2.rooms@[i].id);
                                }
                            }
                            assert(self.members_wf()) by {
                                assert forall|i: int| 0 <= i < self.join_rooms@.len() implies
                                    self.has_room((#[trigger] self.join_rooms@[i]).room_id) by {
                                    assert(s2.has_room(s2.join_rooms@[i].room_id));
                                }
                            }
                            assert(self.owners_wf()) by {
                                assert forall|i: int| 0 <= i < self.rooms@.len() implies
                                    self.member_in_room(
                                    (#[trigger] self.rooms@[i]).owner,
                                    self.rooms@[i].id,
                                ) by {
                                    if i == oi {
                                        assert(self.join_rooms@[k as int].joiner == new_owner);
                                        assert(self.join_rooms@[k as int].room_id == rid);
                                    } else {
                                        assert(self.rooms@[i] == s2.rooms@[i]);
                                        assert(s1.member_in_room(
                                            s1.rooms@[i].owner,
                                            s1.rooms@[i].id,
                                        ));
                                        if s1.rooms@[i].owner == caller {
                                            old(self).lemma_owner_idx_is(caller, i);
                                            assert(false);
                                        }
                                        assert(s2.member_in_room(
                                            self.rooms@[i].owner,
                                            self.rooms@[i].id,
                                        ));
                                    }
                                }
                            }
                            assert(self.games_wf()) by {
                                assert forall|i: int| 0 <= i < self.games@.len() implies
                                    self.has_room((#[trigger] self.games@[i]).room_id)
                                    && crate::grid::grid_dims(self.games@[i].table@) by {
                                    assert(s1.has_room(s1.games@[i].room_id));
                                    assert(s2.has_room(s2.games@[i].room_id));
                                    assert(crate::grid::grid_dims(s1.games@[i].table@));
                                }
                            }
                            assert(self.join_teams_wf()) by {
                                assert forall|i: int| 0 <= i < self.join_teams@.len() implies
                                    self.has_room((#[trigger] self.join_teams@[i]).room_id) by {
                                    assert(s1.has_room(s1.join_teams@[i].room_id));
                                    assert(s2.has_room(s2.join_teams@[i].room_id));
                                }
                            }
                            assert(self.messages_wf()) by {
                                assert forall|i: int| 0 <= i < self.messages@.len() implies
                                    self.has_room((#[trigger] self.messages@[i]).room_id) by {
                                    assert(s1.has_room(s1.messages@[i].room_id));
                                    assert(s2.has_room(s2.messages@[i].room_id));
                                }
                            }
                            assert(self.wf()) by {
                                assert(self.players_wf());
                                assert(self.teams_wf());
                                assert(self.game_teams_wf());
                                assert(self.current_teams_wf());
                            }
                            assert(old(self).left_room(*self, caller)) by {
                                let jr2 = old(self).join_rooms@.filter(jr_not_joiner(caller));
                                assert(self.join_rooms@ == jr2);
                                assert(jr2[k as int].joiner == new_owner);
                                assert(jr2[k as int].room_id == rid);
                            }
                        }
                    }
                    None => {
                        proof {
                            assert(self.wf_except_owner(rid)) by {
                                assert(self.players_wf());
                                assert(self.rooms_wf());
                                assert(self.members_wf());
                                assert forall|i: int|
                                    0 <= i < self.rooms@.len() && (#[trigger] self.rooms@[i]).id
                                        != rid implies self.member_in_room(
                                    self.rooms@[i].owner,
                                    self.rooms@[i].id,
                                ) by {
                                    assert(s1.member_in_room(s1.rooms@[i].owner, s1.rooms@[i].id));
                                    if s1.rooms@[i].owner == caller {
                                        old(self).lemma_owner_idx_is(caller, i);
                                        assert(false);
                                    }
                                }
                                assert(self.games_wf());
                                assert(self.teams_wf());
                                assert(self.game_teams_wf());
                                assert(self.join_teams_wf());
                                assert(self.current_teams_wf());
                                assert(self.messages_wf());
                            }
                        }
                        self.delete_room(rid);
                        proof {
                            assert(old(self).left_room(*self, caller)) by {
                                let jr2 = old(self).join_rooms@.filter(jr_not_joiner(caller));
                                assert(s2.join_rooms@ == jr2);
                                assert(self.join_rooms@ == jr2.filter(jr_not_room(rid)));
                            }
                        }
                    }
                }
            }
        }
    }

    /// The presence sweep: delete every room whose members all have a
    /// player record marked offline, with the same cascading cleanup as an
    /// explicit departure.  A single online member keeps a room, and so
    /// does a member whose player record is missing.
    pub fn auto_delete_room_if_all_offline(&mut self)
        requires
            old(self).wf(),
        ensures
            final(self).wf(),
            old(self).swept(*final(self)),
    {
        let ghost pre = *old(self);
        let ghost p0 = pre.players@;
        let ghost j0 = pre.join_rooms@;
        let dead = collect_offline_rooms(&self.players, &self.join_rooms, &self.rooms);
        proof {
            assert forall|x: u32| !(#[trigger] dead@.take(0).contains(x)) by {
                assert(dead@.take(0) =~= Seq::<u32>::empty());
            }
            assert forall|i: int| 0 <= i < pre.rooms@.len() implies room_kept_until(
                p0,
                j0,
                dead@,
                0,
            )(#[trigger] pre.rooms@[i]) by {
                assert(!dead@.take(0).contains(pre.rooms@[i].id));
            }
            lemma_filter_all(pre.rooms@, room_kept_until(p0, j0, dead@, 0));
            assert forall|i: int| 0 <= i < pre.join_rooms@.len() implies jr_kept_until(
                p0,
                j0,
                dead@,
                0,
            )(#[trigger] pre.join_rooms@[i]) by {
                assert(!dead@.take(0).contains(pre.join_rooms@[i].room_id));
            }
            lemma_filter_all(pre.join_rooms@, jr_kept_until(p0, j0, dead@, 0));
            assert forall|i: int| 0 <= i < pre.join_teams@.len() implies jt_kept_until(
                p0,
                j0,
                dead@,
                0,
            )(#[trigger] pre.join_teams@[i]) by {
                assert(!dead@.take(0).contains(pre.join_teams@[i].room_id));
            }
            lemma_filter_all(pre.join_teams@, jt_kept_until(p0, j0, dead@, 0));
            assert forall|i: int| 0 <= i < pre.games@.len() implies game_kept_until(
                p0,
                j0,
                dead@,
                0,
            )(#[trigger] pre.games@[i]) by {
                assert(!dead@.take(0).contains(pre.games@[i].room_id));
            }
            lemma_filter_all(pre.games@, game_kept_until(p0, j0, dead@, 0));
            assert forall|i: int| 0 <= i < pre.teams@.len() implies team_kept_until(
                p0,
                j0,
                dead@,
                0,
            )(#[trigger] pre.teams@[i]) by {
                assert(!dead@.take(0).contains(pre.teams@[i].game_id));
            }
            lemma_filter_all(pre.teams@, team_kept_until(p0, j0, dead@, 0));
            assert forall|i: int| 0 <= i < pre.current_teams@.len() implies ct_kept_until(
                p0,
                j0,
                dead@,
                0,
            )(#[trigger] pre.current_teams@[i]) by {
                assert(!dead@.take(0).contains(pre.current_teams@[i].game_id));
            }
            lemma_filter_all(pre.current_teams@, ct_kept_until(p0, j0, dead@, 0));
            assert forall|i: int| 0 <= i < pre.messages@.len() implies msg_kept_until(
                p0,
                j0,
                dead@,
                0,
            )(#[trigger] pre.messages@[i]) by {
                assert(!dead@.take(0).contains(pre.messages@[i].room_id));
            }
            lemma_filter_all(pre.messages@, msg_kept_until(p0, j0, dead@, 0));
        }
        let mut n: usize = 0;
        while n < dead.len()
            invariant
                n <= dead@.len(),
                self.wf(),
                pre.wf(),
                p0 == pre.players@,
                j0 == pre.join_rooms@,
                self.players@ == pre.players@,
                self.next_room_id == pre.next_room_id,
                self.next_team_id == pre.next_team_id,
                forall|k: int|
                    0 <= k < dead@.len() ==> all_members_offline(p0, j0, #[trigger] dead@[k]),
                forall|i: int|
                    0 <= i < pre.rooms@.len() && all_members_offline(
                        p0,
                        j0,
                        (#[trigger] pre.rooms@[i]).id,
                    ) ==> dead@.contains(pre.rooms@[i].id),
                self.rooms@ == pre.rooms@.filter(room_kept_until(p0, j0, dead@, n as int)),
                self.join_rooms@ == pre.join_rooms@.filter(jr_kept_until(p0, j0, dead@, n as int)),
                self.join_teams@ == pre.join_teams@.filter(
                    jt_kept_until(p0, j0, dead@, n as int),
                ),
                self.games@ == pre.games@.filter(game_kept_until(p0, j0, dead@, n as int)),
                self.teams@ == pre.teams@.filter(team_kept_until(p0, j0, dead@, n as int)),
                self.current_teams@ == pre.current_teams@.filter(
                    ct_kept_until(p0, j0, dead@, n as int),
                ),
                self.messages@ == pre.messages@.filter(msg_kept_until(p0, j0, dead@, n as int)),
            decreases dead@.len() - n,
        {
            let rid = dead[n];
            let ghost nn = n as int;
            self.delete_room(rid);
            proof {
                assert(all_members_offline(p0, j0, rid)) by {
                    assert(all_members_offline(p0, j0, dead@[nn]));
                }
                let t0 = dead@.take(nn);
                let t1 = dead@.take(nn + 1);
                assert(t1 =~= t0.push(rid));
                assert forall|x: u32|
                    #![trigger t1.contains(x)]
                    t1.contains(x) == (t0.contains(x) || x == rid) by {
                    if t1.contains(x) {
                        let w = choose|w: int| 0 <= w < t1.len() && t1[w] == x;
                        if w < nn {
                            assert(t0[w] == x);
                        }
                    }
                    if t0.contains(x) {
                        let w = choose|w: int| 0 <= w < t0.len() && t0[w] == x;
                        assert(t1[w] == x);
                    }
                    if x == rid {
                        assert(t1[nn] == x);
                    }
                }
                assert forall|i: int| 0 <= i < pre.rooms@.len() implies pand(
                    room_kept_until(p0, j0, dead@, nn),
                    crate::tables::room_not_id(rid),
                )(#[trigger] pre.rooms@[i]) == room_kept_until(p0, j0, dead@, nn + 1)(
                    pre.rooms@[i],
                ) by {
                    assert(dead@.take(nn + 1).contains(pre.rooms@[i].id) == (dead@.take(
                        nn,
                    ).contains(pre.rooms@[i].id) || pre.rooms@[i].id == rid));
                }
                lemma_filter_compose(
                    pre.rooms@,
                    room_kept_until(p0, j0, dead@, nn),
                    crate::tables::room_not_id(rid),
                );
                lemma_filter_agree(
                    pre.rooms@,
                    pand(room_kept_until(p0, j0, dead@, nn), crate::tables::room_not_id(rid)),
                    room_kept_until(p0, j0, dead@, nn + 1),
                );
                assert forall|i: int| 0 <= i < pre.join_rooms@.len() implies pand(
                    jr_kept_until(p0, j0, dead@, nn),
                    jr_not_room(rid),
                )(#[trigger] pre.join_rooms@[i]) == jr_kept_until(p0, j0, dead@, nn + 1)(
                    pre.join_rooms@[i],
                ) by {
                    assert(dead@.take(nn + 1).contains(pre.join_rooms@[i].room_id) == (dead@.take(
                        nn,
                    ).contains(pre.join_rooms@[i].room_id) || pre.join_rooms@[i].room_id == rid));
                }
                lemma_filter_compose(
                    pre.join_rooms@,
                    jr_kept_until(p0, j0, dead@, nn),
                    jr_not_room(rid),
                );
                lemma_filter_agree(
                    pre.join_rooms@,
                    pand(jr_kept_until(p0, j0, dead@, nn), jr_not_room(rid)),
                    jr_kept_until(p0, j0, dead@, nn + 1),
                );
                assert forall|i: int| 0 <= i < pre.join_teams@.len() implies pand(
                    jt_kept_until(p0, j0, dead@, nn),
                    jt_not_room(rid),
                )(#[trigger] pre.join_teams@[i]) == jt_kept_until(p0, j0, dead@, nn + 1)(
                    pre.join_teams@[i],
                ) by {
                    assert(dead@.take(nn + 1).contains(pre.join_teams@[i].room_id) == (dead@.take(
                        nn,
                    ).contains(pre.join_teams@[i].room_id) || pre.join_teams@[i].room_id == rid));
                }
                lemma_filter_compose(
                    pre.join_teams@,
                    jt_kept_until(p0, j0, dead@, nn),
                    jt_not_room(rid),
                );
                lemma_filter_agree(
                    pre.join_teams@,
                    pand(jt_kept_until(p0, j0, dead@, nn), jt_not_room(rid)),
                    jt_kept_until(p0, j0, dead@, nn + 1),
                );
                assert forall|i: int| 0 <= i < pre.games@.len() implies pand(
                    game_kept_until(p0, j0, dead@, nn),
                    game_not_room(rid),
                )(#[trigger] pre.games@[i]) == game_kept_until(p0, j0, dead@, nn + 1)(
                    pre.games@[i],
                ) by {
                    assert(dead@.take(nn + 1).contains(pre.games@[i].room_id) == (dead@.take(
                        nn,
                    ).contains(pre.games@[i].room_id) || pre.games@[i].room_id == rid));
                }
                lemma_filter_compose(
                    pre.games@,
                    game_kept_until(p0, j0, dead@, nn),
                    game_not_room(rid),
                );
                lemma_filter_agree(
                    pre.games@,
                    pand(game_kept_until(p0, j0, dead@, nn), game_not_room(rid)),
                    game_kept_until(p0, j0, dead@, nn + 1),
                );
                assert forall|i: int| 0 <= i < pre.teams@.len() implies pand(
                    team_kept_until(p0, j0, dead@, nn),
                    team_not_game(rid),
                )(#[trigger] pre.teams@[i]) == team_kept_until(p0, j0, dead@, nn + 1)(
                    pre.teams@[i],
                ) by {
                    assert(dead@.take(nn + 1).contains(pre.teams@[i].game_id) == (dead@.take(
                        nn,
                    ).contains(pre.teams@[i].game_id) || pre.teams@[i].game_id == rid));
                }
                lemma_filter_compose(
                    pre.teams@,
                    team_kept_until(p0, j0, dead@, nn),
                    team_not_game(rid),
                );
                lemma_filter_agree(
                    pre.teams@,
                    pand(team_kept_until(p0, j0, dead@, nn), team_not_game(rid)),
                    team_kept_until(p0, j0, dead@, nn + 1),
                );
                assert forall|i: int| 0 <= i < pre.current_teams@.len() implies pand(
                    ct_kept_until(p0, j0, dead@, nn),
                    ct_not_game(rid),
                )(#[trigger] pre.current_teams@[i]) == ct_kept_until(p0, j0, dead@, nn + 1)(
                    pre.current_teams@[i],
                ) by {
                    assert(dead@.take(nn + 1).contains(pre.current_teams@[i].game_id) == (
                    dead@.take(nn).contains(pre.current_teams@[i].game_id)
                        || pre.current_teams@[i].game_id == rid));
                }
                lemma_filter_compose(
                    pre.current_teams@,
                    ct_kept_until(p0, j0, dead@, nn),
                    ct_not_game(rid),
                );
                lemma_filter_agree(
                    pre.current_teams@,
                    pand(ct_kept_until(p0, j0, dead@, nn), ct_not_game(rid)),
                    ct_kept_until(p0, j0, dead@, nn + 1),
                );
                assert forall|i: int| 0 <= i < pre.messages@.len() implies pand(
                    msg_kept_until(p0, j0, dead@, nn),
                    msg_not_room(rid),
                )(#[trigger] pre.messages@[i]) == msg_kept_until(p0, j0, dead@, nn + 1)(
                    pre.messages@[i],
                ) by {
                    assert(dead@.take(nn + 1).contains(pre.messages@[i].room_id) == (dead@.take(
                        nn,
                    ).contains(pre.messages@[i].room_id) || pre.messages@[i].room_id == rid));
                }
                lemma_filter_compose(
                    pre.messages@,
                    msg_kept_until(p0, j0, dead@, nn),
                    msg_not_room(rid),
                );
                lemma_filter_agree(
                    pre.messages@,
                    pand(msg_kept_until(p0, j0, dead@, nn), msg_not_room(rid)),
                    msg_kept_until(p0, j0, dead@, nn + 1),
                );
            }
            n = n + 1;
        }
        proof {
            let len = dead@.len() as int;
            assert(dead@.take(len) =~= dead@);
            assert forall|i: int| 0 <= i < pre.rooms@.len() implies room_kept_until(
                p0,
                j0,
                dead@,
                len,
            )(#[trigger] pre.rooms@[i]) == room_kept(p0, j0)(pre.rooms@[i]) by {
                if all_members_offline(p0, j0, pre.rooms@[i].id) {
                    assert(dead@.contains(pre.rooms@[i].id));
                }
            }
            lemma_filter_agree(pre.rooms@, room_kept_until(p0, j0, dead@, len), room_kept(p0, j0));
            assert forall|i: int| 0 <= i < pre.join_rooms@.len() implies jr_kept_until(
                p0,
                j0,
                dead@,
                len,
            )(#[trigger] pre.join_rooms@[i]) == jr_kept(p0, j0)(pre.join_rooms@[i]) by {
                if all_members_offline(p0, j0, pre.join_rooms@[i].room_id) {
                    assert(pre.has_room(pre.join_rooms@[i].room_id));
                    let w = pre.room_idx(pre.join_rooms@[i].room_id);
                    assert(dead@.contains(pre.rooms@[w].id));
                }
            }
            lemma_filter_agree(
                pre.join_rooms@,
                jr_kept_until(p0, j0, dead@, len),
                jr_kept(p0, j0),
            );
            assert forall|i: int| 0 <= i < pre.join_teams@.len() implies jt_kept_until(
                p0,
                j0,
                dead@,
                len,
            )(#[trigger] pre.join_teams@[i]) == jt_kept(p0, j0)(pre.join_teams@[i]) by {
                if all_members_offline(p0, j0, pre.join_teams@[i].room_id) {
                    assert(pre.has_room(pre.join_teams@[i].room_id));
                    let w = pre.room_idx(pre.join_teams@[i].room_id);
                    assert(dead@.contains(pre.rooms@[w].id));
                }
            }
            lemma_filter_agree(
                pre.join_teams@,
                jt_kept_until(p0, j0, dead@, len),
                jt_kept(p0, j0),
            );
            assert forall|i: int| 0 <= i < pre.games@.len() implies game_kept_until(
                p0,
                j0,
                dead@,
                len,
            )(#[trigger] pre.games@[i]) == game_kept(p0, j0)(pre.games@[i]) by {
                if all_members_offline(p0, j0, pre.games@[i].room_id) {
                    assert(pre.has_room(pre.games@[i].room_id));
                    let w = pre.room_idx(pre.games@[i].room_id);
                    assert(dead@.contains(pre.rooms@[w].id));
                }
            }
            lemma_filter_agree(pre.games@, game_kept_until(p0, j0, dead@, len), game_kept(p0, j0));
            assert forall|i: int| 0 <= i < pre.teams@.len() implies team_kept_until(
                p0,
                j0,
                dead@,
                len,
            )(#[trigger] pre.teams@[i]) == team_kept(p0, j0)(pre.teams@[i]) by {
                if all_members_offline(p0, j0, pre.teams@[i].game_id) {
                    assert(pre.has_game(pre.teams@[i].game_id));
                    let g = pre.game_idx(pre.teams@[i].game_id);
                    assert(pre.has_room(pre.games@[g].room_id));
                    let w = pre.room_idx(pre.games@[g].room_id);
                    assert(dead@.contains(pre.rooms@[w].id));
                }
            }
            lemma_filter_agree(pre.teams@, team_kept_until(p0, j0, dead@, len), team_kept(p0, j0));
            assert forall|i: int| 0 <= i < pre.current_teams@.len() implies ct_kept_until(
                p0,
                j0,
                dead@,
                len,
            )(#[trigger] pre.current_teams@[i]) == ct_kept(p0, j0)(pre.current_teams@[i]) by {
                if all_members_offline(p0, j0, pre.current_teams@[i].game_id) {
                    assert(pre.has_game(pre.current_teams@[i].game_id));
                    let g = pre.game_idx(pre.current_teams@[i].game_id);
                    assert(pre.has_room(pre.games@[g].room_id));
                    let w = pre.room_idx(pre.games@[g].room_id);
                    assert(dead@.contains(pre.rooms@[w].id));
                }
            }
            lemma_filter_agree(
                pre.current_teams@,
                ct_kept_until(p0, j0, dead@, len),
                ct_kept(p0, j0),
            );
            assert forall|i: int| 0 <= i < pre.messages@.len() implies msg_kept_until(
                p0,
                j0,
                dead@,
                len,
            )(#[trigger] pre.messages@[i]) == msg_kept(p0, j0)(pre.messages@[i]) by {
                if all_members_offline(p0, j0, pre.messages@[i].room_id) {
                    assert(pre.has_room(pre.messages@[i].room_id));
                    let w = pre.room_idx(pre.messages@[i].room_id);
                    assert(dead@.contains(pre.rooms@[w].id));
                }
            }
            lemma_filter_agree(
                pre.messages@,
                msg_kept_until(p0, j0, dead@, len),
                msg_kept(p0, j0),
            );
        }
    }

    /// Leaving a room as its sole member deletes the room and every
    /// dependent row: no membership, game, team, team membership, turn
    /// owner, or message of the room survives.  Indeed the transition is
    /// exactly the cascading deletion of that one room, so everything of
    /// other rooms, and every player record, stays untouched.
    pub proof fn lemma_sole_member_leave_cleans_up(
        pre: ServerState,
        post: ServerState,
        caller: u64,
    )
        requires
            pre.wf(),
            pre.left_room(post, caller),
            pre.is_member(caller),
            forall|i: int|
                0 <= i < pre.join_rooms@.len() && (#[trigger] pre.join_rooms@[i]).room_id
                    == pre.member_at(caller).room_id ==> pre.join_rooms@[i].joiner == caller,
        ensures
            !post.has_room(pre.member_at(caller).room_id),
            forall|i: int|
                0 <= i < post.join_rooms@.len() ==> (#[trigger] post.join_rooms@[i]).room_id
                    != pre.member_at(caller).room_id,
            forall|i: int|
                0 <= i < post.join_teams@.len() ==> (#[trigger] post.join_teams@[i]).room_id
                    != pre.member_at(caller).room_id,
            forall|i: int|
                0 <= i < post.games@.len() ==> (#[trigger] post.games@[i]).room_id
                    != pre.member_at(caller).room_id,
            forall|i: int|
                0 <= i < post.teams@.len() ==> (#[trigger] post.teams@[i]).game_id
                    != pre.member_at(caller).room_id,
            forall|i: int|
                0 <= i < post.current_teams@.len() ==> (#[trigger] post.current_teams@[i]).game_id
                    != pre.member_at(caller).room_id,
            forall|i: int|
                0 <= i < post.messages@.len() ==> (#[trigger] post.messages@[i]).room_id
                    != pre.member_at(caller).room_id,
            pre.deleted_room(post, pre.member_at(caller).room_id),
    {
        let rid = pre.member_at(caller).room_id;
        let mi = pre.member_idx(caller);
        assert(pre.has_room(rid)) by {
            assert(pre.has_room(pre.join_rooms@[mi].room_id));
        }
        let ri = pre.room_idx(rid);
        assert(pre.rooms@[ri].owner == caller) by {
            assert(pre.member_in_room(pre.rooms@[ri].owner, pre.rooms@[ri].id));
            let k = choose|k: int|
                0 <= k < pre.join_rooms@.len() && (#[trigger] pre.join_rooms@[k]).joiner
                    == pre.rooms@[ri].owner && pre.join_rooms@[k].room_id == pre.rooms@[ri].id;
            assert(pre.join_rooms@[k].joiner == caller);
        }
        pre.lemma_owner_idx_is(caller, ri);
        let jr2 = pre.join_rooms@.filter(jr_not_joiner(caller));
        assert(!(exists|k: int| 0 <= k < jr2.len() && (#[trigger] jr2[k]).room_id == rid)) by {
            if exists|k: int| 0 <= k < jr2.len() && (#[trigger] jr2[k]).room_id == rid {
                let k = choose|k: int| 0 <= k < jr2.len() && (#[trigger] jr2[k]).room_id == rid;
                pre.join_rooms@.lemma_filter_pred(jr_not_joiner(caller), k);
                lemma_filter_subset(pre.join_rooms@, jr_not_joiner(caller));
                let w = choose|w: int|
                    0 <= w < pre.join_rooms@.len() && pre.join_rooms@[w] == jr2[k];
                assert(pre.join_rooms@[w].joiner == caller);
                assert(false);
            }
        }
        let rid_t = pre.jt_at(caller).room_id;
        let jts2 = pre.join_teams@.filter(jt_not_joiner(caller));
        let games2 = if pre.on_team(caller) && (forall|k: int|
            0 <= k < jts2.len() ==> (#[trigger] jts2[k]).room_id != rid_t) {
            pre.games@.filter(crate::tables::game_not_room(rid_t))
        } else {
            pre.games@
        };
        assert forall|i: int| 0 <= i < post.rooms@.len() implies (#[trigger] post.rooms@[i]).id
            != rid by {
            pre.rooms@.lemma_filter_pred(room_not_id(rid), i);
        }
        assert(!post.has_room(rid)) by {
            if post.has_room(rid) {
                let w = post.room_idx(rid);
                assert(post.rooms@[w].id != rid);
            }
        }
        assert forall|i: int| 0 <= i < post.join_rooms@.len() implies (
        #[trigger] post.join_rooms@[i]).room_id != rid by {
            jr2.lemma_filter_pred(jr_not_room(rid), i);
        }
        assert forall|i: int| 0 <= i < post.join_teams@.len() implies (
        #[trigger] post.join_teams@[i]).room_id != rid by {
            jts2.lemma_filter_pred(jt_not_room(rid), i);
        }
        assert forall|i: int| 0 <= i < post.games@.len() implies (
        #[trigger] post.games@[i]).room_id != rid by {
            games2.lemma_filter_pred(game_not_room(rid), i);
        }
        assert forall|i: int| 0 <= i < post.teams@.len() implies (
        #[trigger] post.teams@[i]).game_id != rid by {
            let teams2 = if pre.on_team(caller) && (forall|k: int|
                0 <= k < jts2.len() ==> (#[trigger] jts2[k]).room_id != rid_t) {
                pre.teams@.filter(team_not_game(rid_t))
            } else {
                pre.teams@
            };
            teams2.lemma_filter_pred(team_not_game(rid), i);
        }
        assert forall|i: int| 0 <= i < post.current_teams@.len() implies (
        #[trigger] post.current_teams@[i]).game_id != rid by {
            let cts2 = if pre.on_team(caller) && (forall|k: int|
                0 <= k < jts2.len() ==> (#[trigger] jts2[k]).room_id != rid_t) {
                pre.current_teams@.filter(ct_not_game(rid_t))
            } else {
                pre.current_teams@
            };
            cts2.lemma_filter_pred(ct_not_game(rid), i);
        }
        assert forall|i: int| 0 <= i < post.messages@.len() implies (
        #[trigger] post.messages@[i]).room_id != rid by {
            pre.messages@.lemma_filter_pred(msg_not_room(rid), i);
        }
        // The transition is the cascading deletion of this one room: the
        // caller-membership filters collapse into the room filter, because
        // every membership of the caller — room or team — sits in this
        // very room.
        assert forall|t: int| 0 <= t < pre.join_rooms@.len() implies pand(
            jr_not_joiner(caller),
            jr_not_room(rid),
        )(#[trigger] pre.join_rooms@[t]) == jr_not_room(rid)(pre.join_rooms@[t]) by {
            if pre.join_rooms@[t].joiner == caller {
                pre.lemma_member_idx_is(caller, t);
            }
        }
        lemma_filter_compose(pre.join_rooms@, jr_not_joiner(caller), jr_not_room(rid));
        lemma_filter_agree(
            pre.join_rooms@,
            pand(jr_not_joiner(caller), jr_not_room(rid)),
            jr_not_room(rid),
        );
        assert(post.join_rooms@ == pre.join_rooms@.filter(jr_not_room(rid)));
        assert forall|t: int| 0 <= t < pre.join_teams@.len() implies pand(
            jt_not_joiner(caller),
            jt_not_room(rid),
        )(#[trigger] pre.join_teams@[t]) == jt_not_room(rid)(pre.join_teams@[t]) by {
            if pre.join_teams@[t].joiner == caller {
                assert(pre.member_in_room(caller, pre.join_teams@[t].room_id));
                let k = choose|k: int|
                    0 <= k < pre.join_rooms@.len() && (#[trigger] pre.join_rooms@[k]).joiner
                        == caller && pre.join_rooms@[k].room_id == pre.join_teams@[t].room_id;
                pre.lemma_member_idx_is(caller, k);
            }
        }
        lemma_filter_compose(pre.join_teams@, jt_not_joiner(caller), jt_not_room(rid));
        lemma_filter_agree(
            pre.join_teams@,
            pand(jt_not_joiner(caller), jt_not_room(rid)),
            jt_not_room(rid),
        );
        assert(post.join_teams@ == pre.join_teams@.filter(jt_not_room(rid)));
        if pre.on_team(caller) {
            let ji = pre.jt_idx(caller);
            assert(pre.member_in_room(pre.join_teams@[ji].joiner, pre.join_teams@[ji].room_id));
            let k = choose|k: int|
                0 <= k < pre.join_rooms@.len() && (#[trigger] pre.join_rooms@[k]).joiner == caller
                    && pre.join_rooms@[k].room_id == rid_t;
            pre.lemma_member_idx_is(caller, k);
            assert(rid_t == rid);
        }
        let teams2 = if pre.on_team(caller) && (forall|k: int|
            0 <= k < jts2.len() ==> (#[trigger] jts2[k]).room_id != rid_t) {
            pre.teams@.filter(team_not_game(rid_t))
        } else {
            pre.teams@
        };
        let cts2 = if pre.on_team(caller) && (forall|k: int|
            0 <= k < jts2.len() ==> (#[trigger] jts2[k]).room_id != rid_t) {
            pre.current_teams@.filter(ct_not_game(rid_t))
        } else {
            pre.current_teams@
        };
        if pre.on_team(caller) && (forall|k: int|
            0 <= k < jts2.len() ==> (#[trigger] jts2[k]).room_id != rid_t) {
            lemma_filter_narrow(pre.games@, game_not_room(rid), game_not_room(rid));
            lemma_filter_narrow(pre.teams@, team_not_game(rid), team_not_game(rid));
            lemma_filter_narrow(pre.current_teams@, ct_not_game(rid), ct_not_game(rid));
        }
        assert(post.games@ == pre.games@.filter(game_not_room(rid)));
        assert(post.teams@ == pre.teams@.filter(team_not_game(rid)));
        assert(post.current_teams@ == pre.current_teams@.filter(ct_not_game(rid)));
        assert(pre.deleted_room(post, rid));
    }

    /// A departing owner with members remaining hands the room over: the
    /// room survives, keeps its title, and its new owner is one of the
    /// remaining members, not the caller.
    pub proof fn lemma_owner_leave_promotes(pre: ServerState, post: ServerState, caller: u64)
        requires
            pre.wf(),
            post.wf(),
            pre.left_room(post, caller),
            pre.owns_room(caller),
            exists|i: int|
                0 <= i < pre.join_rooms@.len() && (#[trigger] pre.join_rooms@[i]).room_id
                    == pre.rooms@[pre.owned_room_idx(caller)].id && pre.join_rooms@[i].joiner
                    != caller,
        ensures
            post.has_room(pre.rooms@[pre.owned_room_idx(caller)].id),
            post.room_at(pre.rooms@[pre.owned_room_idx(caller)].id).owner != caller,
            pre.member_in_room(
                post.room_at(pre.rooms@[pre.owned_room_idx(caller)].id).owner,
                pre.rooms@[pre.owned_room_idx(caller)].id,
            ),
            post.room_at(pre.rooms@[pre.owned_room_idx(caller)].id).title == pre.rooms@[
                pre.owned_room_idx(caller)].title,
    {
        let oi = pre.owned_room_idx(caller);
        let room = pre.rooms@[oi];
        let rid = room.id;
        let jr2 = pre.join_rooms@.filter(jr_not_joiner(caller));
        let i = choose|i: int|
            0 <= i < pre.join_rooms@.len() && (#[trigger] pre.join_rooms@[i]).room_id == rid
                && pre.join_rooms@[i].joiner != caller;
        pre.join_rooms@.lemma_filter_contains(jr_not_joiner(caller), i);
        let w = choose|w: int| 0 <= w < jr2.len() && jr2[w] == pre.join_rooms@[i];
        assert(jr2[w].room_id == rid);
        let k = choose|k: int|
            0 <= k < jr2.len() && (#[trigger] jr2[k]).room_id == room.id && (forall|j: int|
                0 <= j < k ==> jr2[j].room_id != room.id) && post.rooms@ == pre.rooms@.update(
                oi,
                (Room {
                    id: room.id,
                    title: room.title,
                    owner: jr2[k].joiner,
                    created_at: room.created_at,
                }),
            );
        pre.join_rooms@.lemma_filter_pred(jr_not_joiner(caller), k);
        lemma_filter_subset(pre.join_rooms@, jr_not_joiner(caller));
        let m = choose|m: int| 0 <= m < pre.join_rooms@.len() && pre.join_rooms@[m] == jr2[k];
        assert(pre.member_in_room(jr2[k].joiner, rid)) by {
            assert(pre.join_rooms@[m].joiner == jr2[k].joiner);
        }
        assert(post.rooms@[oi].id == rid);
        post.lemma_room_idx_is(rid, oi);
    }

    /// The presence sweep deletes a room exactly when every member's
    /// player record exists and is offline: one online member keeps the
    /// room, and so does a member whose record is missing.
    pub proof fn lemma_sweep_keeps_online_rooms(pre: ServerState, post: ServerState, rid: u32)
        requires
            pre.wf(),
            pre.swept(post),
            pre.has_room(rid),
        ensures
            !all_members_offline(pre.players@, pre.join_rooms@, rid) ==> post.has_room(rid),
            all_members_offline(pre.players@, pre.join_rooms@, rid) ==> !post.has_room(rid),
    {
        let p = pre.players@;
        let j = pre.join_rooms@;
        let k = pre.room_idx(rid);
        if !all_members_offline(p, j, rid) {
            pre.rooms@.lemma_filter_contains(room_kept(p, j), k);
            let w = choose|w: int|
                0 <= w < post.rooms@.len() && post.rooms@[w] == pre.rooms@[k];
            assert(post.rooms@[w].id == rid);
        } else {
            if post.has_room(rid) {
                let w = post.room_idx(rid);
                pre.rooms@.lemma_filter_pred(room_kept(p, j), w);
                assert(false);
            }
        }
    }

    /// Append a chat message to the caller's room.  Fails on an empty text
    /// or a caller who belongs to no room.
    pub fn send_message(&mut self, caller: u64, text: String, now: u64) -> (r: Result<
        (),
        GameError,
    >)
        requires
            old(self).wf(),
        ensures
            final(self).wf(),
            r is Err ==> *final(self) == *old(self),
            r == Err::<(), GameError>(GameError::EmptyMessage) <==> text@.len() == 0,
            r == Err::<(), GameError>(GameError::NotInRoom) <==> text@.len() > 0 && !old(
                self,
            ).is_member(caller),
            r is Ok <==> text@.len() > 0 && old(self).is_member(caller),
            r is Ok ==> final(self).messages@ == old(self).messages@.push(
                (Message {
                    room_id: old(self).member_at(caller).room_id,
                    sender: caller,
                    sent_at: now,
                    text: text,
                }),
            ),
            final(self).players@ == old(self).players@,
            final(self).rooms@ == old(self).rooms@,
            final(self).join_rooms@ == old(self).join_rooms@,
            final(self).games@ == old(self).games@,
            final(self).teams@ == old(self).teams@,
            final(self).join_teams@ == old(self).join_teams@,
            final(self).current_teams@ == old(self).current_teams@,
            final(self).next_room_id == old(self).next_room_id,
            final(self).next_team_id == old(self).next_team_id,
    {
        match validate_message_text(text.as_str()) {
            Ok(()) => {}
            Err(e) => {
                return Err(e);
            }
        }
        let mi = match find_join_room(&self.join_rooms, caller) {
            Some(mi) => mi,
            None => {
                return Err(GameError::NotInRoom);
            }
        };
        proof {
            old(self).lemma_member_idx_is(caller, mi as int);
        }
        let room_id = self.join_rooms[mi].room_id;
        self.messages.push(Message { room_id, sender: caller, sent_at: now, text });
        proof {
            assert forall|i: int| 0 <= i < self.messages@.len() implies self.has_room(
                (#[trigger] self.messages@[i]).room_id,
            ) by {
                if i < old(self).messages@.len() {
                    assert(old(self).has_room(old(self).messages@[i].room_id));
                    let k = old(self).room_idx(old(self).messages@[i].room_id);
                    assert(self.rooms@[k] == old(self).rooms@[k]);
                } else {
                    assert(old(self).has_room(room_id));
                    let k = old(self).room_idx(room_id);
                    assert(self.rooms@[k] == old(self).rooms@[k]);
                }
            }
            assert(self.wf()) by {
                assert(self.players_wf());
                assert(self.rooms_wf());
                assert(self.members_wf());
                assert(self.owners_wf());
                assert(self.games_wf());
                assert(self.teams_wf());
                assert(self.game_teams_wf());
                assert(self.join_teams_wf());
                assert(self.current_teams_wf());
                assert(self.messages_wf());
            }
        }
        Ok(())
    }
}

} // verus!
