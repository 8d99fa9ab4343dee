//! The whole server state as one value, its well-formedness invariant, and
//! the spec-level lookups the operation contracts speak of.
//!
//! Every operation is a method on [`ServerState`] that requires `wf()` and
//! re-establishes it.  `wf()` bundles the uniqueness of each table's key,
//! the foreign keys between tables, and the cross-entity invariants of the
//! session design: every room keeps its owner among its members (so a room
//! never exists without members), every game sits in an existing room with
//! a full-sized grid, every game has exactly two teams, and a turn-owner
//! record always points at a team of its own game.

use vstd::prelude::*;

use crate::grid::detect_ok;
use crate::grid::drop_row;
use crate::grid::grid_blank;
use crate::grid::grid_dims;
use crate::grid::has_win;
use crate::records::Coord;
use crate::records::Game;
use crate::records::GameError;
use crate::records::COLS;
use crate::records::GameCurrentTeam;
use crate::records::JoinRoom;
use crate::records::JoinTeam;
use crate::records::Message;
use crate::records::Player;
use crate::records::Room;
use crate::records::Team;
use crate::seqtools::unique_by;
use crate::tables::ct_kept;
use crate::tables::ct_key;
use crate::tables::ct_not_game;
use crate::tables::game_kept;
use crate::tables::jr_kept;
use crate::tables::jt_kept;
use crate::tables::msg_kept;
use crate::tables::room_kept;
use crate::tables::team_kept;
use crate::tables::game_not_room;
use crate::tables::jr_not_joiner;
use crate::tables::jr_not_room;
use crate::tables::jt_not_joiner;
use crate::tables::jt_not_room;
use crate::tables::msg_not_room;
use crate::tables::room_not_id;
use crate::tables::team_not_game;
use crate::tables::game_key;
use crate::tables::jt_key;
use crate::tables::member_key;
use crate::tables::player_key;
use crate::tables::room_key;
use crate::tables::team_key;
use crate::tables::team_of_game;

verus! {

/// The entity store of one server: every table, plus the two counters that
/// number freshly created rooms and teams.
pub struct ServerState {
    pub players: Vec<Player>,
    pub rooms: Vec<Room>,
    pub join_rooms: Vec<JoinRoom>,
    pub games: Vec<Game>,
    pub teams: Vec<Team>,
    pub join_teams: Vec<JoinTeam>,
    pub current_teams: Vec<GameCurrentTeam>,
    pub messages: Vec<Message>,
    /// The id the next created room receives.
    pub next_room_id: u32,
    /// The id the next created team receives.
    pub next_team_id: u32,
}

impl ServerState {
    // Spec-level lookups.  Each uniquely keyed table has an existence test,
    // the index of the match, and the matched record.

    pub open spec fn has_player(self, pid: u64) -> bool {
        exists|i: int| 0 <= i < self.players@.len() && (#[trigger] self.players@[i]).identity == pid
    }

    pub open spec fn player_idx(self, pid: u64) -> int {
        choose|i: int| 0 <= i < self.players@.len() && (#[trigger] self.players@[i]).identity == pid
    }

    pub open spec fn player_at(self, pid: u64) -> Player {
        self.players@[self.player_idx(pid)]
    }

    /// The caller has a player record with a display name set.
    pub open spec fn player_named(self, pid: u64) -> bool {
        self.has_player(pid) && self.player_at(pid).name is Some
    }

    pub open spec fn has_room(self, rid: u32) -> bool {
        exists|i: int| 0 <= i < self.rooms@.len() && (#[trigger] self.rooms@[i]).id == rid
    }

    pub open spec fn room_idx(self, rid: u32) -> int {
        choose|i: int| 0 <= i < self.rooms@.len() && (#[trigger] self.rooms@[i]).id == rid
    }

    pub open spec fn room_at(self, rid: u32) -> Room {
        self.rooms@[self.room_idx(rid)]
    }

    /// Whether the player belongs to any room.
    pub open spec fn is_member(self, pid: u64) -> bool {
        exists|i: int|
            0 <= i < self.join_rooms@.len() && (#[trigger] self.join_rooms@[i]).joiner == pid
    }

    pub open spec fn member_idx(self, pid: u64) -> int {
        choose|i: int|
            0 <= i < self.join_rooms@.len() && (#[trigger] self.join_rooms@[i]).joiner == pid
    }

    pub open spec fn member_at(self, pid: u64) -> JoinRoom {
        self.join_rooms@[self.member_idx(pid)]
    }

    /// Whether the player belongs to the given room.
    pub open spec fn member_in_room(self, pid: u64, rid: u32) -> bool {
        exists|i: int|
            0 <= i < self.join_rooms@.len() && (#[trigger] self.join_rooms@[i]).joiner == pid
                && self.join_rooms@[i].room_id == rid
    }

    pub open spec fn has_game(self, rid: u32) -> bool {
        exists|i: int| 0 <= i < self.games@.len() && (#[trigger] self.games@[i]).room_id == rid
    }

    pub open spec fn game_idx(self, rid: u32) -> int {
        choose|i: int| 0 <= i < self.games@.len() && (#[trigger] self.games@[i]).room_id == rid
    }

    pub open spec fn game_at(self, rid: u32) -> Game {
        self.games@[self.game_idx(rid)]
    }

    pub open spec fn has_team(self, tid: u32) -> bool {
        exists|i: int| 0 <= i < self.teams@.len() && (#[trigger] self.teams@[i]).id == tid
    }

    pub open spec fn team_idx(self, tid: u32) -> int {
        choose|i: int| 0 <= i < self.teams@.len() && (#[trigger] self.teams@[i]).id == tid
    }

    pub open spec fn team_at(self, tid: u32) -> Team {
        self.teams@[self.team_idx(tid)]
    }

    /// Whether a team with this id plays in the game of this room.
    pub open spec fn game_has_team(self, tid: u32, gid: u32) -> bool {
        exists|i: int|
            0 <= i < self.teams@.len() && (#[trigger] self.teams@[i]).id == tid
                && self.teams@[i].game_id == gid
    }

    /// The teams of one game, in creation order.
    pub open spec fn teams_of(self, gid: u32) -> Seq<Team> {
        self.teams@.filter(team_of_game(gid))
    }

    /// Whether the player is on any team.
    pub open spec fn on_team(self, pid: u64) -> bool {
        exists|i: int|
            0 <= i < self.join_teams@.len() && (#[trigger] self.join_teams@[i]).joiner == pid
    }

    pub open spec fn jt_idx(self, pid: u64) -> int {
        choose|i: int|
            0 <= i < self.join_teams@.len() && (#[trigger] self.join_teams@[i]).joiner == pid
    }

    pub open spec fn jt_at(self, pid: u64) -> JoinTeam {
        self.join_teams@[self.jt_idx(pid)]
    }

    pub open spec fn has_ct(self, gid: u32) -> bool {
        exists|i: int|
            0 <= i < self.current_teams@.len() && (#[trigger] self.current_teams@[i]).game_id
                == gid
    }

    pub open spec fn ct_idx(self, gid: u32) -> int {
        choose|i: int|
            0 <= i < self.current_teams@.len() && (#[trigger] self.current_teams@[i]).game_id
                == gid
    }

    pub open spec fn ct_at(self, gid: u32) -> GameCurrentTeam {
        self.current_teams@[self.ct_idx(gid)]
    }

    /// Whether the player owns any room.
    pub open spec fn owns_room(self, pid: u64) -> bool {
        exists|i: int| 0 <= i < self.rooms@.len() && (#[trigger] self.rooms@[i]).owner == pid
    }

    pub open spec fn owned_room_idx(self, pid: u64) -> int {
        choose|i: int| 0 <= i < self.rooms@.len() && (#[trigger] self.rooms@[i]).owner == pid
    }

    // The well-formedness invariant, split by table.

    /// Player identities are unique.
    pub open spec fn players_wf(self) -> bool {
        unique_by(self.players@, player_key())
    }

    /// Room ids are unique and below the room counter.
    pub open spec fn rooms_wf(self) -> bool {
        &&& unique_by(self.rooms@, room_key())
        &&& forall|i: int|
            0 <= i < self.rooms@.len() ==> (#[trigger] self.rooms@[i]).id < self.next_room_id
    }

    /// A player belongs to at most one room, and memberships point at
    /// existing rooms.
    pub open spec fn members_wf(self) -> bool {
        &&& unique_by(self.join_rooms@, member_key())
        &&& forall|i: int|
            0 <= i < self.join_rooms@.len() ==> self.has_room(
                (#[trigger] self.join_rooms@[i]).room_id,
            )
    }

    /// Every room's owner is one of its members.  In particular a room
    /// never exists with zero memberships.
    pub open spec fn owners_wf(self) -> bool {
        forall|i: int|
            0 <= i < self.rooms@.len() ==> self.member_in_room(
                (#[trigger] self.rooms@[i]).owner,
                self.rooms@[i].id,
            )
    }

    /// One game per room, in an existing room, with a full-sized grid.
    pub open spec fn games_wf(self) -> bool {
        &&& unique_by(self.games@, game_key())
        &&& forall|i: int|
            0 <= i < self.games@.len() ==> self.has_room((#[trigger] self.games@[i]).room_id)
        &&& forall|i: int|
            0 <= i < self.games@.len() ==> grid_dims((#[trigger] self.games@[i]).table@)
    }

    /// Team ids are unique, below the team counter, and point at existing
    /// games.
    pub open spec fn teams_wf(self) -> bool {
        &&& unique_by(self.teams@, team_key())
        &&& forall|i: int|
            0 <= i < self.teams@.len() ==> (#[trigger] self.teams@[i]).id < self.next_team_id
        &&& forall|i: int|
            0 <= i < self.teams@.len() ==> self.has_game((#[trigger] self.teams@[i]).game_id)
    }

    /// Every game has exactly two teams.
    pub open spec fn game_teams_wf(self) -> bool {
        forall|i: int|
            0 <= i < self.games@.len() ==> self.teams_of(
                (#[trigger] self.games@[i]).room_id,
            ).len() == 2
    }

    /// A player is on at most one team, team memberships point at existing
    /// rooms, and a team member always belongs, as a room member, to the
    /// very room whose game the team plays in.
    pub open spec fn join_teams_wf(self) -> bool {
        &&& unique_by(self.join_teams@, jt_key())
        &&& forall|i: int|
            0 <= i < self.join_teams@.len() ==> self.has_room(
                (#[trigger] self.join_teams@[i]).room_id,
            )
        &&& forall|i: int|
            0 <= i < self.join_teams@.len() ==> self.member_in_room(
                (#[trigger] self.join_teams@[i]).joiner,
                self.join_teams@[i].room_id,
            )
    }

    /// One turn owner per game, pointing at an existing game and at one of
    /// that game's teams.
    pub open spec fn current_teams_wf(self) -> bool {
        &&& unique_by(self.current_teams@, ct_key())
        &&& forall|i: int|
            0 <= i < self.current_teams@.len() ==> self.has_game(
                (#[trigger] self.current_teams@[i]).game_id,
            )
        &&& forall|i: int|
            0 <= i < self.current_teams@.len() ==> self.game_has_team(
                (#[trigger] self.current_teams@[i]).team_id,
                self.current_teams@[i].game_id,
            )
    }

    /// Messages point at existing rooms.
    pub open spec fn messages_wf(self) -> bool {
        forall|i: int|
            0 <= i < self.messages@.len() ==> self.has_room(
                (#[trigger] self.messages@[i]).room_id,
            )
    }

    /// The invariant with the owner-is-member clause waived for one room:
    /// the state a departing owner leaves behind just before ownership is
    /// reassigned or the room is torn down.
    pub open spec fn wf_except_owner(self, rid: u32) -> bool {
        &&& self.players_wf()
        &&& self.rooms_wf()
        &&& self.members_wf()
        &&& forall|i: int|
            0 <= i < self.rooms@.len() && (#[trigger] self.rooms@[i]).id != rid
                ==> self.member_in_room(self.rooms@[i].owner, self.rooms@[i].id)
        &&& self.games_wf()
        &&& self.teams_wf()
        &&& self.game_teams_wf()
        &&& self.join_teams_wf()
        &&& self.current_teams_wf()
        &&& self.messages_wf()
    }

    /// The whole store is well formed.
    pub open spec fn wf(self) -> bool {
        &&& self.players_wf()
        &&& self.rooms_wf()
        &&& self.members_wf()
        &&& self.owners_wf()
        &&& self.games_wf()
        &&& self.teams_wf()
        &&& self.game_teams_wf()
        &&& self.join_teams_wf()
        &&& self.current_teams_wf()
        &&& self.messages_wf()
    }

    /// What cascading deletion of the room `rid` leaves behind: the room is
    /// gone together with its memberships, its game, that game's teams and
    /// turn owner, its team memberships, and its chat history; everything
    /// else, players included, stays as it was.  (A game and its teams are
    /// keyed by the room id, so the one filter id serves for all of them.)
    pub open spec fn deleted_room(self, post: ServerState, rid: u32) -> bool {
        &&& post.players@ == self.players@
        &&& post.rooms@ == self.rooms@.filter(room_not_id(rid))
        &&& post.join_rooms@ == self.join_rooms@.filter(jr_not_room(rid))
        &&& post.join_teams@ == self.join_teams@.filter(jt_not_room(rid))
        &&& post.games@ == self.games@.filter(game_not_room(rid))
        &&& post.teams@ == self.teams@.filter(team_not_game(rid))
        &&& post.current_teams@ == self.current_teams@.filter(ct_not_game(rid))
        &&& post.messages@ == self.messages@.filter(msg_not_room(rid))
        &&& post.next_room_id == self.next_room_id
        &&& post.next_team_id == self.next_team_id
    }

    /// What leaving one's team leaves behind: the caller's team membership
    /// is gone (a no-op if there was none), and if that leaves the game of
    /// the caller's membership with no members on any team, the game is
    /// deleted with its teams and turn owner.  Rooms, room memberships,
    /// messages and players stay as they were.
    pub open spec fn left_team(self, post: ServerState, caller: u64) -> bool {
        let rid = self.jt_at(caller).room_id;
        let jts2 = self.join_teams@.filter(jt_not_joiner(caller));
        let emptied = self.on_team(caller) && (forall|k: int|
            0 <= k < jts2.len() ==> (#[trigger] jts2[k]).room_id != rid);
        &&& post.players@ == self.players@
        &&& post.rooms@ == self.rooms@
        &&& post.join_rooms@ == self.join_rooms@
        &&& post.messages@ == self.messages@
        &&& post.next_room_id == self.next_room_id
        &&& post.next_team_id == self.next_team_id
        &&& post.join_teams@ == jts2
        &&& if emptied {
            &&& post.games@ == self.games@.filter(game_not_room(rid))
            &&& post.teams@ == self.teams@.filter(team_not_game(rid))
            &&& post.current_teams@ == self.current_teams@.filter(ct_not_game(rid))
        } else {
            &&& post.games@ == self.games@
            &&& post.teams@ == self.teams@
            &&& post.current_teams@ == self.current_teams@
        }
    }

    /// What leaving a room leaves behind.  The caller's room and team
    /// memberships are gone, with the team-leaving cascade of
    /// [`Self::left_team`].  If the caller owned a room: with members
    /// remaining, ownership passes to the earliest remaining member (a
    /// deterministic choice for a given membership table); with none, the
    /// room is deleted with everything it owns.  For a caller who is not a
    /// member, nothing changes.
    pub open spec fn left_room(self, post: ServerState, caller: u64) -> bool {
        let jr2 = self.join_rooms@.filter(jr_not_joiner(caller));
        let rid_t = self.jt_at(caller).room_id;
        let jts2 = self.join_teams@.filter(jt_not_joiner(caller));
        let emptied = self.on_team(caller) && (forall|k: int|
            0 <= k < jts2.len() ==> (#[trigger] jts2[k]).room_id != rid_t);
        let games2 = if emptied {
            self.games@.filter(game_not_room(rid_t))
        } else {
            self.games@
        };
        let teams2 = if emptied {
            self.teams@.filter(team_not_game(rid_t))
        } else {
            self.teams@
        };
        let cts2 = if emptied {
            self.current_teams@.filter(ct_not_game(rid_t))
        } else {
            self.current_teams@
        };
        &&& post.players@ == self.players@
        &&& post.next_room_id == self.next_room_id
        &&& post.next_team_id == self.next_team_id
        &&& if !self.owns_room(caller) {
            &&& post.rooms@ == self.rooms@
            &&& post.join_rooms@ == jr2
            &&& post.join_teams@ == jts2
            &&& post.games@ == games2
            &&& post.teams@ == teams2
            &&& post.current_teams@ == cts2
            &&& post.messages@ == self.messages@
        } else {
            let oi = self.owned_room_idx(caller);
            let room = self.rooms@[oi];
            if exists|k: int| 0 <= k < jr2.len() && (#[trigger] jr2[k]).room_id == room.id {
                &&& (exists|k: int|
                    0 <= k < jr2.len() && (#[trigger] jr2[k]).room_id == room.id && (forall|j: int|
                        0 <= j < k ==> jr2[j].room_id != room.id) && post.rooms@
                        == self.rooms@.update(
                        oi,
                        (Room {
                            id: room.id,
                            title: room.title,
                            owner: jr2[k].joiner,
                            created_at: room.created_at,
                        }),
                    ))
                &&& post.join_rooms@ == jr2
                &&& post.join_teams@ == jts2
                &&& post.games@ == games2
                &&& post.teams@ == teams2
                &&& post.current_teams@ == cts2
                &&& post.messages@ == self.messages@
            } else {
                &&& post.rooms@ == self.rooms@.filter(room_not_id(room.id))
                &&& post.join_rooms@ == jr2.filter(jr_not_room(room.id))
                &&& post.join_teams@ == jts2.filter(jt_not_room(room.id))
                &&& post.games@ == games2.filter(game_not_room(room.id))
                &&& post.teams@ == teams2.filter(team_not_game(room.id))
                &&& post.current_teams@ == cts2.filter(ct_not_game(room.id))
                &&& post.messages@ == self.messages@.filter(msg_not_room(room.id))
            }
        }
    }

    /// Why a piece drop is refused, or nothing if it goes through: the
    /// checks in their fixed precedence order.  No failing drop mutates
    /// anything.
    pub open spec fn drop_piece_err(self, caller: u64, column: u32) -> Option<GameError> {
        if !self.on_team(caller) {
            Some(GameError::NotInTeam)
        } else {
            let rid = self.jt_at(caller).room_id;
            if !self.has_game(rid) {
                Some(GameError::GameNotFound)
            } else if column >= COLS {
                Some(GameError::ColumnOutOfBounds)
            } else if self.game_at(rid).winner is Some {
                Some(GameError::GameAlreadyWon)
            } else if !self.has_ct(rid) {
                Some(GameError::NoCurrentTeam)
            } else if self.jt_at(caller).team_id != self.ct_at(rid).team_id {
                Some(GameError::NotYourTurn)
            } else if self.game_at(rid).table@[0]@[column as int] is Some {
                Some(GameError::ColumnFull)
            } else {
                None
            }
        }
    }

    /// What a successful drop does: the piece lands in the lowest empty row
    /// of the column and becomes the latest move.  If that completes a
    /// streak, the caller's team is recorded as winner with the scan's
    /// coordinates and the turn owner stays put; otherwise the turn passes
    /// to the game's other team.  Nothing else changes.
    pub open spec fn dropped_piece(self, post: ServerState, caller: u64, column: u32) -> bool {
        let rid = self.jt_at(caller).room_id;
        let gi = self.game_idx(rid);
        let g = self.games@[gi];
        let rr = drop_row(g.table@, column as int);
        let g2 = post.games@[gi];
        &&& post.players@ == self.players@
        &&& post.rooms@ == self.rooms@
        &&& post.join_rooms@ == self.join_rooms@
        &&& post.teams@ == self.teams@
        &&& post.join_teams@ == self.join_teams@
        &&& post.messages@ == self.messages@
        &&& post.next_room_id == self.next_room_id
        &&& post.next_team_id == self.next_team_id
        &&& post.games@.len() == self.games@.len()
        &&& forall|k: int|
            0 <= k < self.games@.len() && k != gi ==> post.games@[k] == self.games@[k]
        &&& g2.room_id == rid
        &&& g2.table@.len() == g.table@.len()
        &&& g2.table@[rr]@ == g.table@[rr]@.update(column as int, Some(caller))
        &&& forall|k: int| 0 <= k < g.table@.len() && k != rr ==> g2.table@[k] == g.table@[k]
        &&& g2.latest_move == Some(Coord { x: rr as u32, y: column })
        &&& if has_win(g2.table@, caller) {
            &&& g2.winner matches Some(w) && w.team_id == self.jt_at(caller).team_id && detect_ok(
                g2.table@,
                caller,
                Some(w.coordinates@),
            )
            &&& post.current_teams@ == self.current_teams@
        } else {
            &&& g2.winner is None
            &&& exists|other: u32|
                #[trigger] self.game_has_team(other, rid) && other != self.ct_at(rid).team_id
                    && post.current_teams@ == self.current_teams@.update(
                    self.ct_idx(rid),
                    (GameCurrentTeam { game_id: rid, team_id: other }),
                )
        }
    }

    /// What a restart does: the game of the room is replaced by a fresh
    /// one — empty grid, no winner, no latest move — and the turn owner is
    /// re-assigned by the injected choice: the game's lowest team id when
    /// `pick_first`, its highest otherwise.
    pub open spec fn restarted(self, post: ServerState, rid: u32, pick_first: bool) -> bool {
        let gi = self.game_idx(rid);
        &&& post.players@ == self.players@
        &&& post.rooms@ == self.rooms@
        &&& post.join_rooms@ == self.join_rooms@
        &&& post.teams@ == self.teams@
        &&& post.join_teams@ == self.join_teams@
        &&& post.messages@ == self.messages@
        &&& post.next_room_id == self.next_room_id
        &&& post.next_team_id == self.next_team_id
        &&& post.games@.len() == self.games@.len()
        &&& forall|k: int|
            0 <= k < self.games@.len() && k != gi ==> post.games@[k] == self.games@[k]
        &&& post.games@[gi].room_id == rid
        &&& post.games@[gi].winner is None
        &&& post.games@[gi].latest_move is None
        &&& grid_blank(post.games@[gi].table@)
        &&& exists|chosen: u32|
            {
                &&& #[trigger] self.game_has_team(chosen, rid)
                &&& forall|t: u32|
                    #[trigger] self.game_has_team(t, rid) ==> (if pick_first {
                        chosen <= t
                    } else {
                        t <= chosen
                    })
                &&& post.current_teams@ == (if self.has_ct(rid) {
                    self.current_teams@.update(
                        self.ct_idx(rid),
                        (GameCurrentTeam { game_id: rid, team_id: chosen }),
                    )
                } else {
                    self.current_teams@.push(
                        (GameCurrentTeam { game_id: rid, team_id: chosen }),
                    )
                })
            }
    }

    /// What the presence sweep leaves behind: a room is deleted exactly
    /// when every one of its members has a player record marked offline,
    /// with everything the deleted rooms owned gone, and players
    /// untouched.  A member whose player record is missing is not provably
    /// offline, so such a room is kept.
    pub open spec fn swept(self, post: ServerState) -> bool {
        let p = self.players@;
        let j = self.join_rooms@;
        &&& post.players@ == p
        &&& post.next_room_id == self.next_room_id
        &&& post.next_team_id == self.next_team_id
        &&& post.rooms@ == self.rooms@.filter(room_kept(p, j))
        &&& post.join_rooms@ == j.filter(jr_kept(p, j))
        &&& post.join_teams@ == self.join_teams@.filter(jt_kept(p, j))
        &&& post.games@ == self.games@.filter(game_kept(p, j))
        &&& post.teams@ == self.teams@.filter(team_kept(p, j))
        &&& post.current_teams@ == self.current_teams@.filter(ct_kept(p, j))
        &&& post.messages@ == self.messages@.filter(msg_kept(p, j))
    }

    /// A fresh server with no entities at all.
    pub fn new() -> (s: ServerState)
        ensures
            s.wf(),
            s.players@ =~= Seq::<Player>::empty(),
            s.rooms@ =~= Seq::<Room>::empty(),
            s.join_rooms@ =~= Seq::<JoinRoom>::empty(),
            s.games@ =~= Seq::<Game>::empty(),
            s.teams@ =~= Seq::<Team>::empty(),
            s.join_teams@ =~= Seq::<JoinTeam>::empty(),
            s.current_teams@ =~= Seq::<GameCurrentTeam>::empty(),
            s.messages@ =~= Seq::<Message>::empty(),
            s.next_room_id == 1,
            s.next_team_id == 1,
    {
        ServerState {
            players: Vec::new(),
            rooms: Vec::new(),
            join_rooms: Vec::new(),
            games: Vec::new(),
            teams: Vec::new(),
            join_teams: Vec::new(),
            current_teams: Vec::new(),
            messages: Vec::new(),
            next_room_id: 1,
            next_team_id: 1,
        }
    }

    // Bridges between executable lookups and the spec-level ones: with a
    // unique key, the index a scan found is the index `choose` denotes.

    pub proof fn lemma_player_idx_is(self, pid: u64, i: int)
        requires
            self.players_wf(),
            0 <= i < self.players@.len(),
            self.players@[i].identity == pid,
        ensures
            self.has_player(pid),
            self.player_idx(pid) == i,
            self.player_at(pid) == self.players@[i],
    {
        let j = self.player_idx(pid);
        assert(0 <= j < self.players@.len() && self.players@[j].identity == pid);
        if i != j {
            assert(player_key()(self.players@[i]) == player_key()(self.players@[j]));
            assert(false);
        }
    }

    pub proof fn lemma_room_idx_is(self, rid: u32, i: int)
        requires
            self.rooms_wf(),
            0 <= i < self.rooms@.len(),
            self.rooms@[i].id == rid,
        ensures
            self.has_room(rid),
            self.room_idx(rid) == i,
            self.room_at(rid) == self.rooms@[i],
    {
        let j = self.room_idx(rid);
        assert(0 <= j < self.rooms@.len() && self.rooms@[j].id == rid);
        if i != j {
            assert(room_key()(self.rooms@[i]) == room_key()(self.rooms@[j]));
            assert(false);
        }
    }

    pub proof fn lemma_member_idx_is(self, pid: u64, i: int)
        requires
            self.members_wf(),
            0 <= i < self.join_rooms@.len(),
            self.join_rooms@[i].joiner == pid,
        ensures
            self.is_member(pid),
            self.member_idx(pid) == i,
            self.member_at(pid) == self.join_rooms@[i],
    {
        let j = self.member_idx(pid);
        assert(0 <= j < self.join_rooms@.len() && self.join_rooms@[j].joiner == pid);
        if i != j {
            assert(member_key()(self.join_rooms@[i]) == member_key()(self.join_rooms@[j]));
            assert(false);
        }
    }

    pub proof fn lemma_game_idx_is(self, rid: u32, i: int)
        requires
            self.games_wf(),
            0 <= i < self.games@.len(),
            self.games@[i].room_id == rid,
        ensures
            self.has_game(rid),
            self.game_idx(rid) == i,
            self.game_at(rid) == self.games@[i],
    {
        let j = self.game_idx(rid);
        assert(0 <= j < self.games@.len() && self.games@[j].room_id == rid);
        if i != j {
            assert(game_key()(self.games@[i]) == game_key()(self.games@[j]));
            assert(false);
        }
    }

    pub proof fn lemma_team_idx_is(self, tid: u32, i: int)
        requires
            self.teams_wf(),
            0 <= i < self.teams@.len(),
            self.teams@[i].id == tid,
        ensures
            self.has_team(tid),
            self.team_idx(tid) == i,
            self.team_at(tid) == self.teams@[i],
    {
        let j = self.team_idx(tid);
        assert(0 <= j < self.teams@.len() && self.teams@[j].id == tid);
        if i != j {
            assert(team_key()(self.teams@[i]) == team_key()(self.teams@[j]));
            assert(false);
        }
    }

    pub proof fn lemma_jt_idx_is(self, pid: u64, i: int)
        requires
            self.join_teams_wf(),
            0 <= i < self.join_teams@.len(),
            self.join_teams@[i].joiner == pid,
        ensures
            self.on_team(pid),
            self.jt_idx(pid) == i,
            self.jt_at(pid) == self.join_teams@[i],
    {
        let j = self.jt_idx(pid);
        assert(0 <= j < self.join_teams@.len() && self.join_teams@[j].joiner == pid);
        if i != j {
            assert(jt_key()(self.join_teams@[i]) == jt_key()(self.join_teams@[j]));
            assert(false);
        }
    }

    /// A player owns at most one room: ownership implies membership, and a
    /// player belongs to at most one room.
    pub proof fn lemma_owner_idx_is(self, pid: u64, i: int)
        requires
            self.rooms_wf(),
            self.members_wf(),
            self.owners_wf(),
            0 <= i < self.rooms@.len(),
            self.rooms@[i].owner == pid,
        ensures
            self.owns_room(pid),
            self.owned_room_idx(pid) == i,
    {
        let j = self.owned_room_idx(pid);
        assert(0 <= j < self.rooms@.len() && self.rooms@[j].owner == pid);
        if i != j {
            assert(self.member_in_room(pid, self.rooms@[i].id));
            assert(self.member_in_room(pid, self.rooms@[j].id));
            let k1 = choose|k: int|
                0 <= k < self.join_rooms@.len() && (#[trigger] self.join_rooms@[k]).joiner == pid
                    && self.join_rooms@[k].room_id == self.rooms@[i].id;
            let k2 = choose|k: int|
                0 <= k < self.join_rooms@.len() && (#[trigger] self.join_rooms@[k]).joiner == pid
                    && self.join_rooms@[k].room_id == self.rooms@[j].id;
            if k1 != k2 {
                assert(member_key()(self.join_rooms@[k1]) == member_key()(self.join_rooms@[k2]));
                assert(false);
            }
            assert(room_key()(self.rooms@[i]) == room_key()(self.rooms@[j]));
            assert(false);
        }
    }

    pub proof fn lemma_ct_idx_is(self, gid: u32, i: int)
        requires
            self.current_teams_wf(),
            0 <= i < self.current_teams@.len(),
            self.current_teams@[i].game_id == gid,
        ensures
            self.has_ct(gid),
            self.ct_idx(gid) == i,
            self.ct_at(gid) == self.current_teams@[i],
    {
        let j = self.ct_idx(gid);
        assert(0 <= j < self.current_teams@.len() && self.current_teams@[j].game_id == gid);
        if i != j {
            assert(ct_key()(self.current_teams@[i]) == ct_key()(self.current_teams@[j]));
            assert(false);
        }
    }
}

} // verus!
