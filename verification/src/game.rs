//! The game state machine: game creation, team membership, turn-by-turn
//! piece drops with win detection, and the two restart entry points.

use vstd::prelude::*;

use crate::grid::detect_win;
use crate::grid::grid_blank;
use crate::grid::grid_dims;
use crate::grid::grid_full;
use crate::grid::grid_is_full;
use crate::grid::grid_rect;
use crate::grid::lemma_drop_row_is;
use crate::grid::lowest_empty_row;
use crate::grid::new_grid;
use crate::grid::set_cell;
use crate::records::Coord;
use crate::records::Game;
use crate::records::Winner;
use crate::records::GameCurrentTeam;
use crate::records::GameError;
use crate::records::JoinTeam;
use crate::records::Team;
use crate::seqtools::lemma_filter_all;
use crate::seqtools::lemma_filter_empty;
use crate::seqtools::lemma_filter_narrow;
use crate::seqtools::lemma_filter_push;
use crate::seqtools::lemma_filter_subset;
use crate::seqtools::lemma_filter_unique;
use crate::seqtools::lemma_unique_push;
use crate::seqtools::lemma_unique_update;
use crate::state::ServerState;
use crate::tables::any_join_team_in_room;
use crate::tables::ct_key;
use crate::tables::ct_not_game;
use crate::tables::delete_current_team_by_game;
use crate::tables::delete_game_by_room;
use crate::tables::delete_join_team_by_joiner;
use crate::tables::delete_teams_by_game;
use crate::tables::find_current_team;
use crate::tables::find_game;
use crate::tables::find_join_room;
use crate::tables::find_join_team;
use crate::tables::find_other_team;
use crate::tables::find_team;
use crate::tables::find_team_id_range;
use crate::tables::game_key;
use crate::tables::game_not_room;
use crate::tables::jt_key;
use crate::tables::jt_not_joiner;
use crate::tables::team_key;
use crate::tables::team_not_game;
use crate::tables::team_of_game;

verus! {

impl Game {
    /// A fresh game for a room: an empty grid, no winner, no latest move.
    pub fn new(room_id: u32) -> (g: Game)
        ensures
            g.room_id == room_id,
            g.winner is None,
            g.latest_move is None,
            grid_blank(g.table@),
    {
        Game { room_id, winner: None, table: new_grid(), latest_move: None }
    }

    /// Whether every cell of the game's grid is occupied.
    pub fn is_table_full(&self) -> (b: bool)
        ensures
            b == grid_full(self.table@),
    {
        grid_is_full(&self.table)
    }
}

impl ServerState {
    /// Remove the caller's team membership, if any; if no member remains on
    /// any team of that game, delete the game with its teams and turn
    /// owner.  While members remain, the turn owner stays where it is —
    /// even on a team the departure left empty — until play resumes.
    pub fn leave_team(&mut self, caller: u64)
        requires
            old(self).wf(),
        ensures
            final(self).wf(),
            old(self).left_team(*final(self), caller),
    {
        let jt_i = match find_join_team(&self.join_teams, caller) {
            Some(i) => i,
            None => {
                proof {
                    lemma_filter_all(self.join_teams@, jt_not_joiner(caller));
                }
                return ;
            }
        };
        proof {
            old(self).lemma_jt_idx_is(caller, jt_i as int);
        }
        let rid = self.join_teams[jt_i].room_id;
        delete_join_team_by_joiner(&mut self.join_teams, caller);
        proof {
            lemma_filter_unique(old(self).join_teams@, jt_not_joiner(caller), jt_key());
            lemma_filter_subset(old(self).join_teams@, jt_not_joiner(caller));
            assert(self.join_teams_wf()) by {
                assert forall|i: int| 0 <= i < self.join_teams@.len() implies self.has_room(
                    (#[trigger] self.join_teams@[i]).room_id,
                ) by {
                    let k = choose|k: int|
                        0 <= k < old(self).join_teams@.len() && old(self).join_teams@[k]
                            == self.join_teams@[i];
                    assert(old(self).has_room(old(self).join_teams@[k].room_id));
                    let rk = old(self).room_idx(old(self).join_teams@[k].room_id);
                    assert(self.rooms@[rk] == old(self).rooms@[rk]);
                }
            }
        }
        if !any_join_team_in_room(&self.join_teams, rid) {
            delete_game_by_room(&mut self.games, rid);
            delete_teams_by_game(&mut self.teams, rid);
            delete_current_team_by_game(&mut self.current_teams, rid);
            proof {
                lemma_filter_unique(old(self).games@, game_not_room(rid), game_key());
                lemma_filter_unique(old(self).teams@, team_not_game(rid), team_key());
                lemma_filter_unique(old(self).current_teams@, ct_not_game(rid), ct_key());
                lemma_filter_subset(old(self).games@, game_not_room(rid));
                lemma_filter_subset(old(self).teams@, team_not_game(rid));
                lemma_filter_subset(old(self).current_teams@, ct_not_game(rid));
                assert forall|x: u32| #[trigger] old(self).has_game(x) && x != rid implies
                    self.has_game(x) by {
                    let k = old(self).game_idx(x);
                    old(self).games@.lemma_filter_contains(game_not_room(rid), k);
                    let e = old(self).games@[k];
                    let j = choose|j: int| 0 <= j < self.games@.len() && self.games@[j] == e;
                    assert(self.games@[j].room_id == x);
                }
                assert forall|tid: u32, gid: u32| #[trigger] old(self).game_has_team(tid, gid)
                    && gid != rid implies self.game_has_team(tid, gid) by {
                    let k = choose|k: int|
                        0 <= k < old(self).teams@.len() && (#[trigger] old(self).teams@[k]).id
                            == tid && old(self).teams@[k].game_id == gid;
                    old(self).teams@.lemma_filter_contains(team_not_game(rid), k);
                    let e = old(self).teams@[k];
                    let j = choose|j: int| 0 <= j < self.teams@.len() && self.teams@[j] == e;
                    assert(self.teams@[j].id == tid);
                }
                assert(self.games_wf()) by {
                    assert forall|i: int| 0 <= i < self.games@.len() implies self.has_room(
                        (#[trigger] self.games@[i]).room_id,
                    ) && crate::grid::grid_dims(self.games@[i].table@) by {
                        let k = choose|k: int|
                            0 <= k < old(self).games@.len() && old(self).games@[k]
                                == self.games@[i];
                        assert(old(self).has_room(old(self).games@[k].room_id));
                        let rk = old(self).room_idx(old(self).games@[k].room_id);
                        assert(self.rooms@[rk] == old(self).rooms@[rk]);
                        assert(crate::grid::grid_dims(old(self).games@[k].table@));
                    }
                }
                assert(self.teams_wf()) by {
                    assert forall|i: int| 0 <= i < self.teams@.len() implies (
                    #[trigger] self.teams@[i]).id < self.next_team_id && self.has_game(
                        self.teams@[i].game_id,
                    ) by {
                        old(self).teams@.lemma_filter_pred(team_not_game(rid), i);
                        let k = choose|k: int|
                            0 <= k < old(self).teams@.len() && old(self).teams@[k]
                                == self.teams@[i];
                        assert(old(self).has_game(old(self).teams@[k].game_id));
                    }
                }
                assert(self.game_teams_wf()) by {
                    assert forall|i: int| 0 <= i < self.games@.len() implies self.teams_of(
                        (#[trigger] self.games@[i]).room_id,
                    ).len() == 2 by {
                        old(self).games@.lemma_filter_pred(game_not_room(rid), i);
                        let k = choose|k: int|
                            0 <= k < old(self).games@.len() && old(self).games@[k]
                                == self.games@[i];
                        let gid = self.games@[i].room_id;
                        assert(old(self).teams_of(gid).len() == 2);
                        lemma_filter_narrow(
                            old(self).teams@,
                            team_not_game(rid),
                            team_of_game(gid),
                        );
                    }
                }
                assert(self.current_teams_wf()) by {
                    assert forall|i: int| 0 <= i < self.current_teams@.len() implies
                        self.has_game((#[trigger] self.current_teams@[i]).game_id)
                        && self.game_has_team(
                        self.current_teams@[i].team_id,
                        self.current_teams@[i].game_id,
                    ) by {
                        old(self).current_teams@.lemma_filter_pred(ct_not_game(rid), i);
                        let k = choose|k: int|
                            0 <= k < old(self).current_teams@.len() && old(self).current_teams@[k]
                                == self.current_teams@[i];
                        assert(old(self).has_game(old(self).current_teams@[k].game_id));
                        assert(old(self).game_has_team(
                            old(self).current_teams@[k].team_id,
                            old(self).current_teams@[k].game_id,
                        ));
                    }
                }
                assert(self.wf()) by {
                    assert(self.players_wf());
                    assert(self.rooms_wf());
                    assert(self.members_wf());
                    assert(self.owners_wf());
                    assert(self.messages_wf());
                }
            }
        } else {
            proof {
                assert(self.wf()) by {
                    assert(self.players_wf());
                    assert(self.rooms_wf());
                    assert(self.members_wf());
                    assert(self.owners_wf());
                    assert(self.games_wf());
                    assert(self.teams_wf());
                    assert(self.game_teams_wf());
                    assert(self.current_teams_wf());
                    assert(self.messages_wf());
                }
            }
        }
    }

    /// Join a team of the caller's room's game.  Fails if the caller is in
    /// no room, the team does not exist, or the caller is already on that
    /// very team; a caller on the game's other team is moved instead.
    pub fn join_to_team(&mut self, caller: u64, team_id: u32) -> (r: Result<(), GameError>)
        requires
            old(self).wf(),
        ensures
            final(self).wf(),
            r is Err ==> *final(self) == *old(self),
            r == Err::<(), GameError>(GameError::NotInRoom) <==> !old(self).is_member(caller),
            r == Err::<(), GameError>(GameError::TeamNotFound) <==> old(self).is_member(caller)
                && !old(self).has_team(team_id),
            r == Err::<(), GameError>(GameError::AlreadyOnTeam) <==> old(self).is_member(caller)
                && old(self).has_team(team_id) && old(self).on_team(caller) && old(self).jt_at(
                caller,
            ).team_id == team_id,
            r is Ok <==> old(self).is_member(caller) && old(self).has_team(team_id) && !(old(
                self,
            ).on_team(caller) && old(self).jt_at(caller).team_id == team_id),
            r is Ok && old(self).on_team(caller) ==> final(self).join_teams@ == old(
                self,
            ).join_teams@.update(
                old(self).jt_idx(caller),
                (JoinTeam {
                    room_id: old(self).jt_at(caller).room_id,
                    joiner: caller,
                    team_id: team_id,
                }),
            ),
            r is Ok && !old(self).on_team(caller) ==> final(self).join_teams@ == old(
                self,
            ).join_teams@.push(
                (JoinTeam {
                    room_id: old(self).member_at(caller).room_id,
                    joiner: caller,
                    team_id: team_id,
                }),
            ),
            final(self).players@ == old(self).players@,
            final(self).rooms@ == old(self).rooms@,
            final(self).join_rooms@ == old(self).join_rooms@,
            final(self).games@ == old(self).games@,
            final(self).teams@ == old(self).teams@,
            final(self).current_teams@ == old(self).current_teams@,
            final(self).messages@ == old(self).messages@,
            final(self).next_room_id == old(self).next_room_id,
            final(self).next_team_id == old(self).next_team_id,
    {
        let mi = match find_join_room(&self.join_rooms, caller) {
            Some(i) => i,
            None => {
                return Err(GameError::NotInRoom);
            }
        };
        proof {
            old(self).lemma_member_idx_is(caller, mi as int);
        }
        match find_team(&self.teams, team_id) {
            Some(ti) => {
                proof {
                    old(self).lemma_team_idx_is(team_id, ti as int);
                }
            }
            None => {
                return Err(GameError::TeamNotFound);
            }
        }
        match find_join_team(&self.join_teams, caller) {
            Some(ji) => {
                proof {
                    old(self).lemma_jt_idx_is(caller, ji as int);
                }
                if self.join_teams[ji].team_id == team_id {
                    return Err(GameError::AlreadyOnTeam);
                }
                let jt = self.join_teams.remove(ji);
                let room_id = jt.room_id;
                self.join_teams.insert(ji, JoinTeam { room_id, joiner: caller, team_id });
                proof {
                    assert(self.join_teams@ =~= old(self).join_teams@.update(
                        ji as int,
                        self.join_teams@[ji as int],
                    ));
                    lemma_unique_update(
                        old(self).join_teams@,
                        ji as int,
                        self.join_teams@[ji as int],
                        jt_key(),
                    );
                    assert(self.join_teams_wf()) by {
                        assert forall|i: int| 0 <= i < self.join_teams@.len() implies
                            self.has_room((#[trigger] self.join_teams@[i]).room_id)
                            && self.member_in_room(
                            self.join_teams@[i].joiner,
                            self.join_teams@[i].room_id,
                        ) by {
                            assert(self.join_teams@[i].room_id == old(
                                self,
                            ).join_teams@[i].room_id);
                            assert(self.join_teams@[i].joiner == old(self).join_teams@[i].joiner);
                            assert(old(self).has_room(old(self).join_teams@[i].room_id));
                            let rk = old(self).room_idx(old(self).join_teams@[i].room_id);
                            assert(self.rooms@[rk] == old(self).rooms@[rk]);
                            assert(old(self).member_in_room(
                                old(self).join_teams@[i].joiner,
                                old(self).join_teams@[i].room_id,
                            ));
                            let mk = choose|k: int|
                                0 <= k < old(self).join_rooms@.len() && (#[trigger] old(
                                    self,
                                ).join_rooms@[k]).joiner == old(self).join_teams@[i].joiner && old(
                                    self,
                                ).join_rooms@[k].room_id == old(self).join_teams@[i].room_id;
                            assert(self.join_rooms@[mk] == old(self).join_rooms@[mk]);
                        }
                    }
                    assert(self.wf()) by {
                        assert(self.players_wf());
                        assert(self.rooms_wf());
                        assert(self.members_wf());
                        assert(self.owners_wf());
                        assert(self.games_wf());
                        assert(self.teams_wf());
                        assert(self.game_teams_wf());
                        assert(self.current_teams_wf());
                        assert(self.messages_wf());
                    }
                }
                Ok(())
            }
            None => {
                let room_id = self.join_rooms[mi].room_id;
                self.join_teams.push(JoinTeam { room_id, joiner: caller, team_id });
                proof {
                    lemma_unique_push(old(self).join_teams@, self.join_teams@.last(), jt_key());
                    assert(self.join_teams_wf()) by {
                        assert forall|i: int| 0 <= i < self.join_teams@.len() implies
                            self.has_room((#[trigger] self.join_teams@[i]).room_id)
                            && self.member_in_room(
                            self.join_teams@[i].joiner,
                            self.join_teams@[i].room_id,
                        ) by {
                            if i < old(self).join_teams@.len() {
                                assert(old(self).has_room(old(self).join_teams@[i].room_id));
                                let rk = old(self).room_idx(old(self).join_teams@[i].room_id);
                                assert(self.rooms@[rk] == old(self).rooms@[rk]);
                                assert(old(self).member_in_room(
                                    old(self).join_teams@[i].joiner,
                                    old(self).join_teams@[i].room_id,
                                ));
                                let mk = choose|k: int|
                                    0 <= k < old(self).join_rooms@.len() && (#[trigger] old(
                                        self,
                                    ).join_rooms@[k]).joiner == old(self).join_teams@[i].joiner
                                        && old(self).join_rooms@[k].room_id == old(
                                        self,
                                    ).join_teams@[i].room_id;
                                assert(self.join_rooms@[mk] == old(self).join_rooms@[mk]);
                            } else {
                                assert(old(self).has_room(room_id));
                                let rk = old(self).room_idx(room_id);
                                assert(self.rooms@[rk] == old(self).rooms@[rk]);
                                assert(self.join_rooms@[mi as int] == old(
                                    self,
                                ).join_rooms@[mi as int]);
                            }
                        }
                    }
                    assert(self.wf());
                }
                Ok(())
            }
        }
    }

    /// Create the game of the caller's room: a fresh grid, two teams
    /// carrying the two drawn labels, the caller on the first team, and
    /// the injected coin toss choosing which team starts.  The labels are
    /// drawn without replacement, so they must differ.  Fails if the
    /// caller is in no room or already on a team, or the room already has
    /// a game.
    pub fn create_game(
        &mut self,
        caller: u64,
        name_a: String,
        name_b: String,
        first_team_starts: bool,
    ) -> (r: Result<(), GameError>)
        requires
            old(self).wf(),
            old(self).next_team_id + 2 <= u32::MAX,
            name_a@ != name_b@,
        ensures
            final(self).wf(),
            r is Err ==> *final(self) == *old(self),
            r == Err::<(), GameError>(GameError::NotInRoom) <==> !old(self).is_member(caller),
            r == Err::<(), GameError>(GameError::AlreadyInTeam) <==> old(self).is_member(caller)
                && old(self).on_team(caller),
            r == Err::<(), GameError>(GameError::GameAlreadyExists) <==> old(self).is_member(
                caller,
            ) && !old(self).on_team(caller) && old(self).has_game(
                old(self).member_at(caller).room_id,
            ),
            r is Ok <==> old(self).is_member(caller) && !old(self).on_team(caller) && !old(
                self,
            ).has_game(old(self).member_at(caller).room_id),
            r is Ok ==> ({
                let rid = old(self).member_at(caller).room_id;
                let t1 = old(self).next_team_id;
                &&& final(self).games@ == old(self).games@.push(final(self).games@.last())
                &&& final(self).games@.last().room_id == rid
                &&& final(self).games@.last().winner is None
                &&& final(self).games@.last().latest_move is None
                &&& grid_blank(final(self).games@.last().table@)
                &&& final(self).teams@ == old(self).teams@.push(
                    (Team { id: t1, game_id: rid, name: name_a }),
                ).push((Team { id: (t1 + 1) as u32, game_id: rid, name: name_b }))
                &&& final(self).current_teams@ == old(self).current_teams@.push(
                    (GameCurrentTeam {
                        game_id: rid,
                        team_id: if first_team_starts {
                            t1
                        } else {
                            (t1 + 1) as u32
                        },
                    }),
                )
                &&& final(self).join_teams@ == old(self).join_teams@.push(
                    (JoinTeam { room_id: rid, joiner: caller, team_id: t1 }),
                )
                &&& final(self).next_team_id == t1 + 2
            }),
            final(self).players@ == old(self).players@,
            final(self).rooms@ == old(self).rooms@,
            final(self).join_rooms@ == old(self).join_rooms@,
            final(self).messages@ == old(self).messages@,
            final(self).next_room_id == old(self).next_room_id,
    {
        let mi = match find_join_room(&self.join_rooms, caller) {
            Some(i) => i,
            None => {
                return Err(GameError::NotInRoom);
            }
        };
        proof {
            old(self).lemma_member_idx_is(caller, mi as int);
        }
        match find_join_team(&self.join_teams, caller) {
            Some(ji) => {
                proof {
                    old(self).lemma_jt_idx_is(caller, ji as int);
                }
                return Err(GameError::AlreadyInTeam);
            }
            None => {}
        }
        let rid = self.join_rooms[mi].room_id;
        match find_game(&self.games, rid) {
            Some(gi) => {
                proof {
                    old(self).lemma_game_idx_is(rid, gi as int);
                }
                return Err(GameError::GameAlreadyExists);
            }
            None => {}
        }
        let t1 = self.next_team_id;
        let t2 = t1 + 1;
        self.games.push(Game::new(rid));
        self.teams.push(Team { id: t1, game_id: rid, name: name_a });
        self.teams.push(Team { id: t2, game_id: rid, name: name_b });
        self.next_team_id = t1 + 2;
        let start_team = if first_team_starts {
            t1
        } else {
            t2
        };
        self.current_teams.push(GameCurrentTeam { game_id: rid, team_id: start_team });
        self.join_teams.push(JoinTeam { room_id: rid, joiner: caller, team_id: t1 });
        proof {
            let pre = *old(self);
            // No old game, team or turn owner belongs to this room.
            assert forall|i: int| 0 <= i < pre.games@.len() implies (
            #[trigger] pre.games@[i]).room_id != rid by {}
            assert forall|i: int| 0 <= i < pre.teams@.len() implies (
            #[trigger] pre.teams@[i]).game_id != rid by {
                if pre.teams@[i].game_id == rid {
                    assert(pre.has_game(rid));
                }
            }
            assert forall|i: int| 0 <= i < pre.current_teams@.len() implies (
            #[trigger] pre.current_teams@[i]).game_id != rid by {
                if pre.current_teams@[i].game_id == rid {
                    assert(pre.has_game(rid));
                }
            }
            // Any room that existed still exists.
            assert forall|x: u32| #[trigger] pre.has_room(x) implies self.has_room(x) by {
                let rk = pre.room_idx(x);
                assert(self.rooms@[rk] == pre.rooms@[rk]);
            }
            lemma_unique_push(pre.games@, self.games@.last(), game_key());
            lemma_unique_push(pre.teams@, pre.teams@.push(self.teams@[pre.teams@.len() as int]).last(), team_key());
            assert(self.teams@ =~= pre.teams@.push(self.teams@[pre.teams@.len() as int]).push(
                self.teams@.last(),
            ));
            lemma_unique_push(
                pre.teams@.push(self.teams@[pre.teams@.len() as int]),
                self.teams@.last(),
                team_key(),
            );
            lemma_unique_push(pre.current_teams@, self.current_teams@.last(), ct_key());
            lemma_unique_push(pre.join_teams@, self.join_teams@.last(), jt_key());
            // The new game's team list is exactly the two new teams.
            lemma_filter_empty(pre.teams@, team_of_game(rid));
            lemma_filter_push(pre.teams@, self.teams@[pre.teams@.len() as int], team_of_game(rid));
            lemma_filter_push(
                pre.teams@.push(self.teams@[pre.teams@.len() as int]),
                self.teams@.last(),
                team_of_game(rid),
            );
            assert(self.teams_of(rid).len() == 2);
            // An old game's team list is untouched by the two pushes.
            assert forall|gid: u32| gid != rid implies self.teams_of(gid) == pre.teams_of(
                gid,
            ) by {
                lemma_filter_push(pre.teams@, self.teams@[pre.teams@.len() as int], team_of_game(gid));
                lemma_filter_push(
                    pre.teams@.push(self.teams@[pre.teams@.len() as int]),
                    self.teams@.last(),
                    team_of_game(gid),
                );
            }
            assert forall|tid: u32, gid: u32| #[trigger] pre.game_has_team(tid, gid) implies
                self.game_has_team(tid, gid) by {
                let k = choose|k: int|
                    0 <= k < pre.teams@.len() && (#[trigger] pre.teams@[k]).id == tid
                        && pre.teams@[k].game_id == gid;
                assert(self.teams@[k] == pre.teams@[k]);
            }
            assert forall|x: u32| #[trigger] pre.has_game(x) implies self.has_game(x) by {
                let k = pre.game_idx(x);
                assert(self.games@[k] == pre.games@[k]);
            }
            assert(self.games_wf()) by {
                assert forall|i: int| 0 <= i < self.games@.len() implies self.has_room(
                    (#[trigger] self.games@[i]).room_id,
                ) && crate::grid::grid_dims(self.games@[i].table@) by {
                    if i < pre.games@.len() {
                        assert(self.games@[i] == pre.games@[i]);
                        assert(pre.has_room(pre.games@[i].room_id));
                        assert(crate::grid::grid_dims(pre.games@[i].table@));
                    } else {
                        assert(pre.has_room(rid));
                    }
                }
            }
            assert(self.teams_wf()) by {
                assert forall|i: int| 0 <= i < self.teams@.len() implies (
                #[trigger] self.teams@[i]).id < self.next_team_id && self.has_game(
                    self.teams@[i].game_id,
                ) by {
                    if i < pre.teams@.len() {
                        assert(self.teams@[i] == pre.teams@[i]);
                        assert(pre.has_game(pre.teams@[i].game_id));
                    } else {
                        assert(self.has_game(rid));
                    }
                }
            }
            assert(self.game_teams_wf()) by {
                assert forall|i: int| 0 <= i < self.games@.len() implies self.teams_of(
                    (#[trigger] self.games@[i]).room_id,
                ).len() == 2 by {
                    if i < pre.games@.len() {
                        assert(self.games@[i] == pre.games@[i]);
                        assert(pre.teams_of(pre.games@[i].room_id).len() == 2);
                        assert(self.teams_of(self.games@[i].room_id) == pre.teams_of(
                            pre.games@[i].room_id,
                        ));
                    } else {
                        assert(self.teams_of(rid).len() == 2);
                    }
                }
            }
            assert(self.join_teams_wf()) by {
                assert forall|i: int| 0 <= i < self.join_teams@.len() implies self.has_room(
                    (#[trigger] self.join_teams@[i]).room_id,
                ) && self.member_in_room(
                    self.join_teams@[i].joiner,
                    self.join_teams@[i].room_id,
                ) by {
                    if i < pre.join_teams@.len() {
                        assert(self.join_teams@[i] == pre.join_teams@[i]);
                        assert(pre.has_room(pre.join_teams@[i].room_id));
                        assert(pre.member_in_room(
                            pre.join_teams@[i].joiner,
                            pre.join_teams@[i].room_id,
                        ));
                        let mk = choose|k: int|
                            0 <= k < pre.join_rooms@.len() && (#[trigger] pre.join_rooms@[k]).joiner
                                == pre.join_teams@[i].joiner && pre.join_rooms@[k].room_id
                                == pre.join_teams@[i].room_id;
                        assert(self.join_rooms@[mk] == pre.join_rooms@[mk]);
                    } else {
                        assert(pre.has_room(rid));
                        assert(self.join_rooms@[mi as int] == pre.join_rooms@[mi as int]);
                    }
                }
            }
            assert(self.current_teams_wf()) by {
                assert forall|i: int| 0 <= i < self.current_teams@.len() implies self.has_game(
                    (#[trigger] self.current_teams@[i]).game_id,
                ) && self.game_has_team(
                    self.current_teams@[i].team_id,
                    self.current_teams@[i].game_id,
                ) by {
                    if i < pre.current_teams@.len() {
                        assert(self.current_teams@[i] == pre.current_teams@[i]);
                        assert(pre.has_game(pre.current_teams@[i].game_id));
                        assert(pre.game_has_team(
                            pre.current_teams@[i].team_id,
                            pre.current_teams@[i].game_id,
                        ));
                    } else {
                        assert(self.has_game(rid));
                        assert(self.teams@[pre.teams@.len() as int].id == t1);
                        assert(self.teams@[self.teams@.len() - 1].id == t2);
                    }
                }
            }
            assert(self.wf()) by {
                assert(self.players_wf());
                assert(self.rooms_wf());
                assert(self.members_wf());
                assert(self.owners_wf());
                assert(self.messages_wf());
            }
        }
        Ok(())
    }

    /// Drop a piece into a column of the caller's game, on the caller's
    /// team's turn.  The piece falls to the lowest empty row; a completed
    /// streak records the caller's team as winner and ends the game,
    /// otherwise the turn passes to the other team.  Every failure — and
    /// the exact check order — is fixed by
    /// [`ServerState::drop_piece_err`]; no failing call changes anything.
    pub fn drop_piece(&mut self, caller: u64, column: u32) -> (r: Result<(), GameError>)
        requires
            old(self).wf(),
        ensures
            final(self).wf(),
            r is Err ==> *final(self) == *old(self),
            r is Err <==> old(self).drop_piece_err(caller, column) is Some,
            old(self).drop_piece_err(caller, column) matches Some(e) ==> r == Err::<
                (),
                GameError,
            >(e),
            r is Ok ==> old(self).dropped_piece(*final(self), caller, column),
    {
        let ji = match find_join_team(&self.join_teams, caller) {
            Some(i) => i,
            None => {
                return Err(GameError::NotInTeam);
            }
        };
        proof {
            old(self).lemma_jt_idx_is(caller, ji as int);
        }
        let rid = self.join_teams[ji].room_id;
        let my_team = self.join_teams[ji].team_id;
        let gi = match find_game(&self.games, rid) {
            Some(i) => i,
            None => {
                return Err(GameError::GameNotFound);
            }
        };
        proof {
            old(self).lemma_game_idx_is(rid, gi as int);
            assert(grid_dims(self.games@[gi as int].table@));
        }
        let col = column as usize;
        if col >= self.games[gi].table[0].len() {
            return Err(GameError::ColumnOutOfBounds);
        }
        if self.games[gi].winner.is_some() {
            return Err(GameError::GameAlreadyWon);
        }
        let ci = match find_current_team(&self.current_teams, rid) {
            Some(i) => i,
            None => {
                return Err(GameError::NoCurrentTeam);
            }
        };
        proof {
            old(self).lemma_ct_idx_is(rid, ci as int);
        }
        let cur_team = self.current_teams[ci].team_id;
        if my_team != cur_team {
            return Err(GameError::NotYourTurn);
        }
        if self.games[gi].table[0][col].is_some() {
            return Err(GameError::ColumnFull);
        }
        let ghost pre = *old(self);
        let mut game = self.games.remove(gi);
        proof {
            assert forall|i: int| 0 <= i < game.table@.len() implies (
            #[trigger] game.table@[i])@.len() == game.table@[0]@.len() by {}
        }
        let rr = lowest_empty_row(&game.table, col);
        proof {
            lemma_drop_row_is(game.table@, col as int, rr as int);
        }
        set_cell(&mut game.table, rr, col, caller);
        game.latest_move = Some(Coord { x: rr as u32, y: column });
        proof {
            assert(grid_dims(game.table@)) by {
                assert forall|i: int| 0 <= i < game.table@.len() implies (
                #[trigger] game.table@[i])@.len() == crate::records::COLS by {
                    if i != rr {
                        assert(game.table@[i] == pre.games@[gi as int].table@[i]);
                    }
                }
            }
            assert(grid_rect(game.table@));
        }
        match detect_win(&game.table, caller) {
            Some(coords) => {
                game.winner = Some(Winner { team_id: my_team, coordinates: coords });
                self.games.insert(gi, game);
                proof {
                    assert(self.games@ =~= pre.games@.update(gi as int, self.games@[gi as int]));
                    lemma_unique_update(pre.games@, gi as int, self.games@[gi as int], game_key());
                    assert forall|x: u32| #[trigger] pre.has_game(x) implies self.has_game(x) by {
                        let k = pre.game_idx(x);
                        assert(self.games@[k].room_id == pre.games@[k].room_id);
                    }
                    assert forall|x: u32| #[trigger] pre.has_room(x) implies self.has_room(x) by {
                        let k = pre.room_idx(x);
                        assert(self.rooms@[k] == pre.rooms@[k]);
                    }
                    assert(self.games_wf()) by {
                        assert forall|i: int| 0 <= i < self.games@.len() implies self.has_room(
                            (#[trigger] self.games@[i]).room_id,
                        ) && grid_dims(self.games@[i].table@) by {
                            if i != gi {
                                assert(self.games@[i] == pre.games@[i]);
                            }
                            assert(pre.has_room(pre.games@[i].room_id));
                            assert(grid_dims(pre.games@[i].table@));
                        }
                    }
                    assert(self.teams_wf()) by {
                        assert forall|i: int| 0 <= i < self.teams@.len() implies (
                        #[trigger] self.teams@[i]).id < self.next_team_id && self.has_game(
                            self.teams@[i].game_id,
                        ) by {
                            assert(pre.has_game(pre.teams@[i].game_id));
                        }
                    }
                    assert(self.game_teams_wf()) by {
                        assert forall|i: int| 0 <= i < self.games@.len() implies self.teams_of(
                            (#[trigger] self.games@[i]).room_id,
                        ).len() == 2 by {
                            if i != gi {
                                assert(self.games@[i] == pre.games@[i]);
                            }
                            assert(pre.teams_of(pre.games@[i].room_id).len() == 2);
                        }
                    }
                    assert(self.current_teams_wf()) by {
                        assert forall|i: int| 0 <= i < self.current_teams@.len() implies
                            self.has_game((#[trigger] self.current_teams@[i]).game_id)
                            && self.game_has_team(
                            self.current_teams@[i].team_id,
                            self.current_teams@[i].game_id,
                        ) by {
                            assert(pre.has_game(pre.current_teams@[i].game_id));
                            assert(pre.game_has_team(
                                pre.current_teams@[i].team_id,
                                pre.current_teams@[i].game_id,
                            ));
                        }
                    }
                    assert(self.join_teams_wf()) by {
                        assert forall|i: int| 0 <= i < self.join_teams@.len() implies
                            self.has_room((#[trigger] self.join_teams@[i]).room_id) by {
                            assert(pre.has_room(pre.join_teams@[i].room_id));
                        }
                    }
                    assert(self.members_wf()) by {
                        assert forall|i: int| 0 <= i < self.join_rooms@.len() implies
                            self.has_room((#[trigger] self.join_rooms@[i]).room_id) by {
                            assert(pre.has_room(pre.join_rooms@[i].room_id));
                        }
                    }
                    assert(self.messages_wf()) by {
                        assert forall|i: int| 0 <= i < self.messages@.len() implies self.has_room(
                            (#[trigger] self.messages@[i]).room_id,
                        ) by {
                            assert(pre.has_room(pre.messages@[i].room_id));
                        }
                    }
                    assert(self.wf());
                    assert(pre.dropped_piece(*self, caller, column));
                }
                Ok(())
            }
            None => {
                self.games.insert(gi, game);
                let oi = match find_other_team(&self.teams, rid, cur_team) {
                    Some(i) => i,
                    None => {
                        proof {
                            assert(pre.teams_of(rid).len() == 2);
                            lemma_filter_subset(pre.teams@, team_of_game(rid));
                            lemma_filter_unique(pre.teams@, team_of_game(rid), team_key());
                            pre.teams@.lemma_filter_pred(team_of_game(rid), 0);
                            pre.teams@.lemma_filter_pred(team_of_game(rid), 1);
                            let ta = pre.teams_of(rid)[0];
                            let tb = pre.teams_of(rid)[1];
                            assert(team_key()(ta) != team_key()(tb));
                            let ka = choose|k: int|
                                0 <= k < pre.teams@.len() && pre.teams@[k] == ta;
                            let kb = choose|k: int|
                                0 <= k < pre.teams@.len() && pre.teams@[k] == tb;
                            assert(self.teams@[ka] == ta);
                            assert(self.teams@[kb] == tb);
                            assert(false);
                        }
                        // Unreachable: a well-formed game always has a
                        // second team.
                        return Err(GameError::NotYourTurn);
                    }
                };
                let other_id = self.teams[oi].id;
                let ct = self.current_teams.remove(ci);
                self.current_teams.insert(
                    ci,
                    GameCurrentTeam { game_id: rid, team_id: other_id },
                );
                proof {
                    assert(self.games@ =~= pre.games@.update(gi as int, self.games@[gi as int]));
                    lemma_unique_update(pre.games@, gi as int, self.games@[gi as int], game_key());
                    assert(self.current_teams@ =~= pre.current_teams@.update(
                        ci as int,
                        self.current_teams@[ci as int],
                    ));
                    lemma_unique_update(
                        pre.current_teams@,
                        ci as int,
                        self.current_teams@[ci as int],
                        ct_key(),
                    );
                    assert forall|x: u32| #[trigger] pre.has_game(x) implies self.has_game(x) by {
                        let k = pre.game_idx(x);
                        assert(self.games@[k].room_id == pre.games@[k].room_id);
                    }
                    assert forall|x: u32| #[trigger] pre.has_room(x) implies self.has_room(x) by {
                        let k = pre.room_idx(x);
                        assert(self.rooms@[k] == pre.rooms@[k]);
                    }
                    assert forall|tid: u32, gid: u32| #[trigger] pre.game_has_team(tid, gid)
                        implies self.game_has_team(tid, gid) by {
                        let k = choose|k: int|
                            0 <= k < pre.teams@.len() && (#[trigger] pre.teams@[k]).id == tid
                                && pre.teams@[k].game_id == gid;
                        assert(self.teams@[k] == pre.teams@[k]);
                    }
                    assert(self.games_wf()) by {
                        assert forall|i: int| 0 <= i < self.games@.len() implies self.has_room(
                            (#[trigger] self.games@[i]).room_id,
                        ) && grid_dims(self.games@[i].table@) by {
                            if i != gi {
                                assert(self.games@[i] == pre.games@[i]);
                            }
                            assert(pre.has_room(pre.games@[i].room_id));
                            assert(grid_dims(pre.games@[i].table@));
                        }
                    }
                    assert(self.teams_wf()) by {
                        assert forall|i: int| 0 <= i < self.teams@.len() implies (
                        #[trigger] self.teams@[i]).id < self.next_team_id && self.has_game(
                            self.teams@[i].game_id,
                        ) by {
                            assert(pre.has_game(pre.teams@[i].game_id));
                        }
                    }
                    assert(self.game_teams_wf()) by {
                        assert forall|i: int| 0 <= i < self.games@.len() implies self.teams_of(
                            (#[trigger] self.games@[i]).room_id,
                        ).len() == 2 by {
                            if i != gi {
                                assert(self.games@[i] == pre.games@[i]);
                            }
                            assert(pre.teams_of(pre.games@[i].room_id).len() == 2);
                        }
                    }
                    assert(self.current_teams_wf()) by {
                        assert forall|i: int| 0 <= i < self.current_teams@.len() implies
                            self.has_game((#[trigger] self.current_teams@[i]).game_id)
                            && self.game_has_team(
                            self.current_teams@[i].team_id,
                            self.current_teams@[i].game_id,
                        ) by {
                            if i != ci {
                                assert(self.current_teams@[i] == pre.current_teams@[i]);
                                assert(pre.has_game(pre.current_teams@[i].game_id));
                                assert(pre.game_has_team(
                                    pre.current_teams@[i].team_id,
                                    pre.current_teams@[i].game_id,
                                ));
                            } else {
                                assert(pre.has_game(rid));
                                assert(pre.game_has_team(other_id, rid)) by {
                                    assert(pre.teams@[oi as int].id == other_id);
                                }
                            }
                        }
                    }
                    assert(self.join_teams_wf()) by {
                        assert forall|i: int| 0 <= i < self.join_teams@.len() implies
                            self.has_room((#[trigger] self.join_teams@[i]).room_id) by {
                            assert(pre.has_room(pre.join_teams@[i].room_id));
                        }
                    }
                    assert(self.members_wf()) by {
                        assert forall|i: int| 0 <= i < self.join_rooms@.len() implies
                            self.has_room((#[trigger] self.join_rooms@[i]).room_id) by {
                            assert(pre.has_room(pre.join_rooms@[i].room_id));
                        }
                    }
                    assert(self.messages_wf()) by {
                        assert forall|i: int| 0 <= i < self.messages@.len() implies self.has_room(
                            (#[trigger] self.messages@[i]).room_id,
                        ) by {
                            assert(pre.has_room(pre.messages@[i].room_id));
                        }
                    }
                    assert(self.wf());
                    assert(pre.dropped_piece(*self, caller, column)) by {
                        assert(pre.game_has_team(other_id, rid)) by {
                            assert(pre.teams@[oi as int].id == other_id);
                        }
                    }
                }
                Ok(())
            }
        }
    }

    /// A drop lands in the lowest unoccupied row of its column: the
    /// landing cell was empty with every cell below it occupied, and it
    /// now holds the dropping player.  (That a drop into a full column
    /// fails, leaving the state untouched, is the `ColumnFull` case of
    /// [`ServerState::drop_piece_err`].)
    pub proof fn lemma_drop_lands_lowest(
        pre: ServerState,
        post: ServerState,
        caller: u64,
        column: u32,
    )
        requires
            pre.wf(),
            pre.drop_piece_err(caller, column) is None,
            pre.dropped_piece(post, caller, column),
        ensures
            ({
                let rid = pre.jt_at(caller).room_id;
                let g = pre.games@[pre.game_idx(rid)];
                let rr = crate::grid::drop_row(g.table@, column as int);
                &&& 0 <= rr < g.table@.len()
                &&& g.table@[rr]@[column as int] is None
                &&& forall|k: int|
                    rr < k < g.table@.len() ==> (#[trigger] g.table@[k]@[column as int]) is Some
                &&& post.games@[pre.game_idx(rid)].table@[rr]@[column as int] == Some(caller)
            }),
    {
        let rid = pre.jt_at(caller).room_id;
        let gi = pre.game_idx(rid);
        let g = pre.games@[gi];
        assert(grid_dims(g.table@));
        assert(g.table@[0]@[column as int] is None);
        crate::grid::lemma_exists_drop_row(g.table@, column as int, 0);
        let rr = crate::grid::drop_row(g.table@, column as int);
        assert(post.games@[gi].table@[rr]@ == g.table@[rr]@.update(column as int, Some(caller)));
    }

    /// After a non-winning drop the turn owner flips to the game's one
    /// other team, exactly once; after a winning drop it does not change,
    /// and every further drop into that game is rejected.
    pub proof fn lemma_turn_alternates(
        pre: ServerState,
        post: ServerState,
        caller: u64,
        column: u32,
    )
        requires
            pre.wf(),
            post.wf(),
            pre.drop_piece_err(caller, column) is None,
            pre.dropped_piece(post, caller, column),
        ensures
            ({
                let rid = pre.jt_at(caller).room_id;
                let gi = pre.game_idx(rid);
                if crate::grid::has_win(post.games@[gi].table@, caller) {
                    &&& post.current_teams@ == pre.current_teams@
                    &&& post.games@[gi].winner is Some
                    &&& forall|p: u64, c: u32|
                        post.on_team(p) && post.jt_at(p).room_id == rid
                            ==> (#[trigger] post.drop_piece_err(p, c)) is Some
                } else {
                    &&& post.has_ct(rid)
                    &&& post.ct_at(rid).game_id == rid
                    &&& post.ct_at(rid).team_id != pre.ct_at(rid).team_id
                    &&& pre.game_has_team(post.ct_at(rid).team_id, rid)
                    &&& forall|t: u32|
                        #[trigger] pre.game_has_team(t, rid) && t != pre.ct_at(rid).team_id
                            ==> post.ct_at(rid).team_id == t
                }
            }),
    {
        let rid = pre.jt_at(caller).room_id;
        let gi = pre.game_idx(rid);
        if crate::grid::has_win(post.games@[gi].table@, caller) {
            assert forall|p: u64, c: u32|
                post.on_team(p) && post.jt_at(p).room_id == rid implies (
            #[trigger] post.drop_piece_err(p, c)) is Some by {
                assert(post.games@[gi].room_id == rid);
                post.lemma_game_idx_is(rid, gi);
                assert(post.game_at(rid).winner is Some);
            }
        } else {
            let other = choose|other: u32|
                #[trigger] pre.game_has_team(other, rid) && other != pre.ct_at(rid).team_id
                    && post.current_teams@ == pre.current_teams@.update(
                    pre.ct_idx(rid),
                    (GameCurrentTeam { game_id: rid, team_id: other }),
                );
            let ci = pre.ct_idx(rid);
            assert(pre.has_ct(rid));
            assert(post.current_teams@[ci].game_id == rid);
            post.lemma_ct_idx_is(rid, ci);
            // The other team is unique: the game's two teams have distinct
            // ids, and the turn owner's team is one of them.
            assert forall|t: u32|
                #[trigger] pre.game_has_team(t, rid) && t != pre.ct_at(rid).team_id implies
                post.ct_at(rid).team_id == t by {
                let ft = pre.teams_of(rid);
                lemma_filter_unique(pre.teams@, team_of_game(rid), team_key());
                let cur = pre.ct_at(rid).team_id;
                let kt = choose|k: int|
                    0 <= k < pre.teams@.len() && (#[trigger] pre.teams@[k]).id == t
                        && pre.teams@[k].game_id == rid;
                let ko = choose|k: int|
                    0 <= k < pre.teams@.len() && (#[trigger] pre.teams@[k]).id == other
                        && pre.teams@[k].game_id == rid;
                assert(pre.game_has_team(cur, rid));
                let kc = choose|k: int|
                    0 <= k < pre.teams@.len() && (#[trigger] pre.teams@[k]).id == cur
                        && pre.teams@[k].game_id == rid;
                pre.teams@.lemma_filter_contains(team_of_game(rid), kt);
                pre.teams@.lemma_filter_contains(team_of_game(rid), ko);
                pre.teams@.lemma_filter_contains(team_of_game(rid), kc);
                assert(ft.len() == 2);
                let wt = choose|w: int| 0 <= w < ft.len() && ft[w] == pre.teams@[kt];
                let wo = choose|w: int| 0 <= w < ft.len() && ft[w] == pre.teams@[ko];
                let wc = choose|w: int| 0 <= w < ft.len() && ft[w] == pre.teams@[kc];
                if wt != wo {
                    assert(wc == wt || wc == wo);
                    assert(team_key()(ft[wc]) == cur);
                    assert(false);
                }
                assert(ft[wt] == ft[wo]);
                assert(team_key()(ft[wt]) == t);
                assert(team_key()(ft[wo]) == other);
            }
        }
    }

    /// Replace the game at `gi` by a fresh one for the same room and
    /// re-assign the turn owner by the injected choice: the game's lowest
    /// team id when `pick_first`, its highest otherwise.
    fn reset_game(&mut self, gi: usize, pick_first: bool)
        requires
            old(self).wf(),
            gi < old(self).games@.len(),
        ensures
            final(self).wf(),
            old(self).restarted(*final(self), old(self).games@[gi as int].room_id, pick_first),
    {
        let ghost pre = *old(self);
        let rid = self.games[gi].room_id;
        proof {
            pre.lemma_game_idx_is(rid, gi as int);
        }
        let g = self.games.remove(gi);
        self.games.insert(gi, Game::new(rid));
        let mm = match find_team_id_range(&self.teams, rid) {
            Some(mm) => mm,
            None => {
                proof {
                    assert(pre.teams_of(rid).len() == 2);
                    lemma_filter_subset(pre.teams@, team_of_game(rid));
                    pre.teams@.lemma_filter_pred(team_of_game(rid), 0);
                    let ta = pre.teams_of(rid)[0];
                    let ka = choose|k: int| 0 <= k < pre.teams@.len() && pre.teams@[k] == ta;
                    assert(self.teams@[ka] == ta);
                    assert(false);
                }
                // Unreachable: a well-formed game always has its two teams.
                return ;
            }
        };
        let chosen = if pick_first {
            mm.0
        } else {
            mm.1
        };
        proof {
            assert(pre.game_has_team(chosen, rid)) by {
                if pick_first {
                    let j = choose|j: int|
                        0 <= j < self.teams@.len() && (#[trigger] self.teams@[j]).game_id == rid
                            && self.teams@[j].id == mm.0;
                    assert(pre.teams@[j] == self.teams@[j]);
                } else {
                    let j = choose|j: int|
                        0 <= j < self.teams@.len() && (#[trigger] self.teams@[j]).game_id == rid
                            && self.teams@[j].id == mm.1;
                    assert(pre.teams@[j] == self.teams@[j]);
                }
            }
            assert forall|t: u32| #[trigger] pre.game_has_team(t, rid) implies (if pick_first {
                chosen <= t
            } else {
                t <= chosen
            }) by {
                let j = choose|j: int|
                    0 <= j < pre.teams@.len() && (#[trigger] pre.teams@[j]).id == t
                        && pre.teams@[j].game_id == rid;
                assert(self.teams@[j] == pre.teams@[j]);
            }
        }
        match find_current_team(&self.current_teams, rid) {
            Some(ci) => {
                proof {
                    pre.lemma_ct_idx_is(rid, ci as int);
                }
                let ct = self.current_teams.remove(ci);
                self.current_teams.insert(ci, GameCurrentTeam { game_id: rid, team_id: chosen });
                proof {
                    assert(self.current_teams@ =~= pre.current_teams@.update(
                        ci as int,
                        self.current_teams@[ci as int],
                    ));
                    lemma_unique_update(
                        pre.current_teams@,
                        ci as int,
                        self.current_teams@[ci as int],
                        ct_key(),
                    );
                }
            }
            None => {
                self.current_teams.push(GameCurrentTeam { game_id: rid, team_id: chosen });
                proof {
                    lemma_unique_push(pre.current_teams@, self.current_teams@.last(), ct_key());
                }
            }
        }
        proof {
            assert(self.games@ =~= pre.games@.update(gi as int, self.games@[gi as int]));
            lemma_unique_update(pre.games@, gi as int, self.games@[gi as int], game_key());
            assert forall|x: u32| #[trigger] pre.has_game(x) implies self.has_game(x) by {
                let k = pre.game_idx(x);
                assert(self.games@[k].room_id == pre.games@[k].room_id);
            }
            assert forall|x: u32| #[trigger] pre.has_room(x) implies self.has_room(x) by {
                let k = pre.room_idx(x);
                assert(self.rooms@[k] == pre.rooms@[k]);
            }
            assert forall|tid: u32, gid: u32| #[trigger] pre.game_has_team(tid, gid) implies
                self.game_has_team(tid, gid) by {
                let k = choose|k: int|
                    0 <= k < pre.teams@.len() && (#[trigger] pre.teams@[k]).id == tid
                        && pre.teams@[k].game_id == gid;
                assert(self.teams@[k] == pre.teams@[k]);
            }
            assert(self.games_wf()) by {
                assert forall|i: int| 0 <= i < self.games@.len() implies self.has_room(
                    (#[trigger] self.games@[i]).room_id,
                ) && grid_dims(self.games@[i].table@) by {
                    if i != gi {
                        assert(self.games@[i] == pre.games@[i]);
                        assert(grid_dims(pre.games@[i].table@));
                    }
                    assert(pre.has_room(pre.games@[i].room_id));
                }
            }
            assert(self.teams_wf()) by {
                assert forall|i: int| 0 <= i < self.teams@.len() implies (
                #[trigger] self.teams@[i]).id < self.next_team_id && self.has_game(
                    self.teams@[i].game_id,
                ) by {
                    assert(pre.has_game(pre.teams@[i].game_id));
                }
            }
            assert(self.game_teams_wf()) by {
                assert forall|i: int| 0 <= i < self.games@.len() implies self.teams_of(
                    (#[trigger] self.games@[i]).room_id,
                ).len() == 2 by {
                    if i != gi {
                        assert(self.games@[i] == pre.games@[i]);
                    }
                    assert(pre.teams_of(pre.games@[i].room_id).len() == 2);
                }
            }
            assert(self.current_teams_wf()) by {
                assert forall|i: int| 0 <= i < self.current_teams@.len() implies self.has_game(
                    (#[trigger] self.current_teams@[i]).game_id,
                ) && self.game_has_team(
                    self.current_teams@[i].team_id,
                    self.current_teams@[i].game_id,
                ) by {
                    if i < pre.current_teams@.len() && self.current_teams@[i]
                        == pre.current_teams@[i] {
                        assert(pre.has_game(pre.current_teams@[i].game_id));
                        assert(pre.game_has_team(
                            pre.current_teams@[i].team_id,
                            pre.current_teams@[i].game_id,
                        ));
                    } else {
                        assert(self.current_teams@[i].game_id == rid);
                        assert(self.current_teams@[i].team_id == chosen);
                        assert(pre.has_game(rid));
                        assert(pre.game_has_team(chosen, rid));
                    }
                }
            }
            assert(self.join_teams_wf()) by {
                assert forall|i: int| 0 <= i < self.join_teams@.len() implies self.has_room(
                    (#[trigger] self.join_teams@[i]).room_id,
                ) by {
                    assert(pre.has_room(pre.join_teams@[i].room_id));
                }
            }
            assert(self.members_wf()) by {
                assert forall|i: int| 0 <= i < self.join_rooms@.len() implies self.has_room(
                    (#[trigger] self.join_rooms@[i]).room_id,
                ) by {
                    assert(pre.has_room(pre.join_rooms@[i].room_id));
                }
            }
            assert(self.messages_wf()) by {
                assert forall|i: int| 0 <= i < self.messages@.len() implies self.has_room(
                    (#[trigger] self.messages@[i]).room_id,
                ) by {
                    assert(pre.has_room(pre.messages@[i].room_id));
                }
            }
            assert(self.wf()) by {
                assert(self.players_wf());
                assert(self.rooms_wf());
                assert(self.owners_wf());
            }
            assert(pre.restarted(*self, rid, pick_first));
        }
    }

    /// Restart the caller's game after a draw: the grid must be fully
    /// occupied with no winner recorded.  A decisive outcome is refused
    /// here — the two restart triggers are mutually exclusive, and a
    /// recorded winner belongs to [`Self::restart_game_has_winner`].  The
    /// game is replaced by a fresh, empty one and the turn owner is
    /// re-assigned by the injected choice.
    pub fn restart_game_table_full(&mut self, caller: u64, pick_first: bool) -> (r: Result<
        (),
        GameError,
    >)
        requires
            old(self).wf(),
        ensures
            final(self).wf(),
            r is Err ==> *final(self) == *old(self),
            r == Err::<(), GameError>(GameError::NotInTeam) <==> !old(self).on_team(caller),
            r == Err::<(), GameError>(GameError::GameNotFound) <==> old(self).on_team(caller)
                && !old(self).has_game(old(self).jt_at(caller).room_id),
            r == Err::<(), GameError>(GameError::HasWinner) <==> old(self).on_team(caller) && old(
                self,
            ).has_game(old(self).jt_at(caller).room_id) && old(self).game_at(
                old(self).jt_at(caller).room_id,
            ).winner is Some,
            r == Err::<(), GameError>(GameError::TableNotFull) <==> old(self).on_team(caller)
                && old(self).has_game(old(self).jt_at(caller).room_id) && old(self).game_at(
                old(self).jt_at(caller).room_id,
            ).winner is None && !grid_full(
                old(self).game_at(old(self).jt_at(caller).room_id).table@,
            ),
            r is Ok <==> old(self).on_team(caller) && old(self).has_game(
                old(self).jt_at(caller).room_id,
            ) && old(self).game_at(old(self).jt_at(caller).room_id).winner is None && grid_full(
                old(self).game_at(old(self).jt_at(caller).room_id).table@,
            ),
            r is Ok ==> old(self).restarted(
                *final(self),
                old(self).jt_at(caller).room_id,
                pick_first,
            ),
    {
        let ji = match find_join_team(&self.join_teams, caller) {
            Some(i) => i,
            None => {
                return Err(GameError::NotInTeam);
            }
        };
        proof {
            old(self).lemma_jt_idx_is(caller, ji as int);
        }
        let rid = self.join_teams[ji].room_id;
        let gi = match find_game(&self.games, rid) {
            Some(i) => i,
            None => {
                return Err(GameError::GameNotFound);
            }
        };
        proof {
            old(self).lemma_game_idx_is(rid, gi as int);
        }
        if self.games[gi].winner.is_some() {
            return Err(GameError::HasWinner);
        }
        if !self.games[gi].is_table_full() {
            return Err(GameError::TableNotFull);
        }
        self.reset_game(gi, pick_first);
        Ok(())
    }

    /// Restart the caller's game after a decisive outcome: a winner must
    /// be recorded.  The game is replaced by a fresh, empty one and the
    /// turn owner is re-assigned by the injected choice.
    pub fn restart_game_has_winner(&mut self, caller: u64, pick_first: bool) -> (r: Result<
        (),
        GameError,
    >)
        requires
            old(self).wf(),
        ensures
            final(self).wf(),
            r is Err ==> *final(self) == *old(self),
            r == Err::<(), GameError>(GameError::NotInTeam) <==> !old(self).on_team(caller),
            r == Err::<(), GameError>(GameError::GameNotFound) <==> old(self).on_team(caller)
                && !old(self).has_game(old(self).jt_at(caller).room_id),
            r == Err::<(), GameError>(GameError::NoWinner) <==> old(self).on_team(caller) && old(
                self,
            ).has_game(old(self).jt_at(caller).room_id) && old(self).game_at(
                old(self).jt_at(caller).room_id,
            ).winner is None,
            r is Ok <==> old(self).on_team(caller) && old(self).has_game(
                old(self).jt_at(caller).room_id,
            ) && old(self).game_at(old(self).jt_at(caller).room_id).winner is Some,
            r is Ok ==> old(self).restarted(
                *final(self),
                old(self).jt_at(caller).room_id,
                pick_first,
            ),
    {
        let ji = match find_join_team(&self.join_teams, caller) {
            Some(i) => i,
            None => {
                return Err(GameError::NotInTeam);
            }
        };
        proof {
            old(self).lemma_jt_idx_is(caller, ji as int);
        }
        let rid = self.join_teams[ji].room_id;
        let gi = match find_game(&self.games, rid) {
            Some(i) => i,
            None => {
                return Err(GameError::GameNotFound);
            }
        };
        proof {
            old(self).lemma_game_idx_is(rid, gi as int);
        }
        if self.games[gi].winner.is_none() {
            return Err(GameError::NoWinner);
        }
        self.reset_game(gi, pick_first);
        Ok(())
    }
}

} // verus!
