//! In-memory tables: the lookup and delete loops every operation uses, with
//! contracts over the sequence views of the underlying vectors.
//!
//! Each table is a `Vec` of records.  Lookups return the index of a match
//! (where the choice matters, of the first match).  Deletes state their result
//! as a `Seq::filter` of the old contents, which the callers combine with
//! the lemmas of [`crate::seqtools`] to carry the store invariants through.

use vstd::prelude::*;

use crate::records::Game;
use crate::records::GameCurrentTeam;
use crate::records::JoinRoom;
use crate::records::JoinTeam;
use crate::records::Message;
use crate::records::Player;
use crate::records::Room;
use crate::records::Team;
use crate::seqtools::lemma_filter_take_step;
use crate::seqtools::unique_by;

verus! {

// Keys of the uniquely-keyed tables.

pub open spec fn player_key() -> spec_fn(Player) -> int {
    |p: Player| p.identity as int
}

pub open spec fn room_key() -> spec_fn(Room) -> int {
    |r: Room| r.id as int
}

pub open spec fn member_key() -> spec_fn(JoinRoom) -> int {
    |jr: JoinRoom| jr.joiner as int
}

pub open spec fn game_key() -> spec_fn(Game) -> int {
    |g: Game| g.room_id as int
}

pub open spec fn team_key() -> spec_fn(Team) -> int {
    |t: Team| t.id as int
}

pub open spec fn jt_key() -> spec_fn(JoinTeam) -> int {
    |jt: JoinTeam| jt.joiner as int
}

pub open spec fn ct_key() -> spec_fn(GameCurrentTeam) -> int {
    |ct: GameCurrentTeam| ct.game_id as int
}

// The predicates the delete loops filter with: each keeps the records that
// survive the delete.

pub open spec fn room_not_id(rid: u32) -> spec_fn(Room) -> bool {
    |r: Room| r.id != rid
}

pub open spec fn jr_not_joiner(pid: u64) -> spec_fn(JoinRoom) -> bool {
    |jr: JoinRoom| jr.joiner != pid
}

pub open spec fn jr_not_room(rid: u32) -> spec_fn(JoinRoom) -> bool {
    |jr: JoinRoom| jr.room_id != rid
}

pub open spec fn jt_not_joiner(pid: u64) -> spec_fn(JoinTeam) -> bool {
    |jt: JoinTeam| jt.joiner != pid
}

pub open spec fn jt_not_room(rid: u32) -> spec_fn(JoinTeam) -> bool {
    |jt: JoinTeam| jt.room_id != rid
}

pub open spec fn team_not_game(gid: u32) -> spec_fn(Team) -> bool {
    |t: Team| t.game_id != gid
}

pub open spec fn ct_not_game(gid: u32) -> spec_fn(GameCurrentTeam) -> bool {
    |ct: GameCurrentTeam| ct.game_id != gid
}

pub open spec fn game_not_room(rid: u32) -> spec_fn(Game) -> bool {
    |g: Game| g.room_id != rid
}

pub open spec fn msg_not_room(rid: u32) -> spec_fn(Message) -> bool {
    |m: Message| m.room_id != rid
}

/// The teams of one game, as a filter predicate.
pub open spec fn team_of_game(gid: u32) -> spec_fn(Team) -> bool {
    |t: Team| t.game_id == gid
}

// Lookups.

/// Look a player up by identity.
pub fn find_player(v: &Vec<Player>, pid: u64) -> (res: Option<usize>)
    ensures
        match res {
            Some(i) => i < v@.len() && v@[i as int].identity == pid,
            None => forall|j: int| 0 <= j < v@.len() ==> (#[trigger] v@[j]).identity != pid,
        },
{
    let mut i: usize = 0;
    while i < v.len()
        invariant
            i <= v@.len(),
            forall|j: int| 0 <= j < i ==> (#[trigger] v@[j]).identity != pid,
        decreases v@.len() - i,
    {
        if v[i].identity == pid {
            return Some(i);
        }
        i = i + 1;
    }
    None
}

/// Look a room up by id.
pub fn find_room(v: &Vec<Room>, rid: u32) -> (res: Option<usize>)
    ensures
        match res {
            Some(i) => i < v@.len() && v@[i as int].id == rid,
            None => forall|j: int| 0 <= j < v@.len() ==> (#[trigger] v@[j]).id != rid,
        },
{
    let mut i: usize = 0;
    while i < v.len()
        invariant
            i <= v@.len(),
            forall|j: int| 0 <= j < i ==> (#[trigger] v@[j]).id != rid,
        decreases v@.len() - i,
    {
        if v[i].id == rid {
            return Some(i);
        }
        i = i + 1;
    }
    None
}

/// Look a room up by its owner.
pub fn find_room_by_owner(v: &Vec<Room>, pid: u64) -> (res: Option<usize>)
    ensures
        match res {
            Some(i) => i < v@.len() && v@[i as int].owner == pid,
            None => forall|j: int| 0 <= j < v@.len() ==> (#[trigger] v@[j]).owner != pid,
        },
{
    let mut i: usize = 0;
    while i < v.len()
        invariant
            i <= v@.len(),
            forall|j: int| 0 <= j < i ==> (#[trigger] v@[j]).owner != pid,
        decreases v@.len() - i,
    {
        if v[i].owner == pid {
            return Some(i);
        }
        i = i + 1;
    }
    None
}

/// Look a room membership up by the joining player.
pub fn find_join_room(v: &Vec<JoinRoom>, pid: u64) -> (res: Option<usize>)
    ensures
        match res {
            Some(i) => i < v@.len() && v@[i as int].joiner == pid,
            None => forall|j: int| 0 <= j < v@.len() ==> (#[trigger] v@[j]).joiner != pid,
        },
{
    let mut i: usize = 0;
    while i < v.len()
        invariant
            i <= v@.len(),
            forall|j: int| 0 <= j < i ==> (#[trigger] v@[j]).joiner != pid,
        decreases v@.len() - i,
    {
        if v[i].joiner == pid {
            return Some(i);
        }
        i = i + 1;
    }
    None
}

/// Find the first membership of a room, in join order.  This is the
/// deterministic choice used when ownership is reassigned.
pub fn find_join_room_by_room(v: &Vec<JoinRoom>, rid: u32) -> (res: Option<usize>)
    ensures
        match res {
            Some(i) => i < v@.len() && v@[i as int].room_id == rid && forall|j: int|
                0 <= j < i ==> (#[trigger] v@[j]).room_id != rid,
            None => forall|j: int| 0 <= j < v@.len() ==> (#[trigger] v@[j]).room_id != rid,
        },
{
    let mut i: usize = 0;
    while i < v.len()
        invariant
            i <= v@.len(),
            forall|j: int| 0 <= j < i ==> (#[trigger] v@[j]).room_id != rid,
        decreases v@.len() - i,
    {
        if v[i].room_id == rid {
            return Some(i);
        }
        i = i + 1;
    }
    None
}

/// Look a game up by its room.
pub fn find_game(v: &Vec<Game>, rid: u32) -> (res: Option<usize>)
    ensures
        match res {
            Some(i) => i < v@.len() && v@[i as int].room_id == rid,
            None => forall|j: int| 0 <= j < v@.len() ==> (#[trigger] v@[j]).room_id != rid,
        },
{
    let mut i: usize = 0;
    while i < v.len()
        invariant
            i <= v@.len(),
            forall|j: int| 0 <= j < i ==> (#[trigger] v@[j]).room_id != rid,
        decreases v@.len() - i,
    {
        if v[i].room_id == rid {
            return Some(i);
        }
        i = i + 1;
    }
    None
}

/// Look a team up by id.
pub fn find_team(v: &Vec<Team>, tid: u32) -> (res: Option<usize>)
    ensures
        match res {
            Some(i) => i < v@.len() && v@[i as int].id == tid,
            None => forall|j: int| 0 <= j < v@.len() ==> (#[trigger] v@[j]).id != tid,
        },
{
    let mut i: usize = 0;
    while i < v.len()
        invariant
            i <= v@.len(),
            forall|j: int| 0 <= j < i ==> (#[trigger] v@[j]).id != tid,
        decreases v@.len() - i,
    {
        if v[i].id == tid {
            return Some(i);
        }
        i = i + 1;
    }
    None
}

/// Find the first team of a game other than the given one: the team the
/// turn passes to.
pub fn find_other_team(v: &Vec<Team>, gid: u32, tid: u32) -> (res: Option<usize>)
    ensures
        match res {
            Some(i) => i < v@.len() && v@[i as int].game_id == gid && v@[i as int].id != tid,
            None => forall|j: int|
                0 <= j < v@.len() ==> !((#[trigger] v@[j]).game_id == gid && v@[j].id != tid),
        },
{
    let mut i: usize = 0;
    while i < v.len()
        invariant
            i <= v@.len(),
            forall|j: int| 0 <= j < i ==> !((#[trigger] v@[j]).game_id == gid && v@[j].id != tid),
        decreases v@.len() - i,
    {
        if v[i].game_id == gid && v[i].id != tid {
            return Some(i);
        }
        i = i + 1;
    }
    None
}

/// The lowest and highest team id of a game: the two ends the injected
/// choice of a restart picks between.
pub fn find_team_id_range(v: &Vec<Team>, gid: u32) -> (res: Option<(u32, u32)>)
    ensures
        match res {
            Some(mm) => {
                &&& exists|j: int|
                    0 <= j < v@.len() && (#[trigger] v@[j]).game_id == gid && v@[j].id == mm.0
                &&& exists|j: int|
                    0 <= j < v@.len() && (#[trigger] v@[j]).game_id == gid && v@[j].id == mm.1
                &&& forall|j: int|
                    0 <= j < v@.len() && (#[trigger] v@[j]).game_id == gid ==> mm.0 <= v@[j].id
                        && v@[j].id <= mm.1
            },
            None => forall|j: int| 0 <= j < v@.len() ==> (#[trigger] v@[j]).game_id != gid,
        },
{
    let mut res: Option<(u32, u32)> = None;
    let mut i: usize = 0;
    while i < v.len()
        invariant
            i <= v@.len(),
            match res {
                Some(mm) => {
                    &&& exists|j: int|
                        0 <= j < i && (#[trigger] v@[j]).game_id == gid && v@[j].id == mm.0
                    &&& exists|j: int|
                        0 <= j < i && (#[trigger] v@[j]).game_id == gid && v@[j].id == mm.1
                    &&& forall|j: int|
                        0 <= j < i && (#[trigger] v@[j]).game_id == gid ==> mm.0 <= v@[j].id
                            && v@[j].id <= mm.1
                },
                None => forall|j: int| 0 <= j < i ==> (#[trigger] v@[j]).game_id != gid,
            },
        decreases v@.len() - i,
    {
        if v[i].game_id == gid {
            let id = v[i].id;
            res = match res {
                None => Some((id, id)),
                Some(mm) => Some(
                    (
                        if id < mm.0 {
                            id
                        } else {
                            mm.0
                        },
                        if id > mm.1 {
                            id
                        } else {
                            mm.1
                        },
                    ),
                ),
            };
        }
        i = i + 1;
    }
    res
}

/// Look a team membership up by the joining player.
pub fn find_join_team(v: &Vec<JoinTeam>, pid: u64) -> (res: Option<usize>)
    ensures
        match res {
            Some(i) => i < v@.len() && v@[i as int].joiner == pid,
            None => forall|j: int| 0 <= j < v@.len() ==> (#[trigger] v@[j]).joiner != pid,
        },
{
    let mut i: usize = 0;
    while i < v.len()
        invariant
            i <= v@.len(),
            forall|j: int| 0 <= j < i ==> (#[trigger] v@[j]).joiner != pid,
        decreases v@.len() - i,
    {
        if v[i].joiner == pid {
            return Some(i);
        }
        i = i + 1;
    }
    None
}

/// Whether any team membership of the room remains.
pub fn any_join_team_in_room(v: &Vec<JoinTeam>, rid: u32) -> (b: bool)
    ensures
        b == exists|j: int| 0 <= j < v@.len() && (#[trigger] v@[j]).room_id == rid,
{
    let mut i: usize = 0;
    while i < v.len()
        invariant
            i <= v@.len(),
            forall|j: int| 0 <= j < i ==> (#[trigger] v@[j]).room_id != rid,
        decreases v@.len() - i,
    {
        if v[i].room_id == rid {
            return true;
        }
        i = i + 1;
    }
    false
}

/// Look a turn-owner record up by its game.
pub fn find_current_team(v: &Vec<GameCurrentTeam>, gid: u32) -> (res: Option<usize>)
    ensures
        match res {
            Some(i) => i < v@.len() && v@[i as int].game_id == gid,
            None => forall|j: int| 0 <= j < v@.len() ==> (#[trigger] v@[j]).game_id != gid,
        },
{
    let mut i: usize = 0;
    while i < v.len()
        invariant
            i <= v@.len(),
            forall|j: int| 0 <= j < i ==> (#[trigger] v@[j]).game_id != gid,
        decreases v@.len() - i,
    {
        if v[i].game_id == gid {
            return Some(i);
        }
        i = i + 1;
    }
    None
}

// Deletes.  Each loop removes the records a predicate condemns and leaves
// the rest in order, which is exactly a `filter` by the kept predicate.

/// Delete the membership of one player, if any.
pub fn delete_join_room_by_joiner(v: &mut Vec<JoinRoom>, pid: u64)
    ensures
        final(v)@ == old(v)@.filter(jr_not_joiner(pid)),
{
    let ghost orig = v@;
    let mut i: usize = 0;
    let ghost mut j: int = 0;
    while i < v.len()
        invariant
            0 <= j <= orig.len(),
            i == orig.take(j).filter(jr_not_joiner(pid)).len(),
            v@ == orig.take(j).filter(jr_not_joiner(pid)) + orig.skip(j),
        decreases orig.len() - j,
    {
        proof {
            assert(orig.skip(j)[0] == orig[j]);
            lemma_filter_take_step(orig, j, jr_not_joiner(pid));
        }
        if v[i].joiner == pid {
            v.remove(i);
            proof {
                assert(v@ =~= orig.take(j + 1).filter(jr_not_joiner(pid)) + orig.skip(j + 1));
                j = j + 1;
            }
        } else {
            proof {
                assert(v@ =~= orig.take(j + 1).filter(jr_not_joiner(pid)) + orig.skip(j + 1));
                j = j + 1;
            }
            i = i + 1;
        }
    }
    proof {
        assert(j == orig.len());
        assert(orig.take(j) =~= orig);
        assert(v@ =~= orig.filter(jr_not_joiner(pid)));
    }
}

/// Delete every membership of a room.
pub fn delete_join_rooms_by_room(v: &mut Vec<JoinRoom>, rid: u32)
    ensures
        final(v)@ == old(v)@.filter(jr_not_room(rid)),
{
    let ghost orig = v@;
    let mut i: usize = 0;
    let ghost mut j: int = 0;
    while i < v.len()
        invariant
            0 <= j <= orig.len(),
            i == orig.take(j).filter(jr_not_room(rid)).len(),
            v@ == orig.take(j).filter(jr_not_room(rid)) + orig.skip(j),
        decreases orig.len() - j,
    {
        proof {
            assert(orig.skip(j)[0] == orig[j]);
            lemma_filter_take_step(orig, j, jr_not_room(rid));
        }
        if v[i].room_id == rid {
            v.remove(i);
            proof {
                assert(v@ =~= orig.take(j + 1).filter(jr_not_room(rid)) + orig.skip(j + 1));
                j = j + 1;
            }
        } else {
            proof {
                assert(v@ =~= orig.take(j + 1).filter(jr_not_room(rid)) + orig.skip(j + 1));
                j = j + 1;
            }
            i = i + 1;
        }
    }
    proof {
        assert(j == orig.len());
        assert(orig.take(j) =~= orig);
        assert(v@ =~= orig.filter(jr_not_room(rid)));
    }
}

/// Delete the team membership of one player, if any.
pub fn delete_join_team_by_joiner(v: &mut Vec<JoinTeam>, pid: u64)
    ensures
        final(v)@ == old(v)@.filter(jt_not_joiner(pid)),
{
    let ghost orig = v@;
    let mut i: usize = 0;
    let ghost mut j: int = 0;
    while i < v.len()
        invariant
            0 <= j <= orig.len(),
            i == orig.take(j).filter(jt_not_joiner(pid)).len(),
            v@ == orig.take(j).filter(jt_not_joiner(pid)) + orig.skip(j),
        decreases orig.len() - j,
    {
        proof {
            assert(orig.skip(j)[0] == orig[j]);
            lemma_filter_take_step(orig, j, jt_not_joiner(pid));
        }
        if v[i].joiner == pid {
            v.remove(i);
            proof {
                assert(v@ =~= orig.take(j + 1).filter(jt_not_joiner(pid)) + orig.skip(j + 1));
                j = j + 1;
            }
        } else {
            proof {
                assert(v@ =~= orig.take(j + 1).filter(jt_not_joiner(pid)) + orig.skip(j + 1));
                j = j + 1;
            }
            i = i + 1;
        }
    }
    proof {
        assert(j == orig.len());
        assert(orig.take(j) =~= orig);
        assert(v@ =~= orig.filter(jt_not_joiner(pid)));
    }
}

/// Delete every team membership of a room.
pub fn delete_join_teams_by_room(v: &mut Vec<JoinTeam>, rid: u32)
    ensures
        final(v)@ == old(v)@.filter(jt_not_room(rid)),
{
    let ghost orig = v@;
    let mut i: usize = 0;
    let ghost mut j: int = 0;
    while i < v.len()
        invariant
            0 <= j <= orig.len(),
            i == orig.take(j).filter(jt_not_room(rid)).len(),
            v@ == orig.take(j).filter(jt_not_room(rid)) + orig.skip(j),
        decreases orig.len() - j,
    {
        proof {
            assert(orig.skip(j)[0] == orig[j]);
            lemma_filter_take_step(orig, j, jt_not_room(rid));
        }
        if v[i].room_id == rid {
            v.remove(i);
            proof {
                assert(v@ =~= orig.take(j + 1).filter(jt_not_room(rid)) + orig.skip(j + 1));
                j = j + 1;
            }
        } else {
            proof {
                assert(v@ =~= orig.take(j + 1).filter(jt_not_room(rid)) + orig.skip(j + 1));
                j = j + 1;
            }
            i = i + 1;
        }
    }
    proof {
        assert(j == orig.len());
        assert(orig.take(j) =~= orig);
        assert(v@ =~= orig.filter(jt_not_room(rid)));
    }
}

/// Delete every team of a game.
pub fn delete_teams_by_game(v: &mut Vec<Team>, gid: u32)
    ensures
        final(v)@ == old(v)@.filter(team_not_game(gid)),
{
    let ghost orig = v@;
    let mut i: usize = 0;
    let ghost mut j: int = 0;
    while i < v.len()
        invariant
            0 <= j <= orig.len(),
            i == orig.take(j).filter(team_not_game(gid)).len(),
            v@ == orig.take(j).filter(team_not_game(gid)) + orig.skip(j),
        decreases orig.len() - j,
    {
        proof {
            assert(orig.skip(j)[0] == orig[j]);
            lemma_filter_take_step(orig, j, team_not_game(gid));
        }
        if v[i].game_id == gid {
            v.remove(i);
            proof {
                assert(v@ =~= orig.take(j + 1).filter(team_not_game(gid)) + orig.skip(j + 1));
                j = j + 1;
            }
        } else {
            proof {
                assert(v@ =~= orig.take(j + 1).filter(team_not_game(gid)) + orig.skip(j + 1));
                j = j + 1;
            }
            i = i + 1;
        }
    }
    proof {
        assert(j == orig.len());
        assert(orig.take(j) =~= orig);
        assert(v@ =~= orig.filter(team_not_game(gid)));
    }
}

/// Delete the turn-owner record of a game, if any.
pub fn delete_current_team_by_game(v: &mut Vec<GameCurrentTeam>, gid: u32)
    ensures
        final(v)@ == old(v)@.filter(ct_not_game(gid)),
{
    let ghost orig = v@;
    let mut i: usize = 0;
    let ghost mut j: int = 0;
    while i < v.len()
        invariant
            0 <= j <= orig.len(),
            i == orig.take(j).filter(ct_not_game(gid)).len(),
            v@ == orig.take(j).filter(ct_not_game(gid)) + orig.skip(j),
        decreases orig.len() - j,
    {
        proof {
            assert(orig.skip(j)[0] == orig[j]);
            lemma_filter_take_step(orig, j, ct_not_game(gid));
        }
        if v[i].game_id == gid {
            v.remove(i);
            proof {
                assert(v@ =~= orig.take(j + 1).filter(ct_not_game(gid)) + orig.skip(j + 1));
                j = j + 1;
            }
        } else {
            proof {
                assert(v@ =~= orig.take(j + 1).filter(ct_not_game(gid)) + orig.skip(j + 1));
                j = j + 1;
            }
            i = i + 1;
        }
    }
    proof {
        assert(j == orig.len());
        assert(orig.take(j) =~= orig);
        assert(v@ =~= orig.filter(ct_not_game(gid)));
    }
}

/// Delete the game of a room, if any.
pub fn delete_game_by_room(v: &mut Vec<Game>, rid: u32)
    ensures
        final(v)@ == old(v)@.filter(game_not_room(rid)),
{
    let ghost orig = v@;
    let mut i: usize = 0;
    let ghost mut j: int = 0;
    while i < v.len()
        invariant
            0 <= j <= orig.len(),
            i == orig.take(j).filter(game_not_room(rid)).len(),
            v@ == orig.take(j).filter(game_not_room(rid)) + orig.skip(j),
        decreases orig.len() - j,
    {
        proof {
            assert(orig.skip(j)[0] == orig[j]);
            lemma_filter_take_step(orig, j, game_not_room(rid));
        }
        if v[i].room_id == rid {
            v.remove(i);
            proof {
                assert(v@ =~= orig.take(j + 1).filter(game_not_room(rid)) + orig.skip(j + 1));
                j = j + 1;
            }
        } else {
            proof {
                assert(v@ =~= orig.take(j + 1).filter(game_not_room(rid)) + orig.skip(j + 1));
                j = j + 1;
            }
            i = i + 1;
        }
    }
    proof {
        assert(j == orig.len());
        assert(orig.take(j) =~= orig);
        assert(v@ =~= orig.filter(game_not_room(rid)));
    }
}

/// Delete every message of a room.
pub fn delete_messages_by_room(v: &mut Vec<Message>, rid: u32)
    ensures
        final(v)@ == old(v)@.filter(msg_not_room(rid)),
{
    let ghost orig = v@;
    let mut i: usize = 0;
    let ghost mut j: int = 0;
    while i < v.len()
        invariant
            0 <= j <= orig.len(),
            i == orig.take(j).filter(msg_not_room(rid)).len(),
            v@ == orig.take(j).filter(msg_not_room(rid)) + orig.skip(j),
        decreases orig.len() - j,
    {
        proof {
            assert(orig.skip(j)[0] == orig[j]);
            lemma_filter_take_step(orig, j, msg_not_room(rid));
        }
        if v[i].room_id == rid {
            v.remove(i);
            proof {
                assert(v@ =~= orig.take(j + 1).filter(msg_not_room(rid)) + orig.skip(j + 1));
                j = j + 1;
            }
        } else {
            proof {
                assert(v@ =~= orig.take(j + 1).filter(msg_not_room(rid)) + orig.skip(j + 1));
                j = j + 1;
            }
            i = i + 1;
        }
    }
    proof {
        assert(j == orig.len());
        assert(orig.take(j) =~= orig);
        assert(v@ =~= orig.filter(msg_not_room(rid)));
    }
}

/// Delete a room record by id.
pub fn delete_room_by_id(v: &mut Vec<Room>, rid: u32)
    ensures
        final(v)@ == old(v)@.filter(room_not_id(rid)),
{
    let ghost orig = v@;
    let mut i: usize = 0;
    let ghost mut j: int = 0;
    while i < v.len()
        invariant
            0 <= j <= orig.len(),
            i == orig.take(j).filter(room_not_id(rid)).len(),
            v@ == orig.take(j).filter(room_not_id(rid)) + orig.skip(j),
        decreases orig.len() - j,
    {
        proof {
            assert(orig.skip(j)[0] == orig[j]);
            lemma_filter_take_step(orig, j, room_not_id(rid));
        }
        if v[i].id == rid {
            v.remove(i);
            proof {
                assert(v@ =~= orig.take(j + 1).filter(room_not_id(rid)) + orig.skip(j + 1));
                j = j + 1;
            }
        } else {
            proof {
                assert(v@ =~= orig.take(j + 1).filter(room_not_id(rid)) + orig.skip(j + 1));
                j = j + 1;
            }
            i = i + 1;
        }
    }
    proof {
        assert(j == orig.len());
        assert(orig.take(j) =~= orig);
        assert(v@ =~= orig.filter(room_not_id(rid)));
    }
}

/// The player has a record, and every record of that identity is marked
/// offline.  A player without a record is not provably offline.
pub open spec fn member_offline(players: Seq<Player>, pid: u64) -> bool {
    &&& exists|k: int| 0 <= k < players.len() && (#[trigger] players[k]).identity == pid
    &&& forall|k: int|
        0 <= k < players.len() && (#[trigger] players[k]).identity == pid ==> !players[k].online
}

/// Whether every member of the room is provably offline: each member's
/// player record exists and is marked offline.  A member without a player
/// record keeps the room alive.
pub open spec fn all_members_offline(players: Seq<Player>, jrs: Seq<JoinRoom>, rid: u32) -> bool {
    forall|j: int|
        0 <= j < jrs.len() && (#[trigger] jrs[j]).room_id == rid ==> member_offline(
            players,
            jrs[j].joiner,
        )
}

/// A room id survives the presence sweep while some member of the room is
/// online, or once the first `k` collected ids no longer condemn it.
pub open spec fn id_alive(
    players: Seq<Player>,
    jrs: Seq<JoinRoom>,
    ids: Seq<u32>,
    k: int,
    rid: u32,
) -> bool {
    !all_members_offline(players, jrs, rid) || !ids.take(k).contains(rid)
}

// What the presence sweep keeps of each table: every record of a room with
// at least one online member.  (`players` and `jrs` are the tables as they
// stood when the sweep began.)

pub open spec fn room_kept(players: Seq<Player>, jrs: Seq<JoinRoom>) -> spec_fn(Room) -> bool {
    |r: Room| !all_members_offline(players, jrs, r.id)
}

pub open spec fn jr_kept(players: Seq<Player>, jrs: Seq<JoinRoom>) -> spec_fn(JoinRoom) -> bool {
    |jr: JoinRoom| !all_members_offline(players, jrs, jr.room_id)
}

pub open spec fn jt_kept(players: Seq<Player>, jrs: Seq<JoinRoom>) -> spec_fn(JoinTeam) -> bool {
    |jt: JoinTeam| !all_members_offline(players, jrs, jt.room_id)
}

pub open spec fn game_kept(players: Seq<Player>, jrs: Seq<JoinRoom>) -> spec_fn(Game) -> bool {
    |g: Game| !all_members_offline(players, jrs, g.room_id)
}

pub open spec fn team_kept(players: Seq<Player>, jrs: Seq<JoinRoom>) -> spec_fn(Team) -> bool {
    |t: Team| !all_members_offline(players, jrs, t.game_id)
}

pub open spec fn ct_kept(players: Seq<Player>, jrs: Seq<JoinRoom>) -> spec_fn(
    GameCurrentTeam,
) -> bool {
    |ct: GameCurrentTeam| !all_members_offline(players, jrs, ct.game_id)
}

pub open spec fn msg_kept(players: Seq<Player>, jrs: Seq<JoinRoom>) -> spec_fn(Message) -> bool {
    |m: Message| !all_members_offline(players, jrs, m.room_id)
}

// The same, part-way through the sweep: a record stays while its room is
// alive or its room's id has not been processed yet.

pub open spec fn room_kept_until(
    players: Seq<Player>,
    jrs: Seq<JoinRoom>,
    ids: Seq<u32>,
    k: int,
) -> spec_fn(Room) -> bool {
    |r: Room| id_alive(players, jrs, ids, k, r.id)
}

pub open spec fn jr_kept_until(
    players: Seq<Player>,
    jrs: Seq<JoinRoom>,
    ids: Seq<u32>,
    k: int,
) -> spec_fn(JoinRoom) -> bool {
    |jr: JoinRoom| id_alive(players, jrs, ids, k, jr.room_id)
}

pub open spec fn jt_kept_until(
    players: Seq<Player>,
    jrs: Seq<JoinRoom>,
    ids: Seq<u32>,
    k: int,
) -> spec_fn(JoinTeam) -> bool {
    |jt: JoinTeam| id_alive(players, jrs, ids, k, jt.room_id)
}

pub open spec fn game_kept_until(
    players: Seq<Player>,
    jrs: Seq<JoinRoom>,
    ids: Seq<u32>,
    k: int,
) -> spec_fn(Game) -> bool {
    |g: Game| id_alive(players, jrs, ids, k, g.room_id)
}

pub open spec fn team_kept_until(
    players: Seq<Player>,
    jrs: Seq<JoinRoom>,
    ids: Seq<u32>,
    k: int,
) -> spec_fn(Team) -> bool {
    |t: Team| id_alive(players, jrs, ids, k, t.game_id)
}

pub open spec fn ct_kept_until(
    players: Seq<Player>,
    jrs: Seq<JoinRoom>,
    ids: Seq<u32>,
    k: int,
) -> spec_fn(GameCurrentTeam) -> bool {
    |ct: GameCurrentTeam| id_alive(players, jrs, ids, k, ct.game_id)
}

pub open spec fn msg_kept_until(
    players: Seq<Player>,
    jrs: Seq<JoinRoom>,
    ids: Seq<u32>,
    k: int,
) -> spec_fn(Message) -> bool {
    |m: Message| id_alive(players, jrs, ids, k, m.room_id)
}

/// Decide [`all_members_offline`] for one room.
pub fn check_all_members_offline(players: &Vec<Player>, jrs: &Vec<JoinRoom>, rid: u32) -> (b:
    bool)
    requires
        unique_by(players@, player_key()),
    ensures
        b == all_members_offline(players@, jrs@, rid),
{
    let mut i: usize = 0;
    while i < jrs.len()
        invariant
            unique_by(players@, player_key()),
            i <= jrs@.len(),
            forall|j: int|
                0 <= j < i && (#[trigger] jrs@[j]).room_id == rid ==> member_offline(
                    players@,
                    jrs@[j].joiner,
                ),
        decreases jrs@.len() - i,
    {
        if jrs[i].room_id == rid {
            match find_player(players, jrs[i].joiner) {
                Some(k) => {
                    if players[k].online {
                        proof {
                            assert(!member_offline(players@, jrs@[i as int].joiner));
                            assert(!all_members_offline(players@, jrs@, rid));
                        }
                        return false;
                    }
                    proof {
                        assert forall|k2: int|
                            0 <= k2 < players@.len() && (#[trigger] players@[k2]).identity
                                == jrs@[i as int].joiner implies !players@[k2].online by {
                            if k2 != k {
                                assert(player_key()(players@[k2]) == players@[k2].identity as int);
                                assert(player_key()(players@[k as int])
                                    == players@[k as int].identity as int);
                                if k2 < k {
                                    assert(player_key()(players@[k2])
                                        != player_key()(players@[k as int]));
                                } else {
                                    assert(player_key()(players@[k as int])
                                        != player_key()(players@[k2]));
                                }
                                assert(false);
                            }
                        }
                        assert(member_offline(players@, jrs@[i as int].joiner));
                    }
                }
                None => {
                    proof {
                        assert(!member_offline(players@, jrs@[i as int].joiner));
                        assert(!all_members_offline(players@, jrs@, rid));
                    }
                    return false;
                }
            }
        }
        i = i + 1;
    }
    true
}

/// Collect the ids of the rooms whose members are all offline: the rooms
/// the presence sweep will delete.
pub fn collect_offline_rooms(players: &Vec<Player>, jrs: &Vec<JoinRoom>, rooms: &Vec<Room>) -> (
    dead: Vec<u32>)
    requires
        unique_by(players@, player_key()),
    ensures
        forall|k: int|
            0 <= k < dead@.len() ==> all_members_offline(players@, jrs@, #[trigger] dead@[k]),
        forall|i: int|
            0 <= i < rooms@.len() && all_members_offline(players@, jrs@, (#[trigger] rooms@[i]).id)
                ==> dead@.contains(rooms@[i].id),
{
    let mut dead: Vec<u32> = Vec::new();
    let mut i: usize = 0;
    while i < rooms.len()
        invariant
            unique_by(players@, player_key()),
            i <= rooms@.len(),
            forall|k: int|
                0 <= k < dead@.len() ==> all_members_offline(players@, jrs@, #[trigger] dead@[k]),
            forall|t: int|
                0 <= t < i && all_members_offline(players@, jrs@, (#[trigger] rooms@[t]).id)
                    ==> dead@.contains(rooms@[t].id),
        decreases rooms@.len() - i,
    {
        if check_all_members_offline(players, jrs, rooms[i].id) {
            let ghost prev = dead@;
            dead.push(rooms[i].id);
            proof {
                assert forall|t: int|
                    0 <= t < i + 1 && all_members_offline(
                        players@,
                        jrs@,
                        (#[trigger] rooms@[t]).id,
                    ) implies dead@.contains(rooms@[t].id) by {
                    if t < i {
                        let w = choose|w: int| 0 <= w < prev.len() && prev[w] == rooms@[t].id;
                        assert(dead@[w] == rooms@[t].id);
                    } else {
                        assert(dead@[dead@.len() - 1] == rooms@[t].id);
                    }
                }
            }
        }
        i = i + 1;
    }
    dead
}

} // verus!
