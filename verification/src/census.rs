//! Who is held where: how often an id occurs in a pool and in the teams.
//!
//! A draft moves candidates from pools into teams. Counting the seats and
//! the pool places that an id holds shows that a move creates and loses
//! nobody, so that an id held once before a move is held once after it.

use vstd::prelude::*;

use crate::players::{first_with_id, id_flags, without_id, CandidateView};
use crate::roles::Role;
use crate::search::lemma_first_true;
use crate::teams::{after_seating, seat, MemberView};

verus! {

/// How many candidates of the pool have the id `uuid`.
pub open spec fn pooled(pool: Seq<CandidateView>, uuid: Seq<char>) -> nat
    decreases pool.len(),
{
    if pool.len() == 0 {
        0
    } else {
        pooled(pool.drop_last(), uuid) + if pool.last().uuid == uuid {
            1nat
        } else {
            0nat
        }
    }
}

/// How many seats of the team are held by the id `uuid`.
pub open spec fn seated(members: Seq<MemberView>, uuid: Seq<char>) -> nat
    decreases members.len(),
{
    if members.len() == 0 {
        0
    } else {
        seated(members.drop_last(), uuid) + if members.last().candidate.uuid == uuid {
            1nat
        } else {
            0nat
        }
    }
}

/// How many seats of all teams are held by the id `uuid`.
pub open spec fn seated_anywhere(teams: Seq<Seq<MemberView>>, uuid: Seq<char>) -> nat
    decreases teams.len(),
{
    if teams.len() == 0 {
        0
    } else {
        seated_anywhere(teams.drop_last(), uuid) + seated(teams.last(), uuid)
    }
}

/// How often the id `uuid` is held, in the pool and in the teams together.
pub open spec fn held(pool: Seq<CandidateView>, teams: Seq<Seq<MemberView>>, uuid: Seq<char>) -> nat {
    pooled(pool, uuid) + seated_anywhere(teams, uuid)
}

/// Whether no id is held twice: not twice in the pool, not in two seats,
/// not in the pool and in a seat.
pub open spec fn each_id_once(pool: Seq<CandidateView>, teams: Seq<Seq<MemberView>>) -> bool {
    forall|uuid: Seq<char>| #[trigger] held(pool, teams, uuid) <= 1
}

/// One for a match, nothing otherwise.
pub open spec fn one_if(matches: bool) -> nat {
    if matches {
        1
    } else {
        0
    }
}

/// Taking a candidate out of a pool takes one from the count of its id and
/// leaves the count of every other id.
pub proof fn lemma_pooled_remove(pool: Seq<CandidateView>, at: int, uuid: Seq<char>)
    requires
        0 <= at < pool.len(),
    ensures
        pooled(pool.remove(at), uuid) + one_if(pool[at].uuid == uuid) == pooled(pool, uuid),
    decreases pool.len(),
{
    if at == pool.len() - 1 {
        assert(pool.remove(at) =~= pool.drop_last());
    } else {
        assert(pool.remove(at).drop_last() =~= pool.drop_last().remove(at));
        assert(pool.remove(at).last() == pool.last());
        lemma_pooled_remove(pool.drop_last(), at, uuid);
    }
}

/// A new member adds one to the count of its id and leaves the count of
/// every other id.
pub proof fn lemma_seated_push(members: Seq<MemberView>, member: MemberView, uuid: Seq<char>)
    ensures
        seated(members.push(member), uuid) == seated(members, uuid) + one_if(
            member.candidate.uuid == uuid,
        ),
{
    assert(members.push(member).drop_last() =~= members);
}

/// Putting other members in place of one team changes the count over all
/// teams by what it changes in that team.
pub proof fn lemma_seated_update(
    teams: Seq<Seq<MemberView>>,
    at: int,
    members: Seq<MemberView>,
    uuid: Seq<char>,
)
    requires
        0 <= at < teams.len(),
    ensures
        seated_anywhere(teams.update(at, members), uuid) + seated(teams[at], uuid)
            == seated_anywhere(teams, uuid) + seated(members, uuid),
    decreases teams.len(),
{
    if at == teams.len() - 1 {
        assert(teams.update(at, members).drop_last() =~= teams.drop_last());
    } else {
        assert(teams.update(at, members).drop_last() =~= teams.drop_last().update(at, members));
        assert(teams.update(at, members).last() == teams.last());
        lemma_seated_update(teams.drop_last(), at, members, uuid);
    }
}

/// Seating the candidate at `at` in team `team` and taking it out of the
/// pool moves its id from the pool to a seat and touches no other id:
/// every id is held as often as before. So where no id was held twice,
/// none is afterwards, and in particular none holds two seats.
pub proof fn lemma_seating_keeps_ids(
    pool: Seq<CandidateView>,
    teams: Seq<Seq<MemberView>>,
    at: int,
    team: int,
    role: Role,
)
    requires
        0 <= at < pool.len(),
        0 <= team < teams.len(),
    ensures
        forall|uuid: Seq<char>|
            #[trigger] held(pool.remove(at), after_seating(teams, team, seat(pool[at], role)), uuid)
                == held(pool, teams, uuid),
        pooled(pool.remove(at), pool[at].uuid) + 1 == pooled(pool, pool[at].uuid),
        seated_anywhere(after_seating(teams, team, seat(pool[at], role)), pool[at].uuid)
            == seated_anywhere(teams, pool[at].uuid) + 1,
        each_id_once(pool, teams) ==> each_id_once(
            pool.remove(at),
            after_seating(teams, team, seat(pool[at], role)),
        ),
{
    let member = seat(pool[at], role);
    let after = after_seating(teams, team, member);
    assert forall|uuid: Seq<char>|
        pooled(pool.remove(at), uuid) + one_if(pool[at].uuid == uuid) == pooled(pool, uuid)
            && seated_anywhere(after, uuid) == seated_anywhere(teams, uuid) + one_if(
            pool[at].uuid == uuid,
        ) && #[trigger] held(pool.remove(at), after, uuid) == held(pool, teams, uuid) by {
        lemma_pooled_remove(pool, at, uuid);
        lemma_seated_push(teams[team], member, uuid);
        lemma_seated_update(teams, team, teams[team].push(member), uuid);
    }
    lemma_pooled_remove(pool, at, pool[at].uuid);
    lemma_seated_push(teams[team], member, pool[at].uuid);
    lemma_seated_update(teams, team, teams[team].push(member), pool[at].uuid);
    if each_id_once(pool, teams) {
        assert forall|uuid: Seq<char>| #[trigger] held(pool.remove(at), after, uuid) <= 1 by {
            assert(held(pool, teams, uuid) <= 1);
        }
    }
}

/// Seating the candidate at `at` in a team and taking the first candidate
/// of its id out of the pool moves that id from the pool to a seat and
/// touches no other id: between the pool and the team, every id is held
/// as often as before.
pub proof fn lemma_filling_keeps_ids(
    pool: Seq<CandidateView>,
    members: Seq<MemberView>,
    at: int,
    role: Role,
)
    requires
        0 <= at < pool.len(),
    ensures
        without_id(pool, pool[at].uuid).len() + 1 == pool.len(),
        forall|uuid: Seq<char>|
            #![trigger pooled(without_id(pool, pool[at].uuid), uuid)]
            pooled(without_id(pool, pool[at].uuid), uuid) + seated(
                members.push(seat(pool[at], role)),
                uuid,
            ) == pooled(pool, uuid) + seated(members, uuid),
{
    let id = pool[at].uuid;
    lemma_first_true(id_flags(pool, id));
    assert(id_flags(pool, id)[at]);
    let first = first_with_id(pool, id).unwrap();
    assert(id_flags(pool, id)[first]);
    assert(pool[first].uuid == id);
    assert forall|uuid: Seq<char>|
        #![trigger pooled(without_id(pool, pool[at].uuid), uuid)]
        pooled(without_id(pool, id), uuid) + seated(members.push(seat(pool[at], role)), uuid)
            == pooled(pool, uuid) + seated(members, uuid) by {
        lemma_pooled_remove(pool, first, uuid);
        lemma_seated_push(members, seat(pool[at], role), uuid);
    }
}

} // verus!
