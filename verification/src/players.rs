//! Players as they are stored, the candidates drawn from them for one draft,
//! and the pool that the draft works through.

use rand::rngs::{OsRng, StdRng};
use rand::seq::SliceRandom;
use vstd::prelude::*;

use crate::roles::{class_of, lemma_ordered_roles, ordered_roles, priorities_fall, Role, Roles};
use crate::search::{first_true, lemma_first_true, lemma_first_true_is, lemma_first_true_none, position};
use crate::arith::floor_div;
use crate::census::{
    each_id_once, held, lemma_filling_keeps_ids, lemma_seating_keeps_ids, pooled, seated,
};
use crate::roles::{RolesFilter, SimpleRole};
use crate::teams::{
    acceptable_range, after_seating, ensign_team, has_open_slot, lieutenant_team, replacement,
    seat, MemberView, Team, Teams,
};

verus! {

/// Who a player is, and whether the player seeds a team as captain or squire.
#[derive(Debug)]
pub struct Identity {
    pub uuid: String,
    pub name: String,
    pub is_squire: bool,
    pub is_captain: bool,
}

/// What a player has recorded for one kind of role.
#[derive(Clone, Copy, Debug, PartialEq, Eq, Structural)]
pub struct ClassType {
    pub rank: i32,
    pub priority: i16,
    pub primary: bool,
    pub secondary: bool,
    pub is_active: bool,
}

#[derive(Clone, Copy, Debug, PartialEq, Eq, Structural)]
pub struct Classes {
    pub dps: ClassType,
    pub tank: ClassType,
    pub support: ClassType,
}

#[derive(Debug)]
pub struct Stats {
    pub classes: Classes,
}

/// A stored player.
#[derive(Debug)]
pub struct Player {
    pub identity: Identity,
    pub stats: Stats,
    pub created_at: String,
}

pub struct PlayerView {
    pub uuid: Seq<char>,
    pub name: Seq<char>,
    pub is_squire: bool,
    pub is_captain: bool,
    pub classes: Classes,
    pub created_at: Seq<char>,
}

impl View for Player {
    type V = PlayerView;

    open spec fn view(&self) -> PlayerView {
        PlayerView {
            uuid: self.identity.uuid@,
            name: self.identity.name@,
            is_squire: self.identity.is_squire,
            is_captain: self.identity.is_captain,
            classes: self.stats.classes,
            created_at: self.created_at@,
        }
    }
}

/// The stored players, each id once, in the order in which the ids came in.
#[derive(Debug)]
pub struct Players(Vec<Player>);

/// What a list of players holds, as the draft sees them.
pub open spec fn player_views(players: Seq<Player>) -> Seq<PlayerView> {
    players.map_values(|player: Player| player@)
}

impl View for Players {
    type V = Seq<PlayerView>;

    closed spec fn view(&self) -> Seq<PlayerView> {
        player_views(self.0@)
    }
}

/// What the draft keeps of a player: the id, the name and the active roles
/// by falling priority.
#[derive(Debug)]
pub struct Candidate {
    pub uuid: String,
    pub name: String,
    pub roles: Roles,
}

pub struct CandidateView {
    pub uuid: Seq<char>,
    pub name: Seq<char>,
    pub roles: Seq<Role>,
}

impl View for Candidate {
    type V = CandidateView;

    open spec fn view(&self) -> CandidateView {
        CandidateView { uuid: self.uuid@, name: self.name@, roles: self.roles@ }
    }
}

/// The candidate that stands for a stored player.
pub open spec fn projection(player: PlayerView) -> CandidateView {
    CandidateView { uuid: player.uuid, name: player.name, roles: ordered_roles(player.classes) }
}

/// A candidate the draft can work with: it has a role, and its roles are in
/// the order of falling priority.
pub open spec fn valid_candidate(candidate: CandidateView) -> bool {
    candidate.roles.len() > 0 && priorities_fall(candidate.roles)
}

/// The candidate of a player is fixed by the player: two candidates made
/// from one player have the same id, the same name and the same roles in
/// the same order.
pub proof fn lemma_projection_repeats(
    player: PlayerView,
    first: CandidateView,
    second: CandidateView,
)
    requires
        first == projection(player),
        second == projection(player),
    ensures
        first.uuid == player.uuid,
        first.name == player.name,
        first.uuid == second.uuid,
        first.name == second.name,
        first.roles == second.roles,
        first == second,
{
}

/// The candidate of a player with an active class is one the draft can
/// work with, and its primary role is the entry of an active class whose
/// priority no other active class of the player tops.
pub proof fn lemma_projection_primary(player: PlayerView)
    requires
        player.classes.dps.is_active || player.classes.tank.is_active
            || player.classes.support.is_active,
    ensures
        valid_candidate(projection(player)),
        class_of(player.classes, projection(player).roles[0].kind).is_active,
        projection(player).roles[0] == Role::of_class(
            projection(player).roles[0].kind,
            class_of(player.classes, projection(player).roles[0].kind),
        ),
        forall|kind: SimpleRole|
            (#[trigger] class_of(player.classes, kind)).is_active ==> class_of(
                player.classes,
                kind,
            ).priority <= projection(player).roles[0].priority,
{
    let roles = ordered_roles(player.classes);
    lemma_ordered_roles(player.classes);
    assert(roles.len() > 0);
    let primary = roles[0];
    assert forall|kind: SimpleRole|
        (#[trigger] class_of(player.classes, kind)).is_active implies class_of(
        player.classes,
        kind,
    ).priority <= primary.priority by {
        let entry = Role::of_class(kind, class_of(player.classes, kind));
        assert(roles.contains(entry));
        let at = choose|at: int| 0 <= at < roles.len() && roles[at] == entry;
        assert(roles[0].priority >= roles[at].priority);
    }
}

impl Clone for Candidate {
    fn clone(&self) -> (copy: Self)
        ensures
            copy@ == self@,
    {
        Candidate { uuid: self.uuid.clone(), name: self.name.clone(), roles: self.roles.clone() }
    }
}

/// Two candidates are equal when they have the same id, whatever else they
/// hold.
impl PartialEq for Candidate {
    fn eq(&self, other: &Self) -> (equal: bool) {
        self.uuid == other.uuid
    }
}

impl vstd::std_specs::cmp::PartialEqSpecImpl for Candidate {
    open spec fn obeys_eq_spec() -> bool {
        true
    }

    open spec fn eq_spec(&self, other: &Self) -> bool {
        self.uuid@ == other.uuid@
    }
}

impl From<&Player> for Candidate {
    /// The candidate that stands for `player`: its id, its name, and its
    /// active roles by falling priority.
    fn from(player: &Player) -> (candidate: Candidate)
        ensures
            candidate@ == projection(player@),
    {
        Candidate::new(
            player.identity.uuid.clone(),
            player.identity.name.clone(),
            Roles::from_classes(&player.stats.classes),
        )
    }
}

impl vstd::std_specs::convert::FromSpecImpl<&Player> for Candidate {
    open spec fn obeys_from_spec() -> bool {
        false
    }

    open spec fn from_spec(player: &Player) -> Candidate {
        arbitrary()
    }
}

impl Default for Candidate {
    /// A candidate without id, name or roles.
    fn default() -> (candidate: Self)
        ensures
            candidate@ == (CandidateView {
                uuid: Seq::<char>::empty(),
                name: Seq::<char>::empty(),
                roles: Seq::<Role>::empty(),
            }),
    {
        Candidate { uuid: String::new(), name: String::new(), roles: Roles::default() }
    }
}

impl Candidate {
    pub fn new(uuid: String, name: String, roles: Roles) -> (candidate: Candidate)
        ensures
            candidate@ == (CandidateView { uuid: uuid@, name: name@, roles: roles@ }),
    {
        Candidate { uuid, name, roles }
    }

    /// The role of highest priority.
    pub fn get_primary_role(&self) -> (role: &Role)
        requires
            self@.roles.len() > 0,
        ensures
            *role == self@.roles[0],
            priorities_fall(self@.roles) ==> forall|i: int|
                0 <= i < self@.roles.len() ==> self@.roles[i].priority <= role.priority,
    {
        self.roles.get_primary()
    }

    pub fn roles_count(&self) -> (n: usize)
        ensures
            n == self@.roles.len(),
    {
        self.roles.count()
    }
}

/// The candidates of those players that `pick` holds of, in the order of
/// the players.
pub open spec fn chosen(players: Seq<PlayerView>, pick: spec_fn(PlayerView) -> bool) -> Seq<
    CandidateView,
>
    decreases players.len(),
{
    if players.len() == 0 {
        Seq::empty()
    } else {
        let before = chosen(players.drop_last(), pick);
        if pick(players.last()) {
            before.push(projection(players.last()))
        } else {
            before
        }
    }
}

/// The candidates of the captains.
pub open spec fn captains(players: Seq<PlayerView>) -> Seq<CandidateView> {
    chosen(players, |player: PlayerView| player.is_captain)
}

/// The candidates of the squires.
pub open spec fn squires(players: Seq<PlayerView>) -> Seq<CandidateView> {
    chosen(players, |player: PlayerView| player.is_squire)
}

/// The candidates of the players whose id is not in `exclude`.
pub open spec fn fed(players: Seq<PlayerView>, exclude: Seq<Seq<char>>) -> Seq<CandidateView> {
    chosen(players, |player: PlayerView| !exclude.contains(player.uuid))
}

/// What a list of ids holds, as the draft compares them.
pub open spec fn ids_of(ids: Seq<String>) -> Seq<Seq<char>> {
    Seq::new(ids.len(), |i: int| ids[i]@)
}

/// Whether no two players have the same id.
pub open spec fn player_ids_distinct(players: Seq<PlayerView>) -> bool {
    forall|i: int, j: int|
        0 <= i < j < players.len() ==> (#[trigger] players[i]).uuid != (#[trigger] players[j]).uuid
}

/// Whether no two candidates have the same id.
pub open spec fn ids_distinct(pool: Seq<CandidateView>) -> bool {
    forall|i: int, j: int|
        0 <= i < j < pool.len() ==> (#[trigger] pool[i]).uuid != (#[trigger] pool[j]).uuid
}

/// Whether `candidate` stands for one of the players that `pick` holds of.
pub open spec fn stands_for_picked(
    players: Seq<PlayerView>,
    pick: spec_fn(PlayerView) -> bool,
    candidate: CandidateView,
) -> bool {
    exists|i: int|
        0 <= i < players.len() && pick(#[trigger] players[i]) && candidate == projection(
            players[i],
        )
}

/// Every chosen candidate stands for one of the players that `pick` holds
/// of, and players with different ids give candidates with different ids.
pub proof fn lemma_chosen(players: Seq<PlayerView>, pick: spec_fn(PlayerView) -> bool)
    ensures
        chosen(players, pick).len() <= players.len(),
        forall|k: int|
            0 <= k < chosen(players, pick).len() ==> stands_for_picked(
                players,
                pick,
                #[trigger] chosen(players, pick)[k],
            ),
        player_ids_distinct(players) ==> ids_distinct(chosen(players, pick)),
    decreases players.len(),
{
    if players.len() > 0 {
        let before = players.drop_last();
        let last = players.len() - 1;
        let out = chosen(players, pick);
        let inner = chosen(before, pick);
        lemma_chosen(before, pick);
        assert(players[last] == players.last());
        assert forall|k: int| 0 <= k < out.len() implies stands_for_picked(
            players,
            pick,
            #[trigger] out[k],
        ) by {
            if k < inner.len() {
                assert(out[k] == inner[k]);
                assert(stands_for_picked(before, pick, inner[k]));
                let i = choose|i: int|
                    0 <= i < before.len() && pick(#[trigger] before[i]) && inner[k] == projection(
                        before[i],
                    );
                assert(players[i] == before[i]);
            } else {
                assert(pick(players[last]) && out[k] == projection(players[last]));
            }
        }
        if player_ids_distinct(players) {
            assert(player_ids_distinct(before)) by {
                assert forall|i: int, j: int| 0 <= i < j < before.len() implies (
                #[trigger] before[i]).uuid != (#[trigger] before[j]).uuid by {
                    assert(players[i] == before[i]);
                    assert(players[j] == before[j]);
                }
            }
            assert forall|a: int, b: int| 0 <= a < b < out.len() implies (#[trigger] out[a]).uuid
                != (#[trigger] out[b]).uuid by {
                assert(out[a] == inner[a]);
                if b < inner.len() {
                    assert(out[b] == inner[b]);
                } else {
                    assert(stands_for_picked(before, pick, inner[a]));
                    let i = choose|i: int|
                        0 <= i < before.len() && pick(#[trigger] before[i]) && inner[a]
                            == projection(before[i]);
                    assert(players[i] == before[i]);
                    assert(out[b] == projection(players[last]));
                    assert(players[i].uuid != players[last].uuid);
                }
            }
        }
    }
}

/// Whether every candidate of the pool is one the draft can work with.
pub open spec fn pool_valid(pool: Seq<CandidateView>) -> bool {
    forall|i: int| 0 <= i < pool.len() ==> valid_candidate(#[trigger] pool[i])
}

/// For each candidate, whether its id is `uuid`.
pub open spec fn id_flags(pool: Seq<CandidateView>, uuid: Seq<char>) -> Seq<bool> {
    Seq::new(pool.len(), |i: int| pool[i].uuid == uuid)
}

/// The first candidate whose id is `uuid`.
pub open spec fn first_with_id(pool: Seq<CandidateView>, uuid: Seq<char>) -> Option<int> {
    first_true(id_flags(pool, uuid))
}

/// `pool` without the first candidate whose id is `uuid`.
pub open spec fn without_id(pool: Seq<CandidateView>, uuid: Seq<char>) -> Seq<CandidateView> {
    match first_with_id(pool, uuid) {
        Some(i) => pool.remove(i),
        None => pool,
    }
}

/// Whether the primary role of `candidate` has a rank in `range` and a free
/// seat in the team.
pub open spec fn primary_fits(
    candidate: CandidateView,
    team: Seq<MemberView>,
    range: (i32, i32),
) -> bool {
    candidate.roles[0].in_range(range) && has_open_slot(team, candidate.roles[0].kind)
}

/// For each candidate, whether its primary role fits.
pub open spec fn primary_fit_flags(
    pool: Seq<CandidateView>,
    team: Seq<MemberView>,
    range: (i32, i32),
) -> Seq<bool> {
    Seq::new(pool.len(), |i: int| primary_fits(pool[i], team, range))
}

/// For each role of `candidate`, whether it is another than the primary
/// one, with a rank in `range` and a free seat in the team.
pub open spec fn side_role_flags(
    candidate: CandidateView,
    team: Seq<MemberView>,
    range: (i32, i32),
) -> Seq<bool> {
    Seq::new(
        candidate.roles.len(),
        |k: int|
            k >= 1 && candidate.roles[k].in_range(range) && has_open_slot(
                team,
                candidate.roles[k].kind,
            ),
    )
}

/// The first role of `candidate` behind the primary one that fits.
pub open spec fn side_role(
    candidate: CandidateView,
    team: Seq<MemberView>,
    range: (i32, i32),
) -> Option<int> {
    first_true(side_role_flags(candidate, team, range))
}

/// For each candidate, whether one of its roles behind the primary one fits.
pub open spec fn side_fit_flags(
    pool: Seq<CandidateView>,
    team: Seq<MemberView>,
    range: (i32, i32),
) -> Seq<bool> {
    Seq::new(pool.len(), |i: int| side_role(pool[i], team, range) is Some)
}

/// Whom a team takes to fill up, and in which role: the first candidate
/// whose primary role fits; where there is none, the first candidate with
/// another role that fits, in the first such role.
pub open spec fn filler_choice(
    pool: Seq<CandidateView>,
    team: Seq<MemberView>,
    range: (i32, i32),
) -> Option<(int, Role)> {
    match first_true(primary_fit_flags(pool, team, range)) {
        Some(i) => Some((i, pool[i].roles[0])),
        None => match first_true(side_fit_flags(pool, team, range)) {
            Some(i) => Some((i, pool[i].roles[side_role(pool[i], team, range).unwrap()])),
            None => None,
        },
    }
}

/// For each candidate, whether it stands at `offset` or behind it and the
/// second round of seeding has a team for it.
pub open spec fn lieutenant_flags(
    pool: Seq<CandidateView>,
    teams: Seq<Seq<MemberView>>,
    offset: int,
) -> Seq<bool> {
    Seq::new(
        pool.len(),
        |i: int| offset <= i && lieutenant_team(teams, pool[i].roles[0].kind) is Some,
    )
}

/// For each candidate, whether it stands at `offset` or behind it and the
/// third round of seeding has a team for it.
pub open spec fn ensign_flags(
    pool: Seq<CandidateView>,
    teams: Seq<Seq<MemberView>>,
    offset: int,
) -> Seq<bool> {
    Seq::new(pool.len(), |i: int| offset <= i && ensign_team(teams, pool[i].roles[0].kind) is Some)
}

/// Where a round of seeding stops when it has seated nobody: at the end of
/// the pool, or at `offset` where that lies behind the end.
pub open spec fn exhausted_at(pool: Seq<CandidateView>, offset: int) -> int {
    if offset >= pool.len() {
        offset
    } else {
        pool.len() as int
    }
}

/// For each candidate, whether the teams have a swap that makes up for it.
pub open spec fn leftover_flags(
    pool: Seq<CandidateView>,
    teams: Seq<Seq<MemberView>>,
    kind: SimpleRole,
    range: (i32, i32),
    db: Seq<CandidateView>,
    tolerance: u32,
    total_sr: i32,
    total_count: usize,
) -> Seq<bool> {
    Seq::new(
        pool.len(),
        |i: int|
            replacement(
                teams,
                pool[i],
                kind,
                range,
                db,
                tolerance,
                total_sr,
                total_count,
            ) is Some,
    )
}

/// The two ways to order a pool by rank.
#[derive(Clone, Copy, Debug, PartialEq, Eq, Structural)]
pub enum Direction {
    /// The lowest rank first.
    ASC,
    /// The highest rank first.
    DESC,
}

/// Whether a candidate of rank `first` may stand before one of rank
/// `second`.
pub open spec fn in_order(first: i32, second: i32, direction: Direction) -> bool {
    match direction {
        Direction::ASC => first <= second,
        Direction::DESC => first >= second,
    }
}

/// Whether the primary ranks of the first `upto` candidates never fall
/// (`ASC`) or never rise (`DESC`).
pub open spec fn sorted_upto(pool: Seq<CandidateView>, upto: int, direction: Direction) -> bool {
    forall|i: int, j: int|
        0 <= i <= j < upto ==> in_order(
            (#[trigger] pool[i]).roles[0].rank,
            (#[trigger] pool[j]).roles[0].rank,
            direction,
        )
}

/// Whether the primary ranks never fall (`ASC`) or never rise (`DESC`)
/// along the pool.
pub open spec fn sorted_by_rank(pool: Seq<CandidateView>, direction: Direction) -> bool {
    sorted_upto(pool, pool.len() as int, direction)
}

/// The candidates whose primary rank is `rank`, in the order of the pool.
pub open spec fn with_rank(pool: Seq<CandidateView>, rank: i32) -> Seq<CandidateView>
    decreases pool.len(),
{
    if pool.len() == 0 {
        pool
    } else {
        let before = with_rank(pool.drop_last(), rank);
        if pool.last().roles[0].rank == rank {
            before.push(pool.last())
        } else {
            before
        }
    }
}

proof fn lemma_with_rank_add(front: Seq<CandidateView>, back: Seq<CandidateView>, rank: i32)
    ensures
        with_rank(front + back, rank) == with_rank(front, rank) + with_rank(back, rank),
    decreases back.len(),
{
    if back.len() == 0 {
        assert(front + back =~= front);
        assert(with_rank(front, rank) + with_rank(back, rank) =~= with_rank(front, rank));
    } else {
        assert((front + back).drop_last() =~= front + back.drop_last());
        lemma_with_rank_add(front, back.drop_last(), rank);
        assert((front + back).last() == back.last());
        if back.last().roles[0].rank == rank {
            assert(with_rank(front + back, rank) =~= with_rank(front, rank) + with_rank(
                back,
                rank,
            ));
        }
    }
}

proof fn lemma_with_rank_none(pool: Seq<CandidateView>, rank: i32)
    requires
        forall|k: int| 0 <= k < pool.len() ==> (#[trigger] pool[k]).roles[0].rank != rank,
    ensures
        with_rank(pool, rank) == Seq::<CandidateView>::empty(),
    decreases pool.len(),
{
    if pool.len() > 0 {
        let before = pool.drop_last();
        assert forall|k: int| 0 <= k < before.len() implies (#[trigger] before[k]).roles[0].rank
            != rank by {
            assert(before[k] == pool[k]);
        }
        lemma_with_rank_none(before, rank);
        assert(pool.last() == pool[pool.len() - 1]);
    }
}

/// Moving a candidate towards the front, past candidates of other primary
/// ranks only, changes neither who is in the pool nor the order among the
/// candidates of any one rank.
proof fn lemma_move_forward(pool: Seq<CandidateView>, from: int, to: int)
    requires
        0 <= to <= from < pool.len(),
        forall|k: int|
            to <= k < from ==> (#[trigger] pool[k]).roles[0].rank != pool[from].roles[0].rank,
    ensures
        pool.remove(from).insert(to, pool[from]).to_multiset() == pool.to_multiset(),
        forall|rank: i32|
            with_rank(pool.remove(from).insert(to, pool[from]), rank) == #[trigger] with_rank(
                pool,
                rank,
            ),
{
    broadcast use vstd::seq_lib::group_to_multiset_ensures;

    let moved = pool[from];
    let out = pool.remove(from).insert(to, moved);
    assert(pool.to_multiset().count(moved) > 0) by {
        assert(pool.contains(moved));
    }
    assert(pool.remove(from).to_multiset() =~= pool.to_multiset().remove(moved));
    assert(out.to_multiset() =~= pool.remove(from).to_multiset().insert(moved)) by {
        vstd::seq_lib::to_multiset_insert(pool.remove(from), to, moved);
    }
    assert(out.to_multiset() =~= pool.to_multiset());
    let front = pool.subrange(0, to);
    let passed = pool.subrange(to, from);
    let back = pool.subrange(from + 1, pool.len() as int);
    let one = seq![moved];
    assert(pool =~= ((front + passed) + one) + back);
    assert(out =~= ((front + one) + passed) + back);
    assert forall|rank: i32|
        with_rank(out, rank) == #[trigger] with_rank(pool, rank) by {
        lemma_with_rank_add((front + passed) + one, back, rank);
        lemma_with_rank_add(front + passed, one, rank);
        lemma_with_rank_add(front, passed, rank);
        lemma_with_rank_add((front + one) + passed, back, rank);
        lemma_with_rank_add(front + one, passed, rank);
        lemma_with_rank_add(front, one, rank);
        if moved.roles[0].rank == rank {
            assert forall|k: int| 0 <= k < passed.len() implies (
            #[trigger] passed[k]).roles[0].rank != rank by {
                assert(passed[k] == pool[to + k]);
            }
            lemma_with_rank_none(passed, rank);
        } else {
            lemma_with_rank_none(one, rank);
        }
        assert(with_rank(out, rank) =~= with_rank(pool, rank));
    }
}

/// A pool that holds the candidates of a pool of valid candidates holds
/// valid candidates.
proof fn lemma_same_candidates_valid(before: Seq<CandidateView>, after: Seq<CandidateView>)
    requires
        after.to_multiset() == before.to_multiset(),
    ensures
        pool_valid(before) ==> pool_valid(after),
{
    broadcast use vstd::seq_lib::group_to_multiset_ensures;

    if pool_valid(before) {
        assert forall|i: int| 0 <= i < after.len() implies valid_candidate(#[trigger] after[i]) by {
            assert(after.contains(after[i]));
            assert(after.to_multiset().count(after[i]) > 0);
            assert(before.contains(after[i]));
        }
    }
}

/// Whether `at` is one of `positions`.
pub open spec fn names(positions: Seq<usize>, at: int) -> bool {
    exists|k: int| 0 <= k < positions.len() && #[trigger] positions[k] == at
}

/// `pool` without the candidates at `positions`; the others stay in their
/// order. A position that the pool does not have names nobody.
pub open spec fn without_positions(pool: Seq<CandidateView>, positions: Seq<usize>) -> Seq<
    CandidateView,
>
    decreases pool.len(),
{
    if pool.len() == 0 {
        pool
    } else {
        let before = without_positions(pool.drop_last(), positions);
        if names(positions, pool.len() - 1) {
            before
        } else {
            before.push(pool.last())
        }
    }
}

/// Whether `candidate` stands in the pool at a kept position that has
/// `place` kept positions before it.
pub open spec fn kept_at(
    pool: Seq<CandidateView>,
    positions: Seq<usize>,
    candidate: CandidateView,
    place: int,
) -> bool {
    exists|i: int|
        0 <= i < pool.len() && !names(positions, i) && kept_below(positions, i) == place
            && #[trigger] pool[i] == candidate
}

/// How many of the first `below` positions are not among `positions`.
pub open spec fn kept_below(positions: Seq<usize>, below: int) -> int
    decreases below,
{
    if below <= 0 {
        0
    } else {
        kept_below(positions, below - 1) + if names(positions, below - 1) {
            0int
        } else {
            1int
        }
    }
}

/// The count of kept positions never falls, and rises behind each position
/// that is kept.
pub proof fn lemma_kept_below_rises(positions: Seq<usize>, low: int, high: int)
    requires
        0 <= low <= high,
    ensures
        0 <= kept_below(positions, low) <= kept_below(positions, high),
        kept_below(positions, low) <= low,
        low < high && !names(positions, low) ==> kept_below(positions, low) < kept_below(
            positions,
            high,
        ),
    decreases high,
{
    if low < high {
        lemma_kept_below_rises(positions, low, high - 1);
    } else if low > 0 {
        lemma_kept_below_rises(positions, low - 1, low - 1);
    }
}

/// Taking positions out removes the candidates at those positions and no
/// others, and the rest keep their order: the candidate at a kept position
/// `i` comes to stand at the place that counts the kept positions before
/// `i`, and every place of the result is filled that way.
pub proof fn lemma_without_positions(pool: Seq<CandidateView>, positions: Seq<usize>)
    ensures
        without_positions(pool, positions).len() == kept_below(positions, pool.len() as int),
        forall|i: int|
            #![trigger pool[i]]
            #![trigger names(positions, i)]
            0 <= i < pool.len() && !names(positions, i) ==> 0 <= kept_below(positions, i)
                < without_positions(pool, positions).len() && without_positions(
                pool,
                positions,
            )[kept_below(positions, i)] == pool[i],
        forall|i: int, j: int|
            0 <= i < j < pool.len() && !names(positions, i) && !names(positions, j)
                ==> #[trigger] kept_below(positions, i) < #[trigger] kept_below(positions, j),
        forall|k: int|
            0 <= k < without_positions(pool, positions).len() ==> kept_at(
                pool,
                positions,
                #[trigger] without_positions(pool, positions)[k],
                k,
            ),
    decreases pool.len(),
{
    let out = without_positions(pool, positions);
    if pool.len() > 0 {
        let last = pool.len() - 1;
        let before = pool.drop_last();
        let inner = without_positions(before, positions);
        lemma_without_positions(before, positions);
        assert(pool[last] == pool.last());
        assert forall|i: int|
            #![trigger pool[i]]
            #![trigger names(positions, i)]
            0 <= i < pool.len() && !names(positions, i) implies 0 <= kept_below(positions, i)
                < out.len() && out[kept_below(positions, i)] == pool[i] by {
            lemma_kept_below_rises(positions, i, pool.len() as int);
            if i < last {
                assert(pool[i] == before[i]);
                assert(out[kept_below(positions, i)] == inner[kept_below(positions, i)]);
            }
        }
        assert forall|k: int| 0 <= k < out.len() implies kept_at(
            pool,
            positions,
            #[trigger] out[k],
            k,
        ) by {
            if k < inner.len() {
                assert(out[k] == inner[k]);
                assert(kept_at(before, positions, inner[k], k));
                let i = choose|i: int|
                    0 <= i < before.len() && !names(positions, i) && kept_below(positions, i) == k
                        && #[trigger] before[i] == inner[k];
                assert(pool[i] == before[i]);
            } else {
                assert(out[k] == pool[last]);
            }
        }
    }
    assert forall|i: int, j: int|
        0 <= i < j < pool.len() && !names(positions, i) && !names(
            positions,
            j,
        ) implies #[trigger] kept_below(positions, i) < #[trigger] kept_below(positions, j) by {
        lemma_kept_below_rises(positions, i, j);
    }
}

/// The primary ranks of all candidates, added up.
pub open spec fn primary_rank_sum(pool: Seq<CandidateView>) -> int
    decreases pool.len(),
{
    if pool.len() == 0 {
        0
    } else {
        primary_rank_sum(pool.drop_last()) + pool.last().roles[0].rank
    }
}

/// The average primary rank of the pool and of `teams_count` players
/// seated already, whose ranks add up to `teams_sr`, rounded down.
pub open spec fn primary_average(pool: Seq<CandidateView>, teams_sr: i32, teams_count: usize) -> int {
    (primary_rank_sum(pool) + teams_sr) / (pool.len() + teams_count)
}

/// Why an average cannot be given.
#[derive(Clone, Copy, Debug, PartialEq, Eq, Structural)]
pub enum AverageError {
    /// Nobody is counted: neither the pool nor the teams hold a player.
    DivideByZero,
    /// The average lies outside the range of ranks.
    Overflow,
}

/// The candidates of one draft that are not yet seated, in the order in
/// which the draft looks at them.
#[derive(Debug)]
pub struct PlayerPool(pub Vec<Candidate>);

/// What a list of candidates holds, as the draft sees them.
pub open spec fn views_of(candidates: Seq<Candidate>) -> Seq<CandidateView> {
    candidates.map_values(|candidate: Candidate| candidate@)
}

impl View for PlayerPool {
    type V = Seq<CandidateView>;

    open spec fn view(&self) -> Seq<CandidateView> {
        views_of(self.0@)
    }
}

impl Players {
    #[verifier::type_invariant]
    spec fn each_id_once(self) -> bool {
        player_ids_distinct(self@)
    }

    pub fn new() -> (players: Players)
        ensures
            players@ == Seq::<PlayerView>::empty(),
    {
        let players = Players(Vec::new());
        assert(players@ =~= Seq::<PlayerView>::empty());
        players
    }

    pub fn len(&self) -> (n: usize)
        ensures
            n == self@.len(),
            player_ids_distinct(self@),
    {
        proof {
            use_type_invariant(self);
        }
        self.0.len()
    }

    /// All stored players, in the order in which they are stored.
    pub fn stored(&self) -> (all: &Vec<Player>)
        ensures
            player_views(all@) == self@,
            player_ids_distinct(self@),
    {
        proof {
            use_type_invariant(self);
        }
        &self.0
    }

    /// Where the player of id `uuid` is stored.
    fn position_of(&self, uuid: &String) -> (found: Option<usize>)
        ensures
            match found {
                Some(at) => at < self@.len() && self@[at as int].uuid == uuid@,
                None => forall|i: int| 0 <= i < self@.len() ==> self@[i].uuid != uuid@,
            },
    {
        let mut at: usize = 0;
        while at < self.0.len()
            invariant
                at <= self.0.len(),
                self.0@.len() == self@.len(),
                forall|i: int| 0 <= i < at ==> self@[i].uuid != uuid@,
            decreases self.0.len() - at,
        {
            proof {
                assert(self@[at as int] == self.0@[at as int]@);
            }
            if self.0[at].identity.uuid == *uuid {
                return Some(at);
            }
            at += 1;
        }
        None
    }

    /// Stores `player` under its id. A player stored under that id before
    /// gives way and is handed back; a new id goes behind all others.
    pub fn insert(&mut self, player: Player) -> (replaced: Option<Player>)
        ensures
            player_ids_distinct(old(self)@),
            player_ids_distinct(final(self)@),
            match replaced {
                Some(former) => exists|at: int|
                    0 <= at < old(self)@.len() && #[trigger] old(self)@[at] == former@
                        && former@.uuid == player@.uuid && final(self)@ == old(self)@.update(
                        at,
                        player@,
                    ),
                None => {
                    &&& forall|i: int|
                        0 <= i < old(self)@.len() ==> (#[trigger] old(self)@[i]).uuid
                            != player@.uuid
                    &&& final(self)@ == old(self)@.push(player@)
                },
            },
    {
        proof {
            use_type_invariant(&*self);
        }
        let found = self.position_of(&player.identity.uuid);
        let mut taken = Players(Vec::new());
        assert(taken@ =~= Seq::<PlayerView>::empty());
        std::mem::swap(self, &mut taken);
        let Players(mut entries) = taken;
        let ghost before = player_views(entries@);
        assert(before == old(self)@);
        match found {
            Some(at) => {
                let mut stored = player;
                std::mem::swap(&mut entries[at], &mut stored);
                proof {
                    let after = player_views(entries@);
                    assert(after =~= before.update(at as int, player@));
                    assert(before[at as int] == stored@);
                    assert forall|i: int, j: int| 0 <= i < j < after.len() implies (
                    #[trigger] after[i]).uuid != (#[trigger] after[j]).uuid by {
                        assert(after[i].uuid == before[i].uuid);
                        assert(after[j].uuid == before[j].uuid);
                    }
                }
                *self = Players(entries);
                Some(stored)
            },
            None => {
                entries.push(player);
                proof {
                    let after = player_views(entries@);
                    assert(after =~= before.push(player@));
                    assert forall|i: int, j: int| 0 <= i < j < after.len() implies (
                    #[trigger] after[i]).uuid != (#[trigger] after[j]).uuid by {
                        if j < before.len() {
                            assert(after[i] == before[i]);
                            assert(after[j] == before[j]);
                        } else {
                            assert(after[i] == before[i]);
                        }
                    }
                }
                *self = Players(entries);
                None
            },
        }
    }

    /// The player stored under `uuid`.
    pub fn get(&self, uuid: &String) -> (found: Option<&Player>)
        ensures
            match found {
                Some(player) => self@.contains(player@) && player@.uuid == uuid@,
                None => forall|i: int| 0 <= i < self@.len() ==> self@[i].uuid != uuid@,
            },
    {
        match self.position_of(uuid) {
            Some(at) => {
                proof {
                    assert(self@[at as int] == self.0@[at as int]@);
                }
                Some(&self.0[at])
            },
            None => None,
        }
    }

    /// A pool of the captains, in the order in which they are stored.
    pub fn get_captains(&self) -> (pool: PlayerPool)
        ensures
            pool@ == captains(self@),
            ids_distinct(pool@),
    {
        let mut pool = PlayerPool(Vec::new());
        let mut i: usize = 0;
        assert(pool@ =~= captains(self@.take(0)));
        while i < self.0.len()
            invariant
                i <= self.0.len(),
                self.0@.len() == self@.len(),
                pool@ == captains(self@.take(i as int)),
            decreases self.0.len() - i,
        {
            proof {
                assert(self@[i as int] == self.0@[i as int]@);
                assert(self@.take(i as int + 1).drop_last() =~= self@.take(i as int));
            }
            if self.0[i].identity.is_captain {
                pool.add_player(&self.0[i]);
            }
            i += 1;
        }
        proof {
            assert(self@.take(i as int) =~= self@);
            use_type_invariant(self);
            lemma_chosen(self@, |player: PlayerView| player.is_captain);
        }
        pool
    }

    /// A pool of the squires, in the order in which they are stored.
    pub fn get_squires(&self) -> (pool: PlayerPool)
        ensures
            pool@ == squires(self@),
            ids_distinct(pool@),
    {
        let mut pool = PlayerPool(Vec::new());
        let mut i: usize = 0;
        assert(pool@ =~= squires(self@.take(0)));
        while i < self.0.len()
            invariant
                i <= self.0.len(),
                self.0@.len() == self@.len(),
                pool@ == squires(self@.take(i as int)),
            decreases self.0.len() - i,
        {
            proof {
                assert(self@[i as int] == self.0@[i as int]@);
                assert(self@.take(i as int + 1).drop_last() =~= self@.take(i as int));
            }
            if self.0[i].identity.is_squire {
                pool.add_player(&self.0[i]);
            }
            i += 1;
        }
        proof {
            assert(self@.take(i as int) =~= self@);
            use_type_invariant(self);
            lemma_chosen(self@, |player: PlayerView| player.is_squire);
        }
        pool
    }

    /// Puts behind `pool`, in the order in which they are stored, the
    /// candidates of all players whose id is not in `exclude`.
    pub fn feed(&self, pool: &mut PlayerPool, exclude: &Vec<String>)
        ensures
            final(pool)@ == old(pool)@ + fed(self@, ids_of(exclude@)),
    {
        let mut i: usize = 0;
        assert(pool@ =~= old(pool)@ + fed(self@.take(0), ids_of(exclude@)));
        while i < self.0.len()
            invariant
                i <= self.0.len(),
                self.0@.len() == self@.len(),
                pool@ == old(pool)@ + fed(self@.take(i as int), ids_of(exclude@)),
            decreases self.0.len() - i,
        {
            proof {
                assert(self@[i as int] == self.0@[i as int]@);
                assert(self@.take(i as int + 1).drop_last() =~= self@.take(i as int));
            }
            if !holds_id(exclude, &self.0[i].identity.uuid) {
                pool.add_player(&self.0[i]);
                assert(pool@ =~= old(pool)@ + fed(self@.take(i as int + 1), ids_of(exclude@)));
            }
            i += 1;
        }
        proof {
            assert(self@.take(i as int) =~= self@);
        }
    }
}

/// Whether `uuid` is one of `ids`.
fn holds_id(ids: &Vec<String>, uuid: &String) -> (held: bool)
    ensures
        held == ids_of(ids@).contains(uuid@),
{
    let mut i: usize = 0;
    while i < ids.len()
        invariant
            i <= ids.len(),
            forall|j: int| 0 <= j < i ==> ids_of(ids@)[j] != uuid@,
        decreases ids.len() - i,
    {
        if ids[i] == *uuid {
            assert(ids_of(ids@)[i as int] == uuid@);
            return true;
        }
        i += 1;
    }
    false
}

/// A generator of random numbers that starts from a seed.
#[verifier::external_type_specification]
#[verifier::external_body]
pub struct ExStdRng(StdRng);

/// `SliceRandom::shuffle` of the crate rand on the candidates, drawing from
/// `OsRng`, the generator of the operating system. It only swaps two
/// candidates at a time, so the pool holds afterwards whom it held before,
/// each as often; in which order is left open. It panics only where the
/// operating system gives no random numbers.
#[verifier::external_body]
fn shuffle_from_system(pool: &mut PlayerPool)
    ensures
        final(pool)@.to_multiset() == old(pool)@.to_multiset(),
        final(pool)@.len() == old(pool)@.len(),
{
    pool.0.shuffle(&mut OsRng::default());
}

/// The order in which `SliceRandom::shuffle` of the crate rand leaves
/// `pool` when it draws from a generator in the state `rng`. Which order
/// that is, is not said: only that it is fixed by the pool and by the
/// state of the generator.
pub uninterp spec fn shuffled(pool: Seq<CandidateView>, rng: StdRng) -> Seq<CandidateView>;

/// `SliceRandom::shuffle` of the crate rand on the candidates, drawing from
/// `rng`. It swaps two candidates at a time, at positions that it draws
/// from `rng` and that depend on nothing but the length of the pool and
/// the state of the generator. So the order afterwards is fixed by the
/// pool and that state, and the pool holds whom it held before, each as
/// often.
#[verifier::external_body]
fn shuffle_from(pool: &mut PlayerPool, rng: &mut StdRng)
    ensures
        final(pool)@ == shuffled(old(pool)@, *old(rng)),
        final(pool)@.to_multiset() == old(pool)@.to_multiset(),
        final(pool)@.len() == old(pool)@.len(),
{
    pool.0.shuffle(rng);
}

/// Whether a candidate of rank `first` may stand before one of rank
/// `second`.
fn stays_before(first: i32, second: i32, direction: Direction) -> (stays: bool)
    ensures
        stays == in_order(first, second, direction),
{
    match direction {
        Direction::ASC => first <= second,
        Direction::DESC => first >= second,
    }
}

/// Whether `at` is one of `positions`.
fn holds_position(positions: &Vec<usize>, at: usize) -> (held: bool)
    ensures
        held == names(positions@, at as int),
{
    let mut k: usize = 0;
    while k < positions.len()
        invariant
            k <= positions.len(),
            forall|j: int| 0 <= j < k ==> positions@[j] != at,
        decreases positions.len() - k,
    {
        if positions[k] == at {
            return true;
        }
        k += 1;
    }
    false
}

impl Clone for PlayerPool {
    fn clone(&self) -> (copy: Self)
        ensures
            copy@ == self@,
    {
        let mut candidates: Vec<Candidate> = Vec::new();
        let mut i: usize = 0;
        while i < self.0.len()
            invariant
                i <= self.0.len(),
                self.0@.len() == self@.len(),
                views_of(candidates@) == self@.take(i as int),
            decreases self.0.len() - i,
        {
            proof {
                assert(self@[i as int] == self.0@[i as int]@);
            }
            let ghost before = candidates@;
            let copy = self.0[i].clone();
            candidates.push(copy);
            proof {
                assert(views_of(candidates@) =~= views_of(before).push(copy@));
                assert(self@.take(i as int + 1) =~= self@.take(i as int).push(self@[i as int]));
            }
            i += 1;
        }
        assert(self@.take(i as int) =~= self@);
        PlayerPool(candidates)
    }
}

impl Default for PlayerPool {
    fn default() -> (pool: Self)
        ensures
            pool@ == Seq::<CandidateView>::empty(),
    {
        let pool = PlayerPool(Vec::new());
        assert(pool@ =~= Seq::<CandidateView>::empty());
        pool
    }
}

impl Default for Players {
    fn default() -> (players: Self)
        ensures
            players@ == Seq::<PlayerView>::empty(),
    {
        Players::new()
    }
}

impl PlayerPool {
    pub fn size(&self) -> (n: usize)
        ensures
            n == self@.len(),
    {
        self.0.len()
    }

    /// Puts the candidate that stands for `player` at the end of the pool.
    pub fn add_player(&mut self, player: &Player)
        ensures
            final(self)@ == old(self)@.push(projection(player@)),
    {
        let candidate = Candidate::from(player);
        self.0.push(candidate);
        assert(self@ =~= old(self)@.push(projection(player@)));
    }

    /// Puts a copy of `candidate` at the end of the pool.
    pub fn add_candidate(&mut self, candidate: &Candidate)
        ensures
            final(self)@ == old(self)@.push(candidate@),
    {
        self.0.push(candidate.clone());
        assert(self@ =~= old(self)@.push(candidate@));
    }

    /// The ids of all candidates, in the order of the pool.
    pub fn collect_ids(&self) -> (ids: Vec<String>)
        ensures
            ids@.len() == self@.len(),
            forall|i: int| 0 <= i < self@.len() ==> (#[trigger] ids@[i])@ == self@[i].uuid,
    {
        let mut ids: Vec<String> = Vec::new();
        let mut i: usize = 0;
        while i < self.0.len()
            invariant
                i <= self.0.len(),
                self.0@.len() == self@.len(),
                ids@.len() == i,
                forall|j: int| 0 <= j < i ==> (#[trigger] ids@[j])@ == self@[j].uuid,
            decreases self.0.len() - i,
        {
            proof {
                assert(self@[i as int] == self.0@[i as int]@);
            }
            ids.push(self.0[i].uuid.clone());
            i += 1;
        }
        ids
    }

    /// The first candidate whose id is `uuid`.
    pub fn get_by_id(&self, uuid: String) -> (found: Option<&Candidate>)
        ensures
            match first_with_id(self@, uuid@) {
                Some(i) => found matches Some(candidate) && candidate@ == self@[i],
                None => found is None,
            },
    {
        let ghost flags = id_flags(self@, uuid@);
        let mut i: usize = 0;
        while i < self.0.len()
            invariant
                i <= self.0.len(),
                self.0@.len() == self@.len(),
                flags == id_flags(self@, uuid@),
                forall|j: int| 0 <= j < i ==> !flags[j],
            decreases self.0.len() - i,
        {
            proof {
                assert(self@[i as int] == self.0@[i as int]@);
            }
            if self.0[i].uuid == uuid {
                proof {
                    lemma_first_true_is(flags, i as int);
                }
                return Some(&self.0[i]);
            }
            i += 1;
        }
        proof {
            lemma_first_true_none(flags);
        }
        None
    }

    /// Orders the pool by primary rank: `ASC` with the lowest rank first,
    /// `DESC` with the highest. Nobody enters or leaves, and candidates of
    /// the same rank keep the order they had.
    pub fn sort_by_rank(&mut self, direction: Direction)
        requires
            pool_valid(old(self)@),
        ensures
            sorted_by_rank(final(self)@, direction),
            final(self)@.to_multiset() == old(self)@.to_multiset(),
            forall|rank: i32|
                with_rank(final(self)@, rank) == #[trigger] with_rank(old(self)@, rank),
            final(self)@.len() == old(self)@.len(),
            pool_valid(final(self)@),
    {
        let count: usize = self.0.len();
        let mut i: usize = 0;
        while i < count
            invariant
                i <= count,
                self.0@.len() == count,
                self@.len() == count,
                pool_valid(self@),
                sorted_upto(self@, i as int, direction),
                self@.to_multiset() == old(self)@.to_multiset(),
                forall|rank: i32|
                    with_rank(self@, rank) == #[trigger] with_rank(old(self)@, rank),
            decreases count - i,
        {
            let ghost before = self@;
            proof {
                assert(self@[i as int] == self.0@[i as int]@);
            }
            let rank: i32 = self.primary_rank_at(i);
            let mut to: usize = 0;
            while to < i && stays_before(self.primary_rank_at(to), rank, direction)
                invariant
                    to <= i < count,
                    self.0@.len() == count,
                    self@.len() == count,
                    self@ == before,
                    pool_valid(self@),
                    rank == self@[i as int].roles[0].rank,
                    forall|k: int|
                        0 <= k < to ==> in_order(
                            (#[trigger] self@[k]).roles[0].rank,
                            rank,
                            direction,
                        ),
                decreases i - to,
            {
                to += 1;
            }
            if to < i {
                proof {
                    assert(self@[to as int] == self.0@[to as int]@);
                    assert forall|k: int| to <= k < i implies (
                    #[trigger] before[k]).roles[0].rank != before[i as int].roles[0].rank by {
                        assert(in_order(
                            before[to as int].roles[0].rank,
                            before[k].roles[0].rank,
                            direction,
                        ));
                    }
                    lemma_move_forward(before, i as int, to as int);
                }
                let moved = self.0.remove(i);
                self.0.insert(to, moved);
                proof {
                    let after = before.remove(i as int).insert(to as int, before[i as int]);
                    assert(self@ =~= after);
                    assert forall|k: int| 0 <= k < after.len() implies valid_candidate(
                        #[trigger] after[k],
                    ) by {
                        if k < to {
                            assert(after[k] == before[k]);
                        } else if k == to {
                            assert(after[k] == before[i as int]);
                        } else if k <= i {
                            assert(after[k] == before[k - 1]);
                        } else {
                            assert(after[k] == before[k]);
                        }
                    }
                    assert forall|a: int, b: int| 0 <= a <= b < i + 1 implies in_order(
                        (#[trigger] after[a]).roles[0].rank,
                        (#[trigger] after[b]).roles[0].rank,
                        direction,
                    ) by {
                        let source_a = if a < to {
                            a
                        } else if a == to {
                            i as int
                        } else {
                            a - 1
                        };
                        let source_b = if b < to {
                            b
                        } else if b == to {
                            i as int
                        } else {
                            b - 1
                        };
                        assert(after[a] == before[source_a]);
                        assert(after[b] == before[source_b]);
                        if a == to && b > to {
                            assert(in_order(
                                before[to as int].roles[0].rank,
                                before[source_b].roles[0].rank,
                                direction,
                            ));
                        }
                    }
                }
            } else {
                proof {
                    assert forall|a: int, b: int| 0 <= a <= b < i + 1 implies in_order(
                        (#[trigger] self@[a]).roles[0].rank,
                        (#[trigger] self@[b]).roles[0].rank,
                        direction,
                    ) by {}
                }
            }
            i += 1;
        }
    }

    /// Puts the candidates in a random order, drawn from the operating
    /// system's generator. Nobody enters or leaves.
    pub fn shuffle(&mut self)
        ensures
            final(self)@.to_multiset() == old(self)@.to_multiset(),
            final(self)@.len() == old(self)@.len(),
            pool_valid(old(self)@) ==> pool_valid(final(self)@),
    {
        shuffle_from_system(self);
        proof {
            lemma_same_candidates_valid(old(self)@, self@);
        }
    }

    /// Puts the candidates in a random order, drawn from `rng`. Nobody
    /// enters or leaves, and the order is [`shuffled`]: the same pool and
    /// a generator in the same state give the same order again.
    pub fn shuffle_with(&mut self, rng: &mut StdRng)
        ensures
            final(self)@ == shuffled(old(self)@, *old(rng)),
            final(self)@.to_multiset() == old(self)@.to_multiset(),
            final(self)@.len() == old(self)@.len(),
            pool_valid(old(self)@) ==> pool_valid(final(self)@),
    {
        shuffle_from(self, rng);
        proof {
            lemma_same_candidates_valid(old(self)@, self@);
        }
    }

    /// The primary rank of the candidate at `at`.
    fn primary_rank_at(&self, at: usize) -> (rank: i32)
        requires
            at < self@.len(),
            pool_valid(self@),
        ensures
            rank == self@[at as int].roles[0].rank,
    {
        proof {
            assert(self@[at as int] == self.0@[at as int]@);
        }
        self.0[at].roles.get_primary_rank()
    }

    /// The positions of all candidates whose primary role is of a kind that
    /// `roles_filter` names, in rising order.
    pub fn filter_by_roles(&self, roles_filter: RolesFilter) -> (positions: Vec<usize>)
        requires
            pool_valid(self@),
        ensures
            forall|k: int|
                0 <= k < positions@.len() ==> (#[trigger] positions@[k]) < self@.len()
                    && roles_filter.admits(self@[positions@[k] as int].roles[0]),
            forall|k: int, l: int|
                0 <= k < l < positions@.len() ==> (#[trigger] positions@[k]) < (
                #[trigger] positions@[l]),
            forall|i: int|
                0 <= i < self@.len() && roles_filter.admits((#[trigger] self@[i]).roles[0])
                    ==> names(positions@, i),
    {
        let mut positions: Vec<usize> = Vec::new();
        let mut i: usize = 0;
        while i < self.0.len()
            invariant
                i <= self.0.len(),
                self.0@.len() == self@.len(),
                pool_valid(self@),
                forall|k: int|
                    0 <= k < positions@.len() ==> (#[trigger] positions@[k]) < i
                        && roles_filter.admits(self@[positions@[k] as int].roles[0]),
                forall|k: int, l: int|
                    0 <= k < l < positions@.len() ==> (#[trigger] positions@[k]) < (
                    #[trigger] positions@[l]),
                forall|j: int|
                    0 <= j < i && roles_filter.admits((#[trigger] self@[j]).roles[0]) ==> names(
                        positions@,
                        j,
                    ),
            decreases self.0.len() - i,
        {
            proof {
                assert(self@[i as int] == self.0@[i as int]@);
            }
            let ghost before = positions@;
            if roles_filter.has_same(self.0[i].get_primary_role()) {
                positions.push(i);
                proof {
                    assert(positions@[before.len() as int] == i);
                }
            }
            proof {
                assert forall|j: int|
                    0 <= j < i + 1 && roles_filter.admits(
                        (#[trigger] self@[j]).roles[0],
                    ) implies names(positions@, j) by {
                    if j < i {
                        let k = choose|k: int| 0 <= k < before.len() && #[trigger] before[k] == j;
                        assert(positions@[k] == j);
                    }
                }
            }
            i += 1;
        }
        positions
    }

    /// Takes out the candidates at the positions in `candidates`; the
    /// others stay in their order.
    pub fn dispose_of(&mut self, candidates: Vec<usize>)
        ensures
            final(self)@ == without_positions(old(self)@, candidates@),
    {
        let mut kept: Vec<Candidate> = Vec::new();
        let ghost mut kept_view: Seq<CandidateView> = Seq::empty();
        let mut i: usize = 0;
        while i < self.0.len()
            invariant
                i <= self.0.len(),
                self.0@.len() == self@.len(),
                *self == *old(self),
                kept_view == views_of(kept@),
                kept_view == without_positions(self@.take(i as int), candidates@),
            decreases self.0.len() - i,
        {
            proof {
                assert(self@[i as int] == self.0@[i as int]@);
                assert(self@.take(i as int + 1).drop_last() =~= self@.take(i as int));
            }
            if !holds_position(&candidates, i) {
                kept.push(self.0[i].clone());
                proof {
                    kept_view = kept_view.push(self@[i as int]);
                    assert(kept_view =~= views_of(kept@));
                }
            }
            i += 1;
        }
        proof {
            assert(self@.take(i as int) =~= self@);
        }
        self.0 = kept;
    }

    /// The average primary rank over this pool and the players that the
    /// teams hold already: the pool's primary ranks and `teams_sr` added
    /// up, divided by the number of candidates and `teams_count` together,
    /// rounded down.
    pub fn get_primary_average(&self, teams_sr: i32, teams_count: usize) -> (average: Result<
        i32,
        AverageError,
    >)
        requires
            pool_valid(self@),
        ensures
            match average {
                Ok(value) => self@.len() + teams_count > 0 && value == primary_average(
                    self@,
                    teams_sr,
                    teams_count,
                ),
                Err(AverageError::DivideByZero) => self@.len() + teams_count == 0,
                Err(AverageError::Overflow) => self@.len() + teams_count > 0 && !(i32::MIN
                    <= primary_average(self@, teams_sr, teams_count) <= i32::MAX),
            },
    {
        let mut sum: i128 = 0;
        let mut i: usize = 0;
        while i < self.0.len()
            invariant
                i <= self.0.len(),
                self.0@.len() == self@.len(),
                pool_valid(self@),
                sum == primary_rank_sum(self@.take(i as int)),
                -0x8000_0000 * i <= sum <= 0x7fff_ffff * i,
            decreases self.0.len() - i,
        {
            proof {
                assert(self@[i as int] == self.0@[i as int]@);
                assert(self@.take(i as int + 1).drop_last() =~= self@.take(i as int));
            }
            sum = sum + self.0[i].get_primary_role().decompose().1 as i128;
            i += 1;
        }
        proof {
            assert(self@.take(i as int) =~= self@);
        }
        let mutual_sum: i128 = sum + teams_sr as i128;
        let mutual_count: i128 = self.0.len() as i128 + teams_count as i128;
        if mutual_count == 0 {
            return Err(AverageError::DivideByZero);
        }
        let value: i128 = floor_div(mutual_sum, mutual_count);
        if value < -2147483648 || value > 2147483647 {
            return Err(AverageError::Overflow);
        }
        Ok(value as i32)
    }

    /// Fills one seat of `team` from the pool, if a candidate fits.
    ///
    /// The team names the ranks it takes (see [`acceptable_range`]). The
    /// candidate chosen is the one of [`filler_choice`]; it is seated, and
    /// the first candidate of that id leaves the pool. Where nobody fits,
    /// nothing changes.
    pub fn distribute_filler(&mut self, team: &mut Team, tolerance: u32, players_average: i32)
        requires
            pool_valid(old(self)@),
        ensures
            ({
                let range = acceptable_range(old(team)@, tolerance, players_average);
                match filler_choice(old(self)@, old(team)@, range) {
                    Some((i, role)) => {
                        &&& final(team)@ == old(team)@.push(seat(old(self)@[i], role))
                        &&& final(self)@ == without_id(old(self)@, old(self)@[i].uuid)
                    },
                    None => final(team)@ == old(team)@ && final(self)@ == old(self)@,
                }
            }),
            (final(team)@.len() == old(team)@.len() + 1 && final(self)@.len() + 1 == old(
                self,
            )@.len()) || (final(team)@ == old(team)@ && final(self)@ == old(self)@),
            pool_valid(final(self)@),
            forall|uuid: Seq<char>|
                #![trigger pooled(final(self)@, uuid)]
                pooled(final(self)@, uuid) + seated(final(team)@, uuid) == pooled(
                    old(self)@,
                    uuid,
                ) + seated(old(team)@, uuid),
    {
        let range = team.get_range(tolerance, players_average);
        match self.filter_range(range, team) {
            Some(i) => {
                let chosen = self.0[i].clone();
                proof {
                    assert(self@[i as int] == chosen@);
                }
                team.add_primary_player(&chosen);
                self.remove_candidate(&chosen);
                proof {
                    lemma_first_true(id_flags(old(self)@, chosen@.uuid));
                    assert(id_flags(old(self)@, chosen@.uuid)[i as int]);
                    lemma_filling_keeps_ids(old(self)@, old(team)@, i as int, chosen@.roles[0]);
                }
            },
            None => {
                match self.find_side_fit(range, team) {
                    Some((i, k)) => {
                        let chosen = self.0[i].clone();
                        proof {
                            assert(self@[i as int] == chosen@);
                        }
                        let role = *chosen.roles.get(k);
                        team.add_player(&chosen, &role);
                        self.remove_candidate(&chosen);
                        proof {
                            lemma_first_true(id_flags(old(self)@, chosen@.uuid));
                            assert(id_flags(old(self)@, chosen@.uuid)[i as int]);
                            lemma_filling_keeps_ids(old(self)@, old(team)@, i as int, role);
                        }
                    },
                    None => {},
                }
            },
        }
    }

    /// Looks for the first candidate left in this pool for which the teams
    /// have a swap (see [`replacement`]), and gives the position of the
    /// replacement in `db`, the position of the team, and the candidate.
    /// Nothing is changed.
    pub fn distribute_replacement(
        &self,
        role: SimpleRole,
        range: (i32, i32),
        teams: &Teams,
        db: &PlayerPool,
        tolerance: u32,
        total_sr: i32,
        total_count: usize,
    ) -> (found: Option<(usize, usize, &Candidate)>)
        ensures
            match first_true(
                leftover_flags(
                    self@,
                    teams@,
                    role,
                    range,
                    db@,
                    tolerance,
                    total_sr,
                    total_count,
                ),
            ) {
                Some(i) => {
                    &&& found matches Some((drawn, slot, leftover))
                    &&& leftover@ == self@[i]
                    &&& replacement(
                        teams@,
                        self@[i],
                        role,
                        range,
                        db@,
                        tolerance,
                        total_sr,
                        total_count,
                    ) == Some((drawn as int, slot as int))
                },
                None => found is None,
            },
    {
        let ghost flags = leftover_flags(
            self@,
            teams@,
            role,
            range,
            db@,
            tolerance,
            total_sr,
            total_count,
        );
        let mut i: usize = 0;
        while i < self.0.len()
            invariant
                i <= self.0.len(),
                self.0@.len() == self@.len(),
                flags == leftover_flags(
                    self@,
                    teams@,
                    role,
                    range,
                    db@,
                    tolerance,
                    total_sr,
                    total_count,
                ),
                forall|j: int| 0 <= j < i ==> !flags[j],
            decreases self.0.len() - i,
        {
            let leftover = &self.0[i];
            proof {
                assert(self@[i as int] == leftover@);
            }
            let lost = teams.replace_leftover(
                leftover,
                &role,
                range,
                db,
                tolerance,
                total_sr,
                total_count,
            );
            match lost {
                Some((drawn, slot)) => {
                    proof {
                        lemma_first_true_is(flags, i as int);
                    }
                    return Some((drawn, slot, leftover));
                },
                None => {},
            }
            i += 1;
        }
        proof {
            lemma_first_true_none(flags);
        }
        None
    }

    /// The second round of seeding, for one candidate.
    ///
    /// Looks from `offset` on for the first candidate that a team takes as
    /// second member (see [`lieutenant_team`]), seats it there in its
    /// primary role, takes it out of the pool and gives its position. Where
    /// no candidate is taken, nothing changes and the result is
    /// [`exhausted_at`], which is not a position of the pool.
    pub fn distribute_leutenant(&mut self, teams: &mut Teams, offset: usize) -> (at: usize)
        requires
            pool_valid(old(self)@),
        ensures
            match first_true(lieutenant_flags(old(self)@, old(teams)@, offset as int)) {
                Some(i) => {
                    &&& at == i
                    &&& final(self)@ == old(self)@.remove(i)
                    &&& final(teams)@ == after_seating(
                        old(teams)@,
                        lieutenant_team(old(teams)@, old(self)@[i].roles[0].kind).unwrap(),
                        seat(old(self)@[i], old(self)@[i].roles[0]),
                    )
                },
                None => {
                    &&& at == exhausted_at(old(self)@, offset as int)
                    &&& final(self)@ == old(self)@
                    &&& final(teams)@ == old(teams)@
                },
            },
            pool_valid(final(self)@),
            forall|uuid: Seq<char>|
                #[trigger] held(final(self)@, final(teams)@, uuid) == held(
                    old(self)@,
                    old(teams)@,
                    uuid,
                ),
            each_id_once(old(self)@, old(teams)@) ==> each_id_once(final(self)@, final(teams)@),
    {
        let ghost flags = lieutenant_flags(self@, teams@, offset as int);
        let mut at: usize = offset;
        while at < self.0.len()
            invariant
                offset <= at,
                at == offset || at <= self.0.len(),
                self.0@.len() == self@.len(),
                *self == *old(self),
                *teams == *old(teams),
                pool_valid(self@),
                flags == lieutenant_flags(self@, teams@, offset as int),
                forall|j: int| 0 <= j < at && j < flags.len() ==> !flags[j],
            decreases self.0.len() - at,
        {
            proof {
                assert(self@[at as int] == self.0@[at as int]@);
            }
            match teams.find_lieutenant_team(&self.0[at]) {
                Some(team) => {
                    proof {
                        lemma_first_true_is(flags, at as int);
                        lemma_seating_keeps_ids(
                            self@,
                            teams@,
                            at as int,
                            team as int,
                            self@[at as int].roles[0],
                        );
                    }
                    return self.add_player_to_team(teams, team, at);
                },
                None => {},
            }
            at += 1;
        }
        proof {
            lemma_first_true_none(flags);
        }
        at
    }

    /// The third round of seeding, for one candidate.
    ///
    /// Looks from `offset` on for the first candidate that a team takes as
    /// third member (see [`ensign_team`]), seats it there in its primary
    /// role, takes it out of the pool and gives its position. Where no
    /// candidate is taken, nothing changes and the result is
    /// [`exhausted_at`], which is not a position of the pool.
    pub fn distribute_ensign(&mut self, teams: &mut Teams, offset: usize) -> (at: usize)
        requires
            pool_valid(old(self)@),
        ensures
            match first_true(ensign_flags(old(self)@, old(teams)@, offset as int)) {
                Some(i) => {
                    &&& at == i
                    &&& final(self)@ == old(self)@.remove(i)
                    &&& final(teams)@ == after_seating(
                        old(teams)@,
                        ensign_team(old(teams)@, old(self)@[i].roles[0].kind).unwrap(),
                        seat(old(self)@[i], old(self)@[i].roles[0]),
                    )
                },
                None => {
                    &&& at == exhausted_at(old(self)@, offset as int)
                    &&& final(self)@ == old(self)@
                    &&& final(teams)@ == old(teams)@
                },
            },
            pool_valid(final(self)@),
            forall|uuid: Seq<char>|
                #[trigger] held(final(self)@, final(teams)@, uuid) == held(
                    old(self)@,
                    old(teams)@,
                    uuid,
                ),
            each_id_once(old(self)@, old(teams)@) ==> each_id_once(final(self)@, final(teams)@),
    {
        let ghost flags = ensign_flags(self@, teams@, offset as int);
        let mut at: usize = offset;
        while at < self.0.len()
            invariant
                offset <= at,
                at == offset || at <= self.0.len(),
                self.0@.len() == self@.len(),
                *self == *old(self),
                *teams == *old(teams),
                pool_valid(self@),
                flags == ensign_flags(self@, teams@, offset as int),
                forall|j: int| 0 <= j < at && j < flags.len() ==> !flags[j],
            decreases self.0.len() - at,
        {
            proof {
                assert(self@[at as int] == self.0@[at as int]@);
            }
            match teams.find_ensign_team(&self.0[at]) {
                Some(team) => {
                    proof {
                        lemma_first_true_is(flags, at as int);
                        lemma_seating_keeps_ids(
                            self@,
                            teams@,
                            at as int,
                            team as int,
                            self@[at as int].roles[0],
                        );
                    }
                    return self.add_player_to_team(teams, team, at);
                },
                None => {},
            }
            at += 1;
        }
        proof {
            lemma_first_true_none(flags);
        }
        at
    }

    /// Seats the candidate at `offset` in team `team`, in its primary role,
    /// and takes it out of the pool.
    fn add_player_to_team(&mut self, teams: &mut Teams, team: usize, offset: usize) -> (at: usize)
        requires
            offset < old(self)@.len(),
            team < old(teams)@.len(),
            old(self)@[offset as int].roles.len() > 0,
        ensures
            at == offset,
            final(self)@ == old(self)@.remove(offset as int),
            final(teams)@ == after_seating(
                old(teams)@,
                team as int,
                seat(old(self)@[offset as int], old(self)@[offset as int].roles[0]),
            ),
    {
        proof {
            assert(self@[offset as int] == self.0@[offset as int]@);
        }
        teams.seat_primary(team, &self.0[offset]);
        self.0.remove(offset);
        assert(self@ =~= old(self)@.remove(offset as int));
        offset
    }

    /// Takes the first candidate with the id of `candidate` out of the
    /// pool.
    fn remove_candidate(&mut self, candidate: &Candidate)
        ensures
            final(self)@ == without_id(old(self)@, candidate@.uuid),
    {
        let ghost flags = id_flags(self@, candidate@.uuid);
        let mut i: usize = 0;
        while i < self.0.len()
            invariant
                i <= self.0.len(),
                self.0@.len() == self@.len(),
                *self == *old(self),
                flags == id_flags(self@, candidate@.uuid),
                forall|j: int| 0 <= j < i ==> !flags[j],
            decreases self.0.len() - i,
        {
            proof {
                assert(self@[i as int] == self.0@[i as int]@);
            }
            if self.0[i].eq(candidate) {
                proof {
                    lemma_first_true_is(flags, i as int);
                }
                self.0.remove(i);
                assert(self@ =~= old(self)@.remove(i as int));
                return ;
            }
            i += 1;
        }
        proof {
            lemma_first_true_none(flags);
        }
    }

    /// The first candidate whose primary role has a rank in `range` and a
    /// free seat in `team`.
    fn filter_range(&self, range: (i32, i32), team: &Team) -> (found: Option<usize>)
        requires
            pool_valid(self@),
        ensures
            position(found) == first_true(primary_fit_flags(self@, team@, range)),
            found matches Some(i) ==> i < self@.len(),
    {
        let ghost flags = primary_fit_flags(self@, team@, range);
        let mut i: usize = 0;
        while i < self.0.len()
            invariant
                i <= self.0.len(),
                self.0@.len() == self@.len(),
                pool_valid(self@),
                flags == primary_fit_flags(self@, team@, range),
                forall|j: int| 0 <= j < i ==> !flags[j],
            decreases self.0.len() - i,
        {
            proof {
                assert(self@[i as int] == self.0@[i as int]@);
            }
            let role = self.0[i].get_primary_role();
            if role.is_in_range(range) && role.fits_team(team) {
                proof {
                    lemma_first_true_is(flags, i as int);
                }
                return Some(i);
            }
            i += 1;
        }
        proof {
            lemma_first_true_none(flags);
        }
        None
    }

    /// The first role of `candidate` behind the primary one that has a
    /// rank in `range` and a free seat in `team`.
    fn find_side_role(candidate: &Candidate, range: (i32, i32), team: &Team) -> (found: Option<
        usize,
    >)
        ensures
            position(found) == side_role(candidate@, team@, range),
    {
        let ghost flags = side_role_flags(candidate@, team@, range);
        let count: usize = candidate.roles_count();
        let mut k: usize = 1;
        if count == 0 {
            proof {
                lemma_first_true_none(flags);
            }
            return None;
        }
        while k < count
            invariant
                1 <= k <= count,
                count == candidate@.roles.len(),
                flags == side_role_flags(candidate@, team@, range),
                forall|j: int| 0 <= j < k ==> !flags[j],
            decreases count - k,
        {
            let role = candidate.roles.get(k);
            if role.is_in_range(range) && role.fits_team(team) {
                proof {
                    lemma_first_true_is(flags, k as int);
                }
                return Some(k);
            }
            k += 1;
        }
        proof {
            lemma_first_true_none(flags);
        }
        None
    }

    /// The first candidate with a role behind the primary one that fits,
    /// and the first such role.
    fn find_side_fit(&self, range: (i32, i32), team: &Team) -> (found: Option<(usize, usize)>)
        ensures
            match found {
                Some((i, k)) => {
                    &&& first_true(side_fit_flags(self@, team@, range)) == Some(i as int)
                    &&& side_role(self@[i as int], team@, range) == Some(k as int)
                    &&& i < self@.len()
                    &&& k < self@[i as int].roles.len()
                },
                None => first_true(side_fit_flags(self@, team@, range)) is None,
            },
    {
        let ghost flags = side_fit_flags(self@, team@, range);
        let mut i: usize = 0;
        while i < self.0.len()
            invariant
                i <= self.0.len(),
                self.0@.len() == self@.len(),
                flags == side_fit_flags(self@, team@, range),
                forall|j: int| 0 <= j < i ==> !flags[j],
            decreases self.0.len() - i,
        {
            proof {
                assert(self@[i as int] == self.0@[i as int]@);
            }
            match Self::find_side_role(&self.0[i], range, team) {
                Some(k) => {
                    proof {
                        lemma_first_true_is(flags, i as int);
                        lemma_first_true(side_role_flags(self@[i as int], team@, range));
                    }
                    return Some((i, k));
                },
                None => {},
            }
            i += 1;
        }
        proof {
            lemma_first_true_none(flags);
        }
        None
    }
}

} // verus!
