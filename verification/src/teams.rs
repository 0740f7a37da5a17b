//! Teams under construction: who sits in which role slot, and the searches
//! the draft runs over them.

use vstd::prelude::*;

use crate::arith::{clamp_rank, clamp_to_rank, distance, floor_div};
use crate::players::{Candidate, CandidateView, PlayerPool};
use crate::roles::{Role, SimpleRole};
use crate::search::{first_true, lemma_first_true_is, lemma_first_true_none, position};

verus! {

/// How many members of one kind of role a team takes.
pub const SLOTS_PER_ROLE: usize = 2;

/// A seat in a team: the candidate and the role played there.
#[derive(Debug)]
pub struct Member {
    pub candidate: Candidate,
    pub role: Role,
}

pub struct MemberView {
    pub candidate: CandidateView,
    pub role: Role,
}

impl View for Member {
    type V = MemberView;

    open spec fn view(&self) -> MemberView {
        MemberView { candidate: self.candidate@, role: self.role }
    }
}

/// The number of seats of `kind` that are taken.
pub open spec fn occupancy(members: Seq<MemberView>, kind: SimpleRole) -> nat
    decreases members.len(),
{
    if members.len() == 0 {
        0
    } else {
        occupancy(members.drop_last(), kind) + if members.last().role.kind == kind {
            1nat
        } else {
            0nat
        }
    }
}

/// Whether a seat of `kind` is still free.
pub open spec fn has_open_slot(members: Seq<MemberView>, kind: SimpleRole) -> bool {
    occupancy(members, kind) < SLOTS_PER_ROLE
}

/// The seat that `candidate` takes when playing `role`.
pub open spec fn seat(candidate: CandidateView, role: Role) -> MemberView {
    MemberView { candidate, role }
}

/// The ranks of all members, added up.
pub open spec fn rank_sum(members: Seq<MemberView>) -> int
    decreases members.len(),
{
    if members.len() == 0 {
        0
    } else {
        rank_sum(members.drop_last()) + members.last().role.rank
    }
}

/// The middle of the window of ranks that a team takes next. An empty team
/// looks for the players' average; a team that has members looks as far on
/// the other side of that average as its own average, rounded down, lies
/// from it.
pub open spec fn range_center(members: Seq<MemberView>, players_average: i32) -> int {
    if members.len() == 0 {
        players_average as int
    } else {
        2 * players_average - rank_sum(members) / (members.len() as int)
    }
}

/// The ranks that a team takes next: within `tolerance` of its
/// [`range_center`], cut to the range of `i32`.
pub open spec fn acceptable_range(
    members: Seq<MemberView>,
    tolerance: u32,
    players_average: i32,
) -> (i32, i32) {
    let center = range_center(members, players_average);
    (clamp_rank(center - tolerance), clamp_rank(center + tolerance))
}

proof fn lemma_rank_sum_bounds(members: Seq<MemberView>)
    ensures
        -0x8000_0000 * members.len() <= rank_sum(members) <= 0x7fff_ffff * members.len(),
    decreases members.len(),
{
    if members.len() > 0 {
        lemma_rank_sum_bounds(members.drop_last());
    }
}

/// How far `rank` lies from `average`.
fn rank_distance(rank: i32, average: i128) -> (reach: i128)
    requires
        -0x8000_0000 <= average <= 0x7fff_ffff,
    ensures
        reach == distance(rank as int, average as int),
{
    let rank: i128 = rank as i128;
    if rank >= average {
        rank - average
    } else {
        average - rank
    }
}

/// One team: its members in the order in which they were seated.
#[derive(Debug)]
pub struct Team {
    pub members: Vec<Member>,
}

impl View for Team {
    type V = Seq<MemberView>;

    open spec fn view(&self) -> Seq<MemberView> {
        self.members@.map_values(|m: Member| m@)
    }
}

impl Team {
    pub fn new() -> (team: Team)
        ensures
            team@ == Seq::<MemberView>::empty(),
    {
        let team = Team { members: Vec::new() };
        assert(team@ =~= Seq::<MemberView>::empty());
        team
    }

    pub fn size(&self) -> (n: usize)
        ensures
            n == self@.len(),
    {
        self.members.len()
    }

    /// The number of members seated in a role of `kind`.
    pub fn count_role(&self, kind: SimpleRole) -> (n: usize)
        ensures
            n == occupancy(self@, kind),
    {
        let mut n: usize = 0;
        let mut i: usize = 0;
        while i < self.members.len()
            invariant
                i <= self.members.len(),
                n == occupancy(self@.take(i as int), kind),
                n <= i,
            decreases self.members.len() - i,
        {
            proof {
                assert(self@.take(i as int + 1).drop_last() =~= self@.take(i as int));
            }
            if self.members[i].role.kind == kind {
                n += 1;
            }
            i += 1;
        }
        proof {
            assert(self@.take(i as int) =~= self@);
        }
        n
    }

    pub fn has_open_slot(&self, kind: SimpleRole) -> (open: bool)
        ensures
            open == has_open_slot(self@, kind),
    {
        self.count_role(kind) < SLOTS_PER_ROLE
    }

    /// The ranks of all members, added up.
    fn rank_total(&self) -> (total: i128)
        ensures
            total == rank_sum(self@),
            -0x8000_0000 * self@.len() <= total <= 0x7fff_ffff * self@.len(),
    {
        let mut total: i128 = 0;
        let mut i: usize = 0;
        while i < self.members.len()
            invariant
                i <= self.members.len(),
                total == rank_sum(self@.take(i as int)),
                -0x8000_0000 * i <= total <= 0x7fff_ffff * i,
            decreases self.members.len() - i,
        {
            proof {
                assert(self@.take(i as int + 1).drop_last() =~= self@.take(i as int));
            }
            total = total + self.members[i].role.rank as i128;
            i += 1;
        }
        proof {
            assert(self@.take(i as int) =~= self@);
        }
        total
    }

    /// The window of ranks that the team takes next: see
    /// [`acceptable_range`].
    pub fn get_range(&self, tolerance: u32, players_average: i32) -> (range: (i32, i32))
        ensures
            range == acceptable_range(self@, tolerance, players_average),
    {
        let count: usize = self.members.len();
        let center: i128 = if count == 0 {
            players_average as i128
        } else {
            let total: i128 = self.rank_total();
            let own: i128 = floor_div(total, count as i128);
            proof {
                let n = count as int;
                assert(-0x8000_0000 <= total as int / n <= 0x7fff_ffff) by (nonlinear_arith)
                    requires
                        n > 0,
                        -0x8000_0000 * n <= total as int <= 0x7fff_ffff * n,
                ;
            }
            2 * (players_average as i128) - own
        };
        (clamp_to_rank(center - tolerance as i128), clamp_to_rank(center + tolerance as i128))
    }

    /// See [`has_worse_occupant`].
    fn has_worse_occupant(&self, kind: SimpleRole, average: i128, reach: i128) -> (worse: bool)
        requires
            -0x8000_0000 <= average <= 0x7fff_ffff,
        ensures
            worse == has_worse_occupant(self@, kind, average as int, reach as int),
    {
        let mut m: usize = 0;
        while m < self.members.len()
            invariant
                m <= self.members.len(),
                -0x8000_0000 <= average <= 0x7fff_ffff,
                forall|j: int|
                    0 <= j < m ==> !((#[trigger] self@[j]).role.kind == kind && distance(
                        self@[j].role.rank as int,
                        average as int,
                    ) > reach),
            decreases self.members.len() - m,
        {
            let role = &self.members[m].role;
            proof {
                assert(self@[m as int] == self.members@[m as int]@);
            }
            if role.kind == kind && rank_distance(role.rank, average) > reach {
                return true;
            }
            m += 1;
        }
        false
    }

    /// The first candidate of `db` that may replace and fits this team
    /// better than one of its members of `kind` does: see
    /// [`replacement_in`].
    fn find_replacement(
        &self,
        leftover: &Candidate,
        kind: SimpleRole,
        range: (i32, i32),
        db: &PlayerPool,
        tolerance: u32,
        average: i128,
    ) -> (found: Option<usize>)
        requires
            -0x8000_0000 <= average <= 0x7fff_ffff,
        ensures
            position(found) == replacement_in(
                self@,
                leftover@,
                kind,
                range,
                db@,
                tolerance,
                average as int,
            ),
    {
        let ghost flags = replacement_flags(
            self@,
            leftover@,
            kind,
            range,
            db@,
            tolerance,
            average as int,
        );
        let mut at: usize = 0;
        while at < db.0.len()
            invariant
                at <= db.0.len(),
                db.0@.len() == db@.len(),
                -0x8000_0000 <= average <= 0x7fff_ffff,
                flags == replacement_flags(
                    self@,
                    leftover@,
                    kind,
                    range,
                    db@,
                    tolerance,
                    average as int,
                ),
                forall|j: int| 0 <= j < at ==> !flags[j],
            decreases db.0.len() - at,
        {
            let candidate = &db.0[at];
            proof {
                assert(db@[at as int] == candidate@);
            }
            if candidate.roles_count() > 0 && candidate.uuid != leftover.uuid {
                let role = candidate.get_primary_role();
                if role.kind == kind && role.is_in_range(range) {
                    let reach: i128 = rank_distance(role.rank, average);
                    if reach <= tolerance as i128 && self.has_worse_occupant(
                        kind,
                        average,
                        reach,
                    ) {
                        proof {
                            lemma_first_true_is(flags, at as int);
                        }
                        return Some(at);
                    }
                }
            }
            at += 1;
        }
        proof {
            lemma_first_true_none(flags);
        }
        None
    }

    /// Seats `candidate` in its primary role.
    pub fn add_primary_player(&mut self, candidate: &Candidate)
        requires
            candidate@.roles.len() > 0,
        ensures
            final(self)@ == old(self)@.push(seat(candidate@, candidate@.roles[0])),
    {
        let role = *candidate.get_primary_role();
        self.add_player(candidate, &role);
    }

    /// Seats `candidate` in `role`.
    pub fn add_player(&mut self, candidate: &Candidate, role: &Role)
        ensures
            final(self)@ == old(self)@.push(seat(candidate@, *role)),
    {
        let member = Member { candidate: candidate.clone(), role: *role };
        self.members.push(member);
        assert(self@ =~= old(self)@.push(seat(candidate@, *role)));
    }
}

/// Whether a candidate whose primary role is of `kind` finds a mate in the
/// team: the team is below `tier` members, one of them plays that kind
/// already, and a seat of the kind is free.
pub open spec fn takes_mate(members: Seq<MemberView>, kind: SimpleRole, tier: usize) -> bool {
    members.len() < tier && occupancy(members, kind) > 0 && has_open_slot(members, kind)
}

/// Whether the team is below `tier` members and has a free seat of `kind`.
pub open spec fn takes_role(members: Seq<MemberView>, kind: SimpleRole, tier: usize) -> bool {
    members.len() < tier && has_open_slot(members, kind)
}

/// Whether a member of `kind` makes the team one of three that holds every
/// kind of role once.
pub open spec fn completes_trio(members: Seq<MemberView>, kind: SimpleRole) -> bool {
    &&& members.len() == 2
    &&& members[0].role.kind != members[1].role.kind
    &&& members[0].role.kind != kind
    &&& members[1].role.kind != kind
}

/// For each team, whether a candidate of `kind` finds a mate in it.
pub open spec fn mate_flags(teams: Seq<Seq<MemberView>>, kind: SimpleRole, tier: usize) -> Seq<
    bool,
> {
    Seq::new(teams.len(), |at: int| takes_mate(teams[at], kind, tier))
}

/// For each team, whether it is below `tier` members with a free seat of
/// `kind`.
pub open spec fn open_flags(teams: Seq<Seq<MemberView>>, kind: SimpleRole, tier: usize) -> Seq<
    bool,
> {
    Seq::new(teams.len(), |at: int| takes_role(teams[at], kind, tier))
}

/// For each team, whether a member of `kind` completes it to a trio.
pub open spec fn perfect_flags(teams: Seq<Seq<MemberView>>, kind: SimpleRole) -> Seq<bool> {
    Seq::new(teams.len(), |at: int| completes_trio(teams[at], kind))
}

/// The first team in which a candidate of `kind` finds a mate.
pub open spec fn mate_team(teams: Seq<Seq<MemberView>>, kind: SimpleRole, tier: usize) -> Option<
    int,
> {
    first_true(mate_flags(teams, kind, tier))
}

/// The first team below `tier` members with a free seat of `kind`.
pub open spec fn open_team(teams: Seq<Seq<MemberView>>, kind: SimpleRole, tier: usize) -> Option<
    int,
> {
    first_true(open_flags(teams, kind, tier))
}

/// The first team that a member of `kind` completes to a trio.
pub open spec fn perfect_team(teams: Seq<Seq<MemberView>>, kind: SimpleRole) -> Option<int> {
    first_true(perfect_flags(teams, kind))
}

/// `teams` after `member` has been seated in team `at`.
pub open spec fn after_seating(teams: Seq<Seq<MemberView>>, at: int, member: MemberView) -> Seq<
    Seq<MemberView>,
> {
    teams.update(at, teams[at].push(member))
}

/// For a candidate whose primary role is of `kind`: the team that the
/// second round of seeding gives it, a team with a mate before any other
/// team with a free seat.
pub open spec fn lieutenant_team(teams: Seq<Seq<MemberView>>, kind: SimpleRole) -> Option<int> {
    match mate_team(teams, kind, 2) {
        Some(at) => Some(at),
        None => open_team(teams, kind, 2),
    }
}

/// For a candidate whose primary role is of `kind`: the team that the
/// third round of seeding gives it, a team that it completes to a trio
/// before a team with a mate, and that before any other team with a free
/// seat.
pub open spec fn ensign_team(teams: Seq<Seq<MemberView>>, kind: SimpleRole) -> Option<int> {
    match perfect_team(teams, kind) {
        Some(at) => Some(at),
        None => match mate_team(teams, kind, 3) {
            Some(at) => Some(at),
            None => open_team(teams, kind, 3),
        },
    }
}

/// Whether the team holds, in a role of `kind`, a member whose rank lies
/// farther than `reach` from `average`.
pub open spec fn has_worse_occupant(
    members: Seq<MemberView>,
    kind: SimpleRole,
    average: int,
    reach: int,
) -> bool {
    exists|m: int|
        0 <= m < members.len() && (#[trigger] members[m]).role.kind == kind && distance(
            members[m].role.rank as int,
            average,
        ) > reach
}

/// Whether `candidate` may stand in where `leftover` found no seat: it is
/// another player, its primary role is of `kind` with a rank in `range`,
/// and that rank lies within `tolerance` of `average`.
pub open spec fn may_replace(
    candidate: CandidateView,
    leftover: CandidateView,
    kind: SimpleRole,
    range: (i32, i32),
    tolerance: u32,
    average: int,
) -> bool {
    &&& candidate.roles.len() > 0
    &&& candidate.uuid != leftover.uuid
    &&& candidate.roles[0].kind == kind
    &&& candidate.roles[0].in_range(range)
    &&& distance(candidate.roles[0].rank as int, average) <= tolerance
}

/// For each candidate of `db`, whether it may replace and fits the team
/// better than one of its members of `kind` does.
pub open spec fn replacement_flags(
    members: Seq<MemberView>,
    leftover: CandidateView,
    kind: SimpleRole,
    range: (i32, i32),
    db: Seq<CandidateView>,
    tolerance: u32,
    average: int,
) -> Seq<bool> {
    Seq::new(
        db.len(),
        |at: int|
            may_replace(db[at], leftover, kind, range, tolerance, average) && has_worse_occupant(
                members,
                kind,
                average,
                distance(db[at].roles[0].rank as int, average),
            ),
    )
}

/// The first candidate of `db` that may replace and fits the team better
/// than one of its members of `kind` does.
pub open spec fn replacement_in(
    members: Seq<MemberView>,
    leftover: CandidateView,
    kind: SimpleRole,
    range: (i32, i32),
    db: Seq<CandidateView>,
    tolerance: u32,
    average: int,
) -> Option<int> {
    first_true(replacement_flags(members, leftover, kind, range, db, tolerance, average))
}

/// For each team, whether `db` holds a replacement for it.
pub open spec fn swap_flags(
    teams: Seq<Seq<MemberView>>,
    leftover: CandidateView,
    kind: SimpleRole,
    range: (i32, i32),
    db: Seq<CandidateView>,
    tolerance: u32,
    average: int,
) -> Seq<bool> {
    Seq::new(
        teams.len(),
        |at: int|
            replacement_in(teams[at], leftover, kind, range, db, tolerance, average) is Some,
    )
}

/// The swap that makes up for `leftover`: the first team for which `db`
/// holds a replacement, and the first such candidate of `db`, as
/// (position in `db`, position of the team). The average that fit is
/// measured against is `total_sr / total_count`, rounded down; without
/// players counted there is no swap.
pub open spec fn replacement(
    teams: Seq<Seq<MemberView>>,
    leftover: CandidateView,
    kind: SimpleRole,
    range: (i32, i32),
    db: Seq<CandidateView>,
    tolerance: u32,
    total_sr: i32,
    total_count: usize,
) -> Option<(int, int)> {
    if total_count == 0 {
        None
    } else {
        let average = total_sr as int / total_count as int;
        match first_true(swap_flags(teams, leftover, kind, range, db, tolerance, average)) {
            Some(at) => Some(
                (
                    replacement_in(
                        teams[at],
                        leftover,
                        kind,
                        range,
                        db,
                        tolerance,
                        average,
                    ).unwrap(),
                    at,
                ),
            ),
            None => None,
        }
    }
}

/// All teams of one draft, in a fixed order.
#[derive(Debug)]
pub struct Teams(pub Vec<Team>);

impl View for Teams {
    type V = Seq<Seq<MemberView>>;

    open spec fn view(&self) -> Seq<Seq<MemberView>> {
        self.0@.map_values(|team: Team| team@)
    }
}

impl Teams {
    pub fn new() -> (teams: Teams)
        ensures
            teams@ == Seq::<Seq<MemberView>>::empty(),
    {
        let teams = Teams(Vec::new());
        assert(teams@ =~= Seq::<Seq<MemberView>>::empty());
        teams
    }

    pub fn size(&self) -> (n: usize)
        ensures
            n == self@.len(),
    {
        self.0.len()
    }

    /// Adds a team behind the others.
    pub fn add_team(&mut self, team: Team)
        ensures
            final(self)@ == old(self)@.push(team@),
    {
        self.0.push(team);
        assert(self@ =~= old(self)@.push(team@));
    }

    /// The first team in which `candidate` finds a mate for its primary
    /// role: see [`takes_mate`].
    pub fn find_mate(&self, candidate: &Candidate, tier: usize) -> (found: Option<usize>)
        requires
            candidate@.roles.len() > 0,
        ensures
            position(found) == mate_team(self@, candidate@.roles[0].kind, tier),
            found matches Some(at) ==> at < self@.len(),
    {
        let kind = candidate.get_primary_role().kind;
        let ghost flags = mate_flags(self@, kind, tier);
        let mut at: usize = 0;
        while at < self.0.len()
            invariant
                at <= self.0.len(),
                candidate@.roles.len() > 0,
                kind == candidate@.roles[0].kind,
                flags == mate_flags(self@, kind, tier),
                forall|j: int| 0 <= j < at ==> !flags[j],
            decreases self.0.len() - at,
        {
            let team = &self.0[at];
            if team.size() < tier && team.count_role(kind) > 0 && team.has_open_slot(kind) {
                proof {
                    assert(team@ == self@[at as int]);
                    lemma_first_true_is(flags, at as int);
                }
                return Some(at);
            }
            proof {
                assert(team@ == self@[at as int]);
            }
            at += 1;
        }
        proof {
            lemma_first_true_none(flags);
        }
        None
    }

    /// The first team below `tier` members with a free seat for `role`:
    /// see [`takes_role`].
    pub fn find_team(&self, tier: usize, role: &Role) -> (found: Option<usize>)
        ensures
            position(found) == open_team(self@, role.kind, tier),
            found matches Some(at) ==> at < self@.len(),
    {
        let kind = role.kind;
        let ghost flags = open_flags(self@, kind, tier);
        let mut at: usize = 0;
        while at < self.0.len()
            invariant
                at <= self.0.len(),
                kind == role.kind,
                flags == open_flags(self@, kind, tier),
                forall|j: int| 0 <= j < at ==> !flags[j],
            decreases self.0.len() - at,
        {
            let team = &self.0[at];
            if team.size() < tier && team.has_open_slot(kind) {
                proof {
                    assert(team@ == self@[at as int]);
                    lemma_first_true_is(flags, at as int);
                }
                return Some(at);
            }
            proof {
                assert(team@ == self@[at as int]);
            }
            at += 1;
        }
        proof {
            lemma_first_true_none(flags);
        }
        None
    }

    /// The first team of two that `candidate`, in its primary role,
    /// completes to a trio: see [`completes_trio`].
    pub fn find_perfect_ensign(&self, candidate: &Candidate) -> (found: Option<usize>)
        requires
            candidate@.roles.len() > 0,
        ensures
            position(found) == perfect_team(self@, candidate@.roles[0].kind),
            found matches Some(at) ==> at < self@.len(),
    {
        let kind = candidate.get_primary_role().kind;
        let ghost flags = perfect_flags(self@, kind);
        let mut at: usize = 0;
        while at < self.0.len()
            invariant
                at <= self.0.len(),
                candidate@.roles.len() > 0,
                kind == candidate@.roles[0].kind,
                flags == perfect_flags(self@, kind),
                forall|j: int| 0 <= j < at ==> !flags[j],
            decreases self.0.len() - at,
        {
            let team = &self.0[at];
            if team.size() == 2 {
                let first = team.members[0].role.kind;
                let second = team.members[1].role.kind;
                if first != second && first != kind && second != kind {
                    proof {
                        assert(team@ == self@[at as int]);
                        assert(team@[0] == team.members@[0]@);
                        assert(team@[1] == team.members@[1]@);
                        lemma_first_true_is(flags, at as int);
                    }
                    return Some(at);
                }
            }
            proof {
                assert(team@ == self@[at as int]);
            }
            at += 1;
        }
        proof {
            lemma_first_true_none(flags);
        }
        None
    }

    /// The team that the second round of seeding gives `candidate`: see
    /// [`lieutenant_team`].
    pub fn find_lieutenant_team(&self, candidate: &Candidate) -> (found: Option<usize>)
        requires
            candidate@.roles.len() > 0,
        ensures
            position(found) == lieutenant_team(self@, candidate@.roles[0].kind),
            found matches Some(at) ==> at < self@.len(),
    {
        match self.find_mate(candidate, 2) {
            Some(at) => Some(at),
            None => self.find_team(2, candidate.get_primary_role()),
        }
    }

    /// The team that the third round of seeding gives `candidate`: see
    /// [`ensign_team`].
    pub fn find_ensign_team(&self, candidate: &Candidate) -> (found: Option<usize>)
        requires
            candidate@.roles.len() > 0,
        ensures
            position(found) == ensign_team(self@, candidate@.roles[0].kind),
            found matches Some(at) ==> at < self@.len(),
    {
        match self.find_perfect_ensign(candidate) {
            Some(at) => Some(at),
            None => match self.find_mate(candidate, 3) {
                Some(at) => Some(at),
                None => self.find_team(3, candidate.get_primary_role()),
            },
        }
    }

    /// The swap that makes up for `leftover`, as (position in `db`,
    /// position of the team): see [`replacement`].
    pub fn replace_leftover(
        &self,
        leftover: &Candidate,
        role: &SimpleRole,
        range: (i32, i32),
        db: &PlayerPool,
        tolerance: u32,
        total_sr: i32,
        total_count: usize,
    ) -> (swap: Option<(usize, usize)>)
        ensures
            match swap {
                Some((drawn, at)) => replacement(
                    self@,
                    leftover@,
                    *role,
                    range,
                    db@,
                    tolerance,
                    total_sr,
                    total_count,
                ) == Some((drawn as int, at as int)),
                None => replacement(
                    self@,
                    leftover@,
                    *role,
                    range,
                    db@,
                    tolerance,
                    total_sr,
                    total_count,
                ) is None,
            },
    {
        if total_count == 0 {
            return None;
        }
        let average: i128 = floor_div(total_sr as i128, total_count as i128);
        proof {
            let n = total_count as int;
            assert(-0x8000_0000 <= total_sr as int / n <= 0x7fff_ffff) by (nonlinear_arith)
                requires
                    n > 0,
                    -0x8000_0000 <= total_sr as int <= 0x7fff_ffff,
            ;
        }
        let ghost flags = swap_flags(
            self@,
            leftover@,
            *role,
            range,
            db@,
            tolerance,
            average as int,
        );
        let mut at: usize = 0;
        while at < self.0.len()
            invariant
                at <= self.0.len(),
                self.0@.len() == self@.len(),
                -0x8000_0000 <= average <= 0x7fff_ffff,
                total_count != 0,
                average as int == total_sr as int / total_count as int,
                flags == swap_flags(
                    self@,
                    leftover@,
                    *role,
                    range,
                    db@,
                    tolerance,
                    average as int,
                ),
                forall|j: int| 0 <= j < at ==> !flags[j],
            decreases self.0.len() - at,
        {
            let team = &self.0[at];
            proof {
                assert(team@ == self@[at as int]);
            }
            match team.find_replacement(leftover, *role, range, db, tolerance, average) {
                Some(drawn) => {
                    proof {
                        lemma_first_true_is(flags, at as int);
                    }
                    return Some((drawn, at));
                },
                None => {},
            }
            at += 1;
        }
        proof {
            lemma_first_true_none(flags);
        }
        None
    }

    /// Seats `candidate`, in its primary role, in team `at`.
    pub fn seat_primary(&mut self, at: usize, candidate: &Candidate)
        requires
            at < old(self)@.len(),
            candidate@.roles.len() > 0,
        ensures
            final(self)@ == after_seating(
                old(self)@,
                at as int,
                seat(candidate@, candidate@.roles[0]),
            ),
    {
        self.0[at].add_primary_player(candidate);
        assert(self@ =~= after_seating(
            old(self)@,
            at as int,
            seat(candidate@, candidate@.roles[0]),
        ));
    }
}

} // verus!
