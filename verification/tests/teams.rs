use team_balancer::players::{Candidate, PlayerPool};
use team_balancer::roles::{Role, Roles, SimpleRole};
use team_balancer::teams::{Team, Teams, SLOTS_PER_ROLE};

fn role(kind: SimpleRole, rank: i32) -> Role {
    Role { kind, rank, priority: 3, primary: true, secondary: false }
}

fn candidate(id: &str, kind: SimpleRole, rank: i32) -> Candidate {
    Candidate::new(id.to_string(), id.to_string(), Roles(vec![role(kind, rank)]))
}

fn team_of(members: &[(&str, SimpleRole, i32)]) -> Team {
    let mut team = Team::new();
    for (id, kind, rank) in members {
        team.add_primary_player(&candidate(id, *kind, *rank));
    }
    team
}

fn teams_of(all: Vec<Team>) -> Teams {
    let mut teams = Teams::new();
    for team in all {
        teams.add_team(team);
    }
    teams
}

#[test]
fn a_team_has_two_seats_per_kind() {
    assert_eq!(SLOTS_PER_ROLE, 2);
    let team = team_of(&[("a", SimpleRole::Dps, 1), ("b", SimpleRole::Dps, 2), ("c", SimpleRole::Tank, 3)]);
    assert_eq!(team.size(), 3);
    assert_eq!(team.count_role(SimpleRole::Dps), 2);
    assert_eq!(team.count_role(SimpleRole::Tank), 1);
    assert_eq!(team.count_role(SimpleRole::Support), 0);
    assert!(!team.has_open_slot(SimpleRole::Dps));
    assert!(team.has_open_slot(SimpleRole::Tank));
    assert!(team.has_open_slot(SimpleRole::Support));
}

#[test]
fn add_player_seats_in_the_given_role() {
    let mut team = Team::new();
    let both = Candidate::new(
        "a".to_string(),
        "A".to_string(),
        Roles(vec![role(SimpleRole::Dps, 3000), role(SimpleRole::Support, 2000)]),
    );
    team.add_player(&both, &role(SimpleRole::Support, 2000));
    assert_eq!(team.size(), 1);
    assert_eq!(team.members[0].candidate.uuid, "a");
    assert_eq!(team.members[0].role.kind, SimpleRole::Support);
    assert_eq!(team.members[0].role.rank, 2000);
    team.add_primary_player(&both);
    assert_eq!(team.members[1].role.kind, SimpleRole::Dps);
    assert_eq!(team.members[1].role.rank, 3000);
}

#[test]
fn range_of_an_empty_team_lies_round_the_average() {
    assert_eq!(Team::new().get_range(100, 2500), (2400, 2600));
    assert_eq!(Team::new().get_range(0, -5), (-5, -5));
}

#[test]
fn range_of_a_team_makes_up_for_its_own_average() {
    let high = team_of(&[("a", SimpleRole::Dps, 3000), ("b", SimpleRole::Tank, 2600)]);
    assert_eq!(high.get_range(100, 2500), (2100, 2300));
    let low = team_of(&[("a", SimpleRole::Dps, 2000)]);
    assert_eq!(low.get_range(50, 2500), (2950, 3050));
    let odd = team_of(&[("a", SimpleRole::Dps, 2000), ("b", SimpleRole::Tank, 2001)]);
    assert_eq!(odd.get_range(0, 2000), (2000, 2000));
    let below = team_of(&[("a", SimpleRole::Dps, -2), ("b", SimpleRole::Tank, -1)]);
    assert_eq!(below.get_range(0, 0), (2, 2));
}

#[test]
fn range_is_cut_to_the_ranks_there_are() {
    assert_eq!(Team::new().get_range(u32::MAX, 0), (i32::MIN, i32::MAX));
    assert_eq!(Team::new().get_range(10, i32::MAX), (i32::MAX - 10, i32::MAX));
    let low = team_of(&[("a", SimpleRole::Dps, i32::MIN)]);
    assert_eq!(low.get_range(5, i32::MAX), (i32::MAX, i32::MAX));
    let high = team_of(&[("a", SimpleRole::Dps, i32::MAX)]);
    assert_eq!(high.get_range(5, i32::MIN), (i32::MIN, i32::MIN));
}

#[test]
fn find_mate_wants_a_member_of_the_same_kind() {
    let teams = teams_of(vec![
        team_of(&[("a", SimpleRole::Tank, 1)]),
        team_of(&[("b", SimpleRole::Dps, 1)]),
        team_of(&[("c", SimpleRole::Dps, 1)]),
    ]);
    assert_eq!(teams.find_mate(&candidate("x", SimpleRole::Dps, 5), 2), Some(1));
    assert_eq!(teams.find_mate(&candidate("x", SimpleRole::Tank, 5), 2), Some(0));
    assert_eq!(teams.find_mate(&candidate("x", SimpleRole::Support, 5), 2), None);
    assert_eq!(teams.find_mate(&candidate("x", SimpleRole::Dps, 5), 1), None);
}

#[test]
fn find_mate_passes_full_kinds_and_full_tiers() {
    let teams = teams_of(vec![
        team_of(&[("a", SimpleRole::Dps, 1), ("b", SimpleRole::Dps, 1)]),
        team_of(&[("c", SimpleRole::Dps, 1), ("d", SimpleRole::Tank, 1), ("e", SimpleRole::Tank, 1)]),
        team_of(&[("f", SimpleRole::Dps, 1), ("g", SimpleRole::Tank, 1)]),
    ]);
    assert_eq!(teams.find_mate(&candidate("x", SimpleRole::Dps, 5), 3), Some(2));
    assert_eq!(teams.find_mate(&candidate("x", SimpleRole::Dps, 5), 4), Some(1));
    assert_eq!(teams.find_mate(&candidate("x", SimpleRole::Dps, 5), 2), None);
}

#[test]
fn find_team_takes_the_first_with_room() {
    let teams = teams_of(vec![
        team_of(&[("a", SimpleRole::Dps, 1), ("b", SimpleRole::Dps, 1)]),
        team_of(&[("c", SimpleRole::Tank, 1)]),
        Team::new(),
    ]);
    assert_eq!(teams.find_team(2, &role(SimpleRole::Dps, 9)), Some(1));
    assert_eq!(teams.find_team(1, &role(SimpleRole::Dps, 9)), Some(2));
    assert_eq!(teams.find_team(3, &role(SimpleRole::Tank, 9)), Some(0));
    assert_eq!(teams.find_team(0, &role(SimpleRole::Tank, 9)), None);
    assert_eq!(Teams::new().find_team(2, &role(SimpleRole::Tank, 9)), None);
}

#[test]
fn find_perfect_ensign_completes_a_trio() {
    let teams = teams_of(vec![
        team_of(&[("a", SimpleRole::Dps, 1), ("b", SimpleRole::Dps, 1)]),
        team_of(&[("c", SimpleRole::Tank, 1)]),
        team_of(&[("d", SimpleRole::Tank, 1), ("e", SimpleRole::Support, 1)]),
        team_of(&[("f", SimpleRole::Dps, 1), ("g", SimpleRole::Tank, 1)]),
    ]);
    assert_eq!(teams.find_perfect_ensign(&candidate("x", SimpleRole::Dps, 5)), Some(2));
    assert_eq!(teams.find_perfect_ensign(&candidate("x", SimpleRole::Support, 5)), Some(3));
    assert_eq!(teams.find_perfect_ensign(&candidate("x", SimpleRole::Tank, 5)), None);
}

#[test]
fn lieutenant_team_prefers_a_mate() {
    let teams = teams_of(vec![
        team_of(&[("a", SimpleRole::Tank, 1)]),
        team_of(&[("b", SimpleRole::Dps, 1)]),
    ]);
    assert_eq!(teams.find_lieutenant_team(&candidate("x", SimpleRole::Dps, 5)), Some(1));
    assert_eq!(teams.find_lieutenant_team(&candidate("x", SimpleRole::Support, 5)), Some(0));
}

#[test]
fn ensign_team_prefers_a_trio_then_a_mate() {
    let teams = teams_of(vec![
        team_of(&[("a", SimpleRole::Dps, 1)]),
        team_of(&[("b", SimpleRole::Support, 1), ("c", SimpleRole::Tank, 1)]),
        team_of(&[("d", SimpleRole::Tank, 1), ("e", SimpleRole::Tank, 1)]),
    ]);
    assert_eq!(teams.find_ensign_team(&candidate("x", SimpleRole::Dps, 5)), Some(1));
    assert_eq!(teams.find_ensign_team(&candidate("x", SimpleRole::Support, 5)), Some(1));
    assert_eq!(teams.find_ensign_team(&candidate("x", SimpleRole::Tank, 5)), Some(1));
    let full = teams_of(vec![team_of(&[
        ("a", SimpleRole::Dps, 1),
        ("b", SimpleRole::Tank, 1),
        ("c", SimpleRole::Support, 1),
    ])]);
    assert_eq!(full.find_ensign_team(&candidate("x", SimpleRole::Dps, 5)), None);
}

#[test]
fn seat_primary_changes_one_team() {
    let mut teams = teams_of(vec![Team::new(), team_of(&[("a", SimpleRole::Tank, 1)])]);
    teams.seat_primary(1, &candidate("x", SimpleRole::Dps, 5));
    assert_eq!(teams.size(), 2);
    assert_eq!(teams.0[0].size(), 0);
    assert_eq!(teams.0[1].size(), 2);
    assert_eq!(teams.0[1].members[1].candidate.uuid, "x");
    assert_eq!(teams.0[1].members[1].role.kind, SimpleRole::Dps);
}

#[test]
fn replace_leftover_finds_team_and_replacement() {
    let teams = teams_of(vec![
        team_of(&[("a", SimpleRole::Dps, 2500)]),
        team_of(&[("b", SimpleRole::Tank, 3400), ("c", SimpleRole::Dps, 3000)]),
        team_of(&[("d", SimpleRole::Dps, 1000)]),
    ]);
    let db = PlayerPool(vec![
        candidate("t1", SimpleRole::Tank, 2500),
        candidate("far", SimpleRole::Dps, 3300),
        candidate("left", SimpleRole::Dps, 2500),
        candidate("near", SimpleRole::Dps, 2700),
        candidate("nearer", SimpleRole::Dps, 2600),
    ]);
    let leftover = candidate("left", SimpleRole::Support, 2000);
    let found = teams.replace_leftover(&leftover, &SimpleRole::Dps, (2000, 3000), &db, 400, 5000, 2);
    assert_eq!(found, Some((3, 1)));
    let other = candidate("other", SimpleRole::Support, 2000);
    let found = teams.replace_leftover(&other, &SimpleRole::Dps, (2000, 3000), &db, 400, 5000, 2);
    assert_eq!(found, Some((2, 1)));
    let found = teams.replace_leftover(&other, &SimpleRole::Dps, (2600, 3000), &db, 150, 5000, 2);
    assert_eq!(found, Some((4, 1)));
}

#[test]
fn replace_leftover_without_a_swap() {
    let teams = teams_of(vec![team_of(&[("a", SimpleRole::Dps, 2500)])]);
    let db = PlayerPool(vec![candidate("n", SimpleRole::Dps, 2600)]);
    let leftover = candidate("left", SimpleRole::Dps, 2000);
    assert_eq!(teams.replace_leftover(&leftover, &SimpleRole::Dps, (0, 5000), &db, 400, 2500, 1), None);
    assert_eq!(teams.replace_leftover(&leftover, &SimpleRole::Dps, (0, 5000), &db, 400, 3000, 1),
        Some((0, 0)));
    assert_eq!(teams.replace_leftover(&leftover, &SimpleRole::Dps, (0, 5000), &db, 400, 3000, 0), None);
    assert_eq!(teams.replace_leftover(&leftover, &SimpleRole::Dps, (0, 2599), &db, 400, 3000, 1), None);
    assert_eq!(teams.replace_leftover(&leftover, &SimpleRole::Dps, (0, 5000), &db, 399, 3000, 1), None);
    assert_eq!(teams.replace_leftover(&leftover, &SimpleRole::Tank, (0, 5000), &db, 400, 3000, 1), None);
    let nobody = PlayerPool(vec![Candidate::new("e".to_string(), "E".to_string(), Roles(vec![]))]);
    assert_eq!(teams.replace_leftover(&leftover, &SimpleRole::Dps, (0, 5000), &nobody, 400, 3000, 1), None);
}

#[test]
fn replace_leftover_rounds_the_average_down() {
    let teams = teams_of(vec![team_of(&[("a", SimpleRole::Dps, -10)])]);
    let db = PlayerPool(vec![candidate("n", SimpleRole::Dps, -1)]);
    let leftover = candidate("left", SimpleRole::Dps, 0);
    assert_eq!(teams.replace_leftover(&leftover, &SimpleRole::Dps, (-5, 5), &db, 1, -3, 2),
        Some((0, 0)));
    assert_eq!(teams.replace_leftover(&leftover, &SimpleRole::Dps, (-5, 5), &db, 0, -3, 2), None);
}
