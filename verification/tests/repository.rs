use team_balancer::players::{
    Candidate, ClassType, Classes, Identity, Player, PlayerPool, Players, Stats,
};
use team_balancer::roles::{Roles, SimpleRole};

fn class(rank: i32, priority: i16, is_active: bool) -> ClassType {
    ClassType { rank, priority, primary: false, secondary: false, is_active }
}

fn player(id: &str, captain: bool, squire: bool, dps: i32, tank: i32, support: i32) -> Player {
    Player {
        identity: Identity {
            uuid: id.to_string(),
            name: format!("name of {}", id),
            is_squire: squire,
            is_captain: captain,
        },
        stats: Stats {
            classes: Classes {
                dps: class(dps, 3, true),
                tank: class(tank, 2, true),
                support: class(support, 1, false),
            },
        },
        created_at: "2020-01-01".to_string(),
    }
}

fn ids(pool: &PlayerPool) -> Vec<String> {
    pool.collect_ids()
}

fn stored() -> Players {
    let mut players = Players::new();
    assert!(players.insert(player("p1", true, false, 1500, 1400, 0)).is_none());
    assert!(players.insert(player("p2", false, true, 1600, 1400, 0)).is_none());
    assert!(players.insert(player("p3", true, true, 1700, 1400, 0)).is_none());
    assert!(players.insert(player("p4", false, false, 1800, 1400, 0)).is_none());
    players
}

#[test]
fn candidate_from_player_takes_id_name_and_active_roles() {
    let source = player("p1", false, false, 1500, 1400, 1300);
    let candidate = Candidate::from(&source);
    assert_eq!(candidate.uuid, "p1");
    assert_eq!(candidate.name, "name of p1");
    assert_eq!(candidate.roles_count(), 2);
    assert_eq!(candidate.get_primary_role().kind, SimpleRole::Dps);
    assert_eq!(candidate.get_primary_role().rank, 1500);
    assert_eq!(candidate.roles.get(1).kind, SimpleRole::Tank);
}

#[test]
fn candidate_from_player_twice_is_the_same() {
    let source = player("p7", true, false, 2500, 2400, 2300);
    let first = Candidate::from(&source);
    let second = Candidate::from(&source);
    assert_eq!(first.uuid, second.uuid);
    assert_eq!(first.name, second.name);
    assert_eq!(first.roles.0, second.roles.0);
}

#[test]
fn primary_role_has_the_highest_priority() {
    let mut source = player("p1", false, false, 1500, 1400, 1300);
    source.stats.classes.support = class(1300, 8, true);
    let candidate = Candidate::from(&source);
    let primary = *candidate.get_primary_role();
    assert_eq!(primary.kind, SimpleRole::Support);
    assert_eq!(primary.priority, 8);
    for entry in &candidate.roles.0 {
        assert!(entry.priority <= primary.priority);
    }
}

#[test]
fn candidates_are_equal_by_id_alone() {
    let one = Candidate::new("same".to_string(), "One".to_string(), Roles(vec![]));
    let other = Candidate::from(&player("same", false, false, 1, 2, 3));
    let third = Candidate::new("else".to_string(), "One".to_string(), Roles(vec![]));
    assert!(one == other);
    assert!(one != third);
}

#[test]
fn candidate_clone_keeps_everything() {
    let source = Candidate::from(&player("p1", false, false, 1500, 1400, 1300));
    let copy = source.clone();
    assert_eq!(copy.uuid, source.uuid);
    assert_eq!(copy.name, source.name);
    assert_eq!(copy.roles.0, source.roles.0);
}

#[test]
fn players_start_empty() {
    assert_eq!(Players::new().len(), 0);
    assert_eq!(Players::default().len(), 0);
    assert_eq!(Players::new().get_captains().size(), 0);
}

#[test]
fn insert_keeps_one_player_per_id() {
    let mut players = stored();
    assert_eq!(players.len(), 4);
    let former = players.insert(player("p2", true, false, 9000, 1400, 0));
    assert_eq!(players.len(), 4);
    let former = former.expect("p2 was stored");
    assert_eq!(former.identity.uuid, "p2");
    assert!(!former.identity.is_captain);
    let now = players.get(&"p2".to_string()).expect("p2 is stored");
    assert!(now.identity.is_captain);
    assert_eq!(now.stats.classes.dps.rank, 9000);
    assert_eq!(ids(&players.get_captains()), vec!["p1", "p2", "p3"]);
}

#[test]
fn get_finds_by_id() {
    let players = stored();
    assert_eq!(players.get(&"p3".to_string()).map(|p| p.identity.name.clone()),
        Some("name of p3".to_string()));
    assert!(players.get(&"nobody".to_string()).is_none());
}

#[test]
fn get_captains_in_stored_order() {
    let pool = stored().get_captains();
    assert_eq!(ids(&pool), vec!["p1", "p3"]);
    assert_eq!(pool.0[1].get_primary_role().rank, 1700);
}

#[test]
fn get_squires_in_stored_order() {
    let pool = stored().get_squires();
    assert_eq!(ids(&pool), vec!["p2", "p3"]);
}

#[test]
fn feed_appends_all_but_the_excluded() {
    let players = stored();
    let mut pool = PlayerPool::default();
    pool.add_player(&player("p0", false, false, 1000, 900, 0));
    players.feed(&mut pool, &vec!["p1".to_string(), "p3".to_string(), "ghost".to_string()]);
    assert_eq!(ids(&pool), vec!["p0", "p2", "p4"]);
}

#[test]
fn feed_without_exclusions_appends_everybody() {
    let players = stored();
    let mut pool = PlayerPool::default();
    players.feed(&mut pool, &vec![]);
    assert_eq!(ids(&pool), vec!["p1", "p2", "p3", "p4"]);
}

#[test]
fn default_candidate_is_empty() {
    let candidate = Candidate::default();
    assert_eq!(candidate.uuid, "");
    assert_eq!(candidate.name, "");
    assert_eq!(candidate.roles_count(), 0);
    assert_eq!(Roles::default().count(), 0);
}
