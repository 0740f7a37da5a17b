use rand::rngs::StdRng;
use rand::SeedableRng;
use team_balancer::players::{AverageError, Candidate, Direction, PlayerPool};
use team_balancer::roles::{Role, Roles, RolesFilter, SimpleRole};

fn candidate(id: &str, kind: SimpleRole, rank: i32) -> Candidate {
    let role = Role { kind, rank, priority: 3, primary: true, secondary: false };
    Candidate::new(id.to_string(), format!("name of {}", id), Roles(vec![role]))
}

fn ranks(pool: &PlayerPool) -> Vec<i32> {
    pool.0.iter().map(|c| c.get_primary_role().rank).collect()
}

fn ids(pool: &PlayerPool) -> Vec<String> {
    pool.collect_ids()
}

fn three() -> PlayerPool {
    PlayerPool(vec![
        candidate("a", SimpleRole::Dps, 1500),
        candidate("b", SimpleRole::Support, 1200),
        candidate("c", SimpleRole::Tank, 1800),
    ])
}

#[test]
fn sort_by_rank_ascending() {
    let mut pool = three();
    pool.sort_by_rank(Direction::ASC);
    assert_eq!(ranks(&pool), vec![1200, 1500, 1800]);
    assert_eq!(ids(&pool), vec!["b", "a", "c"]);
}

#[test]
fn sort_by_rank_descending() {
    let mut pool = three();
    pool.sort_by_rank(Direction::DESC);
    assert_eq!(ranks(&pool), vec![1800, 1500, 1200]);
    assert_eq!(ids(&pool), vec!["c", "a", "b"]);
}

#[test]
fn sort_by_rank_keeps_the_order_of_equal_ranks() {
    let mut pool = PlayerPool(vec![
        candidate("x1", SimpleRole::Dps, 2000),
        candidate("y1", SimpleRole::Dps, 1000),
        candidate("x2", SimpleRole::Dps, 2000),
        candidate("y2", SimpleRole::Dps, 1000),
        candidate("x3", SimpleRole::Dps, 2000),
    ]);
    pool.sort_by_rank(Direction::ASC);
    assert_eq!(ids(&pool), vec!["y1", "y2", "x1", "x2", "x3"]);
    pool.sort_by_rank(Direction::DESC);
    assert_eq!(ids(&pool), vec!["x1", "x2", "x3", "y1", "y2"]);
}

#[test]
fn sort_by_rank_keeps_everybody() {
    let mut pool = PlayerPool(vec![
        candidate("a", SimpleRole::Dps, 5),
        candidate("b", SimpleRole::Dps, -7),
        candidate("c", SimpleRole::Dps, i32::MAX),
        candidate("d", SimpleRole::Dps, i32::MIN),
        candidate("e", SimpleRole::Dps, 0),
    ]);
    pool.sort_by_rank(Direction::ASC);
    assert_eq!(ranks(&pool), vec![i32::MIN, -7, 0, 5, i32::MAX]);
    let mut sorted_ids = ids(&pool);
    sorted_ids.sort();
    assert_eq!(sorted_ids, vec!["a", "b", "c", "d", "e"]);
}

#[test]
fn sort_by_rank_on_empty_and_single_pools() {
    let mut empty = PlayerPool::default();
    empty.sort_by_rank(Direction::ASC);
    assert_eq!(empty.size(), 0);
    let mut single = PlayerPool(vec![candidate("a", SimpleRole::Dps, 1)]);
    single.sort_by_rank(Direction::DESC);
    assert_eq!(ids(&single), vec!["a"]);
}

#[test]
fn size_add_and_collect_ids() {
    let mut pool = PlayerPool::default();
    assert_eq!(pool.size(), 0);
    pool.add_candidate(&candidate("a", SimpleRole::Dps, 1));
    pool.add_candidate(&candidate("b", SimpleRole::Tank, 2));
    assert_eq!(pool.size(), 2);
    assert_eq!(ids(&pool), vec!["a", "b"]);
    assert_eq!(pool.0[1].name, "name of b");
}

#[test]
fn clone_keeps_the_candidates_in_order() {
    let pool = three();
    let copy = pool.clone();
    assert_eq!(ids(&copy), ids(&pool));
    assert_eq!(ranks(&copy), ranks(&pool));
}

#[test]
fn get_by_id_finds_the_first_of_that_id() {
    let mut pool = three();
    pool.add_candidate(&candidate("b", SimpleRole::Dps, 9999));
    let found = pool.get_by_id("b".to_string()).expect("b is in the pool");
    assert_eq!(found.get_primary_role().rank, 1200);
    assert!(pool.get_by_id("z".to_string()).is_none());
}

#[test]
fn filter_by_roles_gives_the_positions_in_rising_order() {
    let mut pool = three();
    pool.add_candidate(&candidate("d", SimpleRole::Support, 1));
    pool.add_candidate(&candidate("e", SimpleRole::Dps, 2));
    assert_eq!(pool.filter_by_roles(RolesFilter(vec![SimpleRole::Support])), vec![1, 3]);
    assert_eq!(
        pool.filter_by_roles(RolesFilter(vec![SimpleRole::Tank, SimpleRole::Dps])),
        vec![0, 2, 4]
    );
    assert_eq!(pool.filter_by_roles(RolesFilter(vec![])), Vec::<usize>::new());
}

#[test]
fn filter_support_then_dispose_removes_that_candidate() {
    let mut pool = three();
    let positions = pool.filter_by_roles(RolesFilter(vec![SimpleRole::Support]));
    assert_eq!(positions.len(), 1);
    pool.dispose_of(positions);
    assert_eq!(pool.size(), 2);
    assert!(!ids(&pool).contains(&"b".to_string()));
    assert_eq!(ids(&pool), vec!["a", "c"]);
}

#[test]
fn dispose_of_keeps_the_order_of_the_rest() {
    let mut pool = PlayerPool(vec![
        candidate("a", SimpleRole::Dps, 1),
        candidate("b", SimpleRole::Dps, 2),
        candidate("c", SimpleRole::Dps, 3),
        candidate("d", SimpleRole::Dps, 4),
        candidate("e", SimpleRole::Dps, 5),
    ]);
    pool.dispose_of(vec![3, 0, 3, 17]);
    assert_eq!(ids(&pool), vec!["b", "c", "e"]);
    pool.dispose_of(vec![]);
    assert_eq!(ids(&pool), vec!["b", "c", "e"]);
    pool.dispose_of(vec![2, 1, 0]);
    assert_eq!(pool.size(), 0);
}

#[test]
fn primary_average_of_the_pool_alone() {
    assert_eq!(three().get_primary_average(0, 0), Ok(1500));
}

#[test]
fn primary_average_counts_the_teams_in() {
    assert_eq!(three().get_primary_average(3000, 2), Ok(1500));
    assert_eq!(three().get_primary_average(1000, 1), Ok(1375));
    assert_eq!(PlayerPool::default().get_primary_average(7, 2), Ok(3));
}

#[test]
fn primary_average_rounds_down() {
    let pool = PlayerPool(vec![
        candidate("a", SimpleRole::Dps, 1),
        candidate("b", SimpleRole::Dps, 2),
    ]);
    assert_eq!(pool.get_primary_average(0, 0), Ok(1));
    let below = PlayerPool(vec![
        candidate("a", SimpleRole::Dps, -1),
        candidate("b", SimpleRole::Dps, -2),
    ]);
    assert_eq!(below.get_primary_average(0, 0), Ok(-2));
    assert_eq!(below.get_primary_average(0, 2), Ok(-1));
    assert_eq!(PlayerPool::default().get_primary_average(-7, 2), Ok(-4));
}

#[test]
fn primary_average_without_anybody_is_an_error() {
    assert_eq!(
        PlayerPool::default().get_primary_average(0, 0),
        Err(AverageError::DivideByZero)
    );
    assert_eq!(
        PlayerPool::default().get_primary_average(100, 0),
        Err(AverageError::DivideByZero)
    );
}

#[test]
fn primary_average_outside_the_ranks_is_an_error() {
    let pool = PlayerPool(vec![candidate("a", SimpleRole::Dps, i32::MAX)]);
    assert_eq!(pool.get_primary_average(i32::MAX, 0), Err(AverageError::Overflow));
    assert_eq!(pool.get_primary_average(0, 0), Ok(i32::MAX));
    let low = PlayerPool(vec![candidate("a", SimpleRole::Dps, i32::MIN)]);
    assert_eq!(low.get_primary_average(-1, 0), Err(AverageError::Overflow));
    assert_eq!(low.get_primary_average(-1, 1), Ok(-1073741825));
}

#[test]
fn shuffle_keeps_everybody() {
    let mut pool = PlayerPool::default();
    for i in 0..40 {
        pool.add_candidate(&candidate(&format!("p{:02}", i), SimpleRole::Dps, i));
    }
    let before = ids(&pool);
    pool.shuffle();
    assert_eq!(pool.size(), 40);
    let mut after = ids(&pool);
    after.sort();
    assert_eq!(after, before);
}

#[test]
fn shuffle_with_a_seed_keeps_everybody_and_repeats() {
    let mut first = PlayerPool::default();
    for i in 0..40 {
        first.add_candidate(&candidate(&format!("p{:02}", i), SimpleRole::Dps, i));
    }
    let mut second = first.clone();
    let before = ids(&first);
    first.shuffle_with(&mut StdRng::seed_from_u64(11));
    second.shuffle_with(&mut StdRng::seed_from_u64(11));
    assert_eq!(ids(&first), ids(&second));
    assert_ne!(ids(&first), before);
    let mut after = ids(&first);
    after.sort();
    assert_eq!(after, before);
}
