use team_balancer::players::{ClassType, Classes};
use team_balancer::roles::{Role, Roles, RolesFilter, SimpleRole};
use team_balancer::teams::Team;
use team_balancer::players::Candidate;

fn class(rank: i32, priority: i16, is_active: bool) -> ClassType {
    ClassType { rank, priority, primary: false, secondary: false, is_active }
}

fn kinds(roles: &Roles) -> Vec<SimpleRole> {
    roles.0.iter().map(|role| role.kind).collect()
}

fn role(kind: SimpleRole, rank: i32) -> Role {
    Role { kind, rank, priority: 1, primary: true, secondary: false }
}

#[test]
fn role_new_copies_the_class_record() {
    let record = ClassType { rank: 2400, priority: 7, primary: true, secondary: true, is_active: true };
    let made = Role::new(SimpleRole::Tank, &record);
    assert_eq!(
        made,
        Role { kind: SimpleRole::Tank, rank: 2400, priority: 7, primary: true, secondary: true }
    );
}

#[test]
fn roles_follow_falling_priority() {
    let classes = Classes {
        dps: class(1500, 1, true),
        tank: class(1600, 3, true),
        support: class(1700, 2, true),
    };
    let roles = Roles::from_classes(&classes);
    assert_eq!(kinds(&roles), vec![SimpleRole::Tank, SimpleRole::Support, SimpleRole::Dps]);
    assert_eq!(roles.get_primary().rank, 1600);
    assert_eq!(roles.get_primary_rank(), 1600);
    assert_eq!(roles.count(), 3);
    assert_eq!(roles.get(2).kind, SimpleRole::Dps);
}

#[test]
fn roles_leave_out_inactive_classes() {
    let classes = Classes {
        dps: class(1500, 9, false),
        tank: class(1600, 3, true),
        support: class(1700, 5, true),
    };
    let roles = Roles::from_classes(&classes);
    assert_eq!(kinds(&roles), vec![SimpleRole::Support, SimpleRole::Tank]);
}

#[test]
fn roles_of_equal_priority_keep_the_order_of_the_kinds() {
    let classes = Classes {
        dps: class(1500, 2, true),
        tank: class(1600, 2, true),
        support: class(1700, 2, true),
    };
    let roles = Roles::from_classes(&classes);
    assert_eq!(kinds(&roles), vec![SimpleRole::Dps, SimpleRole::Tank, SimpleRole::Support]);
    let mixed = Classes {
        dps: class(1500, 1, true),
        tank: class(1600, 4, true),
        support: class(1700, 4, true),
    };
    assert_eq!(
        kinds(&Roles::from_classes(&mixed)),
        vec![SimpleRole::Tank, SimpleRole::Support, SimpleRole::Dps]
    );
}

#[test]
fn roles_of_a_player_without_active_class_are_empty() {
    let classes = Classes {
        dps: class(1500, 2, false),
        tank: class(1600, 2, false),
        support: class(1700, 2, false),
    };
    assert_eq!(Roles::from_classes(&classes).count(), 0);
}

#[test]
fn roles_with_negative_priorities() {
    let classes = Classes {
        dps: class(1500, -5, true),
        tank: class(1600, i16::MIN, true),
        support: class(1700, i16::MAX, true),
    };
    assert_eq!(
        kinds(&Roles::from_classes(&classes)),
        vec![SimpleRole::Support, SimpleRole::Dps, SimpleRole::Tank]
    );
}

#[test]
fn roles_clone_keeps_the_entries() {
    let roles = Roles(vec![role(SimpleRole::Dps, 1), role(SimpleRole::Tank, 2)]);
    let copy = roles.clone();
    assert_eq!(copy.0, roles.0);
}

#[test]
fn decompose_gives_kind_and_rank() {
    assert_eq!(role(SimpleRole::Support, 3100).decompose(), (SimpleRole::Support, 3100));
}

#[test]
fn is_in_range_takes_both_ends() {
    let entry = role(SimpleRole::Dps, 2000);
    assert!(entry.is_in_range((2000, 2000)));
    assert!(entry.is_in_range((1000, 2000)));
    assert!(entry.is_in_range((2000, 3000)));
    assert!(!entry.is_in_range((2001, 3000)));
    assert!(!entry.is_in_range((1000, 1999)));
    assert!(!entry.is_in_range((3000, 1000)));
}

#[test]
fn fits_team_until_both_seats_of_the_kind_are_taken() {
    let mut team = Team::new();
    let entry = role(SimpleRole::Dps, 2000);
    assert!(entry.fits_team(&team));
    let first = Candidate::new("a".to_string(), "A".to_string(), Roles(vec![entry]));
    let second = Candidate::new("b".to_string(), "B".to_string(), Roles(vec![entry]));
    team.add_primary_player(&first);
    assert!(entry.fits_team(&team));
    team.add_primary_player(&second);
    assert!(!entry.fits_team(&team));
    assert!(role(SimpleRole::Tank, 2000).fits_team(&team));
}

#[test]
fn filter_has_same_by_kind_only() {
    let filter = RolesFilter(vec![SimpleRole::Support, SimpleRole::Tank]);
    assert!(filter.has_same(&role(SimpleRole::Support, 1)));
    assert!(filter.has_same(&role(SimpleRole::Tank, 99)));
    assert!(!filter.has_same(&role(SimpleRole::Dps, 1)));
    assert!(!RolesFilter(vec![]).has_same(&role(SimpleRole::Dps, 1)));
}
