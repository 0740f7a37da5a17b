//! Role entries of a player and the queries the draft makes on them.
//!
//! A player's class record lists three entries, one per kind of role. The
//! draft works on the active ones only, ordered by falling priority; the
//! first of them is the player's primary role.

use vstd::prelude::*;

use crate::players::{ClassType, Classes};
use crate::teams::{has_open_slot, Team};

verus! {

/// The three kinds of role a player can take in a team.
#[derive(Clone, Copy, Debug, PartialEq, Eq, Structural)]
pub enum SimpleRole {
    Dps,
    Tank,
    Support,
}

/// One active role entry of a player: the kind, the skill rank held in it,
/// the weight by which the player prefers it, and the two designation flags.
#[derive(Clone, Copy, Debug, PartialEq, Eq, Structural)]
pub struct Role {
    pub kind: SimpleRole,
    pub rank: i32,
    pub priority: i16,
    pub primary: bool,
    pub secondary: bool,
}

impl Role {
    /// The role entry that a class record of the given kind stands for.
    pub open spec fn of_class(kind: SimpleRole, class: ClassType) -> Role {
        Role {
            kind,
            rank: class.rank,
            priority: class.priority,
            primary: class.primary,
            secondary: class.secondary,
        }
    }

    /// Whether the rank lies in the closed interval `range`.
    pub open spec fn in_range(self, range: (i32, i32)) -> bool {
        range.0 <= self.rank <= range.1
    }

    pub fn new(kind: SimpleRole, class: &ClassType) -> (role: Role)
        ensures
            role == Role::of_class(kind, *class),
    {
        Role {
            kind,
            rank: class.rank,
            priority: class.priority,
            primary: class.primary,
            secondary: class.secondary,
        }
    }

    /// Splits the entry into its kind and its rank.
    pub fn decompose(&self) -> (parts: (SimpleRole, i32))
        ensures
            parts == (self.kind, self.rank),
    {
        (self.kind, self.rank)
    }

    pub fn is_in_range(&self, range: (i32, i32)) -> (inside: bool)
        ensures
            inside == self.in_range(range),
    {
        range.0 <= self.rank && self.rank <= range.1
    }

    /// Whether `team` still has a free slot for this kind of role.
    pub fn fits_team(&self, team: &Team) -> (fits: bool)
        ensures
            fits == has_open_slot(team@, self.kind),
    {
        team.has_open_slot(self.kind)
    }
}

/// Length of the longest prefix of `roles` whose priorities are all at
/// least `priority`: where an entry of that priority goes so that it
/// follows every entry that is not below it.
pub open spec fn insertion_point(roles: Seq<Role>, priority: i16) -> int
    decreases roles.len(),
{
    if roles.len() == 0 || roles[0].priority < priority {
        0
    } else {
        1 + insertion_point(roles.drop_first(), priority)
    }
}

/// `roles` with `role` placed behind every entry whose priority is not lower.
pub open spec fn placed(roles: Seq<Role>, role: Role) -> Seq<Role> {
    roles.insert(insertion_point(roles, role.priority), role)
}

/// `roles`, extended by the entry of `kind` if that class is active.
pub open spec fn with_class(roles: Seq<Role>, kind: SimpleRole, class: ClassType) -> Seq<Role> {
    if class.is_active {
        placed(roles, Role::of_class(kind, class))
    } else {
        roles
    }
}

/// The role list of a class record: its active entries by falling priority,
/// entries of equal priority in the order dps, tank, support.
pub open spec fn ordered_roles(classes: Classes) -> Seq<Role> {
    with_class(
        with_class(
            with_class(Seq::empty(), SimpleRole::Dps, classes.dps),
            SimpleRole::Tank,
            classes.tank,
        ),
        SimpleRole::Support,
        classes.support,
    )
}

/// Whether the priorities never rise along `roles`.
pub open spec fn priorities_fall(roles: Seq<Role>) -> bool {
    forall|i: int, j: int| 0 <= i <= j < roles.len() ==> roles[i].priority >= roles[j].priority
}

/// The class record of `classes` for `kind`.
pub open spec fn class_of(classes: Classes, kind: SimpleRole) -> ClassType {
    match kind {
        SimpleRole::Dps => classes.dps,
        SimpleRole::Tank => classes.tank,
        SimpleRole::Support => classes.support,
    }
}

proof fn lemma_insertion_point_bounds(roles: Seq<Role>, priority: i16)
    ensures
        0 <= insertion_point(roles, priority) <= roles.len(),
        forall|i: int|
            0 <= i < insertion_point(roles, priority) ==> roles[i].priority >= priority,
        insertion_point(roles, priority) < roles.len() ==> roles[insertion_point(
            roles,
            priority,
        )].priority < priority,
    decreases roles.len(),
{
    if roles.len() == 0 || roles[0].priority < priority {
    } else {
        let rest = roles.drop_first();
        lemma_insertion_point_bounds(rest, priority);
        assert forall|i: int| 0 <= i < insertion_point(roles, priority) implies roles[i].priority
            >= priority by {
            if i > 0 {
                assert(roles[i] == rest[i - 1]);
            }
        }
        let p = insertion_point(rest, priority);
        if p < rest.len() {
            assert(roles[p + 1] == rest[p]);
        }
    }
}

proof fn lemma_insertion_point_is(roles: Seq<Role>, priority: i16, at: int)
    requires
        0 <= at <= roles.len(),
        forall|i: int| 0 <= i < at ==> roles[i].priority >= priority,
        at < roles.len() ==> roles[at].priority < priority,
    ensures
        insertion_point(roles, priority) == at,
    decreases roles.len(),
{
    if roles.len() == 0 || roles[0].priority < priority {
    } else {
        let rest = roles.drop_first();
        assert forall|i: int| 0 <= i < at - 1 implies rest[i].priority >= priority by {
            assert(rest[i] == roles[i + 1]);
        }
        if at < roles.len() {
            assert(rest[at - 1] == roles[at]);
        }
        lemma_insertion_point_is(rest, priority, at - 1);
    }
}

proof fn lemma_placed_keeps_order(roles: Seq<Role>, role: Role)
    requires
        priorities_fall(roles),
    ensures
        priorities_fall(placed(roles, role)),
        placed(roles, role).len() == roles.len() + 1,
{
    lemma_insertion_point_bounds(roles, role.priority);
    let at = insertion_point(roles, role.priority);
    let out = placed(roles, role);
    assert forall|i: int, j: int| 0 <= i <= j < out.len() implies out[i].priority
        >= out[j].priority by {
        if j < at {
        } else if i > at {
        } else if i == at && j == at {
        } else if i == at {
            assert(out[j] == roles[j - 1]);
            assert(roles[at].priority >= roles[j - 1].priority);
        } else if j == at {
        } else {
            assert(out[j] == roles[j - 1]);
            assert(out[i] == roles[i]);
        }
    }
}

/// What holds of a role list built from the classes of `done`: it lists
/// the active ones among them, each once, by falling priority.
spec fn lists_active(classes: Classes, roles: Seq<Role>, done: Set<SimpleRole>) -> bool {
    &&& priorities_fall(roles)
    &&& forall|i: int|
        0 <= i < roles.len() ==> {
            let role = #[trigger] roles[i];
            &&& done.contains(role.kind)
            &&& class_of(classes, role.kind).is_active
            &&& role == Role::of_class(role.kind, class_of(classes, role.kind))
        }
    &&& forall|kind: SimpleRole|
        done.contains(kind) && class_of(classes, kind).is_active ==> roles.contains(
            #[trigger] Role::of_class(kind, class_of(classes, kind)),
        )
    &&& forall|i: int, j: int|
        0 <= i < j < roles.len() ==> (#[trigger] roles[i]).kind != (#[trigger] roles[j]).kind
}

/// `out` is `roles` with `role` put in at `at`.
spec fn put_in(roles: Seq<Role>, role: Role, at: int, out: Seq<Role>) -> bool {
    &&& 0 <= at <= roles.len()
    &&& out.len() == roles.len() + 1
    &&& out[at] == role
    &&& forall|i: int| 0 <= i < at ==> #[trigger] out[i] == roles[i]
    &&& forall|i: int| at < i < out.len() ==> #[trigger] out[i] == roles[i - 1]
}

proof fn lemma_put_in_members(
    classes: Classes,
    roles: Seq<Role>,
    done: Set<SimpleRole>,
    kind: SimpleRole,
    at: int,
    out: Seq<Role>,
)
    requires
        put_in(roles, Role::of_class(kind, class_of(classes, kind)), at, out),
        class_of(classes, kind).is_active,
        forall|i: int|
            0 <= i < roles.len() ==> {
                let role = #[trigger] roles[i];
                &&& done.contains(role.kind)
                &&& class_of(classes, role.kind).is_active
                &&& role == Role::of_class(role.kind, class_of(classes, role.kind))
            },
    ensures
        forall|i: int|
            0 <= i < out.len() ==> {
                let role = #[trigger] out[i];
                &&& done.insert(kind).contains(role.kind)
                &&& class_of(classes, role.kind).is_active
                &&& role == Role::of_class(role.kind, class_of(classes, role.kind))
            },
{
    assert forall|i: int| 0 <= i < out.len() implies {
        let role = #[trigger] out[i];
        &&& done.insert(kind).contains(role.kind)
        &&& class_of(classes, role.kind).is_active
        &&& role == Role::of_class(role.kind, class_of(classes, role.kind))
    } by {
        if i < at {
            assert(out[i] == roles[i]);
        } else if i > at {
            assert(out[i] == roles[i - 1]);
        }
    }
}

proof fn lemma_put_in_contains(roles: Seq<Role>, role: Role, at: int, out: Seq<Role>)
    requires
        put_in(roles, role, at, out),
    ensures
        out.contains(role),
        forall|entry: Role| roles.contains(entry) ==> #[trigger] out.contains(entry),
{
    assert(out[at] == role);
    assert forall|entry: Role| roles.contains(entry) implies #[trigger] out.contains(entry) by {
        let w = choose|i: int| 0 <= i < roles.len() && roles[i] == entry;
        if w < at {
            assert(out[w] == entry);
        } else {
            assert(out[w + 1] == entry);
        }
    }
}

proof fn lemma_put_in_distinct(
    roles: Seq<Role>,
    done: Set<SimpleRole>,
    role: Role,
    at: int,
    out: Seq<Role>,
)
    requires
        put_in(roles, role, at, out),
        !done.contains(role.kind),
        forall|i: int| 0 <= i < roles.len() ==> done.contains((#[trigger] roles[i]).kind),
        forall|i: int, j: int|
            0 <= i < j < roles.len() ==> (#[trigger] roles[i]).kind != (#[trigger] roles[j]).kind,
    ensures
        forall|i: int, j: int|
            0 <= i < j < out.len() ==> (#[trigger] out[i]).kind != (#[trigger] out[j]).kind,
{
    assert forall|i: int, j: int| 0 <= i < j < out.len() implies (#[trigger] out[i]).kind != (
    #[trigger] out[j]).kind by {
        let a = if i < at {
            i
        } else {
            i - 1
        };
        let b = if j < at {
            j
        } else {
            j - 1
        };
        if i != at {
            assert(out[i] == roles[a]);
            assert(done.contains(roles[a].kind));
        }
        if j != at {
            assert(out[j] == roles[b]);
            assert(done.contains(roles[b].kind));
        }
    }
}

proof fn lemma_with_class(classes: Classes, roles: Seq<Role>, done: Set<SimpleRole>, kind: SimpleRole)
    requires
        lists_active(classes, roles, done),
        !done.contains(kind),
    ensures
        lists_active(
            classes,
            with_class(roles, kind, class_of(classes, kind)),
            done.insert(kind),
        ),
{
    let class = class_of(classes, kind);
    let out = with_class(roles, kind, class);
    if class.is_active {
        let role = Role::of_class(kind, class);
        let at = insertion_point(roles, role.priority);
        lemma_insertion_point_bounds(roles, role.priority);
        lemma_placed_keeps_order(roles, role);
        assert(put_in(roles, role, at, out));
        lemma_put_in_members(classes, roles, done, kind, at, out);
        lemma_put_in_contains(roles, role, at, out);
        lemma_put_in_distinct(roles, done, role, at, out);
        assert forall|other: SimpleRole|
            done.insert(kind).contains(other) && class_of(
                classes,
                other,
            ).is_active implies out.contains(
            #[trigger] Role::of_class(other, class_of(classes, other)),
        ) by {
            if other != kind {
                assert(roles.contains(Role::of_class(other, class_of(classes, other))));
            }
        }
    } else {
        assert(out == roles);
    }
}

/// The role list of a class record holds exactly the entries of its active
/// classes, each once, and its priorities never rise: the first entry has
/// the highest priority among the player's active classes.
pub proof fn lemma_ordered_roles(classes: Classes)
    ensures
        priorities_fall(ordered_roles(classes)),
        forall|i: int|
            0 <= i < ordered_roles(classes).len() ==> {
                let role = #[trigger] ordered_roles(classes)[i];
                class_of(classes, role.kind).is_active && role == Role::of_class(
                    role.kind,
                    class_of(classes, role.kind),
                )
            },
        forall|kind: SimpleRole|
            class_of(classes, kind).is_active ==> ordered_roles(classes).contains(
                #[trigger] Role::of_class(kind, class_of(classes, kind)),
            ),
        forall|i: int, j: int|
            0 <= i < j < ordered_roles(classes).len() ==> (#[trigger] ordered_roles(
                classes,
            )[i]).kind != (#[trigger] ordered_roles(classes)[j]).kind,
        ordered_roles(classes).len() > 0 <==> (classes.dps.is_active || classes.tank.is_active
            || classes.support.is_active),
{
    let s0: Seq<Role> = Seq::empty();
    let d0: Set<SimpleRole> = Set::empty();
    assert(lists_active(classes, s0, d0));
    lemma_with_class(classes, s0, d0, SimpleRole::Dps);
    let s1 = with_class(s0, SimpleRole::Dps, classes.dps);
    let d1 = d0.insert(SimpleRole::Dps);
    lemma_with_class(classes, s1, d1, SimpleRole::Tank);
    let s2 = with_class(s1, SimpleRole::Tank, classes.tank);
    let d2 = d1.insert(SimpleRole::Tank);
    lemma_with_class(classes, s2, d2, SimpleRole::Support);
    let s3 = with_class(s2, SimpleRole::Support, classes.support);
    let d3 = d2.insert(SimpleRole::Support);
    assert(s3 == ordered_roles(classes));
    assert forall|kind: SimpleRole| class_of(classes, kind).is_active implies s3.contains(
        #[trigger] Role::of_class(kind, class_of(classes, kind)),
    ) by {
        assert(d3.contains(kind));
    }
    if s3.len() > 0 {
        assert(class_of(classes, s3[0].kind).is_active);
    }
    if classes.dps.is_active {
        assert(class_of(classes, SimpleRole::Dps).is_active);
        assert(s3.contains(Role::of_class(SimpleRole::Dps, class_of(classes, SimpleRole::Dps))));
    }
    if classes.tank.is_active {
        assert(class_of(classes, SimpleRole::Tank).is_active);
        assert(s3.contains(Role::of_class(SimpleRole::Tank, class_of(classes, SimpleRole::Tank))));
    }
    if classes.support.is_active {
        assert(class_of(classes, SimpleRole::Support).is_active);
        assert(s3.contains(
            Role::of_class(SimpleRole::Support, class_of(classes, SimpleRole::Support)),
        ));
    }
}

/// The active role entries of one player, by falling priority.
#[derive(Debug)]
pub struct Roles(pub Vec<Role>);

impl View for Roles {
    type V = Seq<Role>;

    open spec fn view(&self) -> Seq<Role> {
        self.0@
    }
}

impl Clone for Roles {
    fn clone(&self) -> (copy: Self)
        ensures
            copy@ == self@,
    {
        let mut entries: Vec<Role> = Vec::new();
        let mut i: usize = 0;
        while i < self.0.len()
            invariant
                i <= self.0.len(),
                entries@ == self.0@.take(i as int),
            decreases self.0.len() - i,
        {
            entries.push(self.0[i]);
            i += 1;
        }
        Roles(entries)
    }
}

impl Default for Roles {
    /// No role at all.
    fn default() -> (roles: Self)
        ensures
            roles@ == Seq::<Role>::empty(),
    {
        Roles(Vec::new())
    }
}

impl Roles {
    /// The entry of highest priority.
    pub fn get_primary(&self) -> (role: &Role)
        requires
            self@.len() > 0,
        ensures
            *role == self@[0],
            priorities_fall(self@) ==> forall|i: int|
                0 <= i < self@.len() ==> self@[i].priority <= role.priority,
    {
        &self.0[0]
    }

    pub fn get_primary_rank(&self) -> (rank: i32)
        requires
            self@.len() > 0,
        ensures
            rank == self@[0].rank,
    {
        self.0[0].rank
    }

    pub fn count(&self) -> (n: usize)
        ensures
            n == self@.len(),
    {
        self.0.len()
    }

    pub fn get(&self, index: usize) -> (role: &Role)
        requires
            index < self@.len(),
        ensures
            *role == self@[index as int],
    {
        &self.0[index]
    }

    /// Places `role` behind every entry whose priority is not lower.
    fn place(&mut self, role: Role)
        ensures
            final(self)@ == placed(old(self)@, role),
    {
        let mut at: usize = 0;
        while at < self.0.len() && self.0[at].priority >= role.priority
            invariant
                at <= self.0.len(),
                self.0@ == old(self).0@,
                forall|i: int| 0 <= i < at ==> self.0@[i].priority >= role.priority,
            decreases self.0.len() - at,
        {
            at += 1;
        }
        proof {
            lemma_insertion_point_is(self.0@, role.priority, at as int);
        }
        self.0.insert(at, role);
    }

    /// The role list of a class record: see [`ordered_roles`].
    pub fn from_classes(classes: &Classes) -> (roles: Roles)
        ensures
            roles@ == ordered_roles(*classes),
    {
        let mut roles = Roles(Vec::new());
        if classes.dps.is_active {
            roles.place(Role::new(SimpleRole::Dps, &classes.dps));
        }
        if classes.tank.is_active {
            roles.place(Role::new(SimpleRole::Tank, &classes.tank));
        }
        if classes.support.is_active {
            roles.place(Role::new(SimpleRole::Support, &classes.support));
        }
        roles
    }
}

/// A set of role kinds to select players by.
#[derive(Debug)]
pub struct RolesFilter(pub Vec<SimpleRole>);

impl RolesFilter {
    /// Whether the filter names the kind of `role`.
    pub open spec fn admits(self, role: Role) -> bool {
        self.0@.contains(role.kind)
    }

    pub fn has_same(&self, role: &Role) -> (same: bool)
        ensures
            same == self.admits(*role),
    {
        let mut i: usize = 0;
        while i < self.0.len()
            invariant
                i <= self.0.len(),
                forall|j: int| 0 <= j < i ==> self.0@[j] != role.kind,
            decreases self.0.len() - i,
        {
            if self.0[i] == role.kind {
                return true;
            }
            i += 1;
        }
        false
    }
}

} // verus!
