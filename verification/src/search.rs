//! First position at which something holds.

use vstd::prelude::*;

verus! {

/// The first position of `flags` that holds `true`.
pub open spec fn first_true(flags: Seq<bool>) -> Option<int>
    decreases flags.len(),
{
    if flags.len() == 0 {
        None
    } else if flags[0] {
        Some(0)
    } else {
        match first_true(flags.drop_first()) {
            Some(i) => Some(i + 1),
            None => None,
        }
    }
}

/// A position found by a search, as an index of a sequence.
pub open spec fn position(found: Option<usize>) -> Option<int> {
    match found {
        Some(at) => Some(at as int),
        None => None,
    }
}

/// `first_true` gives a position that holds `true` with none before it, and
/// nothing only where no position holds `true`.
pub proof fn lemma_first_true(flags: Seq<bool>)
    ensures
        match first_true(flags) {
            Some(i) => 0 <= i < flags.len() && flags[i] && forall|j: int|
                0 <= j < i ==> !flags[j],
            None => forall|j: int| 0 <= j < flags.len() ==> !flags[j],
        },
    decreases flags.len(),
{
    if flags.len() == 0 {
    } else if flags[0] {
    } else {
        let rest = flags.drop_first();
        lemma_first_true(rest);
        match first_true(rest) {
            Some(i) => {
                assert(flags[i + 1] == rest[i]);
                assert forall|j: int| 0 <= j < i + 1 implies !flags[j] by {
                    if j > 0 {
                        assert(flags[j] == rest[j - 1]);
                    }
                }
            },
            None => {
                assert forall|j: int| 0 <= j < flags.len() implies !flags[j] by {
                    if j > 0 {
                        assert(flags[j] == rest[j - 1]);
                    }
                }
            },
        }
    }
}

/// A position that holds `true` with none before it is the first.
pub proof fn lemma_first_true_is(flags: Seq<bool>, at: int)
    requires
        0 <= at < flags.len(),
        flags[at],
        forall|j: int| 0 <= j < at ==> !flags[j],
    ensures
        first_true(flags) == Some(at),
{
    lemma_first_true(flags);
}

/// Where no position holds `true` there is no first.
pub proof fn lemma_first_true_none(flags: Seq<bool>)
    requires
        forall|j: int| 0 <= j < flags.len() ==> !flags[j],
    ensures
        first_true(flags) is None,
{
    lemma_first_true(flags);
}

} // verus!
