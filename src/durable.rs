use vstd::prelude::*;

verus! {

/// Lifecycle status of an item's durable record.
#[derive(PartialEq, Eq, Structural, Clone, Copy, Debug)]
pub enum Status {
    Cooking,
    Cooked,
    Canceled,
}

/// Status after a "mark cooked" write: only a cooking record changes, so a
/// retried write is a no-op and never an error.
pub open spec fn cooked_from(s: Status) -> Status {
    if s == Status::Cooking {
        Status::Cooked
    } else {
        s
    }
}

/// Status after a "mark canceled" write: only a cooking record changes.
pub open spec fn canceled_from(s: Status) -> Status {
    if s == Status::Cooking {
        Status::Canceled
    } else {
        s
    }
}

/// Applies a "mark cooked" write to a record of status `s`.
pub fn mark_cooked(s: Status) -> (r: Status)
    ensures
        r == cooked_from(s),
{
    match s {
        Status::Cooking => Status::Cooked,
        other => other,
    }
}

/// Applies a "mark canceled" write to a record of status `s`.
pub fn mark_canceled(s: Status) -> (r: Status)
    ensures
        r == canceled_from(s),
{
    match s {
        Status::Cooking => Status::Canceled,
        other => other,
    }
}

/// Marking a record cooked twice leaves it as marking it once does; a cooking
/// record ends up cooked.
pub proof fn lemma_mark_cooked_idempotent(s: Status)
    ensures
        cooked_from(cooked_from(s)) == cooked_from(s),
        s == Status::Cooking ==> cooked_from(cooked_from(s)) == Status::Cooked,
{
}

/// Cooked and canceled are terminal: no later write changes them.
pub proof fn lemma_final_states_stay(s: Status)
    requires
        s != Status::Cooking,
    ensures
        cooked_from(s) == s,
        canceled_from(s) == s,
{
}

} // verus!
