use vstd::prelude::*;

verus! {

/// Above this many draws, the individual outcomes are hidden unless asked for.
pub const AMOUNT_THRESHOLD: usize = 10;

/// What a presentation shows: every outcome in order, a count table, or both.
#[derive(Debug, Clone, Copy, PartialEq, Eq, Structural)]
pub struct DisplayPolicy {
    pub show_all: bool,
    pub show_count: bool,
}

/// The list of outcomes is shown when asked for, or when neither form is asked
/// for and there are few outcomes; the count table when asked for or when the
/// list is not shown.
pub open spec fn policy_spec(amount: nat, count: bool, all: bool) -> DisplayPolicy {
    let show_all = all || (!count && amount <= AMOUNT_THRESHOLD);
    DisplayPolicy { show_all, show_count: count || !show_all }
}

/// Decides what to show for `amount` draws, given the `count` and `all` flags.
pub fn display_policy(amount: usize, count: bool, all: bool) -> (r: DisplayPolicy)
    ensures
        r == policy_spec(amount as nat, count, all),
        r.show_all || r.show_count,
{
    let show_all = all || (!count && amount <= AMOUNT_THRESHOLD);
    DisplayPolicy { show_all, show_count: count || !show_all }
}

} // verus!
