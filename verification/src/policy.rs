//! Names of the policies a simulation compares.
use vstd::prelude::*;

verus! {

/// The policy that does nothing: no activity and no orders, every day.
#[derive(Debug, Clone, Copy, PartialEq, Eq, Structural)]
pub struct IdlePolicy;

impl IdlePolicy {
    /// The name the policy is reported under.
    pub fn name(&self) -> (name: &'static str)
        ensures
            name@ == "idle"@,
    {
        "idle"
    }
}

/// The name of the heuristic policy: `heuristic` when it also places market
/// orders, `action_only` when it only picks the day's activity.
pub fn heuristic_policy_name(include_orders: bool) -> (name: &'static str)
    ensures
        include_orders ==> name@ == "heuristic"@,
        !include_orders ==> name@ == "action_only"@,
{
    if include_orders {
        "heuristic"
    } else {
        "action_only"
    }
}


/// The order slots still free when `occupied` of `max_orders` are in use.
pub open spec fn free_slots(max_orders: nat, occupied: nat) -> nat {
    if occupied >= max_orders {
        0
    } else {
        (max_orders - occupied) as nat
    }
}

/// How many new orders fit next to the open ones: the slots left of
/// `max_orders`, and none once every slot is taken.
pub fn free_order_slots(max_orders: usize, occupied: usize) -> (free: usize)
    ensures
        free == free_slots(max_orders as nat, occupied as nat),
{
    max_orders.saturating_sub(occupied)
}

/// A nonempty batch of new orders that fits the free slots keeps the number of
/// open orders within the maximum.
pub proof fn law_orders_stay_within_slots(max_orders: nat, occupied: nat, new_orders: nat)
    requires
        0 < new_orders <= free_slots(max_orders, occupied),
    ensures
        occupied + new_orders <= max_orders,
{
}

} // verus!
