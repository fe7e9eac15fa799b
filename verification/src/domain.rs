//! Shared vocabulary of the marketplace.
use vstd::prelude::*;

verus! {

/// Which side of the order book an order rests on.
#[derive(Debug, Clone, Copy, PartialEq, Eq, Structural)]
pub enum OrderSide {
    Buy,
    Sell,
}

} // verus!
