//! Verified core of a daily wealth planner for Milky Way Idle: the game's price
//! grid, market and history keys, skill and drink rules of money-making
//! actions, sale accounting, and the bookkeeping of history fetches and
//! simulations.
use vstd::prelude::*;

pub mod data;
pub mod domain;
pub mod history;
pub mod market_price;
pub mod money_actions;
pub mod policy;
pub mod rank_actions;
pub mod recommend;
pub mod simulation;
pub mod text;
pub mod wealth;
pub mod world;
