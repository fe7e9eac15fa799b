use mwi_planner::policy::{free_order_slots, heuristic_policy_name, IdlePolicy};
use mwi_planner::rank_actions::RankActionsConfig;
use mwi_planner::simulation::{SimulationConfig, SimulationError};

#[test]
fn default_simulation_runs_thirty_days_one_hundred_times() {
    let config = SimulationConfig::default();
    assert_eq!(config, SimulationConfig { days: 30, episodes: 100, seed: 42 });
    assert_eq!(config.validate(), Ok(()));
}

#[test]
fn empty_simulations_are_refused_days_first() {
    assert_eq!(SimulationConfig { days: 0, episodes: 0, seed: 1 }.validate(), Err(SimulationError::NoDays));
    assert_eq!(SimulationConfig { days: 1, episodes: 0, seed: 1 }.validate(), Err(SimulationError::NoEpisodes));
    assert_eq!(SimulationError::NoDays.message(), "days must be positive");
    assert_eq!(SimulationError::NoEpisodes.message(), "episodes must be positive");
}

#[test]
fn episode_seeds_count_up_and_wrap() {
    let config = SimulationConfig { days: 1, episodes: 3, seed: 42 };
    assert_eq!(config.episode_seed(0), 42);
    assert_eq!(config.episode_seed(2), 44);
    let wrapping = SimulationConfig { days: 1, episodes: 3, seed: u64::MAX };
    assert_eq!(wrapping.episode_seed(1), 0);
}

#[test]
fn policies_are_named_for_reports() {
    assert_eq!(IdlePolicy.name(), "idle");
    assert_eq!(heuristic_policy_name(true), "heuristic");
    assert_eq!(heuristic_policy_name(false), "action_only");
    assert_eq!(RankActionsConfig { limit: 5 }.limit, 5);
}

#[test]
fn free_order_slots_never_go_below_zero() {
    assert_eq!(free_order_slots(10, 0), 10);
    assert_eq!(free_order_slots(10, 3), 7);
    assert_eq!(free_order_slots(1, 1), 0);
    assert_eq!(free_order_slots(1, 5), 0);
}
