//! Settings of a simulation run: how many days, how many episodes, which seed.
use vstd::prelude::*;

verus! {

/// How long and how often to simulate.
#[derive(Debug, Clone, Copy, PartialEq, Eq, Structural)]
pub struct SimulationConfig {
    pub days: u32,
    pub episodes: u32,
    pub seed: u64,
}

impl Default for SimulationConfig {
    fn default() -> (config: Self)
        ensures
            config.days == 30,
            config.episodes == 100,
            config.seed == 42,
    {
        SimulationConfig { days: 30, episodes: 100, seed: 42 }
    }
}

/// Why a simulation configuration was refused.
#[derive(Debug, Clone, Copy, PartialEq, Eq, Structural)]
pub enum SimulationError {
    NoDays,
    NoEpisodes,
}

impl SimulationError {
    /// The message shown for the error.
    pub fn message(&self) -> (text: String)
        ensures
            *self == SimulationError::NoDays ==> text@ == "days must be positive"@,
            *self == SimulationError::NoEpisodes ==> text@ == "episodes must be positive"@,
    {
        match self {
            SimulationError::NoDays => String::from_str("days must be positive"),
            SimulationError::NoEpisodes => String::from_str("episodes must be positive"),
        }
    }
}

impl SimulationConfig {
    /// A run needs at least one day and at least one episode; days are
    /// checked first.
    pub fn validate(&self) -> (checked: Result<(), SimulationError>)
        ensures
            self.days == 0 ==> checked == Err::<(), SimulationError>(SimulationError::NoDays),
            self.days > 0 && self.episodes == 0 ==> checked == Err::<(), SimulationError>(
                SimulationError::NoEpisodes,
            ),
            self.days > 0 && self.episodes > 0 ==> checked is Ok,
    {
        if self.days == 0 {
            return Err(SimulationError::NoDays);
        }
        if self.episodes == 0 {
            return Err(SimulationError::NoEpisodes);
        }
        Ok(())
    }

    /// The seed of one episode: the run's seed plus the episode number,
    /// wrapping around at 2^64, so that every episode replays the same way.
    pub fn episode_seed(&self, episode: u32) -> (seed: u64)
        ensures
            seed == (self.seed as int + episode as int) % 0x1_0000_0000_0000_0000,
    {
        self.seed.wrapping_add(episode as u64)
    }
}

} // verus!
