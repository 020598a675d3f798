//! Runtime configuration that clients can read and change.
use vstd::prelude::*;

verus! {

/// How often (in ticks) stats are persisted.
#[derive(Debug, Clone, Copy, PartialEq, Eq, Structural)]
pub struct AppConfig {
    pub persist_every_n_ticks: u64,
}

impl Default for AppConfig {
    fn default() -> (c: AppConfig)
        ensures
            c.persist_every_n_ticks == 20,
    {
        AppConfig { persist_every_n_ticks: 20 }
    }
}

/// Why a configuration update was refused.
#[derive(Debug, Clone, Copy, PartialEq, Eq, Structural)]
pub enum ConfigError {
    /// Stats cannot be persisted every 0 ticks.
    ZeroPersistInterval,
}

impl AppConfig {
    /// Replaces the configuration with `update`, unless `update` asks to
    /// persist every 0 ticks, which is refused and changes nothing.
    pub fn accept_update(&mut self, update: AppConfig) -> (r: Result<AppConfig, ConfigError>)
        ensures
            update.persist_every_n_ticks == 0 ==> r == Err::<AppConfig, ConfigError>(ConfigError::ZeroPersistInterval)
                && *final(self) == *old(self),
            update.persist_every_n_ticks > 0 ==> r == Ok::<AppConfig, ConfigError>(update) && *final(self) == update,
    {
        if update.persist_every_n_ticks == 0 {
            return Err(ConfigError::ZeroPersistInterval);
        }
        *self = update;
        Ok(update)
    }

    /// Stats are persisted on the ticks that are multiples of the interval.
    pub fn should_persist(&self, tick: u64) -> (b: bool)
        requires
            self.persist_every_n_ticks > 0,
        ensures
            b == (tick % self.persist_every_n_ticks == 0),
    {
        tick % self.persist_every_n_ticks == 0
    }
}

} // verus!
