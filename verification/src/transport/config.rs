//! The process-wide transport configuration: set once, read anywhere.
use vstd::prelude::*;
use crate::types::{default_app_config, AppConfig};

verus! {

/// What the configuration holds after an `init` with `config`: the first
/// configuration set stays, later ones are ignored.
pub open spec fn config_after_init(current: Option<AppConfig>, config: AppConfig) -> Option<AppConfig> {
    match current {
        Some(c) => Some(c),
        None => Some(config),
    }
}

/// What `get` returns: the configuration set, or the default one.
pub open spec fn config_read(current: Option<AppConfig>) -> AppConfig {
    match current {
        Some(c) => c,
        None => default_app_config(),
    }
}

/// A configuration cell that can be set once.
pub struct QuicConfig {
    config: Option<AppConfig>,
}

impl View for QuicConfig {
    type V = Option<AppConfig>;

    closed spec fn view(&self) -> Option<AppConfig> {
        self.config
    }
}

impl QuicConfig {
    /// A cell with nothing set yet.
    pub fn new() -> (q: Self)
        ensures
            q@ is None,
    {
        QuicConfig { config: None }
    }

    /// Set the configuration, unless one was set before.
    pub fn init(&mut self, config: AppConfig)
        ensures
            final(self)@ == config_after_init(old(self)@, config),
    {
        if self.config.is_none() {
            self.config = Some(config);
        }
    }

    /// The configuration set, or the default one when none was.
    pub fn get(&self) -> (c: AppConfig)
        ensures
            c == config_read(self@),
    {
        match self.config {
            Some(c) => c,
            None => AppConfig::default(),
        }
    }
}

/// The first configuration set is the one read back: after `init(first)` on
/// an empty cell, any later `init(second)` leaves it, and `get` returns
/// `first`. Before any `init`, `get` returns the default configuration.
pub proof fn lemma_first_init_wins(first: AppConfig, second: AppConfig)
    ensures
        config_read(config_after_init(None, first)) == first,
        config_read(config_after_init(config_after_init(None, first), second)) == first,
        config_read(None) == default_app_config(),
{
}

} // verus!
