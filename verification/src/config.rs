//! Application configuration.
//!
//! The settings the application runs under, grouped by concern.  Reading the
//! configuration document from disk and decoding it is the caller's
//! business; this module owns the shape of the settings, the rules that make
//! them acceptable, and the owner lookups the command handlers use.

use vstd::prelude::*;

verus! {

/// Everything the application is configured with.
#[derive(Clone, Debug)]
pub struct Config {
    pub bot: BotConfig,
    pub database: DatabaseConfig,
    pub discord: DiscordConfig,
    pub telemetry: TelemetryConfig,
}

/// The bot's identity and owners.
#[derive(Clone, Debug)]
pub struct BotConfig {
    /// Display name; must not be empty.
    pub name: String,
    /// User identifiers with owner privileges.
    pub owners: Vec<u64>,
    /// Code of the message table used when a guild sets none.
    pub default_language: String,
}

/// Where the persistent store lives.
#[derive(Clone, Debug)]
pub struct DatabaseConfig {
    pub url: String,
    pub max_connections: u32,
}

/// Credentials for the chat platform.
#[derive(Clone, Debug)]
pub struct DiscordConfig {
    /// API token; must not be empty.
    pub token: String,
    /// Application identifier; must not be zero.
    pub application_id: u64,
}

/// Telemetry sink settings.
#[derive(Clone, Debug)]
pub struct TelemetryConfig {
    pub enabled: bool,
    pub log_file: String,
    pub batch_size: usize,
}

/// Why a configuration was rejected.
#[derive(Clone, Copy, Debug, PartialEq, Eq, Structural)]
pub enum ConfigError {
    /// The bot's name is empty.
    EmptyBotName,
    /// The chat platform token is empty.
    EmptyToken,
    /// The application identifier is zero.
    InvalidApplicationId,
}

impl ConfigError {
    /// A human-readable description of the error.
    pub fn message(&self) -> (r: &'static str)
        ensures
            *self is EmptyBotName ==> r@ == "Bot name cannot be empty"@,
            *self is EmptyToken ==> r@ == "Discord token cannot be empty"@,
            *self is InvalidApplicationId ==> r@ == "Invalid Discord application ID"@,
    {
        match self {
            ConfigError::EmptyBotName => "Bot name cannot be empty",
            ConfigError::EmptyToken => "Discord token cannot be empty",
            ConfigError::InvalidApplicationId => "Invalid Discord application ID",
        }
    }
}

impl Config {
    /// Accepts the configuration only with a named bot, a non-empty token
    /// and a non-zero application identifier, reporting the first rule
    /// broken, in that order.
    pub fn validate(&self) -> (r: Result<(), ConfigError>)
        ensures
            self.bot.name@.len() == 0 ==> r == Err::<(), ConfigError>(ConfigError::EmptyBotName),
            self.bot.name@.len() > 0 && self.discord.token@.len() == 0 ==> r == Err::<(),
                ConfigError,
            >(ConfigError::EmptyToken),
            self.bot.name@.len() > 0 && self.discord.token@.len() > 0
                && self.discord.application_id == 0 ==> r == Err::<(), ConfigError>(
                ConfigError::InvalidApplicationId,
            ),
            r is Ok <==> self.bot.name@.len() > 0 && self.discord.token@.len() > 0
                && self.discord.application_id != 0,
    {
        if self.bot.name.as_str().is_empty() {
            return Err(ConfigError::EmptyBotName);
        }
        if self.discord.token.as_str().is_empty() {
            return Err(ConfigError::EmptyToken);
        }
        if self.discord.application_id == 0 {
            return Err(ConfigError::InvalidApplicationId);
        }
        Ok(())
    }

    /// The user identifiers with owner privileges.
    pub fn get_owner_ids(&self) -> (r: &[u64])
        ensures
            r@ == self.bot.owners@,
    {
        self.bot.owners.as_slice()
    }

    /// Whether `user_id` is one of the configured owners.
    pub fn is_owner(&self, user_id: u64) -> (r: bool)
        ensures
            r == self.bot.owners@.contains(user_id),
    {
        let mut i: usize = 0;
        while i < self.bot.owners.len()
            invariant
                i <= self.bot.owners@.len(),
                forall|j: int| 0 <= j < i ==> self.bot.owners@[j] != user_id,
            decreases self.bot.owners@.len() - i,
        {
            if self.bot.owners[i] == user_id {
                return true;
            }
            i += 1;
        }
        false
    }
}

} // verus!
