use botcore::config::{BotConfig, Config, ConfigError, DatabaseConfig, DiscordConfig,
    TelemetryConfig};
use botcore::utils::format_duration;

fn sample() -> Config {
    Config {
        bot: BotConfig {
            name: "TestBot".to_string(),
            owners: vec![1, 42],
            default_language: "en".to_string(),
        },
        database: DatabaseConfig { url: "postgres://localhost/db".to_string(), max_connections: 5 },
        discord: DiscordConfig { token: "test-token".to_string(), application_id: 1234 },
        telemetry: TelemetryConfig {
            enabled: true,
            log_file: "telemetry.log".to_string(),
            batch_size: 100,
        },
    }
}

#[test]
fn valid_config_passes() {
    assert_eq!(sample().validate(), Ok(()));
}

#[test]
fn empty_bot_name_rejected() {
    let mut c = sample();
    c.bot.name = String::new();
    assert_eq!(c.validate(), Err(ConfigError::EmptyBotName));
    assert_eq!(ConfigError::EmptyBotName.message(), "Bot name cannot be empty");
}

#[test]
fn empty_token_rejected() {
    let mut c = sample();
    c.discord.token = String::new();
    assert_eq!(c.validate(), Err(ConfigError::EmptyToken));
    assert_eq!(ConfigError::EmptyToken.message(), "Discord token cannot be empty");
}

#[test]
fn zero_application_id_rejected() {
    let mut c = sample();
    c.discord.application_id = 0;
    assert_eq!(c.validate(), Err(ConfigError::InvalidApplicationId));
    assert_eq!(ConfigError::InvalidApplicationId.message(), "Invalid Discord application ID");
}

#[test]
fn owner_lookup() {
    let c = sample();
    assert_eq!(c.get_owner_ids(), &[1, 42]);
    assert!(c.is_owner(1));
    assert!(c.is_owner(42));
    assert!(!c.is_owner(2));
}

#[test]
fn durations_are_formatted_by_magnitude() {
    assert_eq!(format_duration(0), "0s");
    assert_eq!(format_duration(59), "59s");
    assert_eq!(format_duration(60), "1m 0s");
    assert_eq!(format_duration(61), "1m 1s");
    assert_eq!(format_duration(3_600), "1h 0m 0s");
    assert_eq!(format_duration(3_661), "1h 1m 1s");
    assert_eq!(format_duration(86_400), "1d 0h 0m 0s");
    assert_eq!(format_duration(90_061), "1d 1h 1m 1s");
    assert_eq!(format_duration(10 * 86_400 + 23 * 3_600 + 59 * 60 + 59), "10d 23h 59m 59s");
}
