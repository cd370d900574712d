use journal::config::{load, validate_timestamp_format, ColorConfig, Config, ConfigError, TimestampConfig};
use journal::entry::DiffStyle;

#[test]
fn no_config_path_yields_defaults() {
    let config = load(None).unwrap();
    assert_eq!(config, Config::default());
}

#[test]
fn color_defaults_to_disabled() {
    let config = load(None).unwrap();
    assert!(!config.color.enabled);
}

#[test]
fn timestamp_defaults_when_table_absent() {
    let config = load(None).unwrap();
    assert_eq!(config.timestamp, TimestampConfig::default());
}

#[test]
fn timestamp_default_is_minutes_with_a_short_diff() {
    let t = TimestampConfig::default();
    assert_eq!(t.format, "%Y-%m-%d %H:%M");
    assert_eq!(t.diff, DiffStyle::Short);
}

#[test]
fn loaded_settings_are_kept_when_the_template_is_valid() {
    let found = Config {
        color: ColorConfig { enabled: true },
        timestamp: TimestampConfig { format: "%H:%M".to_string(), diff: DiffStyle::Long },
    };
    let config = load(Some(found)).unwrap();
    assert!(config.color.enabled);
    assert_eq!(config.timestamp.format, "%H:%M");
    assert_eq!(config.timestamp.diff, DiffStyle::Long);
}

#[test]
fn invalid_timestamp_format_string_is_refused_on_load() {
    let found = Config {
        color: ColorConfig { enabled: false },
        timestamp: TimestampConfig { format: "%Q".to_string(), diff: DiffStyle::Short },
    };
    assert_eq!(
        load(Some(found)),
        Err(ConfigError::InvalidTimestampFormat("%Q".to_string()))
    );
}

#[test]
fn timestamp_format_check_accepts_known_directives_only() {
    assert!(validate_timestamp_format("%Y-%m-%d %H:%M").is_ok());
    assert!(validate_timestamp_format("plain text").is_ok());
    assert!(validate_timestamp_format("%Q").is_err());
}
