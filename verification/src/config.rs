//! The optional configuration: whether search matches are highlighted by
//! default, and how `-h/--human` renders timestamps. Reading and decoding
//! the file happens outside; this module holds the values, their
//! defaults, and the check a loaded file must pass.
use crate::calendar::{strftime_has_error, strftime_items_have_error};
use crate::entry::DiffStyle;
use vstd::prelude::*;

verus! {

/// The whole configuration. A missing file means every default.
#[derive(Debug, PartialEq, Eq)]
pub struct Config {
    pub color: ColorConfig,
    pub timestamp: TimestampConfig,
}

/// `[color]`: whether search-term highlighting is on when neither
/// `--color` nor `--no-color` is given. Off by default.
#[derive(Debug, PartialEq, Eq)]
pub struct ColorConfig {
    pub enabled: bool,
}

/// `[timestamp]`: the strftime template `-h/--human` applies to an
/// entry's timestamp, and the elapsed-time annotation shown next to it.
#[derive(Debug, PartialEq, Eq)]
pub struct TimestampConfig {
    pub format: String,
    pub diff: DiffStyle,
}

/// The template `-h/--human` uses when the file sets none.
pub const DEFAULT_TIMESTAMP_FORMAT: &'static str = "%Y-%m-%d %H:%M";

/// What `--config` writes into a configuration file that does not exist
/// yet before opening it: every setting, commented out, at its default.
pub const DEFAULT_CONFIG_TEMPLATE: &'static str = "# journal configuration file.\n# Every setting is optional; the values shown are the defaults.\n\n# [color]\n# enabled = false\n\n# [timestamp]\n# format = \"%Y-%m-%d %H:%M\"\n# diff = \"short\"\n";

impl Default for ColorConfig {
    fn default() -> (c: Self)
        ensures
            !c.enabled,
    {
        ColorConfig { enabled: false }
    }
}

impl Default for TimestampConfig {
    fn default() -> (t: Self)
        ensures
            t.format@ == DEFAULT_TIMESTAMP_FORMAT@,
            t.diff == DiffStyle::Short,
    {
        TimestampConfig { format: DEFAULT_TIMESTAMP_FORMAT.to_owned(), diff: DiffStyle::Short }
    }
}

impl Default for Config {
    fn default() -> (c: Self)
        ensures
            c.is_default(),
    {
        Config { color: ColorConfig::default(), timestamp: TimestampConfig::default() }
    }
}

impl Config {
    /// Every setting at its default.
    pub open spec fn is_default(self) -> bool {
        &&& !self.color.enabled
        &&& self.timestamp.format@ == DEFAULT_TIMESTAMP_FORMAT@
        &&& self.timestamp.diff == DiffStyle::Short
    }
}

/// Why a configuration file was refused.
#[derive(Debug, PartialEq, Eq)]
pub enum ConfigError {
    /// `[timestamp].format` holds a directive that strftime does not
    /// know; the template is kept for the message.
    InvalidTimestampFormat(String),
}

/// Checks `[timestamp].format` when the file is loaded, so that a bad
/// directive is reported as a configuration error rather than failing
/// later, when a header is rendered.
pub fn validate_timestamp_format(fmt: &str) -> (res: Result<(), ConfigError>)
    ensures
        res is Ok <==> !strftime_has_error(fmt@),
        res matches Err(ConfigError::InvalidTimestampFormat(f)) ==> f@ == fmt@,
{
    if strftime_items_have_error(fmt) {
        Err(ConfigError::InvalidTimestampFormat(fmt.to_owned()))
    } else {
        Ok(())
    }
}

/// The configuration in effect given what the file decoded to (`None`
/// when there is no file): the defaults when there is none, else the
/// file's settings once its timestamp template has passed the check.
pub fn load(found: Option<Config>) -> (res: Result<Config, ConfigError>)
    ensures
        match found {
            None => res matches Ok(c) && c.is_default(),
            Some(f) => if strftime_has_error(f.timestamp.format@) {
                res matches Err(ConfigError::InvalidTimestampFormat(m)) && m@
                    == f.timestamp.format@
            } else {
                res == Ok::<Config, ConfigError>(f)
            },
        },
{
    match found {
        None => Ok(Config::default()),
        Some(config) => {
            match validate_timestamp_format(config.timestamp.format.as_str()) {
                Ok(()) => Ok(config),
                Err(e) => Err(e),
            }
        },
    }
}

} // verus!
