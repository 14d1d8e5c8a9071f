//! Configuration: defaults, and what the environment puts in their place.
//!
//! Reading a file and the environment is left to the caller, which hands over what it found.
use vstd::prelude::*;
use vstd::utf8::encode_utf8;

use crate::text::{decimal_text, join3, read_uint, same_text, u64_text, uint_value};

verus! {

/// The configuration of a node.
#[derive(Debug, Clone)]
pub struct Config {
    /// The listener.
    pub server: ServerConfig,
    /// The storage engine.
    pub storage: StorageConfig,
    /// Logging.
    pub logging: LoggingConfig,
    /// Metrics.
    pub metrics: MetricsConfig,
}

/// The listener.
#[derive(Debug, Clone)]
pub struct ServerConfig {
    /// The address to listen at.
    pub bind: String,
    /// The port to listen at.
    pub port: u16,
}

/// The storage engine.
#[derive(Debug, Clone)]
pub struct StorageConfig {
    /// The directory that holds the data. It is made at the start where it is missing.
    pub data_dir: String,
}

/// Logging.
#[derive(Debug, Clone)]
pub struct LoggingConfig {
    /// What is logged (`info`, `gamestore=debug`).
    pub level: String,
    /// Commands that take at least this many milliseconds go to the slow log: with zero all of
    /// them do.
    pub slow_log_threshold_ms: u64,
}

/// Metrics.
#[derive(Debug, Clone)]
pub struct MetricsConfig {
    /// Whether metrics are recorded and served.
    pub enabled: bool,
    /// The address to serve them at.
    pub bind: String,
    /// The port to serve them at.
    pub port: u16,
}

/// A [`Config`] with its texts as characters.
#[verifier::ext_equal]
pub struct ConfigView {
    pub server_bind: Seq<char>,
    pub server_port: u16,
    pub data_dir: Seq<char>,
    pub level: Seq<char>,
    pub slow_log_threshold_ms: u64,
    pub metrics_enabled: bool,
    pub metrics_bind: Seq<char>,
    pub metrics_port: u16,
}

impl View for Config {
    type V = ConfigView;

    open spec fn view(&self) -> ConfigView {
        ConfigView {
            server_bind: self.server.bind@,
            server_port: self.server.port,
            data_dir: self.storage.data_dir@,
            level: self.logging.level@,
            slow_log_threshold_ms: self.logging.slow_log_threshold_ms,
            metrics_enabled: self.metrics.enabled,
            metrics_bind: self.metrics.bind@,
            metrics_port: self.metrics.port,
        }
    }
}

/// The configuration where nothing else is said.
pub open spec fn default_config() -> ConfigView {
    ConfigView {
        server_bind: "127.0.0.1"@,
        server_port: 6380,
        data_dir: "./data"@,
        level: "info"@,
        slow_log_threshold_ms: 10,
        metrics_enabled: true,
        metrics_bind: "127.0.0.1"@,
        metrics_port: 9600,
    }
}

impl Default for ServerConfig {
    fn default() -> (r: Self)
        ensures
            r.bind@ == default_config().server_bind,
            r.port == default_config().server_port,
    {
        ServerConfig { bind: "127.0.0.1".to_owned(), port: 6380 }
    }
}

impl Default for StorageConfig {
    fn default() -> (r: Self)
        ensures
            r.data_dir@ == default_config().data_dir,
    {
        StorageConfig { data_dir: "./data".to_owned() }
    }
}

impl Default for LoggingConfig {
    fn default() -> (r: Self)
        ensures
            r.level@ == default_config().level,
            r.slow_log_threshold_ms == default_config().slow_log_threshold_ms,
    {
        LoggingConfig { level: "info".to_owned(), slow_log_threshold_ms: 10 }
    }
}

impl Default for MetricsConfig {
    fn default() -> (r: Self)
        ensures
            r.enabled == default_config().metrics_enabled,
            r.bind@ == default_config().metrics_bind,
            r.port == default_config().metrics_port,
    {
        MetricsConfig { enabled: true, bind: "127.0.0.1".to_owned(), port: 9600 }
    }
}

impl Default for Config {
    fn default() -> (r: Self)
        ensures
            r@ == default_config(),
    {
        Config {
            server: ServerConfig::default(),
            storage: StorageConfig::default(),
            logging: LoggingConfig::default(),
            metrics: MetricsConfig::default(),
        }
    }
}

/// An address and a port, as a listener takes them.
pub open spec fn address(bind: Seq<char>, port: u16) -> Seq<char> {
    bind + ":"@ + decimal_text(port as int)
}

/// An address and a port, as a listener takes them.
fn bind_and_port(bind: &str, port: u16) -> (r: String)
    ensures
        r@ == address(bind@, port),
{
    let number = u64_text(port as u64);
    join3(bind, ":", &number)
}

impl ServerConfig {
    /// The address and the port.
    pub fn addr(&self) -> (r: String)
        ensures
            r@ == address(self.bind@, self.port),
    {
        bind_and_port(&self.bind, self.port)
    }
}

impl MetricsConfig {
    /// The address and the port.
    pub fn addr(&self) -> (r: String)
        ensures
            r@ == address(self.bind@, self.port),
    {
        bind_and_port(&self.bind, self.port)
    }
}

/// What the environment says, each under the name of its variable behind the common prefix.
/// A variable that is set to nothing says nothing.
#[derive(Debug, Clone)]
pub struct Overrides {
    /// `SERVER__BIND`.
    pub server_bind: Option<String>,
    /// `SERVER__PORT`.
    pub server_port: Option<String>,
    /// `STORAGE__DATA_DIR`.
    pub data_dir: Option<String>,
    /// `LOGGING__LEVEL`.
    pub level: Option<String>,
    /// `LOGGING__SLOW_LOG_THRESHOLD_MS`.
    pub slow_log_threshold_ms: Option<String>,
    /// `METRICS__ENABLED`.
    pub metrics_enabled: Option<String>,
    /// `METRICS__BIND`.
    pub metrics_bind: Option<String>,
    /// `METRICS__PORT`.
    pub metrics_port: Option<String>,
}

/// The prefix of the names of the variables.
pub const ENV_PREFIX: &'static str = "GAMESTORE_";

/// What a variable says, and what holds where it says nothing.
pub open spec fn text_or(said: Option<String>, other: Seq<char>) -> Seq<char> {
    match said {
        Some(text) => if text@.len() > 0 {
            text@
        } else {
            other
        },
        None => other,
    }
}

/// The number that a variable says, and what holds where it says none that is at most `max`.
pub open spec fn number_or(said: Option<String>, max: u64, other: u64) -> u64 {
    match said {
        Some(text) => match uint_value(encode_utf8(text@), max) {
            Some(n) => n,
            None => other,
        },
        None => other,
    }
}

/// Whether a variable says yes or no, and what holds where it says neither.
pub open spec fn flag_or(said: Option<String>, other: bool) -> bool {
    match said {
        Some(text) => if text@ == "true"@ {
            true
        } else if text@ == "false"@ {
            false
        } else {
            other
        },
        None => other,
    }
}

/// A configuration with what the environment says in place of what it said. What cannot be read as
/// the number or the flag that it should be is passed over.
pub open spec fn overridden(c: ConfigView, env: Overrides) -> ConfigView {
    ConfigView {
        server_bind: text_or(env.server_bind, c.server_bind),
        server_port: number_or(env.server_port, u16::MAX as u64, c.server_port as u64) as u16,
        data_dir: text_or(env.data_dir, c.data_dir),
        level: text_or(env.level, c.level),
        slow_log_threshold_ms: number_or(
            env.slow_log_threshold_ms,
            u64::MAX,
            c.slow_log_threshold_ms,
        ),
        metrics_enabled: flag_or(env.metrics_enabled, c.metrics_enabled),
        metrics_bind: text_or(env.metrics_bind, c.metrics_bind),
        metrics_port: number_or(env.metrics_port, u16::MAX as u64, c.metrics_port as u64) as u16,
    }
}

/// What a variable says, and what holds where it says nothing.
fn choose_text(said: &Option<String>, other: &String) -> (r: String)
    ensures
        r@ == text_or(*said, other@),
{
    match said {
        Some(text) => {
            let empty = same_text(text, "");
            proof {
                reveal_strlit("");
                assert(empty ==> text@.len() == 0);
                assert(text@.len() == 0 ==> text@ =~= ""@);
            }
            if empty {
                other.clone()
            } else {
                text.clone()
            }
        },
        None => other.clone(),
    }
}

/// The number that a variable says, and what holds where it says none that is at most `max`.
fn choose_number(said: &Option<String>, max: u64, other: u64) -> (r: u64)
    ensures
        r == number_or(*said, max, other),
        other <= max ==> r <= max,
{
    match said {
        Some(text) => match read_uint(text.as_str().as_bytes(), max) {
            Some(n) => n,
            None => other,
        },
        None => other,
    }
}

/// Whether a variable says yes or no, and what holds where it says neither.
fn choose_flag(said: &Option<String>, other: bool) -> (r: bool)
    ensures
        r == flag_or(*said, other),
{
    match said {
        Some(text) => if same_text(text, "true") {
            true
        } else if same_text(text, "false") {
            false
        } else {
            other
        },
        None => other,
    }
}

impl Config {
    /// The configuration: what the file says, where there is one, and else the defaults; and on
    /// top of that what the environment says.
    pub fn load(file: Option<Config>, env: &Overrides) -> (r: Config)
        ensures
            r@ == overridden(
                match file {
                    Some(c) => c@,
                    None => default_config(),
                },
                *env,
            ),
    {
        let mut c = match file {
            Some(c) => c,
            None => Config::default(),
        };
        c.apply_env_overrides(env);
        c
    }

    /// Puts what the environment says in place of what the configuration said.
    pub fn apply_env_overrides(&mut self, env: &Overrides)
        ensures
            final(self)@ == overridden(old(self)@, *env),
    {
        self.server.bind = choose_text(&env.server_bind, &self.server.bind);
        self.server.port = choose_number(
            &env.server_port,
            u16::MAX as u64,
            self.server.port as u64,
        ) as u16;
        self.storage.data_dir = choose_text(&env.data_dir, &self.storage.data_dir);
        self.logging.level = choose_text(&env.level, &self.logging.level);
        self.logging.slow_log_threshold_ms = choose_number(
            &env.slow_log_threshold_ms,
            u64::MAX,
            self.logging.slow_log_threshold_ms,
        );
        self.metrics.enabled = choose_flag(&env.metrics_enabled, self.metrics.enabled);
        self.metrics.bind = choose_text(&env.metrics_bind, &self.metrics.bind);
        self.metrics.port = choose_number(
            &env.metrics_port,
            u16::MAX as u64,
            self.metrics.port as u64,
        ) as u16;
    }
}

} // verus!
