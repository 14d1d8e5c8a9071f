//! Configuration.
use gamestore::common::config::{Config, Overrides};
use gamestore::common::Error;

fn no_overrides() -> Overrides {
    Overrides {
        server_bind: None,
        server_port: None,
        data_dir: None,
        level: None,
        slow_log_threshold_ms: None,
        metrics_enabled: None,
        metrics_bind: None,
        metrics_port: None,
    }
}

#[test]
fn defaults_are_sane() {
    let cfg = Config::default();
    assert_eq!(cfg.server.bind, "127.0.0.1");
    assert_eq!(cfg.server.port, 6380);
    assert_eq!(cfg.server.addr(), "127.0.0.1:6380");
    assert_eq!(cfg.storage.data_dir, "./data");
    assert_eq!(cfg.logging.level, "info");
    assert_eq!(cfg.logging.slow_log_threshold_ms, 10);
    assert!(cfg.metrics.enabled);
    assert_eq!(cfg.metrics.addr(), "127.0.0.1:9600");
}

#[test]
fn the_environment_wins_over_the_file() {
    let mut file = Config::default();
    file.server.port = 7000;
    file.metrics.enabled = true;
    let mut env = no_overrides();
    env.server_port = Some("+7001".to_string());
    env.data_dir = Some("/srv/data".to_string());
    env.metrics_enabled = Some("false".to_string());
    env.slow_log_threshold_ms = Some("18446744073709551615".to_string());
    let cfg = Config::load(Some(file), &env);
    assert_eq!(cfg.server.port, 7001);
    assert_eq!(cfg.storage.data_dir, "/srv/data");
    assert!(!cfg.metrics.enabled);
    assert_eq!(cfg.logging.slow_log_threshold_ms, u64::MAX);
    assert_eq!(cfg.server.bind, "127.0.0.1");
}

#[test]
fn what_cannot_be_read_is_passed_over() {
    let mut env = no_overrides();
    env.server_bind = Some(String::new());
    env.server_port = Some("65536".to_string());
    env.metrics_port = Some("-1".to_string());
    env.metrics_enabled = Some("yes".to_string());
    env.level = Some("debug".to_string());
    env.metrics_bind = Some("0.0.0.0".to_string());
    let cfg = Config::load(None, &env);
    assert_eq!(cfg.server.bind, "127.0.0.1");
    assert_eq!(cfg.server.port, 6380);
    assert_eq!(cfg.metrics.port, 9600);
    assert!(cfg.metrics.enabled);
    assert_eq!(cfg.logging.level, "debug");
    assert_eq!(cfg.metrics.addr(), "0.0.0.0:9600");
}

#[test]
fn errors_say_what_they_are_about() {
    assert_eq!(Error::config("x").message(), "configuration error: x");
    assert_eq!(Error::other("x").message(), "x");
    assert_eq!(Error::Io("x".into()).message(), "i/o error: x");
    assert_eq!(Error::Protocol("x".into()).message(), "protocol error: x");
    assert_eq!(Error::Engine("x".into()).message(), "engine error: x");
    assert_eq!(
        Error::Observability("x".into()).message(),
        "observability error: x"
    );
}
