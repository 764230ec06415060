use gbps::monitor::decimal_text;
use gbps::monitor::post_request;
use gbps::monitor::snapshot;
use gbps::Config;
use gbps::ConfigError;
use gbps::MonitoringConfig;

fn config(c: usize, h: usize, s: usize) -> Result<Config, ConfigError> {
    Config::new("127.0.0.1:9000".to_owned(), true, true, 1, 0, c, h, s, None)
}

#[test]
fn config_keeps_its_parameters() {
    let monitoring = MonitoringConfig::new(true, "127.0.0.1:8080");
    let config =
        Config::new("127.0.0.1:9000".to_owned(), true, false, 6, 5, 20, 2, 8, Some(monitoring))
            .unwrap();
    assert_eq!(config.address(), "127.0.0.1:9000");
    assert!(config.is_push());
    assert!(!config.is_pull());
    assert_eq!(config.sampling_period(), 6);
    assert_eq!(config.sampling_deviation(), 5);
    assert_eq!(config.view_size(), 20);
    assert_eq!(config.healing_factor(), 2);
    assert_eq!(config.swapping_factor(), 8);
    assert!(config.monitoring().enabled());
    let copy = config.clone();
    assert_eq!(copy.address(), "127.0.0.1:9000");
    assert_eq!(copy.view_size(), 20);
    assert_eq!(copy.monitoring().host(), "127.0.0.1:8080");
}

#[test]
fn config_without_monitoring_reports_nothing() {
    let config = config(4, 1, 2).unwrap();
    assert!(!config.monitoring().enabled());
    assert_eq!(config.monitoring().host(), "");
    assert_eq!(config.monitoring().context(), "");
}

#[test]
fn view_size_must_be_two_at_least() {
    assert_eq!(config(0, 0, 0).unwrap_err(), ConfigError::InvalidViewSize);
    assert_eq!(config(1, 0, 0).unwrap_err(), ConfigError::InvalidViewSize);
    assert_eq!(config(1, 5, 5).unwrap_err(), ConfigError::InvalidViewSize);
    assert!(config(2, 0, 0).is_ok());
}

#[test]
fn factors_must_fit_the_view_size() {
    assert_eq!(config(4, 3, 2).unwrap_err(), ConfigError::InvalidFactors);
    assert_eq!(config(4, 5, 0).unwrap_err(), ConfigError::InvalidFactors);
    assert_eq!(config(4, 0, 5).unwrap_err(), ConfigError::InvalidFactors);
    assert_eq!(config(4, usize::MAX, usize::MAX).unwrap_err(), ConfigError::InvalidFactors);
    assert!(config(4, 2, 2).is_ok());
    assert!(config(4, 4, 0).is_ok());
    assert!(config(4, 0, 4).is_ok());
}

#[test]
fn period_must_fit_in_milliseconds() {
    let timed = |t: u64, d: u64| Config::new("a:1".to_owned(), true, true, t, d, 4, 1, 2, None);
    let limit = u64::MAX / 1000;
    assert!(timed(limit, 0).is_ok());
    assert!(timed(0, limit).is_ok());
    assert!(timed(limit - 7, 7).is_ok());
    assert_eq!(timed(limit + 1, 0).unwrap_err(), ConfigError::InvalidPeriod);
    assert_eq!(timed(limit, 1).unwrap_err(), ConfigError::InvalidPeriod);
    assert_eq!(timed(u64::MAX, u64::MAX).unwrap_err(), ConfigError::InvalidPeriod);
    assert_eq!(
        Config::new("a:1".to_owned(), true, true, u64::MAX, 0, 4, 3, 2, None).unwrap_err(),
        ConfigError::InvalidFactors
    );
}

#[test]
fn default_monitoring_is_off() {
    let monitoring = MonitoringConfig::default();
    assert!(!monitoring.enabled());
    assert_eq!(monitoring.host(), "");
    assert_eq!(monitoring.context(), "");
}

#[test]
fn url_without_a_path_is_the_host() {
    let monitoring = MonitoringConfig::new(true, "127.0.0.1:8080");
    assert!(monitoring.enabled());
    assert_eq!(monitoring.host(), "127.0.0.1:8080");
    assert_eq!(monitoring.context(), "/");
    let monitoring = MonitoringConfig::new(false, "http://127.0.0.1:8080");
    assert!(!monitoring.enabled());
    assert_eq!(monitoring.host(), "http://127.0.0.1:8080");
    assert_eq!(monitoring.context(), "/");
    let monitoring = MonitoringConfig::new(false, "");
    assert_eq!(monitoring.host(), "");
    assert_eq!(monitoring.context(), "/");
}

#[test]
fn url_without_a_scheme_is_cut_at_the_path() {
    let monitoring = MonitoringConfig::new(true, "127.0.0.1:8080/peers");
    assert_eq!(monitoring.host(), "127.0.0.1:8080");
    assert_eq!(monitoring.context(), "/peers");
    let monitoring = MonitoringConfig::new(true, "/peers/all");
    assert_eq!(monitoring.host(), "");
    assert_eq!(monitoring.context(), "/peers/all");
}

#[test]
fn url_with_a_scheme_is_cut_by_the_length_of_what_follows_it() {
    // 14 bytes stand between the scheme and the path
    let monitoring = MonitoringConfig::new(true, "http://127.0.0.1:8080/peers");
    assert_eq!(monitoring.host(), "http://127.0.0");
    assert_eq!(monitoring.context(), ".1:8080/peers");
    let monitoring = MonitoringConfig::new(true, "a://b/c://d/e");
    assert_eq!(monitoring.host(), "a");
    assert_eq!(monitoring.context(), "://b/c://d/e");
}

#[test]
fn url_is_cut_between_characters_only() {
    assert!(MonitoringConfig::accepts("http://127.0.0.1:8080/peers"));
    assert!(MonitoringConfig::accepts("127.0.0.1:8080"));
    assert!(MonitoringConfig::accepts("x://\u{e9}\u{e9}/"));
    assert!(!MonitoringConfig::accepts("://\u{e9}\u{e9}/"));
    let monitoring = MonitoringConfig::new(true, "x://\u{e9}\u{e9}/");
    assert_eq!(monitoring.host(), "x://");
    assert_eq!(monitoring.context(), "\u{e9}\u{e9}/");
}

#[test]
fn numbers_in_decimal() {
    assert_eq!(decimal_text(0), "0");
    assert_eq!(decimal_text(7), "7");
    assert_eq!(decimal_text(10), "10");
    assert_eq!(decimal_text(1234567890), "1234567890");
    assert_eq!(decimal_text(usize::MAX), usize::MAX.to_string());
}

#[test]
fn snapshot_of_a_view() {
    let peers = vec!["127.0.0.1:9001".to_owned(), "[::1]:9002".to_owned()];
    assert_eq!(
        snapshot("127.0.0.1:9000", &peers),
        "{\"id\":\"127.0.0.1:9000\",\"peers\":[\"127.0.0.1:9001\",\"[::1]:9002\"],\"messages\":[]}"
    );
    assert_eq!(snapshot("a", &vec![]), "{\"id\":\"a\",\"peers\":[],\"messages\":[]}");
    assert_eq!(
        snapshot("a", &vec!["b".to_owned()]),
        "{\"id\":\"a\",\"peers\":[\"b\"],\"messages\":[]}"
    );
}

#[test]
fn request_that_posts_a_snapshot() {
    let json = "{\"id\":\"a\",\"peers\":[],\"messages\":[]}";
    assert_eq!(
        post_request(json),
        "POST /peers HTTP/1.1\r\nHost: 127.0.0.1:8080\r\nAccept: */*\r\n\
         Content-Type: application/json; charset=UTF-8\r\nContent-Length: 35\r\n\
         Connection: close\r\n\r\n{\"id\":\"a\",\"peers\":[],\"messages\":[]}"
    );
    assert!(post_request("\u{e9}").contains("Content-Length: 2\r\n"));
}
