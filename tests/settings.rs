use decay_server::bitrate::{AudioProcessor, MAX_BITRATE, MIN_BITRATE};
use decay_server::config::{flag_is_true, parse_port, Config, DEFAULT_PORT, DEFAULT_TLS_PORT};

fn some(s: &str) -> Option<String> {
    Some(s.to_string())
}

#[test]
fn config_defaults() {
    let c = Config::from_vars(None, None, None, None, None, None);
    assert_eq!(c.host, "0.0.0.0");
    assert_eq!(c.port, 3030);
    assert_eq!(c.port, DEFAULT_PORT);
    assert!(!c.tls_enabled);
    assert_eq!(c.tls_port, 3443);
    assert_eq!(c.tls_port, DEFAULT_TLS_PORT);
    assert_eq!(c.cert_path, None);
    assert_eq!(c.key_path, None);
}

#[test]
fn config_reads_values() {
    let c = Config::from_vars(
        some("127.0.0.1"),
        some("8080"),
        some("TRUE"),
        some("+8443"),
        some("certs/cert.pem"),
        some("certs/key.pem"),
    );
    assert_eq!(c.host, "127.0.0.1");
    assert_eq!(c.port, 8080);
    assert!(c.tls_enabled);
    assert_eq!(c.tls_port, 8443);
    assert_eq!(c.cert_path.as_deref(), Some("certs/cert.pem"));
    assert_eq!(c.key_path.as_deref(), Some("certs/key.pem"));
}

#[test]
fn config_falls_back_on_bad_ports() {
    let c = Config::from_vars(None, some("70000"), some("yes"), some("-1"), None, None);
    assert_eq!(c.port, 3030);
    assert_eq!(c.tls_port, 3443);
    assert!(!c.tls_enabled);
    let c = Config::from_vars(None, some(""), some("True"), some("80a"), None, None);
    assert_eq!(c.port, 3030);
    assert_eq!(c.tls_port, 3443);
    assert!(c.tls_enabled);
}

#[test]
fn port_parsing_matches_std() {
    for s in ["0", "1", "65535", "65536", "+", "+0", "007", "", " 80", "80 ", "-0", "99999999999999999999999", "+65535", "++1", "٣"] {
        assert_eq!(parse_port(s), s.parse::<u16>().ok(), "input {:?}", s);
    }
}

#[test]
fn flag_reads_only_true() {
    assert!(flag_is_true(&"true".to_string()));
    assert!(!flag_is_true(&"TRUE".to_string()));
    assert!(!flag_is_true(&"true ".to_string()));
    assert!(!flag_is_true(&"1".to_string()));
}

#[test]
fn bitrate_is_clamped() {
    let mut p = AudioProcessor::new();
    assert_eq!(p.current_bitrate(), MAX_BITRATE);
    assert_eq!(p.adjust_bitrate(64000), 64000);
    assert_eq!(p.current_bitrate(), 64000);
    assert_eq!(p.adjust_bitrate(10), MIN_BITRATE);
    assert_eq!(p.adjust_bitrate(u32::MAX), 128000);
    assert_eq!(p.adjust_bitrate(1000), 1000);
}
