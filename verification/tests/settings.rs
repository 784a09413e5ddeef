use helios::config::Config;

#[test]
fn defaults_match_the_documented_values() {
    let config = Config::default();
    assert_eq!(config.max_connections, 10);
    assert_eq!(config.max_header_len, 8 * 1024);
    assert_eq!(config.max_body_len, 1024 * 1024);
    assert_eq!(config.max_timeout, 5);
    assert_eq!(config.ip, "127.0.0.1");
    assert_eq!(config.port_http, 1337);
    assert_eq!(config.port_https, 31337);
    assert!(config.https_enabled);
    assert_eq!(config.server_root, "/var/www");
}

#[test]
fn lines_replace_the_named_settings() {
    let mut config = Config::default();
    assert!(config.apply_line("max_connections=32").is_ok());
    assert!(config.apply_line("max_header_len=1024").is_ok());
    assert!(config.apply_line("max_body_len=2048").is_ok());
    assert!(config.apply_line("max_timeout=9").is_ok());
    assert!(config.apply_line("ip=0.0.0.0").is_ok());
    assert!(config.apply_line("port_http=8080").is_ok());
    assert!(config.apply_line("port_https=8443").is_ok());
    assert!(config.apply_line("https_enabled=false").is_ok());
    assert!(config.apply_line("server_root=/srv/site").is_ok());

    assert_eq!(config.max_connections, 32);
    assert_eq!(config.max_header_len, 1024);
    assert_eq!(config.max_body_len, 2048);
    assert_eq!(config.max_timeout, 9);
    assert_eq!(config.ip, "0.0.0.0");
    assert_eq!(config.port_http, 8080);
    assert_eq!(config.port_https, 8443);
    assert!(!config.https_enabled);
    assert_eq!(config.server_root, "/srv/site");
}

#[test]
fn unknown_names_and_plain_lines_change_nothing() {
    let mut config = Config::default();
    assert!(config.apply_line("# a comment").is_ok());
    assert!(config.apply_line("").is_ok());
    assert!(config.apply_line("color=green").is_ok());
    assert_eq!(config.max_connections, 10);
    assert_eq!(config.ip, "127.0.0.1");
}

#[test]
fn bad_values_are_errors() {
    let mut config = Config::default();
    assert!(config.apply_line("max_connections=many").is_err());
    assert!(config.apply_line("port_http=99999").is_err());
    assert!(config.apply_line("https_enabled=yes").is_err());
    // the failed line left the settings untouched
    assert_eq!(config.max_connections, 10);
    assert_eq!(config.port_http, 1337);
    assert!(config.https_enabled);
}
