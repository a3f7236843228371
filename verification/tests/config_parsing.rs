use rust_apps::config::{parse_config, ConfigError};

const SAMPLE: &str = "# Icecast settings\n\
host = radio.example.org\n\
port=8000\n\
mount=/live\n\
password = hackme\n\
\n\
name = Truck Radio\n\
bitrate = 128\n\
folders_truck_e=C:\\music\\truck-e\n\
folders_truck_1=C:\\music\\truck-1\n\
folders_truck_3=C:\\music\\trucks-3\n\
folders_options=C:\\music\\truck-options\n";

#[test]
fn parses_every_key() {
    let cfg = parse_config(SAMPLE).unwrap();
    assert_eq!(cfg.host, "radio.example.org");
    assert_eq!(cfg.port, 8000);
    assert_eq!(cfg.mount, "/live");
    assert_eq!(cfg.password, "hackme");
    assert_eq!(cfg.name, "Truck Radio");
    assert_eq!(cfg.bitrate, 128);
    assert_eq!(cfg.folder_truck_e, "C:\\music\\truck-e");
    assert_eq!(cfg.folder_truck_1, "C:\\music\\truck-1");
    assert_eq!(cfg.folder_truck_3, "C:\\music\\trucks-3");
    assert_eq!(cfg.folder_options, "C:\\music\\truck-options");
}

#[test]
fn last_value_of_a_key_wins() {
    let text = format!("{}host = other.example.org\n", SAMPLE);
    let cfg = parse_config(&text).unwrap();
    assert_eq!(cfg.host, "other.example.org");
}

#[test]
fn windows_line_endings_and_spaces_are_trimmed() {
    let text = SAMPLE.replace('\n', "\r\n").replace("port=8000", "  port \t=  8001  ");
    let cfg = parse_config(&text).unwrap();
    assert_eq!(cfg.port, 8001);
    assert_eq!(cfg.mount, "/live");
    assert_eq!(cfg.folder_options, "C:\\music\\truck-options");
}

#[test]
fn value_keeps_later_equals_signs() {
    let text = SAMPLE.replace("password = hackme", "password = a=b=c");
    let cfg = parse_config(&text).unwrap();
    assert_eq!(cfg.password, "a=b=c");
}

#[test]
fn comment_and_lines_without_equals_are_ignored() {
    let text = SAMPLE.replace("# Icecast settings", "#host = commented.example.org\njust some words");
    let cfg = parse_config(&text).unwrap();
    assert_eq!(cfg.host, "radio.example.org");
}

#[test]
fn missing_key_is_reported_in_field_order() {
    let text = SAMPLE.replace("mount=/live\n", "").replace("name = Truck Radio\n", "");
    match parse_config(&text) {
        Err(ConfigError::MissingKey(k)) => assert_eq!(k, "mount"),
        other => panic!("unexpected: {:?}", other.map(|c| c.host)),
    }
}

#[test]
fn empty_text_misses_host() {
    match parse_config("") {
        Err(ConfigError::MissingKey(k)) => assert_eq!(k, "host"),
        other => panic!("unexpected: {:?}", other.map(|c| c.host)),
    }
}

#[test]
fn port_out_of_range_is_invalid() {
    let text = SAMPLE.replace("port=8000", "port=65536");
    assert!(matches!(parse_config(&text), Err(ConfigError::InvalidPort)));
}

#[test]
fn port_with_sign_or_letters() {
    let plus = SAMPLE.replace("port=8000", "port=+8080");
    assert_eq!(parse_config(&plus).unwrap().port, 8080);
    let minus = SAMPLE.replace("port=8000", "port=-1");
    assert!(matches!(parse_config(&minus), Err(ConfigError::InvalidPort)));
    let letters = SAMPLE.replace("port=8000", "port=80a");
    assert!(matches!(parse_config(&letters), Err(ConfigError::InvalidPort)));
    let empty = SAMPLE.replace("port=8000", "port=");
    assert!(matches!(parse_config(&empty), Err(ConfigError::InvalidPort)));
    let max = SAMPLE.replace("port=8000", "port=65535");
    assert_eq!(parse_config(&max).unwrap().port, 65535);
}

#[test]
fn bitrate_limits() {
    let max = SAMPLE.replace("bitrate = 128", "bitrate = 18446744073709551615");
    assert_eq!(parse_config(&max).unwrap().bitrate, u64::MAX);
    let over = SAMPLE.replace("bitrate = 128", "bitrate = 18446744073709551616");
    assert!(matches!(parse_config(&over), Err(ConfigError::InvalidBitrate)));
}

#[test]
fn invalid_port_comes_before_missing_mount() {
    let text = SAMPLE.replace("port=8000", "port=x").replace("mount=/live\n", "");
    assert!(matches!(parse_config(&text), Err(ConfigError::InvalidPort)));
}

#[test]
fn unicode_white_space_is_trimmed() {
    let text = SAMPLE.replace("name = Truck Radio", "name =\u{3000}Truck Radio\u{a0}");
    assert_eq!(parse_config(&text).unwrap().name, "Truck Radio");
}
